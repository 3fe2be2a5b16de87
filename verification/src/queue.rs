//! The work queue: a deduplicating, delayable queue of object keys.
//!
//! The queue keeps two tables. `pending` holds the live entries, oldest
//! first, at most one per key. `records` holds, for each key that is in
//! flight or has failed, whether it is in flight, whether it was re-added
//! meanwhile, and how often it has failed in a row. The queue owns no clock:
//! the caller passes the current time to every operation that needs it.

use vstd::prelude::*;
use crate::key::{KeyView, ObjectKey};
use crate::queue_model::{
    distinct_keys, holds, lemma_entry_removed, lemma_merged, lemma_position, merged, EntryView,
    ItemView, PollView, QueueView,
};

verus! {

/// A key handed to a worker, with the time from which it was due and the
/// number of consecutive failures recorded for it.
#[derive(Debug, PartialEq, Eq)]
pub struct QueueItem {
    pub key: ObjectKey,
    pub not_before: u64,
    pub attempt: u64,
}

impl View for QueueItem {
    type V = ItemView;

    open spec fn view(&self) -> ItemView {
        ItemView {
            key: self.key@,
            not_before: self.not_before as nat,
            attempt: self.attempt as nat,
        }
    }
}

/// Answer of [`WorkQueue::get`].
#[derive(Debug, PartialEq, Eq)]
pub enum Polled {
    /// The key to reconcile next; it is now in flight.
    Ready(QueueItem),
    /// Nothing is due. Holds the time at which the earliest entry falls due
    /// whose key is not in flight, or `None` if there is no such entry.
    Idle(Option<u64>),
    /// The queue is closed and empty: the worker should exit.
    Shutdown,
}

impl View for Polled {
    type V = PollView;

    open spec fn view(&self) -> PollView {
        match self {
            Polled::Ready(item) => PollView::Ready(item@),
            Polled::Idle(Some(at)) => PollView::Idle(Some(*at as nat)),
            Polled::Idle(None) => PollView::Idle(None),
            Polled::Shutdown => PollView::Shutdown,
        }
    }
}

struct Slot {
    key: ObjectKey,
    not_before: u64,
}

struct Record {
    key: ObjectKey,
    in_flight: bool,
    dirty: bool,
    attempt: u64,
}

/// What the record table says of one key.
struct KeyState {
    in_flight: bool,
    dirty: bool,
    attempt: nat,
}

spec fn entries(slots: Seq<Slot>) -> Seq<EntryView> {
    slots.map_values(|s: Slot| EntryView { key: s.key@, not_before: s.not_before as nat })
}

spec fn table_ok(records: Seq<Record>) -> bool {
    &&& forall|i: int, j: int|
        0 <= i < j < records.len() ==> (#[trigger] records[i]).key@ != (#[trigger] records[j]).key@
    &&& forall|i: int|
        0 <= i < records.len() ==> ((#[trigger] records[i]).dirty ==> records[i].in_flight)
}

spec fn known(records: Seq<Record>, key: KeyView) -> bool {
    exists|i: int| 0 <= i < records.len() && (#[trigger] records[i]).key@ == key
}

spec fn record_index(records: Seq<Record>, key: KeyView) -> int {
    choose|i: int| 0 <= i < records.len() && (#[trigger] records[i]).key@ == key
}

spec fn summary(record: Record) -> KeyState {
    KeyState { in_flight: record.in_flight, dirty: record.dirty, attempt: record.attempt as nat }
}

spec fn idle() -> KeyState {
    KeyState { in_flight: false, dirty: false, attempt: 0 }
}

/// The state of `key`: that of its record, or idle where it has none.
spec fn state(records: Seq<Record>, key: KeyView) -> KeyState {
    if known(records, key) {
        summary(records[record_index(records, key)])
    } else {
        idle()
    }
}

spec fn in_flight_set(records: Seq<Record>) -> Set<KeyView> {
    Set::new(|k: KeyView| state(records, k).in_flight)
}

spec fn dirty_set(records: Seq<Record>) -> Set<KeyView> {
    Set::new(|k: KeyView| state(records, k).dirty)
}

spec fn attempt_map(records: Seq<Record>) -> Map<KeyView, nat> {
    Map::new(|k: KeyView| state(records, k).attempt > 0, |k: KeyView| state(records, k).attempt)
}

proof fn lemma_record_at(records: Seq<Record>, i: int)
    requires
        table_ok(records),
        0 <= i < records.len(),
    ensures
        known(records, records[i].key@),
        record_index(records, records[i].key@) == i,
        state(records, records[i].key@) == summary(records[i]),
{
    let j = record_index(records, records[i].key@);
    assert(0 <= j < records.len() && records[j].key@ == records[i].key@);
    if j < i {
        assert(records[j].key@ != records[i].key@);
    } else if i < j {
        assert(records[i].key@ != records[j].key@);
    }
}

proof fn lemma_record_dirty(records: Seq<Record>, key: KeyView)
    requires
        table_ok(records),
    ensures
        state(records, key).dirty ==> state(records, key).in_flight,
{
    if known(records, key) {
        let i = record_index(records, key);
        assert(records[i].dirty ==> records[i].in_flight);
    }
}

/// The table after the state of one key has been replaced says of that key
/// what was written and of every other key what it said before.
spec fn rewritten(before: Seq<Record>, after: Seq<Record>, key: KeyView, now: KeyState) -> bool {
    &&& table_ok(after)
    &&& forall|k: KeyView|
        #[trigger] state(after, k) == (if k == key {
            now
        } else {
            state(before, k)
        })
}

proof fn lemma_record_updated(before: Seq<Record>, after: Seq<Record>, i: int)
    requires
        table_ok(before),
        0 <= i < before.len(),
        after.len() == before.len(),
        after[i].key@ == before[i].key@,
        after[i].dirty ==> after[i].in_flight,
        forall|j: int| 0 <= j < before.len() && j != i ==> #[trigger] after[j] == before[j],
    ensures
        rewritten(before, after, before[i].key@, summary(after[i])),
{
    assert(forall|j: int| 0 <= j < before.len() ==> (#[trigger] after[j]).key@ == before[j].key@);
    assert(table_ok(after)) by {
        assert forall|a: int, b: int| 0 <= a < b < after.len() implies (#[trigger] after[a]).key@
            != (#[trigger] after[b]).key@ by {
            assert(before[a].key@ != before[b].key@);
        }
    }
    assert forall|k: KeyView| #[trigger]
        state(after, k) == (if k == before[i].key@ {
            summary(after[i])
        } else {
            state(before, k)
        }) by {
        if k == before[i].key@ {
            lemma_record_at(after, i);
        } else if known(before, k) {
            let j = record_index(before, k);
            assert(after[j].key@ == k);
            lemma_record_at(after, j);
        } else if known(after, k) {
            let j = record_index(after, k);
            assert(before[j].key@ == k);
        }
    }
}

proof fn lemma_record_pushed(before: Seq<Record>, record: Record)
    requires
        table_ok(before),
        !known(before, record.key@),
        record.dirty ==> record.in_flight,
    ensures
        rewritten(before, before.push(record), record.key@, summary(record)),
{
    let after = before.push(record);
    let n = before.len() as int;
    assert(forall|j: int| 0 <= j < n ==> (#[trigger] after[j]) == before[j]);
    assert(after[n] == record);
    assert(table_ok(after)) by {
        assert forall|a: int, b: int| 0 <= a < b < after.len() implies (#[trigger] after[a]).key@
            != (#[trigger] after[b]).key@ by {
            if b < n {
                assert(before[a].key@ != before[b].key@);
            } else {
                assert(before[a].key@ != record.key@);
            }
        }
    }
    assert forall|k: KeyView| #[trigger]
        state(after, k) == (if k == record.key@ {
            summary(record)
        } else {
            state(before, k)
        }) by {
        if k == record.key@ {
            lemma_record_at(after, n);
        } else if known(before, k) {
            let j = record_index(before, k);
            assert(after[j].key@ == k);
            lemma_record_at(after, j);
        } else if known(after, k) {
            let j = record_index(after, k);
            assert(j < n);
            assert(before[j].key@ == k);
        }
    }
}

proof fn lemma_record_removed(before: Seq<Record>, i: int)
    requires
        table_ok(before),
        0 <= i < before.len(),
    ensures
        rewritten(before, before.remove(i), before[i].key@, idle()),
{
    let after = before.remove(i);
    assert(forall|j: int| 0 <= j < i ==> (#[trigger] after[j]) == before[j]);
    assert(forall|j: int| i <= j < after.len() ==> (#[trigger] after[j]) == before[j + 1]);
    assert(table_ok(after)) by {
        assert forall|a: int, b: int| 0 <= a < b < after.len() implies (#[trigger] after[a]).key@
            != (#[trigger] after[b]).key@ by {
            let a0 = if a < i { a } else { a + 1 };
            let b0 = if b < i { b } else { b + 1 };
            assert(before[a0].key@ != before[b0].key@);
        }
        assert forall|a: int|
            0 <= a < after.len() && (#[trigger] after[a]).dirty implies after[a].in_flight by {
            let a0 = if a < i { a } else { a + 1 };
            assert(before[a0].dirty ==> before[a0].in_flight);
        }
    }
    assert forall|k: KeyView| #[trigger]
        state(after, k) == (if k == before[i].key@ {
            idle()
        } else {
            state(before, k)
        }) by {
        if k == before[i].key@ {
            if known(after, k) {
                let j = record_index(after, k);
                let j0 = if j < i { j } else { j + 1 };
                assert(before[j0].key@ == k);
                if j0 < i {
                    assert(before[j0].key@ != before[i].key@);
                } else {
                    assert(before[i].key@ != before[j0].key@);
                }
            }
        } else if known(before, k) {
            let j0 = record_index(before, k);
            let j = if j0 < i { j0 } else { j0 - 1 };
            assert(after[j].key@ == k);
            lemma_record_at(after, j);
            lemma_record_at(before, j0);
        } else if known(after, k) {
            let j = record_index(after, k);
            let j0 = if j < i { j } else { j + 1 };
            assert(before[j0].key@ == k);
        }
    }
}

fn find_record(records: &Vec<Record>, key: &ObjectKey) -> (found: Option<usize>)
    ensures
        match found {
            Some(i) => i < records.len() && records[i as int].key@ == key@,
            None => !known(records@, key@),
        },
{
    let mut i: usize = 0;
    while i < records.len()
        invariant
            i <= records.len(),
            forall|j: int| 0 <= j < i ==> (#[trigger] records[j]).key@ != key@,
        decreases records.len() - i,
    {
        if records[i].key == *key {
            return Some(i);
        }
        i += 1;
    }
    None
}

/// Reads what the table says of `key`.
fn read_state(records: &Vec<Record>, key: &ObjectKey) -> (s: (bool, bool, u64))
    requires
        table_ok(records@),
    ensures
        state(records@, key@) == (KeyState { in_flight: s.0, dirty: s.1, attempt: s.2 as nat }),
{
    match find_record(records, key) {
        Some(i) => {
            proof {
                lemma_record_at(records@, i as int);
            }
            (records[i].in_flight, records[i].dirty, records[i].attempt)
        },
        None => (false, false, 0),
    }
}

/// Replaces what the table says of `key`. An idle key keeps no record.
fn write_state(
    records: &mut Vec<Record>,
    key: &ObjectKey,
    in_flight: bool,
    dirty: bool,
    attempt: u64,
)
    requires
        table_ok(old(records)@),
        dirty ==> in_flight,
    ensures
        rewritten(
            old(records)@,
            final(records)@,
            key@,
            KeyState { in_flight, dirty, attempt: attempt as nat },
        ),
{
    let found = find_record(records, key);
    let keep = in_flight || attempt > 0;
    match found {
        Some(i) => {
            if keep {
                let ghost before = records@;
                let record = &mut records[i];
                record.in_flight = in_flight;
                record.dirty = dirty;
                record.attempt = attempt;
                proof {
                    lemma_record_updated(before, records@, i as int);
                }
            } else {
                proof {
                    lemma_record_removed(records@, i as int);
                }
                records.remove(i);
            }
        },
        None => {
            if keep {
                let record = Record { key: key.clone(), in_flight, dirty, attempt };
                proof {
                    lemma_record_pushed(records@, record);
                }
                records.push(record);
            }
        },
    }
}

fn find_slot(pending: &Vec<Slot>, key: &ObjectKey) -> (found: Option<usize>)
    ensures
        match found {
            Some(i) => i < pending.len() && pending[i as int].key@ == key@,
            None => !holds(entries(pending@), key@),
        },
{
    let mut i: usize = 0;
    while i < pending.len()
        invariant
            i <= pending.len(),
            forall|j: int| 0 <= j < i ==> (#[trigger] entries(pending@)[j]).key != key@,
        decreases pending.len() - i,
    {
        if pending[i].key == *key {
            return Some(i);
        }
        i += 1;
    }
    None
}

/// Gives `key` an entry due at `at`, or moves the one it has to `at` if
/// that is earlier.
fn merge(pending: &mut Vec<Slot>, key: &ObjectKey, at: u64)
    requires
        distinct_keys(entries(old(pending)@)),
    ensures
        distinct_keys(entries(final(pending)@)),
        entries(final(pending)@) == merged(entries(old(pending)@), key@, at as nat),
{
    let ghost before = entries(pending@);
    proof {
        lemma_merged(before, key@, at as nat);
    }
    match find_slot(pending, key) {
        Some(i) => {
            proof {
                lemma_position(before, i as int);
            }
            if at < pending[i].not_before {
                pending[i].not_before = at;
            }
            assert(entries(pending@) =~= merged(before, key@, at as nat));
        },
        None => {
            pending.push(Slot { key: key.clone(), not_before: at });
            assert(entries(pending@) =~= merged(before, key@, at as nat));
        },
    }
}

/// The queue value that the two tables and the flag stand for.
spec fn model(pending: Seq<Slot>, records: Seq<Record>, closed: bool) -> QueueView {
    QueueView {
        pending: entries(pending),
        in_flight: in_flight_set(records),
        dirty: dirty_set(records),
        attempts: attempt_map(records),
        closed,
    }
}

proof fn lemma_model_wf(pending: Seq<Slot>, records: Seq<Record>, closed: bool)
    requires
        distinct_keys(entries(pending)),
        table_ok(records),
    ensures
        model(pending, records, closed).wf(),
{
    assert forall|k: KeyView| state(records, k).dirty implies state(records, k).in_flight by {
        lemma_record_dirty(records, k);
    }
}

/// A table in which the state of one key was replaced stands for the
/// same sets and map with that key's membership replaced.
proof fn lemma_rewritten(before: Seq<Record>, after: Seq<Record>, key: KeyView, now: KeyState)
    requires
        rewritten(before, after, key, now),
    ensures
        in_flight_set(after) == (if now.in_flight {
            in_flight_set(before).insert(key)
        } else {
            in_flight_set(before).remove(key)
        }),
        dirty_set(after) == (if now.dirty {
            dirty_set(before).insert(key)
        } else {
            dirty_set(before).remove(key)
        }),
        attempt_map(after) == (if now.attempt > 0 {
            attempt_map(before).insert(key, now.attempt)
        } else {
            attempt_map(before).remove(key)
        }),
{
    assert(forall|k: KeyView| in_flight_set(after).contains(k) == state(after, k).in_flight);
    assert(forall|k: KeyView| dirty_set(after).contains(k) == state(after, k).dirty);
    assert(forall|k: KeyView|
        attempt_map(after).dom().contains(k) == (state(after, k).attempt > 0));
    if now.in_flight {
        assert(in_flight_set(after) =~= in_flight_set(before).insert(key));
    } else {
        assert(in_flight_set(after) =~= in_flight_set(before).remove(key));
    }
    if now.dirty {
        assert(dirty_set(after) =~= dirty_set(before).insert(key));
    } else {
        assert(dirty_set(after) =~= dirty_set(before).remove(key));
    }
    if now.attempt > 0 {
        assert(attempt_map(after) =~= attempt_map(before).insert(key, now.attempt));
    } else {
        assert(attempt_map(after) =~= attempt_map(before).remove(key));
    }
}

/// A deduplicating, delayable queue of object keys.
///
/// At most one live entry exists per key, and a key that has been handed out
/// by [`get`](WorkQueue::get) is not handed out again before
/// [`done`](WorkQueue::done) has been called for it.
pub struct WorkQueue {
    pending: Vec<Slot>,
    records: Vec<Record>,
    closed: bool,
}

impl View for WorkQueue {
    type V = QueueView;

    closed spec fn view(&self) -> QueueView {
        model(self.pending@, self.records@, self.closed)
    }
}

impl WorkQueue {
    #[verifier::type_invariant]
    spec fn inv(self) -> bool {
        distinct_keys(entries(self.pending@)) && table_ok(self.records@)
    }

    /// An open queue that holds nothing.
    pub fn new() -> (queue: WorkQueue)
        ensures
            queue@ == QueueView::empty(),
            queue@.wf(),
    {
        let queue = WorkQueue { pending: Vec::new(), records: Vec::new(), closed: false };
        assert(queue@.pending =~= Seq::<EntryView>::empty());
        assert(queue@.in_flight =~= Set::<KeyView>::empty());
        assert(queue@.dirty =~= Set::<KeyView>::empty());
        assert(queue@.attempts =~= Map::<KeyView, nat>::empty());
        queue
    }

    /// Replaces the recorded state of `key`.
    fn record(&mut self, key: &ObjectKey, in_flight: bool, dirty: bool, attempt: u64)
        requires
            dirty ==> in_flight,
        ensures
            final(self).pending == old(self).pending,
            final(self).closed == old(self).closed,
            rewritten(
                old(self).records@,
                final(self).records@,
                key@,
                KeyState { in_flight, dirty, attempt: attempt as nat },
            ),
    {
        proof {
            use_type_invariant(&*self);
        }
        let mut records = Vec::new();
        std::mem::swap(&mut records, &mut self.records);
        write_state(&mut records, key, in_flight, dirty, attempt);
        self.records = records;
    }

    /// Gives `key` an entry due no later than `at`.
    fn enqueue(&mut self, key: &ObjectKey, at: u64)
        ensures
            final(self).records == old(self).records,
            final(self).closed == old(self).closed,
            entries(final(self).pending@) == merged(entries(old(self).pending@), key@, at as nat),
    {
        proof {
            use_type_invariant(&*self);
        }
        let mut pending = Vec::new();
        std::mem::swap(&mut pending, &mut self.pending);
        merge(&mut pending, key, at);
        self.pending = pending;
    }

    /// Enqueues `key` for reconciliation as soon as possible.
    ///
    /// A closed queue ignores the call. A key that is in flight is marked
    /// dirty, so that it is queued again when its reconciliation completes.
    /// Any other key gets an entry due at `now`; an entry that it already
    /// has is kept, with the earlier of the two times.
    pub fn add(&mut self, key: &ObjectKey, now: u64)
        ensures
            final(self)@ == old(self)@.add(key@, now as nat),
            final(self)@.wf(),
    {
        proof {
            use_type_invariant(&*self);
            lemma_model_wf(self.pending@, self.records@, self.closed);
        }
        if self.closed {
            return;
        }
        let (in_flight, _, attempt) = read_state(&self.records, key);
        if in_flight {
            self.record(key, true, true, attempt);
            proof {
                lemma_rewritten(
                    old(self).records@,
                    self.records@,
                    key@,
                    KeyState { in_flight: true, dirty: true, attempt: attempt as nat },
                );
                assert(self@.in_flight =~= old(self)@.in_flight);
                assert(self@.attempts =~= old(self)@.attempts);
            }
        } else {
            self.enqueue(key, now);
        }
        proof {
            use_type_invariant(&*self);
            lemma_model_wf(self.pending@, self.records@, self.closed);
        }
    }

    /// Enqueues `key` for reconciliation no sooner than `delay` from `now`.
    ///
    /// A closed queue ignores the call. Otherwise the key gets an entry due
    /// at `now + delay`; an entry that it already has is kept, with the
    /// earlier of the two times.
    pub fn add_after(&mut self, key: &ObjectKey, delay: u64, now: u64)
        requires
            now + delay <= u64::MAX,
        ensures
            final(self)@ == old(self)@.add_after(key@, delay as nat, now as nat),
            final(self)@.wf(),
    {
        proof {
            use_type_invariant(&*self);
            lemma_model_wf(self.pending@, self.records@, self.closed);
        }
        if self.closed {
            return;
        }
        self.enqueue(key, now + delay);
        proof {
            use_type_invariant(&*self);
            lemma_model_wf(self.pending@, self.records@, self.closed);
        }
    }

    /// Hands out the key to reconcile next, if one is due at `now`.
    ///
    /// Among the entries whose key is not in flight, the one with the
    /// earliest `not_before` is chosen, the oldest entry first among equals.
    /// If it is due, it leaves the queue and its key is in flight until
    /// [`done`](WorkQueue::done). If it is not due, or no such entry exists,
    /// the queue is unchanged.
    pub fn get(&mut self, now: u64) -> (polled: Polled)
        ensures
            polled@ == old(self)@.poll(now as nat),
            final(self)@ == old(self)@.get(now as nat),
            final(self)@.wf(),
            polled matches Polled::Ready(item) ==> {
                &&& item.not_before <= now
                &&& old(self)@.has_entry(item.key@)
                &&& old(self)@.not_before(item.key@) == item.not_before
                &&& !old(self)@.in_flight.contains(item.key@)
                &&& final(self)@.in_flight.contains(item.key@)
                &&& !final(self)@.has_entry(item.key@)
            },
    {
        proof {
            use_type_invariant(&*self);
            lemma_model_wf(self.pending@, self.records@, self.closed);
        }
        let ghost before = self@;
        let mut best: Option<usize> = None;
        let mut i: usize = 0;
        while i < self.pending.len()
            invariant
                i <= self.pending.len(),
                before == self@,
                before.pending.len() == self.pending.len(),
                table_ok(self.records@),
                match best {
                    Some(b) => b < i && before.waiting(b as int) && forall|j: int|
                        0 <= j < i && #[trigger] before.waiting(j) ==> before.precedes(b as int, j),
                    None => forall|j: int| 0 <= j < i ==> !before.waiting(j),
                },
            decreases self.pending.len() - i,
        {
            let (in_flight, _, _) = read_state(&self.records, &self.pending[i].key);
            if !in_flight {
                match best {
                    Some(b) => {
                        if self.pending[i].not_before < self.pending[b].not_before {
                            assert forall|j: int| 0 <= j < i + 1 && #[trigger] before.waiting(
                                j,
                            ) implies before.precedes(i as int, j) by {
                                if j < i {
                                    assert(before.precedes(b as int, j));
                                }
                            }
                            best = Some(i);
                        }
                    },
                    None => {
                        best = Some(i);
                    },
                }
            }
            i += 1;
        }
        match best {
            None => {
                proof {
                    before.lemma_front_none();
                }
                if self.closed && self.pending.len() == 0 {
                    Polled::Shutdown
                } else {
                    Polled::Idle(None)
                }
            },
            Some(b) => {
                proof {
                    assert(before.is_front(b as int));
                    before.lemma_front_is(b as int);
                }
                let due = self.pending[b].not_before;
                if due <= now {
                    let mut pending = Vec::new();
                    std::mem::swap(&mut pending, &mut self.pending);
                    proof {
                        lemma_entry_removed(entries(pending@), b as int);
                        lemma_position(entries(pending@), b as int);
                    }
                    let slot = pending.remove(b);
                    assert(entries(pending@) =~= before.pending.remove(b as int));
                    self.pending = pending;
                    let (_, _, attempt) = read_state(&self.records, &slot.key);
                    self.record(&slot.key, true, false, attempt);
                    proof {
                        lemma_rewritten(
                            old(self).records@,
                            self.records@,
                            slot.key@,
                            KeyState { in_flight: true, dirty: false, attempt: attempt as nat },
                        );
                        assert(self@.dirty =~= before.dirty);
                        assert(self@.attempts =~= before.attempts);
                        use_type_invariant(&*self);
                        lemma_model_wf(self.pending@, self.records@, self.closed);
                    }
                    Polled::Ready(QueueItem { key: slot.key, not_before: slot.not_before, attempt })
                } else {
                    Polled::Idle(Some(due))
                }
            },
        }
    }

    /// Marks the reconciliation of `key` as complete.
    ///
    /// The key is no longer in flight. If it was re-added while in flight,
    /// it gets an entry due at `now`, merged with one it has. A key that is
    /// not in flight changes nothing.
    pub fn done(&mut self, key: &ObjectKey, now: u64)
        ensures
            final(self)@ == old(self)@.done(key@, now as nat),
            final(self)@.wf(),
    {
        proof {
            use_type_invariant(&*self);
            lemma_model_wf(self.pending@, self.records@, self.closed);
        }
        let (in_flight, dirty, attempt) = read_state(&self.records, key);
        if in_flight {
            self.record(key, false, false, attempt);
            proof {
                lemma_rewritten(
                    old(self).records@,
                    self.records@,
                    key@,
                    KeyState { in_flight: false, dirty: false, attempt: attempt as nat },
                );
                assert(self@.attempts =~= old(self)@.attempts);
            }
            if dirty {
                self.enqueue(key, now);
            }
        }
        proof {
            use_type_invariant(&*self);
            lemma_model_wf(self.pending@, self.records@, self.closed);
        }
    }

    /// Resets the failure streak of `key`. Queue membership is unaffected.
    pub fn forget(&mut self, key: &ObjectKey)
        ensures
            final(self)@ == old(self)@.forget(key@),
            final(self)@.wf(),
    {
        proof {
            use_type_invariant(&*self);
        }
        let (in_flight, dirty, _) = read_state(&self.records, key);
        proof {
            lemma_record_dirty(self.records@, key@);
        }
        self.record(key, in_flight, dirty, 0);
        proof {
            lemma_rewritten(
                old(self).records@,
                self.records@,
                key@,
                KeyState { in_flight, dirty, attempt: 0 },
            );
            assert(self@.in_flight =~= old(self)@.in_flight);
            assert(self@.dirty =~= old(self)@.dirty);
            use_type_invariant(&*self);
            lemma_model_wf(self.pending@, self.records@, self.closed);
        }
    }

    /// Records one more consecutive failure of `key`. Queue membership is
    /// unaffected.
    pub fn fail(&mut self, key: &ObjectKey)
        requires
            old(self)@.attempt(key@) < u64::MAX,
        ensures
            final(self)@ == old(self)@.fail(key@),
            final(self)@.wf(),
    {
        proof {
            use_type_invariant(&*self);
        }
        let (in_flight, dirty, attempt) = read_state(&self.records, key);
        proof {
            lemma_record_dirty(self.records@, key@);
        }
        self.record(key, in_flight, dirty, attempt + 1);
        proof {
            lemma_rewritten(
                old(self).records@,
                self.records@,
                key@,
                KeyState { in_flight, dirty, attempt: (attempt + 1) as nat },
            );
            assert(self@.in_flight =~= old(self)@.in_flight);
            assert(self@.dirty =~= old(self)@.dirty);
            use_type_invariant(&*self);
            lemma_model_wf(self.pending@, self.records@, self.closed);
        }
    }

    /// Closes the queue: it accepts no new keys from now on. Entries that
    /// it holds are still handed out, and [`get`](WorkQueue::get) answers
    /// `Shutdown` once none is left.
    pub fn close(&mut self)
        ensures
            final(self)@ == old(self)@.close(),
            final(self)@.wf(),
    {
        proof {
            use_type_invariant(&*self);
        }
        self.closed = true;
        proof {
            lemma_model_wf(self.pending@, self.records@, self.closed);
        }
    }

    /// Whether the queue has been closed.
    pub fn is_closed(&self) -> (closed: bool)
        ensures
            closed == self@.closed,
    {
        self.closed
    }

    /// Number of live entries.
    pub fn len(&self) -> (n: usize)
        ensures
            n == self@.pending.len(),
    {
        self.pending.len()
    }

    /// Consecutive failures recorded for `key` since its last success.
    pub fn attempts(&self, key: &ObjectKey) -> (n: u64)
        ensures
            n == self@.attempt(key@),
    {
        proof {
            use_type_invariant(self);
        }
        let (_, _, attempt) = read_state(&self.records, key);
        attempt
    }

    /// Whether `key` has been handed out and not yet completed.
    pub fn is_in_flight(&self, key: &ObjectKey) -> (b: bool)
        ensures
            b == self@.in_flight.contains(key@),
    {
        proof {
            use_type_invariant(self);
        }
        let (in_flight, _, _) = read_state(&self.records, key);
        in_flight
    }

    /// Whether `key` was re-added while in flight.
    pub fn is_dirty(&self, key: &ObjectKey) -> (b: bool)
        ensures
            b == self@.dirty.contains(key@),
    {
        proof {
            use_type_invariant(self);
        }
        let (_, dirty, _) = read_state(&self.records, key);
        dirty
    }

    /// The time from which the live entry of `key` is due, if it has one.
    pub fn not_before(&self, key: &ObjectKey) -> (at: Option<u64>)
        ensures
            at.is_some() == self@.has_entry(key@),
            at matches Some(t) ==> t == self@.not_before(key@),
    {
        proof {
            use_type_invariant(self);
        }
        match find_slot(&self.pending, key) {
            Some(i) => {
                proof {
                    lemma_position(entries(self.pending@), i as int);
                }
                Some(self.pending[i].not_before)
            },
            None => None,
        }
    }
}

} // verus!
