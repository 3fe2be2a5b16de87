//! Mathematical model of the work queue.
//!
//! The queue is described as a value with five parts: the live entries in
//! the order in which they were created, the set of keys that are being
//! reconciled, the subset of those that were re-added meanwhile, the failure
//! streak of each key, and whether the queue has been closed. Every
//! operation of the queue is a function from one such value to the next.

use vstd::prelude::*;
use crate::key::KeyView;

verus! {

/// A live entry: a key and the earliest time at which it may be handed out.
pub struct EntryView {
    pub key: KeyView,
    pub not_before: nat,
}

/// What a worker receives when a key is handed out.
pub struct ItemView {
    pub key: KeyView,
    pub not_before: nat,
    pub attempt: nat,
}

/// Outcome of asking the queue for work at some instant.
pub enum PollView {
    /// A key is due and was handed out.
    Ready(ItemView),
    /// Nothing can be handed out now. The field is the time at which the
    /// earliest held entry falls due, if an entry is held whose key is not
    /// being reconciled.
    Idle(Option<nat>),
    /// The queue is closed and holds no entry.
    Shutdown,
}

/// No two entries carry the same key.
pub open spec fn distinct_keys(entries: Seq<EntryView>) -> bool {
    forall|i: int, j: int|
        0 <= i < j < entries.len() ==> (#[trigger] entries[i]).key != (#[trigger] entries[j]).key
}

/// Whether an entry for `key` exists.
pub open spec fn holds(entries: Seq<EntryView>, key: KeyView) -> bool {
    exists|i: int| 0 <= i < entries.len() && (#[trigger] entries[i]).key == key
}

/// Index of the entry for `key`; meaningful only where `holds(entries, key)`.
pub open spec fn position(entries: Seq<EntryView>, key: KeyView) -> int {
    choose|i: int| 0 <= i < entries.len() && (#[trigger] entries[i]).key == key
}

/// Adds an entry for `key` due at `at`, or, where one exists, moves it to
/// `at` if that is earlier. Never creates a second entry for a key.
pub open spec fn merged(entries: Seq<EntryView>, key: KeyView, at: nat) -> Seq<EntryView> {
    if holds(entries, key) {
        let i = position(entries, key);
        if at < entries[i].not_before {
            entries.update(i, EntryView { key, not_before: at })
        } else {
            entries
        }
    } else {
        entries.push(EntryView { key, not_before: at })
    }
}

pub struct QueueView {
    /// Live entries, oldest first.
    pub pending: Seq<EntryView>,
    /// Keys handed out and not yet completed.
    pub in_flight: Set<KeyView>,
    /// Keys re-added while in flight.
    pub dirty: Set<KeyView>,
    /// Consecutive failures per key; a key that is absent has none.
    pub attempts: Map<KeyView, nat>,
    /// Whether the queue has been closed.
    pub closed: bool,
}

impl QueueView {
    /// The invariant of every queue: at most one live entry per key, only
    /// keys in flight are dirty, and a recorded failure streak is positive.
    pub open spec fn wf(self) -> bool {
        &&& distinct_keys(self.pending)
        &&& self.dirty.subset_of(self.in_flight)
        &&& forall|k: KeyView| #[trigger] self.attempts.dom().contains(k) ==> self.attempts[k] > 0
    }

    /// The open queue with no entry, nothing in flight and no failure recorded.
    pub open spec fn empty() -> QueueView {
        QueueView {
            pending: Seq::empty(),
            in_flight: Set::empty(),
            dirty: Set::empty(),
            attempts: Map::empty(),
            closed: false,
        }
    }

    /// Whether a live entry for `key` exists.
    pub open spec fn has_entry(self, key: KeyView) -> bool {
        holds(self.pending, key)
    }

    /// The `not_before` of the live entry for `key`; meaningful only where
    /// `has_entry(key)`.
    pub open spec fn not_before(self, key: KeyView) -> nat {
        self.pending[position(self.pending, key)].not_before
    }

    /// Consecutive failures of `key` since its last success.
    pub open spec fn attempt(self, key: KeyView) -> nat {
        if self.attempts.dom().contains(key) {
            self.attempts[key]
        } else {
            0
        }
    }

    /// The queue with an entry for `key` due no later than `at`.
    pub open spec fn enqueue(self, key: KeyView, at: nat) -> QueueView {
        QueueView { pending: merged(self.pending, key, at), ..self }
    }

    /// `Add`: a closed queue ignores it; a key in flight is marked dirty;
    /// any other key gets an entry due at `now`, merged with one it has.
    pub open spec fn add(self, key: KeyView, now: nat) -> QueueView {
        if self.closed {
            self
        } else if self.in_flight.contains(key) {
            QueueView { dirty: self.dirty.insert(key), ..self }
        } else {
            self.enqueue(key, now)
        }
    }

    /// `AddAfter`: a closed queue ignores it; otherwise the key gets an
    /// entry due at `now + delay`, merged with one it has.
    pub open spec fn add_after(self, key: KeyView, delay: nat, now: nat) -> QueueView {
        if self.closed {
            self
        } else {
            self.enqueue(key, now + delay)
        }
    }

    /// Entry `i` exists and its key is not in flight.
    pub open spec fn waiting(self, i: int) -> bool {
        0 <= i < self.pending.len() && !self.in_flight.contains(self.pending[i].key)
    }

    /// Entry `i` goes before entry `j`: it is due earlier, or at the same
    /// time and was created no later.
    pub open spec fn precedes(self, i: int, j: int) -> bool {
        self.pending[i].not_before < self.pending[j].not_before || (self.pending[i].not_before
            == self.pending[j].not_before && i <= j)
    }

    /// Entry `i` is the one to hand out next: it waits, and it goes before
    /// every other entry that waits.
    pub open spec fn is_front(self, i: int) -> bool {
        self.waiting(i) && forall|j: int| #[trigger] self.waiting(j) ==> self.precedes(i, j)
    }

    /// The entry to hand out next, if any entry waits.
    pub open spec fn front(self) -> Option<int> {
        if exists|i: int| self.is_front(i) {
            Some(choose|i: int| self.is_front(i))
        } else {
            None
        }
    }

    /// Entry `i` leaves the queue and its key is in flight.
    pub open spec fn take(self, i: int) -> QueueView {
        QueueView {
            pending: self.pending.remove(i),
            in_flight: self.in_flight.insert(self.pending[i].key),
            ..self
        }
    }

    /// What `Get` answers at `now`.
    pub open spec fn poll(self, now: nat) -> PollView {
        match self.front() {
            Some(i) => {
                let entry = self.pending[i];
                if entry.not_before <= now {
                    PollView::Ready(
                        ItemView {
                            key: entry.key,
                            not_before: entry.not_before,
                            attempt: self.attempt(entry.key),
                        },
                    )
                } else {
                    PollView::Idle(Some(entry.not_before))
                }
            },
            None => {
                if self.closed && self.pending.len() == 0 {
                    PollView::Shutdown
                } else {
                    PollView::Idle(None)
                }
            },
        }
    }

    /// The queue after `Get` at `now`: the front entry is taken if it is
    /// due, and nothing changes otherwise.
    pub open spec fn get(self, now: nat) -> QueueView {
        match self.front() {
            Some(i) => {
                if self.pending[i].not_before <= now {
                    self.take(i)
                } else {
                    self
                }
            },
            None => self,
        }
    }

    /// `Done`: the key is no longer in flight; if it was dirty it gets an
    /// entry due at `now`. A key that is not in flight changes nothing.
    pub open spec fn done(self, key: KeyView, now: nat) -> QueueView {
        if self.in_flight.contains(key) {
            let released = QueueView {
                in_flight: self.in_flight.remove(key),
                dirty: self.dirty.remove(key),
                ..self
            };
            if self.dirty.contains(key) {
                released.enqueue(key, now)
            } else {
                released
            }
        } else {
            self
        }
    }

    /// `Forget`: the failure streak of `key` is reset.
    pub open spec fn forget(self, key: KeyView) -> QueueView {
        QueueView { attempts: self.attempts.remove(key), ..self }
    }

    /// One more consecutive failure of `key`.
    pub open spec fn fail(self, key: KeyView) -> QueueView {
        QueueView { attempts: self.attempts.insert(key, self.attempt(key) + 1), ..self }
    }

    /// The queue closed: it accepts no new keys from now on.
    pub open spec fn close(self) -> QueueView {
        QueueView { closed: true, ..self }
    }
}

/// With distinct keys, the entry for a key is found at the one index that holds it.
pub proof fn lemma_position(entries: Seq<EntryView>, i: int)
    requires
        distinct_keys(entries),
        0 <= i < entries.len(),
    ensures
        holds(entries, entries[i].key),
        position(entries, entries[i].key) == i,
{
    let j = position(entries, entries[i].key);
    assert(0 <= j < entries.len() && entries[j].key == entries[i].key);
    if j < i {
        assert(entries[j].key != entries[i].key);
    } else if i < j {
        assert(entries[i].key != entries[j].key);
    }
}

/// Merging keeps the keys distinct, keeps every other key's entry, and
/// leaves `key` with the earlier of its old time and `at`.
pub proof fn lemma_merged(entries: Seq<EntryView>, key: KeyView, at: nat)
    requires
        distinct_keys(entries),
    ensures
        distinct_keys(merged(entries, key, at)),
        holds(merged(entries, key, at), key),
        merged(entries, key, at)[position(merged(entries, key, at), key)].not_before == (if holds(
            entries,
            key,
        ) && entries[position(entries, key)].not_before <= at {
            entries[position(entries, key)].not_before
        } else {
            at
        }),
        forall|other: KeyView|
            other != key ==> (holds(merged(entries, key, at), other) <==> holds(entries, other)),
        forall|other: KeyView|
            other != key && holds(entries, other) ==> merged(entries, key, at)[position(
                merged(entries, key, at),
                other,
            )] == entries[position(entries, other)],
{
    let after = merged(entries, key, at);
    if holds(entries, key) {
        let i = position(entries, key);
        assert(after.len() == entries.len());
        assert(forall|j: int| 0 <= j < after.len() ==> (#[trigger] after[j]).key == entries[j].key);
        assert(distinct_keys(after)) by {
            assert forall|a: int, b: int| 0 <= a < b < after.len() implies (#[trigger] after[a]).key
                != (#[trigger] after[b]).key by {
                assert(entries[a].key != entries[b].key);
            }
        }
        assert(after[i].key == key);
        lemma_position(after, i);
        assert forall|other: KeyView| other != key implies (holds(after, other) <==> holds(
            entries,
            other,
        )) by {
            if holds(entries, other) {
                let j = position(entries, other);
                assert(after[j].key == other);
            }
            if holds(after, other) {
                let j = position(after, other);
                assert(entries[j].key == other);
            }
        }
        assert forall|other: KeyView| other != key && holds(entries, other) implies after[position(
            after,
            other,
        )] == entries[position(entries, other)] by {
            let j = position(entries, other);
            assert(after[j].key == other);
            lemma_position(after, j);
            assert(j != i);
        }
    } else {
        let n = entries.len() as int;
        assert(after.len() == n + 1);
        assert(after[n].key == key);
        assert(forall|j: int| 0 <= j < n ==> (#[trigger] after[j]) == entries[j]);
        assert(distinct_keys(after)) by {
            assert forall|a: int, b: int| 0 <= a < b < after.len() implies (#[trigger] after[a]).key
                != (#[trigger] after[b]).key by {
                if b < n {
                    assert(entries[a].key != entries[b].key);
                } else {
                    assert(entries[a].key != key);
                }
            }
        }
        lemma_position(after, n);
        assert forall|other: KeyView| other != key implies (holds(after, other) <==> holds(
            entries,
            other,
        )) by {
            if holds(entries, other) {
                let j = position(entries, other);
                assert(after[j].key == other);
            }
            if holds(after, other) {
                let j = position(after, other);
                assert(j < n);
                assert(entries[j].key == other);
            }
        }
        assert forall|other: KeyView| other != key && holds(entries, other) implies after[position(
            after,
            other,
        )] == entries[position(entries, other)] by {
            let j = position(entries, other);
            assert(after[j].key == other);
            lemma_position(after, j);
        }
    }
}

/// Removing one entry keeps the keys distinct and leaves no entry for its key.
pub proof fn lemma_entry_removed(before: Seq<EntryView>, i: int)
    requires
        distinct_keys(before),
        0 <= i < before.len(),
    ensures
        distinct_keys(before.remove(i)),
        !holds(before.remove(i), before[i].key),
        forall|other: KeyView|
            other != before[i].key ==> (holds(before.remove(i), other) <==> holds(before, other)),
        forall|other: KeyView|
            other != before[i].key && holds(before, other) ==> before.remove(i)[position(
                before.remove(i),
                other,
            )] == before[position(before, other)],
{
    let after = before.remove(i);
    assert forall|a: int, b: int| 0 <= a < b < after.len() implies (#[trigger] after[a]).key != (
    #[trigger] after[b]).key by {
        let a0 = if a < i { a } else { a + 1 };
        let b0 = if b < i { b } else { b + 1 };
        assert(before[a0].key != before[b0].key);
    }
    if holds(after, before[i].key) {
        let j = position(after, before[i].key);
        let j0 = if j < i { j } else { j + 1 };
        assert(before[j0].key == before[i].key);
        if j0 < i {
            assert(before[j0].key != before[i].key);
        } else {
            assert(before[i].key != before[j0].key);
        }
    }
    assert forall|other: KeyView| other != before[i].key implies (holds(after, other) <==> holds(
        before,
        other,
    )) by {
        if holds(before, other) {
            let j0 = position(before, other);
            let j = if j0 < i { j0 } else { j0 - 1 };
            assert(after[j].key == other);
        }
        if holds(after, other) {
            let j = position(after, other);
            let j0 = if j < i { j } else { j + 1 };
            assert(before[j0].key == other);
        }
    }
    assert forall|other: KeyView| other != before[i].key && holds(before, other) implies after[position(
        after,
        other,
    )] == before[position(before, other)] by {
        let j0 = position(before, other);
        let j = if j0 < i { j0 } else { j0 - 1 };
        assert(after[j].key == other);
        lemma_position(after, j);
    }
}

impl QueueView {
    /// At most one entry is the front.
    pub proof fn lemma_front_unique(self, i: int, j: int)
        requires
            self.is_front(i),
            self.is_front(j),
        ensures
            i == j,
    {
        assert(self.waiting(i) && self.waiting(j));
        assert(self.precedes(i, j) && self.precedes(j, i));
    }

    /// An entry known to be the front is the one that `front` names.
    pub proof fn lemma_front_is(self, i: int)
        requires
            self.is_front(i),
        ensures
            self.front() == Some(i),
    {
        let j = choose|j: int| self.is_front(j);
        self.lemma_front_unique(i, j);
    }

    /// Where no entry waits there is no front.
    pub proof fn lemma_front_none(self)
        requires
            forall|i: int| !self.waiting(i),
        ensures
            self.front().is_none(),
    {
    }

    /// Among the first `n` entries, either none waits or one of them goes
    /// before every other that waits.
    proof fn lemma_front_among(self, n: int) -> (best: Option<int>)
        requires
            0 <= n <= self.pending.len(),
        ensures
            best matches Some(b) ==> 0 <= b < n && self.waiting(b) && forall|j: int|
                0 <= j < n && #[trigger] self.waiting(j) ==> self.precedes(b, j),
            best.is_none() ==> forall|j: int| 0 <= j < n ==> !self.waiting(j),
        decreases n,
    {
        if n == 0 {
            None
        } else {
            let prev = self.lemma_front_among(n - 1);
            if !self.waiting(n - 1) {
                prev
            } else {
                match prev {
                    None => Some(n - 1),
                    Some(b) => {
                        if self.pending[n - 1].not_before < self.pending[b].not_before {
                            assert forall|j: int| 0 <= j < n && #[trigger] self.waiting(
                                j,
                            ) implies self.precedes(n - 1, j) by {
                                if j < n - 1 {
                                    assert(self.precedes(b, j));
                                }
                            }
                            Some(n - 1)
                        } else {
                            Some(b)
                        }
                    },
                }
            }
        }
    }

    /// There is a front exactly when some entry waits.
    pub proof fn lemma_front_exists(self)
        ensures
            self.front().is_some() <==> exists|i: int| self.waiting(i),
            self.front() matches Some(i) ==> self.is_front(i),
    {
        let best = self.lemma_front_among(self.pending.len() as int);
        match best {
            Some(b) => {
                assert(self.is_front(b));
                self.lemma_front_is(b);
            },
            None => {
                assert(forall|i: int| !self.waiting(i));
            },
        }
    }
}

} // verus!
