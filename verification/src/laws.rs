//! Laws of the work queue, of the workers and of the multiplexer, proved
//! of their models.
//!
//! Every operation of [`WorkQueue`](crate::queue::WorkQueue), every step of
//! a [`Worker`](crate::executor::Worker) and every answer of the
//! [`Multiplexer`](crate::mux::Multiplexer) is specified as a function of
//! its model, so what is proved here of the models holds of the code.

use vstd::prelude::*;
use crate::action::Action;
use crate::executor::{
    advance, after_failure, after_miss, after_success, CommandView, Signal, WorkerView,
};
use crate::key::KeyView;
use crate::mapper::related;
use crate::mux::{InputView, MuxView, OutputView};
use crate::queue_model::{
    lemma_entry_removed, lemma_merged, lemma_position, PollView, QueueView,
};

verus! {

/// One operation on the queue.
pub enum Op {
    Add(KeyView, nat),
    AddAfter(KeyView, nat, nat),
    Get(nat),
    Done(KeyView, nat),
    Forget(KeyView),
    Fail(KeyView),
    Close,
}

/// The queue after `op`.
pub open spec fn apply(queue: QueueView, op: Op) -> QueueView {
    match op {
        Op::Add(key, now) => queue.add(key, now),
        Op::AddAfter(key, delay, now) => queue.add_after(key, delay, now),
        Op::Get(now) => queue.get(now),
        Op::Done(key, now) => queue.done(key, now),
        Op::Forget(key) => queue.forget(key),
        Op::Fail(key) => queue.fail(key),
        Op::Close => queue.close(),
    }
}

/// The queue after the operations `ops`, first to last.
pub open spec fn run(queue: QueueView, ops: Seq<Op>) -> QueueView
    decreases ops.len(),
{
    if ops.len() == 0 {
        queue
    } else {
        apply(run(queue, ops.drop_last()), ops.last())
    }
}

/// `Get` at `now` hands out `key`.
pub open spec fn delivers(queue: QueueView, now: nat, key: KeyView) -> bool {
    queue.poll(now) matches PollView::Ready(item) && item.key == key
}

/// `op` is the completion of `key`.
pub open spec fn completes(op: Op, key: KeyView) -> bool {
    op matches Op::Done(k, _) && k == key
}

/// The earlier of two times.
pub open spec fn earlier(a: nat, b: nat) -> nat {
    if a <= b {
        a
    } else {
        b
    }
}

/// Every operation keeps the invariant of the queue: at most one live
/// entry per key, only keys in flight are dirty, and recorded failure
/// streaks are positive.
pub proof fn law_invariant(queue: QueueView, op: Op)
    requires
        queue.wf(),
    ensures
        apply(queue, op).wf(),
{
    match op {
        Op::Add(key, now) => {
            lemma_merged(queue.pending, key, now);
        },
        Op::AddAfter(key, delay, now) => {
            lemma_merged(queue.pending, key, now + delay);
        },
        Op::Get(now) => {
            queue.lemma_front_exists();
            if let Some(i) = queue.front() {
                lemma_entry_removed(queue.pending, i);
            }
        },
        Op::Done(key, now) => {
            lemma_merged(queue.pending, key, now);
        },
        Op::Forget(key) => {},
        Op::Fail(key) => {},
        Op::Close => {},
    }
}

/// Every sequence of operations keeps the invariant of the queue.
pub proof fn law_invariant_always(queue: QueueView, ops: Seq<Op>)
    requires
        queue.wf(),
    ensures
        run(queue, ops).wf(),
    decreases ops.len(),
{
    if ops.len() > 0 {
        law_invariant_always(queue, ops.drop_last());
        law_invariant(run(queue, ops.drop_last()), ops.last());
    }
}

/// `Get` hands out only a key that is not in flight, and the key is in
/// flight, with no live entry left, once it has been handed out.
pub proof fn law_get_marks_in_flight(queue: QueueView, now: nat, key: KeyView)
    requires
        queue.wf(),
        delivers(queue, now, key),
    ensures
        !queue.in_flight.contains(key),
        queue.get(now).in_flight.contains(key),
        !queue.get(now).has_entry(key),
{
    queue.lemma_front_exists();
    let i = queue.front().unwrap();
    lemma_entry_removed(queue.pending, i);
}

/// A key that is in flight is never handed out.
pub proof fn law_in_flight_withheld(queue: QueueView, now: nat, key: KeyView)
    requires
        queue.in_flight.contains(key),
    ensures
        !delivers(queue, now, key),
{
    queue.lemma_front_exists();
}

/// A key that has been handed out is not handed out a second time before
/// its completion: whatever is added, added with a delay, handed out,
/// forgotten, failed or completed meanwhile, as long as `Done` has not
/// been called for the key itself, it stays in flight and no `Get` at any
/// time hands it out.
pub proof fn law_no_second_delivery(queue: QueueView, ops: Seq<Op>, key: KeyView, now: nat)
    requires
        queue.in_flight.contains(key),
        forall|i: int| 0 <= i < ops.len() ==> !completes(#[trigger] ops[i], key),
    ensures
        run(queue, ops).in_flight.contains(key),
        !delivers(run(queue, ops), now, key),
    decreases ops.len(),
{
    if ops.len() > 0 {
        let before = ops.drop_last();
        assert forall|i: int| 0 <= i < before.len() implies !completes(
            #[trigger] before[i],
            key,
        ) by {
            assert(before[i] == ops[i]);
        }
        law_no_second_delivery(queue, before, key, now);
        assert(!completes(ops[ops.len() - 1], key));
    }
    law_in_flight_withheld(run(queue, ops), now, key);
}

/// The queue after `key` was added at each of the times `times`, first to last.
pub open spec fn add_each(queue: QueueView, key: KeyView, times: Seq<nat>) -> QueueView
    decreases times.len(),
{
    if times.len() == 0 {
        queue
    } else {
        add_each(queue, key, times.drop_last()).add(key, times.last())
    }
}

/// Re-adding a key while it is in flight gives exactly one delivery after
/// its completion, however often it was added: on an open queue, one or
/// more `Add` of a key in flight followed by `Done` leave the queue as a
/// single `Add` followed by `Done` does, with the key released, exactly one
/// live entry for it, due at once; and when that entry is handed out, no
/// entry and no dirty mark is left to hand the key out again. A closed
/// queue ignores every `Add`.
pub proof fn law_readd_in_flight(queue: QueueView, key: KeyView, times: Seq<nat>, done_at: nat)
    requires
        queue.wf(),
        queue.in_flight.contains(key),
        times.len() >= 1,
    ensures
        queue.closed ==> add_each(queue, key, times) == queue,
        !queue.closed ==> ({
            let after = add_each(queue, key, times).done(key, done_at);
            &&& after == queue.add(key, times[0]).done(key, done_at)
            &&& after.wf()
            &&& !after.in_flight.contains(key)
            &&& !after.dirty.contains(key)
            &&& after.has_entry(key)
            &&& after.not_before(key) <= done_at
            &&& forall|now: nat| #[trigger]
                delivers(after, now, key) ==> {
                    &&& !after.get(now).has_entry(key)
                    &&& !after.get(now).dirty.contains(key)
                }
        }),
{
    if queue.closed {
        lemma_add_each_closed(queue, key, times);
    } else {
        lemma_add_each_in_flight(queue, key, times);
        let marked = queue.add(key, times[0]);
        let after = marked.done(key, done_at);
        let released = QueueView {
            in_flight: marked.in_flight.remove(key),
            dirty: marked.dirty.remove(key),
            ..marked
        };
        lemma_merged(queue.pending, key, done_at);
        assert(after == released.enqueue(key, done_at));
        assert(after.wf());
        assert forall|now: nat| #[trigger] delivers(after, now, key) implies {
            &&& !after.get(now).has_entry(key)
            &&& !after.get(now).dirty.contains(key)
        } by {
            law_get_marks_in_flight(after, now, key);
            after.lemma_front_exists();
        }
    }
}

/// A closed queue is unchanged by any number of adds.
proof fn lemma_add_each_closed(queue: QueueView, key: KeyView, times: Seq<nat>)
    requires
        queue.closed,
    ensures
        add_each(queue, key, times) == queue,
    decreases times.len(),
{
    if times.len() > 0 {
        lemma_add_each_closed(queue, key, times.drop_last());
    }
}

/// On an open queue, adding a key in flight any number of times, at least
/// once, gives what adding it once gives.
proof fn lemma_add_each_in_flight(queue: QueueView, key: KeyView, times: Seq<nat>)
    requires
        !queue.closed,
        queue.in_flight.contains(key),
        times.len() >= 1,
    ensures
        add_each(queue, key, times) == queue.add(key, times[0]),
    decreases times.len(),
{
    let marked = queue.add(key, times[0]);
    if times.len() == 1 {
        assert(times.drop_last().len() == 0);
        assert(add_each(queue, key, times.drop_last()) == queue);
    } else {
        lemma_add_each_in_flight(queue, key, times.drop_last());
        assert(times.drop_last()[0] == times[0]);
        assert(marked.dirty.insert(key) =~= marked.dirty);
        assert(marked.add(key, times.last()) == marked);
    }
}

/// Of two delayed adds the earlier wins: after `AddAfter(key, d1)` at
/// `now1` and `AddAfter(key, d2)` at `now2` on an open queue, the key has a
/// live entry, due at the earliest of `now1 + d1`, `now2 + d2` and the time
/// of the entry that it had before, if it had one. No other key's entry
/// is touched. A closed queue ignores both.
pub proof fn law_earlier_wins(
    queue: QueueView,
    key: KeyView,
    d1: nat,
    now1: nat,
    d2: nat,
    now2: nat,
)
    requires
        queue.wf(),
    ensures
        queue.closed ==> queue.add_after(key, d1, now1).add_after(key, d2, now2) == queue,
        !queue.closed ==> ({
            let after = queue.add_after(key, d1, now1).add_after(key, d2, now2);
            &&& after.wf()
            &&& after.has_entry(key)
            &&& after.not_before(key) == (if queue.has_entry(key) {
                earlier(queue.not_before(key), earlier(now1 + d1, now2 + d2))
            } else {
                earlier(now1 + d1, now2 + d2)
            })
            &&& forall|other: KeyView|
                other != key ==> (after.has_entry(other) <==> queue.has_entry(other))
            &&& forall|other: KeyView|
                other != key && queue.has_entry(other) ==> after.not_before(other)
                    == queue.not_before(other)
        }),
{
    let first = queue.add_after(key, d1, now1);
    lemma_merged(queue.pending, key, now1 + d1);
    lemma_merged(first.pending, key, now2 + d2);
}

/// With the same `now`, a fresh key and `d2 < d1`, the entry is due at
/// `now + d2`.
pub proof fn law_shorter_delay_wins(queue: QueueView, key: KeyView, d1: nat, d2: nat, now: nat)
    requires
        queue.wf(),
        !queue.closed,
        !queue.has_entry(key),
        d2 < d1,
    ensures
        queue.add_after(key, d1, now).add_after(key, d2, now).not_before(key) == now + d2,
{
    law_earlier_wins(queue, key, d1, now, d2, now);
}

/// Adding a key that already has an entry creates no second one: the
/// number of entries is unchanged, and the entry keeps the earlier time.
pub proof fn law_add_merges(queue: QueueView, key: KeyView, delay: nat, now: nat)
    requires
        queue.wf(),
        queue.has_entry(key),
    ensures
        queue.add_after(key, delay, now).pending.len() == queue.pending.len(),
        queue.add(key, now).pending.len() == queue.pending.len(),
        !queue.closed ==> queue.add_after(key, delay, now).not_before(key)
            == earlier(queue.not_before(key), now + delay),
{
    lemma_merged(queue.pending, key, now + delay);
    lemma_merged(queue.pending, key, now);
}

/// Adding is idempotent: the same `Add` or `AddAfter` a second time
/// changes nothing.
pub proof fn law_add_idempotent(queue: QueueView, key: KeyView, delay: nat, now: nat)
    requires
        queue.wf(),
    ensures
        queue.add(key, now).add(key, now) == queue.add(key, now),
        queue.add_after(key, delay, now).add_after(key, delay, now)
            == queue.add_after(key, delay, now),
{
    lemma_merged(queue.pending, key, now);
    lemma_merged(queue.pending, key, now + delay);
    if !queue.closed && queue.in_flight.contains(key) {
        assert(queue.dirty.insert(key).insert(key) =~= queue.dirty.insert(key));
    }
}

/// A key is never handed out before its `not_before`: what `Get` hands out
/// at `now` was due at or before `now`, and a key whose live entry is due
/// later than `now` is not handed out at `now`.
pub proof fn law_not_before_due(queue: QueueView, now: nat, key: KeyView)
    requires
        queue.wf(),
    ensures
        delivers(queue, now, key) ==> queue.has_entry(key) && queue.not_before(key) <= now,
        queue.has_entry(key) && queue.not_before(key) > now ==> !delivers(queue, now, key),
        !queue.has_entry(key) ==> !delivers(queue, now, key),
{
    queue.lemma_front_exists();
    if let Some(i) = queue.front() {
        lemma_position(queue.pending, i);
    }
}

/// What `Get` hands out is the earliest entry that waits: no entry whose
/// key is not in flight is due before it, and none due at the same time is
/// older.
pub proof fn law_earliest_first(queue: QueueView, now: nat, j: int)
    requires
        queue.wf(),
        queue.waiting(j),
    ensures
        queue.poll(now) !is Shutdown,
        queue.pending[j].not_before <= now ==> queue.poll(now) is Ready,
        queue.front() matches Some(i) && queue.precedes(i, j),
{
    queue.lemma_front_exists();
}

/// When nothing is due, the time that `Get` names is the next wake: it lies
/// after `now`, some entry whose key is not in flight falls due exactly
/// then, and none falls due earlier. It names no time exactly when every
/// entry's key is in flight and the queue is not both closed and empty.
pub proof fn law_next_wake(queue: QueueView, now: nat)
    requires
        queue.wf(),
    ensures
        queue.poll(now) matches PollView::Idle(Some(at)) ==> {
            &&& at > now
            &&& exists|i: int| queue.waiting(i) && queue.pending[i].not_before == at
            &&& forall|j: int| queue.waiting(j) ==> at <= queue.pending[j].not_before
        },
        queue.poll(now) == PollView::Idle(None) <==> {
            &&& forall|j: int| !queue.waiting(j)
            &&& !(queue.closed && queue.pending.len() == 0)
        },
{
    queue.lemma_front_exists();
    if let Some(i) = queue.front() {
        assert(queue.waiting(i));
        assert forall|j: int| queue.waiting(j) implies queue.pending[i].not_before
            <= queue.pending[j].not_before by {
            assert(queue.precedes(i, j));
        }
    }
}

/// `Get` answers with shutdown exactly when the queue is closed and holds
/// no entry, at whatever time it is asked.
pub proof fn law_shutdown(queue: QueueView, now: nat)
    ensures
        queue.poll(now) is Shutdown <==> queue.closed && queue.pending.len() == 0,
{
    queue.lemma_front_exists();
    if queue.pending.len() == 0 {
        assert(forall|i: int| !queue.waiting(i));
    }
    if let Some(i) = queue.front() {
        assert(queue.waiting(i));
    }
}

/// A closed queue stays closed and drains: no operation reopens it, and
/// none but the completion of a key that was re-added while in flight
/// adds an entry to it.
pub proof fn law_closed_drains(queue: QueueView, op: Op)
    requires
        queue.wf(),
        queue.closed,
    ensures
        apply(queue, op).closed,
        !(op is Done) ==> apply(queue, op).pending.len() <= queue.pending.len(),
        op matches Op::Done(key, _) && !queue.dirty.contains(key) ==> apply(queue, op).pending.len()
            <= queue.pending.len(),
        apply(queue, op).pending.len() <= queue.pending.len() + 1,
{
    queue.lemma_front_exists();
    if let Op::Done(key, now) = op {
        lemma_merged(queue.pending, key, now);
    }
}

/// The failure streak of a key grows by one with each failure and is zero
/// after a success and after a miss; the streak of every other key is
/// untouched.
pub proof fn law_attempts(queue: QueueView, key: KeyView, action: Action, delay: nat, now: nat)
    requires
        queue.wf(),
    ensures
        after_failure(queue, key, delay, now).attempt(key) == queue.attempt(key) + 1,
        after_success(queue, key, action, now).attempt(key) == 0,
        after_miss(queue, key, now).attempt(key) == 0,
        forall|other: KeyView|
            other != key ==> {
                &&& after_failure(queue, key, delay, now).attempt(other) == queue.attempt(other)
                &&& after_success(queue, key, action, now).attempt(other) == queue.attempt(other)
                &&& after_miss(queue, key, now).attempt(other) == queue.attempt(other)
            },
{
}

/// After a reconciliation of a key in flight that asked for a requeue
/// after `delay`, the key is released and has a live entry due no later
/// than `now + delay`; it is due exactly then unless it was re-added
/// while in flight or had an earlier entry.
pub proof fn law_requeue_after(queue: QueueView, key: KeyView, delay: u64, now: nat)
    requires
        queue.wf(),
        !queue.closed,
        queue.in_flight.contains(key),
    ensures
        ({
            let after = after_success(queue, key, Action::RequeueAfter(delay), now);
            &&& after.wf()
            &&& !after.in_flight.contains(key)
            &&& after.has_entry(key)
            &&& after.not_before(key) <= now + delay
            &&& !queue.dirty.contains(key) && !queue.has_entry(key) ==> after.not_before(key)
                == now + delay
        }),
{
    let released = queue.forget(key).done(key, now);
    lemma_merged(queue.pending, key, now);
    lemma_merged(released.pending, key, (now + delay) as nat);
}

/// A worker asks for a reconciliation only of the key that it holds, and
/// only once the object of that key has been fetched and found: the command
/// is given in answer to a successful fetch, or again while the
/// reconciliation that it started has not returned.
pub proof fn law_reconcile_after_fetch(
    queue: QueueView,
    worker: WorkerView,
    signal: Signal,
    now: nat,
    key: KeyView,
)
    requires
        advance(queue, worker, signal, now).command == CommandView::Reconcile(key),
    ensures
        held(worker) == Some(key),
        (worker is Fetching && signal == Signal::Fetched(true)) || (worker is Reconciling),
        advance(queue, worker, signal, now).worker is Reconciling,
        held(advance(queue, worker, signal, now).worker) == Some(key),
{
}

/// A worker asks for a fetch only of a key that the queue has just handed
/// to it, or of the key that it holds while its fetch has not returned; in
/// both cases the key is the one that the worker holds afterwards.
pub proof fn law_fetch_after_delivery(
    queue: QueueView,
    worker: WorkerView,
    signal: Signal,
    now: nat,
    key: KeyView,
)
    requires
        advance(queue, worker, signal, now).command == CommandView::Fetch(key),
    ensures
        (worker is Idle && signal is Wake && delivers(queue, now, key)) || (worker is Fetching
            && held(worker) == Some(key)),
        advance(queue, worker, signal, now).worker is Fetching,
        held(advance(queue, worker, signal, now).worker) == Some(key),
{
}

/// The key that a worker holds, if it holds one.
pub open spec fn held(worker: WorkerView) -> Option<KeyView> {
    match worker {
        WorkerView::Fetching(item) => Some(item.key),
        WorkerView::Reconciling(item) => Some(item.key),
        _ => None,
    }
}

/// Every key that a worker holds is in flight, and no two workers hold the
/// same key.
pub open spec fn exclusive(queue: QueueView, workers: Seq<WorkerView>) -> bool {
    &&& forall|i: int|
        0 <= i < workers.len() ==> in_flight_if_held(queue, #[trigger] workers[i])
    &&& forall|i: int, j: int|
        0 <= i < workers.len() && 0 <= j < workers.len() && i != j ==> apart(
            #[trigger] workers[i],
            #[trigger] workers[j],
        )
}

/// The key that `worker` holds, if it holds one, is in flight.
pub open spec fn in_flight_if_held(queue: QueueView, worker: WorkerView) -> bool {
    held(worker) matches Some(key) ==> queue.in_flight.contains(key)
}

/// The two workers do not hold the same key.
pub open spec fn apart(a: WorkerView, b: WorkerView) -> bool {
    held(a) matches Some(key) ==> held(b) != Some(key)
}

/// No key is reconciled by two workers at once: a step of any worker of a
/// pool in which every held key is in flight and no two workers hold the
/// same key leaves the pool so, and keeps the invariant of the queue.
pub proof fn law_workers_exclusive(
    queue: QueueView,
    workers: Seq<WorkerView>,
    i: int,
    signal: Signal,
    now: nat,
)
    requires
        queue.wf(),
        exclusive(queue, workers),
        0 <= i < workers.len(),
    ensures
        advance(queue, workers[i], signal, now).queue.wf(),
        exclusive(
            advance(queue, workers[i], signal, now).queue,
            workers.update(i, advance(queue, workers[i], signal, now).worker),
        ),
{
    let step = advance(queue, workers[i], signal, now);
    let pool = workers.update(i, step.worker);
    lemma_advance_invariant(queue, workers[i], signal, now);
    match (workers[i], signal) {
        (WorkerView::Idle, Signal::Wake) => {
            if let PollView::Ready(item) = queue.poll(now) {
                law_get_marks_in_flight(queue, now, item.key);
                assert forall|a: int, b: int|
                    0 <= a < pool.len() && 0 <= b < pool.len() && a != b implies apart(
                    #[trigger] pool[a],
                    #[trigger] pool[b],
                ) by {
                    if a != i && b != i {
                        assert(apart(workers[a], workers[b]));
                    } else if a == i {
                        assert(in_flight_if_held(queue, workers[b]));
                    } else {
                        assert(in_flight_if_held(queue, workers[a]));
                    }
                }
                assert forall|a: int| 0 <= a < pool.len() implies in_flight_if_held(
                    step.queue,
                    #[trigger] pool[a],
                ) by {
                    if a != i {
                        assert(in_flight_if_held(queue, workers[a]));
                    }
                }
            } else {
                lemma_exclusive_release(queue, step.queue, workers, i, step.worker);
            }
        },
        (WorkerView::Fetching(item), Signal::Fetched(true)) => {
            lemma_exclusive_release(queue, step.queue, workers, i, step.worker);
        },
        (WorkerView::Fetching(item), Signal::Fetched(false)) => {
            lemma_merged(queue.pending, item.key, now);
            lemma_exclusive_release(queue, step.queue, workers, i, step.worker);
        },
        (WorkerView::Reconciling(item), Signal::Succeeded(action)) => {
            lemma_merged(queue.pending, item.key, now);
            lemma_exclusive_release(queue, step.queue, workers, i, step.worker);
        },
        (WorkerView::Reconciling(item), Signal::Failed) => {
            lemma_merged(queue.pending, item.key, now);
            lemma_exclusive_release(queue, step.queue, workers, i, step.worker);
        },
        _ => {
            lemma_exclusive_release(queue, step.queue, workers, i, step.worker);
        },
    }
}

/// A step of a worker keeps the invariant of the queue.
proof fn lemma_advance_invariant(queue: QueueView, worker: WorkerView, signal: Signal, now: nat)
    requires
        queue.wf(),
    ensures
        advance(queue, worker, signal, now).queue.wf(),
{
    match (worker, signal) {
        (WorkerView::Idle, Signal::Wake) => {
            law_invariant(queue, Op::Get(now));
        },
        (WorkerView::Fetching(item), Signal::Fetched(false)) => {
            law_invariant(queue, Op::Forget(item.key));
            law_invariant(queue.forget(item.key), Op::Done(item.key, now));
        },
        (WorkerView::Reconciling(item), Signal::Succeeded(action)) => {
            law_invariant(queue, Op::Forget(item.key));
            law_invariant(queue.forget(item.key), Op::Done(item.key, now));
            if let Action::RequeueAfter(delay) = action {
                law_invariant(
                    queue.forget(item.key).done(item.key, now),
                    Op::AddAfter(item.key, delay as nat, now),
                );
            }
        },
        (WorkerView::Reconciling(item), Signal::Failed) => {
            law_invariant(queue, Op::Fail(item.key));
            law_invariant(queue.fail(item.key), Op::Done(item.key, now));
            law_invariant(
                queue.fail(item.key).done(item.key, now),
                Op::AddAfter(item.key, crate::policy::RETRY_DELAY as nat, now),
            );
        },
        _ => {},
    }
}

/// Where a worker keeps its key or lets it go, and the queue lets only
/// that worker's key leave the keys in flight, the pool stays exclusive.
proof fn lemma_exclusive_release(
    before: QueueView,
    after: QueueView,
    workers: Seq<WorkerView>,
    i: int,
    next: WorkerView,
)
    requires
        exclusive(before, workers),
        0 <= i < workers.len(),
        held(next) == held(workers[i]) || held(next).is_none(),
        forall|k: KeyView|
            before.in_flight.contains(k) && held(workers[i]) != Some(k)
                ==> #[trigger] after.in_flight.contains(k),
        held(next) == held(workers[i]) ==> after.in_flight == before.in_flight,
    ensures
        exclusive(after, workers.update(i, next)),
{
    let pool = workers.update(i, next);
    assert forall|a: int| 0 <= a < pool.len() implies in_flight_if_held(
        after,
        #[trigger] pool[a],
    ) by {
        if a != i {
            assert(in_flight_if_held(before, workers[a]));
            assert(apart(workers[a], workers[i]));
        } else {
            assert(in_flight_if_held(before, workers[i]));
        }
    }
    assert forall|a: int, b: int|
        0 <= a < pool.len() && 0 <= b < pool.len() && a != b implies apart(
        #[trigger] pool[a],
        #[trigger] pool[b],
    ) by {
        assert(apart(workers[a], workers[b]));
    }
}

/// The multiplexer keeps no memory of the events it has seen: an event
/// leaves its state as it was, so an event is answered in the same way
/// whatever came before it on either stream, and no duplicate is removed.
pub proof fn law_mux_keeps_no_memory(mux: MuxView, event: InputView, next: InputView, now: nat)
    requires
        !(event is End),
    ensures
        mux.after(event) == mux,
        mux.after(event).output(next, now) == mux.output(next, now),
{
}

/// The multiplexer stops only when both streams have terminated, and it
/// reports a failure exactly when a stream has ended with a fatal error.
pub proof fn law_mux_stops_when_both_ended(mux: MuxView, input: InputView, now: nat)
    ensures
        mux.output(input, now) is Stopped <==> input is End && mux.after(input).terminated(),
        mux.output(input, now) matches OutputView::Stopped { fatal } ==> fatal
            == mux.after(input).failed(),
        mux.after(input).terminated() ==> mux.terminated() || input is End,
        mux.terminated() ==> mux.after(input) == mux && !(mux.output(input, now) is Enqueue),
{
}

/// Every request of the multiplexer is due at the time of the event that
/// caused it, and is for the key of the primary object that the event is
/// about: the object itself on the primary stream, the related object on
/// the secondary stream.
pub proof fn law_mux_requests(mux: MuxView, input: InputView, now: nat, key: KeyView, due: nat)
    requires
        mux.output(input, now) == OutputView::Enqueue(key, due),
    ensures
        due == now,
        mux.after(input) == mux,
        match input {
            InputView::Primary(changed) => mux.primary is Open && key == changed,
            InputView::Secondary(namespace, target) => {
                &&& mux.secondary is Open
                &&& related(mux.primary_kind, namespace, target) == Some(key)
            },
            InputView::End(_, _) => false,
        },
{
}

} // verus!
