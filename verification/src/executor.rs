//! The reconcile executor: the state machine of one worker.
//!
//! A worker asks the queue for a key, has the object fetched, has it
//! reconciled, and reports the outcome to the queue. Fetching and
//! reconciling are done by the caller: each step of the machine takes what
//! the caller has observed and answers with what the caller is to do next.

use vstd::prelude::*;
use crate::action::Action;
use crate::key::{KeyView, ObjectKey};
use crate::policy::{error_policy, RETRY_DELAY};
use crate::queue::{Polled, QueueItem, WorkQueue};
use crate::queue_model::{ItemView, PollView, QueueView};

verus! {

/// State of one worker.
#[derive(Debug, PartialEq, Eq)]
pub enum Worker {
    /// The worker holds no key.
    Idle,
    /// The worker holds a key and waits for its object to be fetched.
    Fetching(QueueItem),
    /// The worker holds a key and waits for its reconciliation to return.
    Reconciling(QueueItem),
    /// The queue has shut down and the worker has left its loop.
    Stopped,
}

/// What the caller reports to a worker.
#[derive(Debug)]
pub enum Event<E> {
    /// The worker may look for work: it was just started, told to poll, or
    /// its sleep ended.
    Wake,
    /// The object of the held key was looked up: `true` if it exists.
    Fetched(bool),
    /// The reconciliation of the held key returned.
    Reconciled(Result<Action, E>),
}

/// What the caller is to do next for a worker.
#[derive(Debug, PartialEq, Eq)]
pub enum Command {
    /// Fetch the current state of this object and report `Fetched`.
    Fetch(ObjectKey),
    /// Reconcile this object, whose state was just fetched, once, and
    /// report `Reconciled`.
    Reconcile(ObjectKey),
    /// Nothing is due. Report `Wake` at the given time, or earlier if the
    /// queue has changed; without a time, when the queue has changed.
    Sleep(Option<u64>),
    /// Report `Wake` at once.
    Poll,
    /// Leave the loop.
    Exit,
}

pub enum WorkerView {
    Idle,
    Fetching(ItemView),
    Reconciling(ItemView),
    Stopped,
}

/// What an [`Event`] tells the worker. The cause of a failure is not part
/// of it: the core does not look into it.
pub enum Signal {
    Wake,
    Fetched(bool),
    Succeeded(Action),
    Failed,
}

pub enum CommandView {
    Fetch(KeyView),
    Reconcile(KeyView),
    Sleep(Option<nat>),
    Poll,
    Exit,
}

impl View for Worker {
    type V = WorkerView;

    open spec fn view(&self) -> WorkerView {
        match self {
            Worker::Idle => WorkerView::Idle,
            Worker::Fetching(item) => WorkerView::Fetching(item@),
            Worker::Reconciling(item) => WorkerView::Reconciling(item@),
            Worker::Stopped => WorkerView::Stopped,
        }
    }
}

impl<E> View for Event<E> {
    type V = Signal;

    open spec fn view(&self) -> Signal {
        match self {
            Event::Wake => Signal::Wake,
            Event::Fetched(found) => Signal::Fetched(*found),
            Event::Reconciled(Ok(action)) => Signal::Succeeded(*action),
            Event::Reconciled(Err(_)) => Signal::Failed,
        }
    }
}

impl View for Command {
    type V = CommandView;

    open spec fn view(&self) -> CommandView {
        match self {
            Command::Fetch(key) => CommandView::Fetch(key@),
            Command::Reconcile(key) => CommandView::Reconcile(key@),
            Command::Sleep(Some(at)) => CommandView::Sleep(Some(*at as nat)),
            Command::Sleep(None) => CommandView::Sleep(None),
            Command::Poll => CommandView::Poll,
            Command::Exit => CommandView::Exit,
        }
    }
}

/// One step of a worker: the queue, the worker's state and the command
/// that follow from a queue, a state and a signal at time `now`.
pub struct Step {
    pub queue: QueueView,
    pub worker: WorkerView,
    pub command: CommandView,
}

/// The queue after a reconciliation of `key` that succeeded with `action`
/// at `now`: the failure streak is reset, the key is released, and a
/// requested requeue is entered.
pub open spec fn after_success(
    queue: QueueView,
    key: KeyView,
    action: Action,
    now: nat,
) -> QueueView {
    let released = queue.forget(key).done(key, now);
    match action {
        Action::Continue => released,
        Action::RequeueAfter(delay) => released.add_after(key, delay as nat, now),
    }
}

/// The queue after a reconciliation of `key` that failed at `now`: the
/// failure streak grows by one, the key is released, and a retry is entered
/// after `delay`.
pub open spec fn after_failure(queue: QueueView, key: KeyView, delay: nat, now: nat) -> QueueView {
    queue.fail(key).done(key, now).add_after(key, delay, now)
}

/// The queue after the object of `key` was found missing at `now`: as
/// after a success that asks for nothing more.
pub open spec fn after_miss(queue: QueueView, key: KeyView, now: nat) -> QueueView {
    queue.forget(key).done(key, now)
}

/// The command that a worker in state `worker` is waiting to see carried out.
pub open spec fn awaited(worker: WorkerView) -> CommandView {
    match worker {
        WorkerView::Idle => CommandView::Poll,
        WorkerView::Fetching(item) => CommandView::Fetch(item.key),
        WorkerView::Reconciling(item) => CommandView::Reconcile(item.key),
        WorkerView::Stopped => CommandView::Exit,
    }
}

/// The transition function of a worker.
///
/// An idle worker that wakes asks the queue for a key. A worker that holds
/// a key has it fetched, then reconciled, and settles the outcome with the
/// queue. A signal that the state does not await changes nothing, and the
/// awaited command is given again. A stopped worker stays stopped.
pub open spec fn advance(queue: QueueView, worker: WorkerView, signal: Signal, now: nat) -> Step {
    match (worker, signal) {
        (WorkerView::Idle, Signal::Wake) => match queue.poll(now) {
            PollView::Ready(item) => Step {
                queue: queue.get(now),
                worker: WorkerView::Fetching(item),
                command: CommandView::Fetch(item.key),
            },
            PollView::Idle(at) => Step { queue, worker, command: CommandView::Sleep(at) },
            PollView::Shutdown => Step {
                queue,
                worker: WorkerView::Stopped,
                command: CommandView::Exit,
            },
        },
        (WorkerView::Fetching(item), Signal::Fetched(true)) => Step {
            queue,
            worker: WorkerView::Reconciling(item),
            command: CommandView::Reconcile(item.key),
        },
        (WorkerView::Fetching(item), Signal::Fetched(false)) => Step {
            queue: after_miss(queue, item.key, now),
            worker: WorkerView::Idle,
            command: CommandView::Poll,
        },
        (WorkerView::Reconciling(item), Signal::Succeeded(action)) => Step {
            queue: after_success(queue, item.key, action, now),
            worker: WorkerView::Idle,
            command: CommandView::Poll,
        },
        (WorkerView::Reconciling(item), Signal::Failed) => Step {
            queue: after_failure(queue, item.key, RETRY_DELAY as nat, now),
            worker: WorkerView::Idle,
            command: CommandView::Poll,
        },
        _ => Step { queue, worker, command: awaited(worker) },
    }
}

/// Whether the times and counters of a step fit the machine's integers: a
/// requested requeue and a retry must fall due at a representable time, and
/// the failure streak must have room to grow.
pub open spec fn fits(queue: QueueView, worker: WorkerView, signal: Signal, now: nat) -> bool {
    match (worker, signal) {
        (WorkerView::Reconciling(_), Signal::Succeeded(Action::RequeueAfter(delay))) => now + delay
            <= u64::MAX,
        (WorkerView::Reconciling(item), Signal::Failed) => now + RETRY_DELAY <= u64::MAX
            && queue.attempt(item.key) < u64::MAX,
        _ => true,
    }
}

impl Worker {
    /// A worker that holds no key.
    pub fn new() -> (worker: Worker)
        ensures
            worker@ == WorkerView::Idle,
    {
        Worker::Idle
    }

    /// Takes one step: applies `event`, observed at `now`, to the worker
    /// and the queue, and answers with the next state and what the caller
    /// is to do next.
    pub fn step<E>(
        self,
        queue: &mut WorkQueue,
        event: Event<E>,
        now: u64,
    ) -> (next: (Worker, Command))
        requires
            fits(old(queue)@, self@, event@, now as nat),
        ensures
            final(queue)@ == advance(old(queue)@, self@, event@, now as nat).queue,
            next.0@ == advance(old(queue)@, self@, event@, now as nat).worker,
            next.1@ == advance(old(queue)@, self@, event@, now as nat).command,
    {
        match (self, event) {
            (Worker::Idle, Event::Wake) => match queue.get(now) {
                Polled::Ready(item) => {
                    let key = item.key.clone();
                    (Worker::Fetching(item), Command::Fetch(key))
                },
                Polled::Idle(at) => (Worker::Idle, Command::Sleep(at)),
                Polled::Shutdown => (Worker::Stopped, Command::Exit),
            },
            (Worker::Fetching(item), Event::Fetched(true)) => {
                let key = item.key.clone();
                (Worker::Reconciling(item), Command::Reconcile(key))
            },
            (Worker::Fetching(item), Event::Fetched(false)) => {
                queue.forget(&item.key);
                queue.done(&item.key, now);
                (Worker::Idle, Command::Poll)
            },
            (Worker::Reconciling(item), Event::Reconciled(Ok(action))) => {
                queue.forget(&item.key);
                queue.done(&item.key, now);
                match action {
                    Action::Continue => {},
                    Action::RequeueAfter(delay) => {
                        queue.add_after(&item.key, delay, now);
                    },
                }
                (Worker::Idle, Command::Poll)
            },
            (Worker::Reconciling(item), Event::Reconciled(Err(error))) => {
                let attempt = queue.attempts(&item.key);
                let delay = error_policy(&item.key, &error, attempt);
                queue.fail(&item.key);
                queue.done(&item.key, now);
                queue.add_after(&item.key, delay, now);
                (Worker::Idle, Command::Poll)
            },
            (Worker::Idle, _) => {
                (Worker::Idle, Command::Poll)
            },
            (Worker::Fetching(item), _) => {
                let key = item.key.clone();
                (Worker::Fetching(item), Command::Fetch(key))
            },
            (Worker::Reconciling(item), _) => {
                let key = item.key.clone();
                (Worker::Reconciling(item), Command::Reconcile(key))
            },
            (Worker::Stopped, _) => {
                (Worker::Stopped, Command::Exit)
            },
        }
    }
}

} // verus!
