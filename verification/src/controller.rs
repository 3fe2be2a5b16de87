//! The controller: a multiplexer, a work queue and a pool of workers wired
//! together.
//!
//! The caller reads the two watch streams, fetches objects and runs the
//! reconciliations. It hands every stream input to [`Controller::observe`]
//! and every worker event to [`Controller::drive`], and carries out the
//! command that `drive` answers with.

use vstd::prelude::*;
use crate::executor::{advance, fits, Command, Event, Worker, WorkerView};
use crate::laws::{exclusive, law_workers_exclusive};
use crate::mapper::RelationMapper;
use crate::mux::{Input, Multiplexer, MuxView, Output, OutputView, Stream};
use crate::queue::WorkQueue;
use crate::queue_model::QueueView;

verus! {

/// The reconciliation core of one controller.
pub struct Controller {
    mux: Multiplexer,
    queue: WorkQueue,
    workers: Vec<Worker>,
    resync_interval: u64,
}

/// The queue after the multiplexer has answered an input with `output`:
/// a requested key is added, and the queue is closed once the controller is
/// stopped.
pub open spec fn fed(queue: QueueView, output: OutputView) -> QueueView {
    match output {
        OutputView::Enqueue(key, not_before) => queue.add(key, not_before),
        OutputView::Stopped { fatal } => queue.close(),
        _ => queue,
    }
}

impl Controller {
    /// The invariant of the controller: the queue is well formed, every key
    /// that a worker holds is in flight, and no two workers hold the same
    /// key. It holds of a new controller, and every operation keeps it.
    pub open spec fn sound(&self) -> bool {
        self.queue().wf() && exclusive(self.queue(), self.workers())
    }

    /// State of the multiplexer.
    pub closed spec fn mux(&self) -> MuxView {
        self.mux@
    }

    /// State of the work queue.
    pub closed spec fn queue(&self) -> QueueView {
        self.queue@
    }

    /// States of the workers.
    pub closed spec fn workers(&self) -> Seq<WorkerView> {
        self.workers@.map_values(|w: Worker| w@)
    }

    /// The configured resync interval.
    pub closed spec fn resync(&self) -> u64 {
        self.resync_interval
    }

    /// A controller for primary objects of kind `primary_kind` with a pool
    /// of `workers` idle workers, both streams running and an empty queue.
    /// A pool has at least one worker: with none there is no controller.
    pub fn new(
        primary_kind: &str,
        workers: usize,
        resync_interval: u64,
    ) -> (made: Option<Controller>)
        ensures
            made.is_some() == (workers >= 1),
            made matches Some(c) ==> {
                &&& c.mux() == (MuxView {
                    primary_kind: primary_kind@,
                    primary: Stream::Open,
                    secondary: Stream::Open,
                })
                &&& c.queue() == QueueView::empty()
                &&& c.workers() == Seq::new(workers as nat, |i: int| WorkerView::Idle)
                &&& c.resync() == resync_interval
                &&& c.sound()
            },
    {
        if workers == 0 {
            return None;
        }
        let mut pool: Vec<Worker> = Vec::new();
        let mut i: usize = 0;
        while i < workers
            invariant
                i <= workers,
                pool.len() == i,
                forall|j: int| 0 <= j < i ==> (#[trigger] pool[j])@ == WorkerView::Idle,
            decreases workers - i,
        {
            pool.push(Worker::new());
            i += 1;
        }
        let made = Controller {
            mux: Multiplexer::new(RelationMapper::new(primary_kind)),
            queue: WorkQueue::new(),
            workers: pool,
            resync_interval,
        };
        assert(made.workers() =~= Seq::new(workers as nat, |i: int| WorkerView::Idle));
        Some(made)
    }

    /// Number of workers in the pool.
    pub fn pool_size(&self) -> (n: usize)
        ensures
            n == self.workers().len(),
    {
        self.workers.len()
    }

    /// Interval after which the watch source is to list all primary
    /// objects again, in milliseconds.
    pub fn resync_interval(&self) -> (interval: u64)
        ensures
            interval == self.resync(),
    {
        self.resync_interval
    }

    /// The work queue, to look at.
    pub fn work_queue(&self) -> (queue: &WorkQueue)
        ensures
            queue@ == self.queue(),
    {
        &self.queue
    }

    /// Takes one input of the watch streams, observed at `now`: the
    /// multiplexer turns it into a request, a requested key is added to the
    /// queue, and the queue is closed once both streams have terminated.
    pub fn observe<T>(&mut self, input: &Input<T>, now: u64) -> (output: Output)
        ensures
            output@ == old(self).mux().output(input@, now as nat),
            final(self).mux() == old(self).mux().after(input@),
            final(self).queue() == fed(old(self).queue(), output@),
            final(self).workers() == old(self).workers(),
            final(self).resync() == old(self).resync(),
            old(self).sound() ==> final(self).sound(),
    {
        let output = self.mux.accept(input, now);
        match &output {
            Output::Enqueue(request) => {
                self.queue.add(&request.key, request.not_before);
            },
            Output::Stopped { fatal: _ } => {
                self.queue.close();
            },
            _ => {},
        }
        output
    }

    /// Hands `event`, observed at `now`, to worker `worker` and answers
    /// with what the caller is to do next for it; `None` if the pool has no
    /// such worker, in which case nothing changes.
    pub fn drive<E>(
        &mut self,
        worker: usize,
        event: Event<E>,
        now: u64,
    ) -> (command: Option<Command>)
        requires
            worker < old(self).workers().len() ==> fits(
                old(self).queue(),
                old(self).workers()[worker as int],
                event@,
                now as nat,
            ),
        ensures
            command.is_some() == (worker < old(self).workers().len()),
            command matches Some(c) ==> {
                let step = advance(
                    old(self).queue(),
                    old(self).workers()[worker as int],
                    event@,
                    now as nat,
                );
                &&& c@ == step.command
                &&& final(self).queue() == step.queue
                &&& final(self).workers() == old(self).workers().update(worker as int, step.worker)
            },
            command.is_none() ==> final(self).queue() == old(self).queue() && final(self).workers()
                == old(self).workers(),
            final(self).mux() == old(self).mux(),
            final(self).resync() == old(self).resync(),
            old(self).sound() ==> final(self).sound(),
    {
        if worker >= self.workers.len() {
            return None;
        }
        proof {
            if self.sound() {
                law_workers_exclusive(
                    self.queue(),
                    self.workers(),
                    worker as int,
                    event@,
                    now as nat,
                );
            }
        }
        let state = self.workers.remove(worker);
        let (next, command) = state.step(&mut self.queue, event, now);
        self.workers.insert(worker, next);
        assert(self.workers() =~= old(self).workers().update(
            worker as int,
            advance(old(self).queue(), old(self).workers()[worker as int], event@, now as nat).worker,
        ));
        Some(command)
    }
}

} // verus!
