//! The event multiplexer: from the change events of two watch streams to
//! one sequence of enqueue requests.
//!
//! The two streams are read by the caller, which hands each event over in
//! the order in which it arrived. The multiplexer turns an event of the
//! primary stream into a request for the key of the object that changed,
//! and an event of the secondary stream into a request for the key that the
//! relation mapper derives from it, if any. It removes no duplicates: that
//! is the work queue's part.

use vstd::prelude::*;
use crate::key::{KeyView, ObjectKey};
use crate::mapper::{related, RelationMapper, SecondaryObject};

verus! {

/// What happened to the object of a change event.
#[derive(Clone, Copy, Debug, PartialEq, Eq)]
pub enum ChangeKind {
    Added,
    Modified,
    Deleted,
}

/// A change to one object, as a watch stream reports it.
#[derive(Debug)]
pub struct ChangeEvent<T> {
    pub key: ObjectKey,
    pub payload: T,
    pub kind: ChangeKind,
}

/// A request to enqueue `key`, due at `not_before`.
#[derive(Debug, PartialEq, Eq)]
pub struct EnqueueRequest {
    pub key: ObjectKey,
    pub not_before: u64,
}

/// One of the two watch streams.
#[derive(Clone, Copy, Debug, PartialEq, Eq)]
pub enum Source {
    Primary,
    Secondary,
}

/// How a watch stream came to its end.
#[derive(Clone, Copy, Debug, PartialEq, Eq)]
pub enum Cause {
    /// The source is exhausted: a graceful end.
    Exhausted,
    /// The transport failed beyond recovery.
    Fatal,
}

/// Whether a watch stream still runs.
#[derive(Clone, Copy, Debug, PartialEq, Eq)]
pub enum Stream {
    Open,
    Ended(Cause),
}

/// What a watch stream delivers.
#[derive(Debug)]
pub enum Input<T> {
    /// A primary object changed.
    Primary(ChangeEvent<T>),
    /// A secondary object changed.
    Secondary(ChangeEvent<SecondaryObject>),
    /// A stream has terminated.
    End(Source, Cause),
}

/// What the multiplexer makes of one input.
#[derive(Debug, PartialEq, Eq)]
pub enum Output {
    /// The key is to be enqueued.
    Enqueue(EnqueueRequest),
    /// The input asks for no work.
    Nothing,
    /// The named stream has failed beyond recovery while the other still
    /// runs: a condition for the caller to report.
    Failed(Source),
    /// Both streams have terminated and the controller is stopped;
    /// `fatal` tells whether either of them failed.
    Stopped { fatal: bool },
}

/// What an [`Input`] tells the multiplexer: the key of a primary event,
/// the namespace and cross-reference of a secondary event, or the end of a
/// stream.
pub enum InputView {
    Primary(KeyView),
    Secondary(Seq<char>, Option<(Seq<char>, Seq<char>)>),
    End(Source, Cause),
}

pub enum OutputView {
    Enqueue(KeyView, nat),
    Nothing,
    Failed(Source),
    Stopped { fatal: bool },
}

impl<T> View for Input<T> {
    type V = InputView;

    open spec fn view(&self) -> InputView {
        match self {
            Input::Primary(event) => InputView::Primary(event.key@),
            Input::Secondary(event) => InputView::Secondary(
                event.payload.namespace@,
                event.payload.target_view(),
            ),
            Input::End(source, cause) => InputView::End(*source, *cause),
        }
    }
}

impl View for Output {
    type V = OutputView;

    open spec fn view(&self) -> OutputView {
        match self {
            Output::Enqueue(request) => OutputView::Enqueue(
                request.key@,
                request.not_before as nat,
            ),
            Output::Nothing => OutputView::Nothing,
            Output::Failed(source) => OutputView::Failed(*source),
            Output::Stopped { fatal } => OutputView::Stopped { fatal: *fatal },
        }
    }
}

/// State of the multiplexer: the configured primary kind and the state of
/// each stream.
pub struct MuxView {
    pub primary_kind: Seq<char>,
    pub primary: Stream,
    pub secondary: Stream,
}

impl MuxView {
    /// Both streams have terminated.
    pub open spec fn terminated(self) -> bool {
        self.primary is Ended && self.secondary is Ended
    }

    /// A stream has failed beyond recovery.
    pub open spec fn failed(self) -> bool {
        self.primary == Stream::Ended(Cause::Fatal) || self.secondary == Stream::Ended(
            Cause::Fatal,
        )
    }

    /// The state of the given stream.
    pub open spec fn stream(self, source: Source) -> Stream {
        match source {
            Source::Primary => self.primary,
            Source::Secondary => self.secondary,
        }
    }

    /// The state after `input`: the end of a stream that still runs is
    /// recorded with its cause; nothing else changes the state.
    pub open spec fn after(self, input: InputView) -> MuxView {
        match input {
            InputView::End(Source::Primary, cause) if self.primary is Open => MuxView {
                primary: Stream::Ended(cause),
                ..self
            },
            InputView::End(Source::Secondary, cause) if self.secondary is Open => MuxView {
                secondary: Stream::Ended(cause),
                ..self
            },
            _ => self,
        }
    }

    /// What the multiplexer makes of `input` at `now`.
    ///
    /// An event of a stream that runs gives a request due at `now`: for the
    /// key of the event on the primary stream, for the related primary key
    /// on the secondary stream, where there is one. An event of a stream
    /// that has terminated is dropped. The end of a stream gives `Stopped`
    /// once both have terminated, and `Failed` if a running stream ends with
    /// a fatal error while the other still runs.
    pub open spec fn output(self, input: InputView, now: nat) -> OutputView {
        match input {
            InputView::Primary(key) => {
                if self.primary is Open {
                    OutputView::Enqueue(key, now)
                } else {
                    OutputView::Nothing
                }
            },
            InputView::Secondary(namespace, target) => {
                if self.secondary is Open {
                    match related(self.primary_kind, namespace, target) {
                        Some(key) => OutputView::Enqueue(key, now),
                        None => OutputView::Nothing,
                    }
                } else {
                    OutputView::Nothing
                }
            },
            InputView::End(source, cause) => {
                if self.after(input).terminated() {
                    OutputView::Stopped { fatal: self.after(input).failed() }
                } else if self.stream(source) is Open && cause == Cause::Fatal {
                    OutputView::Failed(source)
                } else {
                    OutputView::Nothing
                }
            },
        }
    }
}

/// Merges the primary and the secondary watch stream into enqueue requests.
pub struct Multiplexer {
    mapper: RelationMapper,
    primary: Stream,
    secondary: Stream,
}

impl View for Multiplexer {
    type V = MuxView;

    closed spec fn view(&self) -> MuxView {
        MuxView {
            primary_kind: self.mapper.primary_kind(),
            primary: self.primary,
            secondary: self.secondary,
        }
    }
}

impl Multiplexer {
    /// A multiplexer over two running streams that maps secondary objects
    /// with `mapper`.
    pub fn new(mapper: RelationMapper) -> (mux: Multiplexer)
        ensures
            mux@ == (MuxView {
                primary_kind: mapper.primary_kind(),
                primary: Stream::Open,
                secondary: Stream::Open,
            }),
    {
        Multiplexer { mapper, primary: Stream::Open, secondary: Stream::Open }
    }

    /// Whether both streams have terminated.
    pub fn is_terminated(&self) -> (b: bool)
        ensures
            b == self@.terminated(),
    {
        !matches!(self.primary, Stream::Open) && !matches!(self.secondary, Stream::Open)
    }

    /// Whether a stream has failed beyond recovery.
    pub fn has_failed(&self) -> (b: bool)
        ensures
            b == self@.failed(),
    {
        matches!(self.primary, Stream::Ended(Cause::Fatal)) || matches!(
            self.secondary,
            Stream::Ended(Cause::Fatal)
        )
    }

    /// Takes one input, observed at `now`, and says what follows from it.
    pub fn accept<T>(&mut self, input: &Input<T>, now: u64) -> (output: Output)
        ensures
            final(self)@ == old(self)@.after(input@),
            output@ == old(self)@.output(input@, now as nat),
    {
        match input {
            Input::Primary(event) => {
                if matches!(self.primary, Stream::Open) {
                    Output::Enqueue(EnqueueRequest { key: event.key.clone(), not_before: now })
                } else {
                    Output::Nothing
                }
            },
            Input::Secondary(event) => {
                if matches!(self.secondary, Stream::Open) {
                    match self.mapper.map(&event.payload) {
                        Some(key) => Output::Enqueue(EnqueueRequest { key, not_before: now }),
                        None => Output::Nothing,
                    }
                } else {
                    Output::Nothing
                }
            },
            Input::End(source, cause) => {
                let ran = match source {
                    Source::Primary => matches!(self.primary, Stream::Open),
                    Source::Secondary => matches!(self.secondary, Stream::Open),
                };
                if ran {
                    match source {
                        Source::Primary => {
                            self.primary = Stream::Ended(*cause);
                        },
                        Source::Secondary => {
                            self.secondary = Stream::Ended(*cause);
                        },
                    }
                }
                if self.is_terminated() {
                    Output::Stopped { fatal: self.has_failed() }
                } else if ran && matches!(cause, Cause::Fatal) {
                    Output::Failed(*source)
                } else {
                    Output::Nothing
                }
            },
        }
    }
}

} // verus!
