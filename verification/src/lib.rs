//! The reconciliation core of a cluster-resource controller.
//!
//! The crate turns the change events of two watched resource collections
//! into a deduplicated, delayable sequence of reconciliations:
//!
//! - [`key`]: the identity of a resource;
//! - [`mapper`]: from a secondary object to the primary object it refers to;
//! - [`mux`]: from the events of both watch streams to enqueue requests;
//! - [`queue`]: the work queue, with its model in [`queue_model`];
//! - [`executor`]: the state machine of a worker;
//! - [`policy`]: the retry delay after a failure, and the default reconciliation;
//! - [`controller`]: multiplexer, queue and workers wired together;
//! - [`laws`]: what holds of every queue, worker and multiplexer.
//!
//! The crate does no input or output and owns no clock. Time is a count of
//! milliseconds on a monotonic clock owned by the caller; every operation
//! that depends on the time takes it as an argument. Watching, fetching and
//! reconciling are the caller's part: the crate says what is to be done
//! next and is told what came of it.

pub mod action;
pub mod controller;
pub mod executor;
pub mod key;
pub mod laws;
pub mod mapper;
pub mod mux;
pub mod policy;
pub mod queue;
pub mod queue_model;
