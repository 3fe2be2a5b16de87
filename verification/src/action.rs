//! What a reconciliation reports back.

use vstd::prelude::*;

verus! {

/// Outcome of a successful reconciliation.
#[derive(Clone, Copy, Debug, PartialEq, Eq)]
pub enum Action {
    /// Nothing further is scheduled for the key.
    Continue,
    /// Reconcile the same key again no sooner than this many milliseconds
    /// from now. Zero means as soon as the queue allows.
    RequeueAfter(u64),
}

/// Failure of a reconciliation. No failure is defined: the reconciliation
/// that this crate provides cannot fail, and the core treats the failure of
/// any other as an opaque signal. The one variant cannot be built; it stands
/// here because the verifier wants an enumeration to have a variant.
#[derive(Debug)]
pub enum Error {
    Never(core::convert::Infallible),
}

} // verus!
