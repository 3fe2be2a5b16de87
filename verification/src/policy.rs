//! The default reconciliation and the policy that turns a failure into a
//! retry delay.

use vstd::prelude::*;
use crate::action::{Action, Error};
use crate::key::ObjectKey;

verus! {

/// Delay before a failed reconciliation is retried, in milliseconds.
pub const RETRY_DELAY: u64 = 5_000;

/// Interval after which a reconciled object is looked at again even if
/// nothing was seen to change, in milliseconds.
pub const RESYNC_INTERVAL: u64 = 3_600_000;

/// Delay before `key` is reconciled again after `error`, given that it had
/// failed `attempt` times in a row before. The delay is fixed: it depends
/// neither on the key, nor on the error, nor on the number of failures.
pub fn error_policy<E>(key: &ObjectKey, error: &E, attempt: u64) -> (delay: u64)
    ensures
        delay == RETRY_DELAY,
{
    RETRY_DELAY
}

/// Reconciles the object `key`: there is nothing to change, and the object
/// is to be looked at again after the resync interval.
pub fn reconcile(key: &ObjectKey) -> (outcome: Result<Action, Error>)
    ensures
        outcome == Ok::<Action, Error>(Action::RequeueAfter(RESYNC_INTERVAL)),
{
    Ok(Action::RequeueAfter(RESYNC_INTERVAL))
}

} // verus!
