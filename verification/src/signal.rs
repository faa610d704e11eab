//! The wakeup primitive behind which consumers suspend.
//!
//! A queue owns one reference-counted `tokio::sync::Notify`; every consumer
//! that found the queue empty holds a clone of that reference and waits on it
//! outside the shard lock. The primitive is opaque to verification: the
//! contracts below track only the identity of the handle, which is what the
//! missed-wakeup argument needs — the handle a waiter captured under the lock
//! is the very handle a later submission signals.

use std::sync::Arc;
use tokio::sync::Notify;
use vstd::prelude::*;

verus! {

/// tokio's wakeup primitive, declared so that it can stand in fields and
/// signatures. Its value is opaque; nothing about stored permits or waiters
/// is modelled.
#[verifier::external_type_specification]
#[verifier::external_body]
pub struct ExNotify(Notify);

/// Relies on `tokio::sync::Notify::new`: returns a fresh primitive with no
/// stored permit. Nothing is claimed of the returned value.
pub assume_specification[ Notify::new ]() -> Notify;

/// Relies on `tokio::sync::Notify::notify_one`: wakes one waiter, or stores a
/// single permit for the next waiter if none is blocked. A side effect on
/// tasks outside the crate; nothing is claimed of it here.
pub assume_specification[ Notify::notify_one ](n: &Notify);

/// Relies on `std::sync::Arc::clone`: the returned handle refers to the same
/// underlying notifier as the argument, so its value is the argument's value.
#[verifier::external_body]
pub(crate) fn clone_signal(s: &Arc<Notify>) -> (r: Arc<Notify>)
    ensures
        r == *s,
{
    Arc::clone(s)
}

} // verus!
