//! An in-process broker that matches asynchronously produced work items to
//! consumers by a selector key.
//!
//! The heart of the crate is [`hub::Hub`]: a fixed array of shards, each a
//! selector-to-queue table behind one lock in the embedding program, with
//! bounded FIFO backlogs, wakeup handles for suspended consumers, and a
//! background sweep that evicts stale items. All queue and routing logic is
//! verified; the wakeup primitive itself (tokio's `Notify`) and the shard
//! locks are supplied by the embedding program.
//!
//! [`repo`] holds the registration-record model: the engine record shape and
//! the secret check that collapses "absent" and "wrong secret" into one
//! outcome. The store lookup itself stays outside the crate.

pub mod hub;
pub mod queue;
pub mod repo;
pub mod shard;
pub mod signal;
