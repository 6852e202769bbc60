//! Periodic snapshots of storage volumes, pruned by multi-tier retention rules.
//!
//! The verified core decides, from a policy and the current snapshot listing
//! of a volume, which snapshots may be destroyed and how long until the next
//! snapshot is due. Everything here is a pure function of its arguments; the
//! clock is read only through the functions that say so.
pub mod checker;
mod clock;
pub mod laws;
pub mod listing;
pub mod parse;
pub mod policy;
pub mod remote;
pub mod rule;
pub mod schedule;
pub mod snapshot;

pub use policy::{Judgement, RetentionPolicy};
pub use rule::RetentionRule;
pub use snapshot::SnapshotMetadata;
