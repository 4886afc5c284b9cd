//! Reconciliation of conflicting replica-held shard metadata.
//!
//! Each shard of a range-partitioned cluster is replicated on several nodes,
//! and each node carries its own view of the shard's key range, replication
//! epoch and member set. After partial failures these views disagree. This
//! library resolves every shard's views to one authoritative record, grades
//! the shard's health, checks that the resolved shards tile the key space,
//! and turns the differences into a per-node repair plan.

pub mod continuity;
pub mod model;
pub mod order;
pub mod plan;
pub mod resolve;
pub mod sorting;
pub mod store;
pub mod util;
