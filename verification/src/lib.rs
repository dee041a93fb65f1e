//! A verifiable append-only ledger with query acceleration: Bloom-filtered
//! Merkle trees for membership evidence, a piecewise-linear learned index
//! over block timestamps, per-block ordered indexes, and an adaptive index
//! selector driven by recent workload.

pub mod bandit;
pub mod bitset;
pub mod block;
pub mod bmt;
pub mod bloom;
pub mod codec;
pub mod digest;
pub mod hashes;
pub mod inter;
pub mod manager;
pub mod intra;
pub mod query;
pub mod store;
pub mod errors;

use vstd::prelude::*;

verus! {

/// Block identifiers are dense small integers assigned in ingest order.
pub type IdType = u64;

/// Timestamps are integral; every transaction of a block carries the
/// block's timestamp.
pub type TsType = u64;

} // verus!
