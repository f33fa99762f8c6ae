//! Duplicate-file detection core: content digests, deterministic grouping
//! by digest, survivor selection, and the reclaimable-space accounting.
pub mod hashing;
pub mod order;
pub mod plan;
pub mod record;
