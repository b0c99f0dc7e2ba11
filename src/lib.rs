//! A tiered commitment tree: an append-only quaternary Merkle tree of
//! commitments, in three tiers (blocks of commitments, epochs of blocks, and an
//! eternity of epochs), with incremental roots, witnesses and forgetting.
pub mod hash;
pub mod three;
pub mod tier;
pub mod error;
pub mod tree;
pub mod compose;
