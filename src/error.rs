//! Errors that can occur when inserting into the tiers of the tree.
use vstd::prelude::*;
use crate::tree::{Block, Epoch};

verus! {

/// An error occurred when trying to insert a commitment.
#[derive(Debug, Clone, Copy, PartialEq, Eq)]
pub enum InsertError {
    /// The eternity was full.
    Full,
    /// The most recent epoch was full.
    EpochFull,
    /// The most recent epoch was forgotten.
    EpochForgotten,
    /// The most recent block of the most recent epoch was full.
    BlockFull,
    /// The most recent block of the most recent epoch was forgotten.
    BlockForgotten,
}

/// An error occurred when trying to insert a sealed block; the block is handed
/// back.
#[derive(Debug, Clone, PartialEq, Eq)]
pub enum InsertBlockError {
    /// The eternity was full.
    Full(Block),
    /// The most recent epoch was full.
    EpochFull(Block),
    /// The most recent epoch was forgotten.
    EpochForgotten(Block),
}

impl InsertBlockError {
    /// The block that could not be inserted.
    pub fn into_block(self) -> (r: Block)
        ensures
            r == match self {
                InsertBlockError::Full(b) => b,
                InsertBlockError::EpochFull(b) => b,
                InsertBlockError::EpochForgotten(b) => b,
            },
    {
        match self {
            InsertBlockError::Full(block) => block,
            InsertBlockError::EpochFull(block) => block,
            InsertBlockError::EpochForgotten(block) => block,
        }
    }
}

/// An error occurred when trying to insert the root of a block.
#[derive(Debug, Clone, Copy, PartialEq, Eq)]
pub enum InsertBlockRootError {
    /// The eternity was full.
    Full,
    /// The most recent epoch was full.
    EpochFull,
    /// The most recent epoch was forgotten.
    EpochForgotten,
}

/// The eternity was full when trying to insert a sealed epoch, which is handed
/// back.
#[derive(Debug, Clone, PartialEq, Eq)]
pub struct InsertEpochError(pub Epoch);

impl InsertEpochError {
    /// The epoch that could not be inserted.
    pub fn into_epoch(self) -> (r: Epoch)
        ensures
            r == self.0,
    {
        self.0
    }
}

/// The eternity was full when trying to insert the root of an epoch.
#[derive(Debug, Clone, Copy, PartialEq, Eq)]
pub struct InsertEpochRootError;

} // verus!
