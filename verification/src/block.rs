//! The parts of a consensus block that leader election reads: its round,
//! its timestamp, and, for a proposal, its payload and author.

use vstd::prelude::*;
use crate::types::{Author, Round};

verus! {

/// What kind of block a block is.
#[derive(Clone, Debug, PartialEq, Eq)]
pub enum BlockType<T> {
    /// A block proposed by a validator, carrying a payload.
    Proposal { payload: T, author: Author },
    /// A block that validators create when a round times out; it has no
    /// author.
    NilBlock,
    /// The first block of an epoch; it has no author.
    Genesis,
}

/// A consensus block.
#[derive(Clone, Debug, PartialEq, Eq)]
pub struct Block<T> {
    pub round: Round,
    pub timestamp_usecs: u64,
    pub block_type: BlockType<T>,
}

impl<T> Block<T> {
    /// The author of the block: that of a proposal, none for the others.
    pub open spec fn spec_author(&self) -> Option<Author> {
        match self.block_type {
            BlockType::Proposal { author, .. } => Some(author),
            _ => None,
        }
    }

    /// A proposal of `payload` by `author` for `round`.
    pub fn new_proposal(payload: T, round: Round, timestamp_usecs: u64, author: Author) -> (b: Self)
        ensures
            b.round == round,
            b.timestamp_usecs == timestamp_usecs,
            b.block_type == (BlockType::Proposal { payload, author }),
    {
        Block { round, timestamp_usecs, block_type: BlockType::Proposal { payload, author } }
    }

    /// A nil block for `round`.
    pub fn new_nil(round: Round, timestamp_usecs: u64) -> (b: Self)
        ensures
            b.round == round,
            b.timestamp_usecs == timestamp_usecs,
            b.block_type == BlockType::<T>::NilBlock,
    {
        Block { round, timestamp_usecs, block_type: BlockType::NilBlock }
    }

    /// The round of the block.
    pub fn round(&self) -> (r: Round)
        ensures
            r == self.round,
    {
        self.round
    }

    /// The author of the block, if it is a proposal.
    pub fn author(&self) -> (r: Option<Author>)
        ensures
            r == self.spec_author(),
    {
        match &self.block_type {
            BlockType::Proposal { author, .. } => Some(*author),
            _ => None,
        }
    }
}

} // verus!
