//! Error taxonomy of the storage engine.
//!
//! Expected failures (duplicate block, missing parent, unknown block,
//! incomplete storage) are surfaced to the caller and never retried.
//! `CorruptedError` describes content that a well-formed store can never
//! hold; the only sane reaction to it is to stop or to rebuild the store.

use vstd::prelude::*;

verus! {

/// The content of the store is incoherent.
#[derive(Debug, Clone, Copy, PartialEq, Eq)]
pub enum CorruptedError {
    /// A number that must be non-zero (or must fit the storage column) is not.
    InvalidNumber,
    /// The finalized block number doesn't match any block.
    InvalidFinalizedNum,
    /// A block hash is expected to be 32 bytes and is not.
    InvalidBlockHashLen,
    /// A trie node hash is expected to be 32 bytes and is not.
    InvalidTrieHashLen,
    /// Values are well-formed individually but incoherent together.
    InvalidChainInformation,
    /// The parent of a block couldn't be found in the store.
    BrokenChain,
    /// A required meta field is unset.
    MissingMetaKey,
    /// A block referred to by hash has no row.
    MissingBlockHeader,
    /// A stored header is self-contradictory.
    BlockHeaderCorrupted,
    /// Several consensus algorithms are mixed within the store.
    ConsensusAlgorithmMix,
    /// A stored BABE epoch blob failed to decode.
    InvalidBabeEpochInformation,
    /// A stored trie entry version doesn't fit a byte.
    InvalidTrieEntryVersion,
}

/// Error while inserting a block.
#[derive(Debug, Clone, Copy, PartialEq, Eq)]
pub enum InsertError {
    /// The store is corrupted.
    Corrupted(CorruptedError),
    /// The block is already in the store.
    Duplicate,
    /// The header of the block to insert doesn't decode; raised by the
    /// caller that decodes headers, never by the engine itself.
    BadHeader,
    /// The parent of the block isn't in the store.
    MissingParent,
    /// The new best block would be outside of the finalized chain.
    BestNotInFinalizedChain,
}

/// Error while moving the finalized block forward.
#[derive(Debug, Clone, Copy, PartialEq, Eq)]
pub enum SetFinalizedError {
    /// The store is corrupted.
    Corrupted(CorruptedError),
    /// The block to finalize isn't in the store.
    UnknownBlock,
    /// The block to finalize is below the current finalized block.
    RevertForbidden,
}

/// Error while reading the storage of a block.
#[derive(Debug, Clone, Copy, PartialEq, Eq)]
pub enum StorageAccessError {
    /// The store is corrupted.
    Corrupted(CorruptedError),
    /// Trie nodes needed for the request are absent from the store.
    IncompleteStorage,
    /// The requested block isn't in the store.
    UnknownBlock,
}

} // verus!
