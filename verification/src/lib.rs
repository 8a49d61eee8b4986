//! Storage engine for the block tree, shared state trie and consensus
//! metadata of a blockchain full node.
//!
//! The engine keeps the whole chain state as plain tables: block rows, trie
//! node rows, trie child edges, trie storage values and a small set of meta
//! fields. Every public operation is specified by a contract and verified.
//! Durability (reading the tables from disk and writing them back) is the
//! caller's concern and lives outside this crate.

pub mod babe_codec;
pub mod blocks;
pub mod bytes;
pub mod chain_info;
pub mod consensus;
pub mod errors;
pub mod finality;
pub mod missing;
pub mod next_key;
pub mod pruner;
pub mod queries;
pub mod tables;
pub mod trie;
