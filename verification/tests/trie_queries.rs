//! The trie store and query engine: point lookups, next-key search,
//! closest descendants, idempotent insertion and the missing-node report.

use chain_db::blocks::BlockDesc;
use chain_db::chain_info::{ChainInformation, ChainInformationConsensus, ChainInformationFinality};
use chain_db::consensus::DigestInfo;
use chain_db::tables::ChainDb;
use chain_db::trie::{InsertTrieNode, InsertTrieNodeStorageValue};

fn h(b: u8) -> Vec<u8> {
    vec![b; 32]
}

fn no_children() -> Vec<Option<Vec<u8>>> {
    let mut v: Vec<Option<Vec<u8>>> = Vec::new();
    for _ in 0..16 {
        v.push(None);
    }
    v
}

/// A store whose single block's state is one trie node with partial key
/// `[1, 2]` holding value `[7, 7]` at version 1.
fn db_with_leaf() -> ChainDb {
    let mut db = ChainDb::empty();
    let ci = ChainInformation {
        finalized_block: BlockDesc {
            hash: h(0x00),
            parent_hash: h(0xff),
            number: 0,
            state_trie_root: h(0xa0),
            scale_encoded_header: vec![0],
            digest: DigestInfo::empty(),
        },
        consensus: ChainInformationConsensus::Unknown,
        finality: ChainInformationFinality::Outsourced,
    };
    db.reset(ci, Vec::new(), None).unwrap();
    let node = InsertTrieNode {
        merkle_value: h(0xa0),
        partial_key_nibbles: vec![1, 2],
        children_merkle_values: no_children(),
        storage_value: InsertTrieNodeStorageValue::Value {
            value: vec![7, 7],
            references_merkle_value: false,
        },
    };
    db.insert_trie_nodes(vec![node], 1).unwrap();
    db
}

#[test]
fn point_lookup_finds_the_leaf() {
    let db = db_with_leaf();
    let r = db.block_storage_get(&h(0x00), Vec::new(), vec![1, 2]).unwrap();
    assert_eq!(r, Some((vec![7, 7], 1)));
}

#[test]
fn point_lookup_misses_other_keys() {
    let db = db_with_leaf();
    assert_eq!(db.block_storage_get(&h(0x00), Vec::new(), vec![1, 3]).unwrap(), None);
    assert_eq!(db.block_storage_get(&h(0x00), Vec::new(), vec![1]).unwrap(), None);
    assert_eq!(
        db.block_storage_get(&h(0x00), Vec::new(), vec![1, 2, 4]).unwrap(),
        None
    );
}

#[test]
fn next_key_from_empty_key_is_the_leaf() {
    let db = db_with_leaf();
    let r = db
        .block_storage_next_key(&h(0x00), Vec::new(), Vec::new(), Vec::new(), true)
        .unwrap();
    assert_eq!(r, Some(vec![1, 2]));
}

#[test]
fn next_key_past_the_leaf_is_none() {
    let db = db_with_leaf();
    let r = db
        .block_storage_next_key(&h(0x00), Vec::new(), vec![1, 3], Vec::new(), true)
        .unwrap();
    assert_eq!(r, None);
}

#[test]
fn closest_descendant_of_prefixes() {
    let db = db_with_leaf();
    assert_eq!(
        db.block_storage_closest_descendant_merkle_value(&h(0x00), Vec::new(), vec![1])
            .unwrap(),
        Some(h(0xa0))
    );
    assert_eq!(
        db.block_storage_closest_descendant_merkle_value(&h(0x00), Vec::new(), vec![2])
            .unwrap(),
        None
    );
}

#[test]
fn trie_insertion_is_idempotent() {
    let mut db = db_with_leaf();
    let node = InsertTrieNode {
        merkle_value: h(0xa0),
        partial_key_nibbles: vec![1, 2],
        children_merkle_values: no_children(),
        storage_value: InsertTrieNodeStorageValue::Value {
            value: vec![9, 9],
            references_merkle_value: false,
        },
    };
    // a second insertion of the same node keeps the first contents
    db.insert_trie_nodes(vec![node], 1).unwrap();
    assert_eq!(db.trie_nodes.len(), 1);
    assert_eq!(db.trie_storage.len(), 1);
    let r = db.block_storage_get(&h(0x00), Vec::new(), vec![1, 2]).unwrap();
    assert_eq!(r, Some((vec![7, 7], 1)));
}

#[test]
fn two_level_trie_lookup_and_next_key() {
    let mut db = db_with_leaf();
    // graft a branch: root a0 gets child 3 -> b0 with partial key [5]
    let mut children = no_children();
    children[3] = Some(h(0xb0));
    let root = InsertTrieNode {
        merkle_value: h(0xa0),
        partial_key_nibbles: vec![1, 2],
        children_merkle_values: children,
        storage_value: InsertTrieNodeStorageValue::NoValue,
    };
    let leaf = InsertTrieNode {
        merkle_value: h(0xb0),
        partial_key_nibbles: vec![5],
        children_merkle_values: no_children(),
        storage_value: InsertTrieNodeStorageValue::Value {
            value: vec![8],
            references_merkle_value: false,
        },
    };
    db.insert_trie_nodes(vec![root, leaf], 1).unwrap();
    assert_eq!(
        db.block_storage_get(&h(0x00), Vec::new(), vec![1, 2, 3, 5]).unwrap(),
        Some((vec![8], 1))
    );
    // the next acceptable key after [1, 2, 3] is the deep leaf
    let r = db
        .block_storage_next_key(&h(0x00), Vec::new(), vec![1, 2, 3], Vec::new(), false)
        .unwrap();
    assert_eq!(r, Some(vec![1, 2, 3, 5]));
}

#[test]
fn missing_nodes_are_reported() {
    let mut db = db_with_leaf();
    // reference a child that is never inserted
    let mut children = no_children();
    children[3] = Some(h(0xb0));
    let root = InsertTrieNode {
        merkle_value: h(0xa0),
        partial_key_nibbles: vec![1, 2],
        children_merkle_values: children,
        storage_value: InsertTrieNodeStorageValue::NoValue,
    };
    db.insert_trie_nodes(vec![root], 1).unwrap();
    let missing = db.finalized_and_above_missing_trie_nodes_unordered().unwrap();
    assert_eq!(missing.len(), 1);
    assert_eq!(missing[0].trie_node_hash, h(0xb0));
    assert_eq!(missing[0].blocks.len(), 1);
    assert_eq!(missing[0].blocks[0].hash, h(0x00));
    assert_eq!(missing[0].blocks[0].number, 0);
    assert_eq!(missing[0].blocks[0].trie_node_key_nibbles, vec![1, 2, 3]);
    assert!(missing[0].blocks[0].parent_tries_paths_nibbles.is_empty());
}

#[test]
fn complete_state_reports_nothing_missing() {
    let db = db_with_leaf();
    let missing = db.finalized_and_above_missing_trie_nodes_unordered().unwrap();
    assert!(missing.is_empty());
}

#[test]
fn next_key_honors_prefix_and_branch_filter() {
    let mut db = ChainDb::empty();
    let ci = ChainInformation {
        finalized_block: BlockDesc {
            hash: h(0x00),
            parent_hash: h(0xff),
            number: 0,
            state_trie_root: h(0xa0),
            scale_encoded_header: vec![0],
            digest: DigestInfo::empty(),
        },
        consensus: ChainInformationConsensus::Unknown,
        finality: ChainInformationFinality::Outsourced,
    };
    db.reset(ci, Vec::new(), None).unwrap();
    // a pure branch root whose only child holds the only value
    let mut children = no_children();
    children[3] = Some(h(0xb0));
    let root = InsertTrieNode {
        merkle_value: h(0xa0),
        partial_key_nibbles: vec![1, 2],
        children_merkle_values: children,
        storage_value: InsertTrieNodeStorageValue::NoValue,
    };
    let leaf = InsertTrieNode {
        merkle_value: h(0xb0),
        partial_key_nibbles: vec![5],
        children_merkle_values: no_children(),
        storage_value: InsertTrieNodeStorageValue::Value {
            value: vec![8],
            references_merkle_value: false,
        },
    };
    db.insert_trie_nodes(vec![root, leaf], 1).unwrap();
    // without branch nodes, the branch key [1, 2] is skipped
    let r = db
        .block_storage_next_key(&h(0x00), Vec::new(), Vec::new(), Vec::new(), false)
        .unwrap();
    assert_eq!(r, Some(vec![1, 2, 3, 5]));
    // a prefix that nothing extends filters everything out
    let r = db
        .block_storage_next_key(&h(0x00), Vec::new(), Vec::new(), vec![2], true)
        .unwrap();
    assert_eq!(r, None);
}

#[test]
fn child_trie_is_reached_through_the_separator() {
    // the parent trie's only node references a child trie root
    let parent_root = InsertTrieNode {
        merkle_value: h(0xa0),
        partial_key_nibbles: vec![1, 2],
        children_merkle_values: no_children(),
        storage_value: InsertTrieNodeStorageValue::Value {
            value: h(0xc0),
            references_merkle_value: true,
        },
    };
    let child_root = InsertTrieNode {
        merkle_value: h(0xc0),
        partial_key_nibbles: vec![4],
        children_merkle_values: no_children(),
        storage_value: InsertTrieNodeStorageValue::Value {
            value: vec![6],
            references_merkle_value: false,
        },
    };
    let mut db2 = ChainDb::empty();
    let ci = ChainInformation {
        finalized_block: BlockDesc {
            hash: h(0x00),
            parent_hash: h(0xff),
            number: 0,
            state_trie_root: h(0xa0),
            scale_encoded_header: vec![0],
            digest: DigestInfo::empty(),
        },
        consensus: ChainInformationConsensus::Unknown,
        finality: ChainInformationFinality::Outsourced,
    };
    db2.reset(ci, Vec::new(), None).unwrap();
    db2.insert_trie_nodes(vec![parent_root, child_root], 1).unwrap();
    // the path [1, 2] leads into the child trie, where [4] holds the value
    let r = db2
        .block_storage_get(&h(0x00), vec![vec![1, 2]], vec![4])
        .unwrap();
    assert_eq!(r, Some((vec![6], 1)));
    // the parent-trie lookup of [1, 2] itself yields the reference bytes
    let r = db2.block_storage_get(&h(0x00), Vec::new(), vec![1, 2]).unwrap();
    assert_eq!(r, Some((h(0xc0), 1)));
}

#[test]
fn shared_missing_node_is_grouped_once() {
    let mut db = db_with_leaf();
    // a second block whose state is the same trie
    db.insert(
        BlockDesc {
            hash: h(0x01),
            parent_hash: h(0x00),
            number: 1,
            state_trie_root: h(0xa0),
            scale_encoded_header: vec![1],
            digest: DigestInfo::empty(),
        },
        true,
        Vec::new(),
    )
    .unwrap();
    // the shared root now references a child that is never inserted
    let mut children = no_children();
    children[3] = Some(h(0xb0));
    let root = InsertTrieNode {
        merkle_value: h(0xa0),
        partial_key_nibbles: vec![1, 2],
        children_merkle_values: children,
        storage_value: InsertTrieNodeStorageValue::NoValue,
    };
    db.insert_trie_nodes(vec![root], 1).unwrap();
    let missing = db.finalized_and_above_missing_trie_nodes_unordered().unwrap();
    // one group for the one missing node, listing both blocks
    assert_eq!(missing.len(), 1);
    assert_eq!(missing[0].trie_node_hash, h(0xb0));
    assert_eq!(missing[0].blocks.len(), 2);
    let mut hashes: Vec<Vec<u8>> =
        missing[0].blocks.iter().map(|b| b.hash.clone()).collect();
    hashes.sort();
    assert_eq!(hashes, vec![h(0x00), h(0x01)]);
    for b in missing[0].blocks.iter() {
        assert_eq!(b.trie_node_key_nibbles, vec![1, 2, 3]);
        assert!(b.parent_tries_paths_nibbles.is_empty());
    }
}

#[test]
fn parent_path_without_child_trie_finds_nothing() {
    // the single node holds an inline value, not a child-trie reference:
    // a parent path through it leads to no trie
    let db = db_with_leaf();
    let r = db
        .block_storage_next_key(&h(0x00), vec![vec![1, 2]], Vec::new(), Vec::new(), true)
        .unwrap();
    assert_eq!(r, None);
    let r = db.block_storage_get(&h(0x00), vec![vec![1, 2]], vec![4]).unwrap();
    assert_eq!(r, None);
}
