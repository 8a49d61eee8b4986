//! End-to-end behaviour of the store: installing a chain, inserting
//! blocks, moving the best chain, finalizing and pruning.

use chain_db::blocks::BlockDesc;
use chain_db::chain_info::{ChainInformation, ChainInformationConsensus, ChainInformationFinality};
use chain_db::consensus::DigestInfo;
use chain_db::errors::{InsertError, SetFinalizedError, StorageAccessError};
use chain_db::tables::ChainDb;
use chain_db::trie::{InsertTrieNode, InsertTrieNodeStorageValue};

fn h(b: u8) -> Vec<u8> {
    vec![b; 32]
}

fn desc(hash: u8, parent: u8, number: u64) -> BlockDesc {
    BlockDesc {
        hash: h(hash),
        parent_hash: h(parent),
        number,
        state_trie_root: h(0xa0),
        scale_encoded_header: vec![hash, hash, hash],
        digest: DigestInfo::empty(),
    }
}

fn fresh_db() -> ChainDb {
    let mut db = ChainDb::empty();
    let ci = ChainInformation {
        finalized_block: desc(0x00, 0xff, 0),
        consensus: ChainInformationConsensus::Unknown,
        finality: ChainInformationFinality::Outsourced,
    };
    db.reset(ci, Vec::new(), None).unwrap();
    db
}

#[test]
fn initialize_sets_best_and_finalized() {
    let db = fresh_db();
    assert_eq!(db.best_block_hash().unwrap(), h(0x00));
    assert_eq!(db.finalized_block_hash().unwrap(), h(0x00));
}

#[test]
fn insert_new_best_updates_best_by_number() {
    let mut db = fresh_db();
    db.insert(desc(0x01, 0x00, 1), true, vec![vec![9, 9]]).unwrap();
    assert_eq!(db.best_block_hash_by_number(1).unwrap(), Some(h(0x01)));
    assert_eq!(db.best_block_hash().unwrap(), h(0x01));
}

#[test]
fn reorg_marks_only_new_chain_best() {
    let mut db = fresh_db();
    db.insert(desc(0x01, 0x00, 1), true, Vec::new()).unwrap();
    db.insert(desc(0x1b, 0x00, 1), false, Vec::new()).unwrap();
    db.insert(desc(0x02, 0x01, 2), true, Vec::new()).unwrap();
    // the best chain is H0 - H1 - H2; the sibling stays unmarked
    assert_eq!(db.best_block_hash_by_number(1).unwrap(), Some(h(0x01)));
    assert_eq!(db.best_block_hash_by_number(2).unwrap(), Some(h(0x02)));
    assert_eq!(db.best_block_hash().unwrap(), h(0x02));
}

#[test]
fn finalize_and_purge_drop_stale_sibling() {
    let mut db = fresh_db();
    db.insert(desc(0x01, 0x00, 1), true, Vec::new()).unwrap();
    db.insert(desc(0x1b, 0x00, 1), false, Vec::new()).unwrap();
    db.insert(desc(0x02, 0x01, 2), true, Vec::new()).unwrap();
    db.set_finalized(&h(0x01)).unwrap();
    assert_eq!(db.finalized_block_hash().unwrap(), h(0x01));
    db.purge_finality_orphans().unwrap();
    let at1 = db.block_hash_by_number(1).unwrap();
    assert_eq!(at1, vec![h(0x01)]);
    assert_eq!(db.block_scale_encoded_header(&h(0x1b)).unwrap(), None);
    // the finalized chain itself stays
    assert!(db.block_scale_encoded_header(&h(0x01)).unwrap().is_some());
}

#[test]
fn best_below_finalized_is_refused() {
    let mut db = fresh_db();
    db.insert(desc(0x01, 0x00, 1), true, Vec::new()).unwrap();
    db.set_finalized(&h(0x01)).unwrap();
    // a new best block at the finalized height would leave the
    // finalized chain
    let r = db.insert(desc(0x11, 0x00, 1), true, Vec::new());
    assert_eq!(r, Err(InsertError::BestNotInFinalizedChain));
}

#[test]
fn duplicate_and_missing_parent_are_reported() {
    let mut db = fresh_db();
    db.insert(desc(0x01, 0x00, 1), false, Vec::new()).unwrap();
    assert_eq!(
        db.insert(desc(0x01, 0x00, 1), false, Vec::new()),
        Err(InsertError::Duplicate)
    );
    assert_eq!(
        db.insert(desc(0x02, 0x77, 2), false, Vec::new()),
        Err(InsertError::MissingParent)
    );
}

#[test]
fn header_and_body_round_trip() {
    let mut db = fresh_db();
    let body = vec![vec![1, 2, 3], vec![4, 5]];
    db.insert(desc(0x01, 0x00, 1), false, body.clone()).unwrap();
    assert_eq!(
        db.block_scale_encoded_header(&h(0x01)).unwrap(),
        Some(vec![0x01, 0x01, 0x01])
    );
    assert_eq!(db.block_extrinsics(&h(0x01)).unwrap(), Some(body));
    assert_eq!(db.block_parent(&h(0x01)).unwrap(), Some(h(0x00)));
}

#[test]
fn finality_is_monotone() {
    let mut db = fresh_db();
    db.insert(desc(0x01, 0x00, 1), true, Vec::new()).unwrap();
    db.insert(desc(0x02, 0x01, 2), true, Vec::new()).unwrap();
    db.set_finalized(&h(0x02)).unwrap();
    assert_eq!(db.set_finalized(&h(0x01)), Err(SetFinalizedError::RevertForbidden));
    // finalizing the current height again changes nothing
    db.set_finalized(&h(0x02)).unwrap();
    assert_eq!(db.finalized_block_hash().unwrap(), h(0x02));
    assert_eq!(
        db.set_finalized(&h(0x99)),
        Err(SetFinalizedError::UnknownBlock)
    );
}

#[test]
fn unknown_block_storage_is_reported() {
    let db = fresh_db();
    let r = db.block_storage_get(&h(0x42), Vec::new(), vec![1, 2]);
    assert_eq!(r, Err(StorageAccessError::UnknownBlock));
}

#[test]
fn missing_root_node_is_incomplete_storage() {
    let db = fresh_db();
    // the state root of the installed block was never inserted
    let r = db.block_storage_get(&h(0x00), Vec::new(), vec![1, 2]);
    assert_eq!(r, Err(StorageAccessError::IncompleteStorage));
}

#[test]
fn purge_reclaims_the_orphan_state() {
    let mut db = fresh_db();
    // two siblings with distinct one-node states
    let mut d1 = desc(0x01, 0x00, 1);
    d1.state_trie_root = h(0xa1);
    let mut d2 = desc(0x1b, 0x00, 1);
    d2.state_trie_root = h(0xab);
    db.insert(d1, true, Vec::new()).unwrap();
    db.insert(d2, false, Vec::new()).unwrap();
    let mut no_children: Vec<Option<Vec<u8>>> = Vec::new();
    for _ in 0..16 {
        no_children.push(None);
    }
    for (m, v) in [(0xa1u8, 1u8), (0xab, 2)] {
        db.insert_trie_nodes(
            vec![InsertTrieNode {
                merkle_value: h(m),
                partial_key_nibbles: vec![v],
                children_merkle_values: no_children.clone(),
                storage_value: InsertTrieNodeStorageValue::Value {
                    value: vec![v],
                    references_merkle_value: false,
                },
            }],
            1,
        )
        .unwrap();
    }
    db.set_finalized(&h(0x01)).unwrap();
    db.purge_finality_orphans().unwrap();
    // the survivor's state is intact, the orphan's is reclaimed
    assert_eq!(
        db.block_storage_get(&h(0x01), Vec::new(), vec![1]).unwrap(),
        Some((vec![1], 1))
    );
    assert_eq!(db.trie_nodes.len(), 1);
    assert_eq!(db.trie_nodes[0].merkle_value, h(0xa1));
}

#[test]
fn best_chain_leaving_the_finalized_chain_is_refused() {
    let mut db = fresh_db();
    db.insert(desc(0x01, 0x00, 1), true, Vec::new()).unwrap();
    db.insert(desc(0x1b, 0x00, 1), false, Vec::new()).unwrap();
    db.insert(desc(0x02, 0x01, 2), true, Vec::new()).unwrap();
    db.set_finalized(&h(0x01)).unwrap();
    // a block above the finalized height whose chain runs through the
    // stale sibling would unmark the finalized block: refused
    let r = db.insert(desc(0x12, 0x1b, 2), true, Vec::new());
    assert_eq!(r, Err(InsertError::BestNotInFinalizedChain));
    // nothing changed: the finalized block keeps its flag and the best
    // pointer stays
    assert_eq!(db.best_block_hash_by_number(1).unwrap(), Some(h(0x01)));
    assert_eq!(db.best_block_hash().unwrap(), h(0x02));
    assert_eq!(db.block_scale_encoded_header(&h(0x12)).unwrap(), None);
}

#[test]
fn purge_keeps_child_trie_roots_of_survivors() {
    let mut db = fresh_db();
    // the survivor's state references a child trie whose root is also the
    // orphan's whole state
    let mut d1 = desc(0x01, 0x00, 1);
    d1.state_trie_root = h(0xa1);
    let mut d2 = desc(0x1b, 0x00, 1);
    d2.state_trie_root = h(0xc0);
    db.insert(d1, true, Vec::new()).unwrap();
    db.insert(d2, false, Vec::new()).unwrap();
    let mut no_children: Vec<Option<Vec<u8>>> = Vec::new();
    for _ in 0..16 {
        no_children.push(None);
    }
    db.insert_trie_nodes(
        vec![
            InsertTrieNode {
                merkle_value: h(0xa1),
                partial_key_nibbles: vec![1],
                children_merkle_values: no_children.clone(),
                storage_value: InsertTrieNodeStorageValue::Value {
                    value: h(0xc0),
                    references_merkle_value: true,
                },
            },
            InsertTrieNode {
                merkle_value: h(0xc0),
                partial_key_nibbles: vec![2],
                children_merkle_values: no_children.clone(),
                storage_value: InsertTrieNodeStorageValue::Value {
                    value: vec![5],
                    references_merkle_value: false,
                },
            },
        ],
        1,
    )
    .unwrap();
    db.set_finalized(&h(0x01)).unwrap();
    db.purge_finality_orphans().unwrap();
    // the referenced child-trie root survives the orphan's reclamation
    assert_eq!(db.trie_nodes.len(), 2);
    assert_eq!(
        db.block_storage_get(&h(0x01), vec![vec![1]], vec![2]).unwrap(),
        Some((vec![5], 1))
    );
}
