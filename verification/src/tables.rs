//! The table model of the store: block rows, trie node rows, trie child
//! edges, trie storage values and the meta fields, together with the
//! well-formedness predicate that every operation preserves and the basic
//! lookup helpers.

use vstd::prelude::*;

use crate::consensus::{AuraAuthority, DigestInfo, GrandpaAuthority, MAX_BLOCK_NUMBER};

verus! {

/// One block of the chain.
pub struct BlockRow {
    /// 32-byte hash of the block's header.
    pub hash: Vec<u8>,
    /// Hash of the parent block; `None` only for a root block at height 0.
    pub parent_hash: Option<Vec<u8>>,
    /// Height of the block.
    pub number: u64,
    /// Merkle value of the root of the block's state trie; cleared while
    /// the block is being pruned.
    pub state_trie_root: Option<Vec<u8>>,
    /// The block's header, as the caller encoded it.
    pub scale_encoded_header: Vec<u8>,
    /// True when the block belongs to the currently preferred chain.
    pub is_best_chain: bool,
    /// Consensus proof of finality, if one was stored.
    pub justification: Option<Vec<u8>>,
    /// Extrinsics of the block, in order.
    pub body: Vec<Vec<u8>>,
    /// Digest items of the header, decoded by the caller.
    pub digest: DigestInfo,
}

impl BlockRow {
    pub open spec fn wf(self) -> bool {
        &&& self.hash@.len() == 32
        &&& match self.parent_hash {
            Some(p) => p@.len() == 32,
            None => true,
        }
        &&& match self.state_trie_root {
            Some(r) => r@.len() == 32,
            None => true,
        }
        &&& self.number <= MAX_BLOCK_NUMBER
        &&& self.digest.wf()
    }
}

/// One trie node: its Merkle value and its partial key.
pub struct TrieNodeRow {
    /// Merkle value (at most 32 bytes) that content-addresses the node.
    pub merkle_value: Vec<u8>,
    /// Partial key of the node, one nibble per byte, each below 16.
    pub partial_key: Vec<u8>,
}

impl TrieNodeRow {
    pub open spec fn wf(self) -> bool {
        forall|i: int| 0 <= i < self.partial_key@.len() ==> self.partial_key@[i] < 16
    }
}

/// One edge of the trie: parent node, child index, child node.
pub struct TrieChildRow {
    /// Merkle value of the parent node.
    pub parent: Vec<u8>,
    /// Which of the 16 children this edge is.
    pub child_num: u8,
    /// Merkle value of the child node.
    pub child: Vec<u8>,
}

impl TrieChildRow {
    pub open spec fn wf(self) -> bool {
        self.child_num < 16
    }
}

/// The storage entry attached to a trie node: either an inline value or a
/// reference to the root of a child trie, never both.
pub struct TrieStorageRow {
    /// Merkle value of the node the entry belongs to.
    pub node_hash: Vec<u8>,
    /// Inline storage value.
    pub value: Option<Vec<u8>>,
    /// Merkle value of the root of the child trie attached here.
    pub trie_root_ref: Option<Vec<u8>>,
    /// Version byte of the trie entry.
    pub trie_entry_version: u8,
}

impl TrieStorageRow {
    pub open spec fn wf(self) -> bool {
        self.value.is_some() != self.trie_root_ref.is_some()
    }
}

/// The whole state of the store.
pub struct ChainDb {
    pub blocks: Vec<BlockRow>,
    pub trie_nodes: Vec<TrieNodeRow>,
    pub trie_children: Vec<TrieChildRow>,
    pub trie_storage: Vec<TrieStorageRow>,
    /// Hash of the best block.
    pub meta_best: Vec<u8>,
    /// Height of the finalized block.
    pub meta_finalized: u64,
    pub grandpa_authorities_set_id: Option<u64>,
    pub grandpa_scheduled_target: Option<u64>,
    pub grandpa_triggered_authorities: Vec<GrandpaAuthority>,
    pub grandpa_scheduled_authorities: Vec<GrandpaAuthority>,
    pub aura_slot_duration: Option<u64>,
    pub aura_finalized_authorities: Vec<AuraAuthority>,
    pub babe_slots_per_epoch: Option<u64>,
    pub babe_finalized_epoch: Option<Vec<u8>>,
    pub babe_finalized_next_epoch: Option<Vec<u8>>,
}

impl ChainDb {
    // --- block table, spec side ---

    pub open spec fn spec_has_block(self, h: Seq<u8>) -> bool {
        exists|i: int| 0 <= i < self.blocks@.len() && (#[trigger] self.blocks@[i]).hash@ == h
    }

    pub open spec fn spec_block_idx(self, h: Seq<u8>) -> int {
        choose|i: int| 0 <= i < self.blocks@.len() && (#[trigger] self.blocks@[i]).hash@ == h
    }

    /// The row of the block with hash `h`; meaningful only when
    /// `spec_has_block(h)` holds.
    pub open spec fn spec_block(self, h: Seq<u8>) -> BlockRow {
        self.blocks@[self.spec_block_idx(h)]
    }

    pub open spec fn blocks_unique(self) -> bool {
        forall|i: int, j: int|
            #![trigger self.blocks@[i], self.blocks@[j]]
            0 <= i < self.blocks@.len() && 0 <= j < self.blocks@.len() && i != j
                ==> self.blocks@[i].hash@ != self.blocks@[j].hash@
    }

    // --- trie node table, spec side ---

    pub open spec fn spec_has_node(self, m: Seq<u8>) -> bool {
        exists|i: int|
            0 <= i < self.trie_nodes@.len() && (#[trigger] self.trie_nodes@[i]).merkle_value@
                == m
    }

    pub open spec fn spec_node_idx(self, m: Seq<u8>) -> int {
        choose|i: int|
            0 <= i < self.trie_nodes@.len() && (#[trigger] self.trie_nodes@[i]).merkle_value@
                == m
    }

    /// The row of the trie node with Merkle value `m`; meaningful only when
    /// `spec_has_node(m)` holds.
    pub open spec fn spec_node(self, m: Seq<u8>) -> TrieNodeRow {
        self.trie_nodes@[self.spec_node_idx(m)]
    }

    pub open spec fn nodes_unique(self) -> bool {
        forall|i: int, j: int|
            #![trigger self.trie_nodes@[i], self.trie_nodes@[j]]
            0 <= i < self.trie_nodes@.len() && 0 <= j < self.trie_nodes@.len() && i != j
                ==> self.trie_nodes@[i].merkle_value@ != self.trie_nodes@[j].merkle_value@
    }

    // --- trie child table, spec side ---

    pub open spec fn spec_has_child(self, p: Seq<u8>, n: u8) -> bool {
        exists|i: int|
            0 <= i < self.trie_children@.len() && (#[trigger] self.trie_children@[i]).parent@
                == p && self.trie_children@[i].child_num == n
    }

    pub open spec fn spec_child_idx(self, p: Seq<u8>, n: u8) -> int {
        choose|i: int|
            0 <= i < self.trie_children@.len() && (#[trigger] self.trie_children@[i]).parent@
                == p && self.trie_children@[i].child_num == n
    }

    /// Merkle value of the child `n` of node `p`; meaningful only when
    /// `spec_has_child(p, n)` holds.
    pub open spec fn spec_child(self, p: Seq<u8>, n: u8) -> Seq<u8> {
        self.trie_children@[self.spec_child_idx(p, n)].child@
    }

    pub open spec fn children_unique(self) -> bool {
        forall|i: int, j: int|
            #![trigger self.trie_children@[i], self.trie_children@[j]]
            0 <= i < self.trie_children@.len() && 0 <= j < self.trie_children@.len() && i != j
                ==> !(self.trie_children@[i].parent@ == self.trie_children@[j].parent@
                && self.trie_children@[i].child_num == self.trie_children@[j].child_num)
    }

    // --- trie storage table, spec side ---

    pub open spec fn spec_has_storage(self, m: Seq<u8>) -> bool {
        exists|i: int|
            0 <= i < self.trie_storage@.len() && (#[trigger] self.trie_storage@[i]).node_hash@
                == m
    }

    pub open spec fn spec_storage_idx(self, m: Seq<u8>) -> int {
        choose|i: int|
            0 <= i < self.trie_storage@.len() && (#[trigger] self.trie_storage@[i]).node_hash@
                == m
    }

    /// The storage row of node `m`; meaningful only when
    /// `spec_has_storage(m)` holds.
    pub open spec fn spec_storage(self, m: Seq<u8>) -> TrieStorageRow {
        self.trie_storage@[self.spec_storage_idx(m)]
    }

    pub open spec fn storage_unique(self) -> bool {
        forall|i: int, j: int|
            #![trigger self.trie_storage@[i], self.trie_storage@[j]]
            0 <= i < self.trie_storage@.len() && 0 <= j < self.trie_storage@.len() && i != j
                ==> self.trie_storage@[i].node_hash@ != self.trie_storage@[j].node_hash@
    }

    // --- well-formedness ---

    pub open spec fn rows_wf(self) -> bool {
        &&& forall|i: int| 0 <= i < self.blocks@.len() ==> (#[trigger] self.blocks@[i]).wf()
        &&& forall|i: int|
            0 <= i < self.trie_nodes@.len() ==> (#[trigger] self.trie_nodes@[i]).wf()
        &&& forall|i: int|
            0 <= i < self.trie_children@.len() ==> (#[trigger] self.trie_children@[i]).wf()
        &&& forall|i: int|
            0 <= i < self.trie_storage@.len() ==> (#[trigger] self.trie_storage@[i]).wf()
        &&& forall|i: int|
            0 <= i < self.grandpa_triggered_authorities@.len() ==> (
            #[trigger] self.grandpa_triggered_authorities@[i]).wf()
        &&& forall|i: int|
            0 <= i < self.grandpa_scheduled_authorities@.len() ==> (
            #[trigger] self.grandpa_scheduled_authorities@[i]).wf()
        &&& forall|i: int|
            0 <= i < self.aura_finalized_authorities@.len() ==> (
            #[trigger] self.aura_finalized_authorities@[i]).wf()
    }

    /// Sanity of the tables alone: rows are individually sane and the
    /// tables have no duplicate keys. This much holds even of a store
    /// that no chain has been installed into yet.
    pub open spec fn tables_wf(self) -> bool {
        &&& self.rows_wf()
        &&& self.blocks_unique()
        &&& self.nodes_unique()
        &&& self.children_unique()
        &&& self.storage_unique()
    }

    /// Well-formedness of the whole store: the tables are sane, the
    /// finalized height fits its column, and the `best` pointer names a
    /// block that is flagged best-chain.
    pub open spec fn wf(self) -> bool {
        &&& self.tables_wf()
        &&& self.meta_finalized <= MAX_BLOCK_NUMBER
        &&& self.spec_has_block(self.meta_best@)
        &&& self.spec_block(self.meta_best@).is_best_chain
    }

    /// A store with nothing in it yet; a chain is installed with `reset`.
    pub fn empty() -> (r: ChainDb)
        ensures
            r.tables_wf(),
            r.blocks@.len() == 0,
            r.trie_nodes@.len() == 0,
            r.trie_children@.len() == 0,
            r.trie_storage@.len() == 0,
    {
        ChainDb {
            blocks: Vec::new(),
            trie_nodes: Vec::new(),
            trie_children: Vec::new(),
            trie_storage: Vec::new(),
            meta_best: Vec::new(),
            meta_finalized: 0,
            grandpa_authorities_set_id: None,
            grandpa_scheduled_target: None,
            grandpa_triggered_authorities: Vec::new(),
            grandpa_scheduled_authorities: Vec::new(),
            aura_slot_duration: None,
            aura_finalized_authorities: Vec::new(),
            babe_slots_per_epoch: None,
            babe_finalized_epoch: None,
            babe_finalized_next_epoch: None,
        }
    }

    // --- exec lookup helpers ---

    /// Finds the index of the block with hash `h`.
    pub fn find_block(&self, h: &[u8]) -> (r: Option<usize>)
        requires
            self.blocks_unique(),
        ensures
            match r {
                Some(i) => i < self.blocks@.len() && self.blocks@[i as int].hash@ == h@
                    && self.spec_has_block(h@) && self.spec_block_idx(h@) == i,
                None => !self.spec_has_block(h@),
            },
    {
        let mut i: usize = 0;
        while i < self.blocks.len()
            invariant
                self.blocks_unique(),
                i <= self.blocks@.len(),
                forall|j: int| 0 <= j < i ==> (#[trigger] self.blocks@[j]).hash@ != h@,
            decreases self.blocks@.len() - i,
        {
            if crate::bytes::bytes_eq(self.blocks[i].hash.as_slice(), h) {
                proof {
                    assert(self.blocks@[i as int].hash@ == h@);
                    let k = self.spec_block_idx(h@);
                    assert(0 <= k < self.blocks@.len() && self.blocks@[k].hash@ == h@);
                    assert(k == i);
                }
                return Some(i);
            }
            i += 1;
        }
        None
    }

    /// Finds the index of the trie node with Merkle value `m`.
    pub fn find_node(&self, m: &[u8]) -> (r: Option<usize>)
        requires
            self.nodes_unique(),
        ensures
            match r {
                Some(i) => i < self.trie_nodes@.len() && self.trie_nodes@[i as int].merkle_value@
                    == m@ && self.spec_has_node(m@) && self.spec_node_idx(m@) == i,
                None => !self.spec_has_node(m@),
            },
    {
        let mut i: usize = 0;
        while i < self.trie_nodes.len()
            invariant
                self.nodes_unique(),
                i <= self.trie_nodes@.len(),
                forall|j: int| 0 <= j < i ==> (#[trigger] self.trie_nodes@[j]).merkle_value@ != m@,
            decreases self.trie_nodes@.len() - i,
        {
            if crate::bytes::bytes_eq(self.trie_nodes[i].merkle_value.as_slice(), m) {
                proof {
                    assert(self.trie_nodes@[i as int].merkle_value@ == m@);
                    let k = self.spec_node_idx(m@);
                    assert(0 <= k < self.trie_nodes@.len() && self.trie_nodes@[k].merkle_value@
                        == m@);
                    assert(k == i);
                }
                return Some(i);
            }
            i += 1;
        }
        None
    }

    /// Finds the index of the child edge `(p, n)`.
    pub fn find_child(&self, p: &[u8], n: u8) -> (r: Option<usize>)
        requires
            self.children_unique(),
        ensures
            match r {
                Some(i) => i < self.trie_children@.len() && self.trie_children@[i as int].parent@
                    == p@ && self.trie_children@[i as int].child_num == n
                    && self.spec_has_child(p@, n) && self.spec_child_idx(p@, n) == i,
                None => !self.spec_has_child(p@, n),
            },
    {
        let mut i: usize = 0;
        while i < self.trie_children.len()
            invariant
                self.children_unique(),
                i <= self.trie_children@.len(),
                forall|j: int|
                    0 <= j < i ==> !((#[trigger] self.trie_children@[j]).parent@ == p@
                        && self.trie_children@[j].child_num == n),
            decreases self.trie_children@.len() - i,
        {
            if self.trie_children[i].child_num == n && crate::bytes::bytes_eq(
                self.trie_children[i].parent.as_slice(),
                p,
            ) {
                proof {
                    assert(self.trie_children@[i as int].parent@ == p@);
                    let k = self.spec_child_idx(p@, n);
                    assert(0 <= k < self.trie_children@.len() && self.trie_children@[k].parent@
                        == p@ && self.trie_children@[k].child_num == n);
                    assert(k == i);
                }
                return Some(i);
            }
            i += 1;
        }
        None
    }

    /// Finds the index of the storage row of node `m`.
    pub fn find_storage(&self, m: &[u8]) -> (r: Option<usize>)
        requires
            self.storage_unique(),
        ensures
            match r {
                Some(i) => i < self.trie_storage@.len() && self.trie_storage@[i as int].node_hash@
                    == m@ && self.spec_has_storage(m@) && self.spec_storage_idx(m@) == i,
                None => !self.spec_has_storage(m@),
            },
    {
        let mut i: usize = 0;
        while i < self.trie_storage.len()
            invariant
                self.storage_unique(),
                i <= self.trie_storage@.len(),
                forall|j: int| 0 <= j < i ==> (#[trigger] self.trie_storage@[j]).node_hash@ != m@,
            decreases self.trie_storage@.len() - i,
        {
            if crate::bytes::bytes_eq(self.trie_storage[i].node_hash.as_slice(), m) {
                proof {
                    assert(self.trie_storage@[i as int].node_hash@ == m@);
                    let k = self.spec_storage_idx(m@);
                    assert(0 <= k < self.trie_storage@.len() && self.trie_storage@[k].node_hash@
                        == m@);
                    assert(k == i);
                }
                return Some(i);
            }
            i += 1;
        }
        None
    }
}

} // verus!
