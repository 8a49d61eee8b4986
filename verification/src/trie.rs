//! The trie store: bulk insertion of content-addressed trie nodes.
//!
//! Insertion has keep-first semantics: a node, storage entry or child edge
//! whose key is already present is left untouched. Inserting the same
//! batch twice therefore leaves the store unchanged.

use vstd::prelude::*;

use crate::errors::CorruptedError;
use crate::tables::{ChainDb, TrieChildRow, TrieNodeRow, TrieStorageRow};

verus! {

/// One trie node handed to the bulk insert.
pub struct InsertTrieNode {
    /// Merkle value (at most 32 bytes) of the node.
    pub merkle_value: Vec<u8>,
    /// Partial key, one nibble per byte, each below 16.
    pub partial_key_nibbles: Vec<u8>,
    /// The 16 child slots, each optionally the child's Merkle value.
    pub children_merkle_values: Vec<Option<Vec<u8>>>,
    /// Storage attached to the node.
    pub storage_value: InsertTrieNodeStorageValue,
}

/// Storage attached to an inserted trie node.
pub enum InsertTrieNodeStorageValue {
    NoValue,
    Value {
        value: Vec<u8>,
        /// True when `value` is the Merkle value of the root of another
        /// trie rather than an inline value.
        references_merkle_value: bool,
    },
}

impl InsertTrieNode {
    pub open spec fn wf(self) -> bool {
        &&& forall|i: int|
            0 <= i < self.partial_key_nibbles@.len() ==> self.partial_key_nibbles@[i] < 16
        &&& self.children_merkle_values@.len() == 16
    }
}

// --- mathematical views of the three trie tables ---

pub ghost struct TrieNodeV {
    pub merkle: Seq<u8>,
    pub partial_key: Seq<u8>,
}

pub ghost struct TrieChildV {
    pub parent: Seq<u8>,
    pub child_num: u8,
    pub child: Seq<u8>,
}

pub ghost struct TrieStorV {
    pub node: Seq<u8>,
    pub value: Option<Seq<u8>>,
    pub trie_root_ref: Option<Seq<u8>>,
    pub version: u8,
}

pub ghost struct TrieTablesV {
    pub nodes: Seq<TrieNodeV>,
    pub children: Seq<TrieChildV>,
    pub storage: Seq<TrieStorV>,
}

pub open spec fn node_row_view(r: TrieNodeRow) -> TrieNodeV {
    TrieNodeV { merkle: r.merkle_value@, partial_key: r.partial_key@ }
}

pub open spec fn child_row_view(r: TrieChildRow) -> TrieChildV {
    TrieChildV { parent: r.parent@, child_num: r.child_num, child: r.child@ }
}

pub open spec fn storage_row_view(r: TrieStorageRow) -> TrieStorV {
    TrieStorV {
        node: r.node_hash@,
        value: match r.value {
            Some(v) => Some(v@),
            None => None,
        },
        trie_root_ref: match r.trie_root_ref {
            Some(v) => Some(v@),
            None => None,
        },
        version: r.trie_entry_version,
    }
}

impl ChainDb {
    /// The three trie tables as one mathematical value.
    pub open spec fn trie_view(self) -> TrieTablesV {
        TrieTablesV {
            nodes: self.trie_nodes@.map_values(|r: TrieNodeRow| node_row_view(r)),
            children: self.trie_children@.map_values(|r: TrieChildRow| child_row_view(r)),
            storage: self.trie_storage@.map_values(|r: TrieStorageRow| storage_row_view(r)),
        }
    }

    /// Row-level and view-level node presence agree.
    pub proof fn lemma_node_presence(self, m: Seq<u8>)
        ensures
            self.spec_has_node(m) <==> tv_has_node(self.trie_view().nodes, m),
    {
        if self.spec_has_node(m) {
            let i = choose|i: int|
                0 <= i < self.trie_nodes@.len() && (#[trigger] self.trie_nodes@[i]).merkle_value@
                    == m;
            assert(self.trie_view().nodes[i].merkle == m);
        }
        if tv_has_node(self.trie_view().nodes, m) {
            let i = choose|i: int|
                0 <= i < self.trie_view().nodes.len() && (#[trigger] self.trie_view().nodes[i]).merkle
                    == m;
            assert(self.trie_nodes@[i].merkle_value@ == m);
        }
    }

    /// Row-level and view-level child presence agree.
    pub proof fn lemma_child_presence(self, p: Seq<u8>, n: u8)
        ensures
            self.spec_has_child(p, n) <==> tv_has_child(self.trie_view().children, p, n),
    {
        if self.spec_has_child(p, n) {
            let i = choose|i: int|
                0 <= i < self.trie_children@.len() && (#[trigger] self.trie_children@[i]).parent@
                    == p && self.trie_children@[i].child_num == n;
            assert(self.trie_view().children[i].parent == p);
        }
        if tv_has_child(self.trie_view().children, p, n) {
            let i = choose|i: int|
                0 <= i < self.trie_view().children.len() && (
                #[trigger] self.trie_view().children[i]).parent == p
                    && self.trie_view().children[i].child_num == n;
            assert(self.trie_children@[i].parent@ == p && self.trie_children@[i].child_num == n);
        }
    }

    /// Row-level and view-level storage presence agree.
    pub proof fn lemma_storage_presence(self, m: Seq<u8>)
        ensures
            self.spec_has_storage(m) <==> tv_has_storage(self.trie_view().storage, m),
    {
        if self.spec_has_storage(m) {
            let i = choose|i: int|
                0 <= i < self.trie_storage@.len() && (#[trigger] self.trie_storage@[i]).node_hash@
                    == m;
            assert(self.trie_view().storage[i].node == m);
        }
        if tv_has_storage(self.trie_view().storage, m) {
            let i = choose|i: int|
                0 <= i < self.trie_view().storage.len() && (#[trigger] self.trie_view().storage[i]).node
                    == m;
            assert(self.trie_storage@[i].node_hash@ == m);
        }
    }
}

pub open spec fn tv_has_node(nodes: Seq<TrieNodeV>, m: Seq<u8>) -> bool {
    exists|i: int| 0 <= i < nodes.len() && (#[trigger] nodes[i]).merkle == m
}

pub open spec fn tv_has_child(children: Seq<TrieChildV>, p: Seq<u8>, n: u8) -> bool {
    exists|i: int|
        0 <= i < children.len() && (#[trigger] children[i]).parent == p && children[i].child_num
            == n
}

pub open spec fn tv_has_storage(storage: Seq<TrieStorV>, m: Seq<u8>) -> bool {
    exists|i: int| 0 <= i < storage.len() && (#[trigger] storage[i]).node == m
}

// --- the view of one inserted node ---

pub ghost struct InsertNodeV {
    pub merkle: Seq<u8>,
    pub partial_key: Seq<u8>,
    pub children: Seq<Option<Seq<u8>>>,
    /// `None` for no storage; otherwise the bytes and whether they
    /// reference another trie's root.
    pub storage: Option<(Seq<u8>, bool)>,
}

pub open spec fn insert_node_view(x: InsertTrieNode) -> InsertNodeV {
    InsertNodeV {
        merkle: x.merkle_value@,
        partial_key: x.partial_key_nibbles@,
        children: x.children_merkle_values@.map_values(
            |o: Option<Vec<u8>>|
                match o {
                    Some(v) => Some(v@),
                    None => None,
                },
        ),
        storage: match x.storage_value {
            InsertTrieNodeStorageValue::NoValue => None,
            InsertTrieNodeStorageValue::Value { value, references_merkle_value } => Some(
                (value@, references_merkle_value),
            ),
        },
    }
}

// --- the insertion, as a mathematical function ---

/// Inserts the child edges of `m` from slot `k` up, skipping slots whose
/// key is already present.
pub open spec fn spec_add_children(
    t: TrieTablesV,
    m: Seq<u8>,
    ch: Seq<Option<Seq<u8>>>,
    k: int,
) -> TrieTablesV
    decreases 16 - k,
{
    if k < 0 || k >= 16 || k >= ch.len() {
        t
    } else {
        let t2 = match ch[k] {
            Some(c) => {
                if tv_has_child(t.children, m, k as u8) {
                    t
                } else {
                    TrieTablesV {
                        children: t.children.push(
                            TrieChildV { parent: m, child_num: k as u8, child: c },
                        ),
                        ..t
                    }
                }
            },
            None => t,
        };
        spec_add_children(t2, m, ch, k + 1)
    }
}

/// Inserts one node: its row, its storage entry and its child edges, each
/// only where the key is not yet present.
pub open spec fn spec_insert_one(t: TrieTablesV, x: InsertNodeV, ver: u8) -> TrieTablesV {
    let t1 = if tv_has_node(t.nodes, x.merkle) {
        t
    } else {
        TrieTablesV { nodes: t.nodes.push(TrieNodeV { merkle: x.merkle, partial_key: x.partial_key }), ..t }
    };
    let t2 = match x.storage {
        None => t1,
        Some((val, isref)) => {
            if tv_has_storage(t1.storage, x.merkle) {
                t1
            } else {
                TrieTablesV {
                    storage: t1.storage.push(
                        TrieStorV {
                            node: x.merkle,
                            value: if isref {
                                None
                            } else {
                                Some(val)
                            },
                            trie_root_ref: if isref {
                                Some(val)
                            } else {
                                None
                            },
                            version: ver,
                        },
                    ),
                    ..t1
                }
            }
        },
    };
    spec_add_children(t2, x.merkle, x.children, 0)
}

/// Inserts a whole batch, in order.
pub open spec fn spec_insert_nodes(t: TrieTablesV, b: Seq<InsertNodeV>, ver: u8) -> TrieTablesV
    decreases b.len(),
{
    if b.len() == 0 {
        t
    } else {
        spec_insert_nodes(spec_insert_one(t, b[0], ver), b.skip(1), ver)
    }
}

impl ChainDb {
    /// Bulk-inserts trie nodes, their storage entries and their child
    /// edges, with keep-first semantics per row, all rows carrying the
    /// given trie entry version.
    pub fn insert_trie_nodes(
        &mut self,
        new_trie_nodes: Vec<InsertTrieNode>,
        trie_entries_version: u8,
    ) -> (r: Result<(), CorruptedError>)
        requires
            old(self).wf(),
            forall|i: int|
                0 <= i < new_trie_nodes@.len() ==> (#[trigger] new_trie_nodes@[i]).wf(),
        ensures
            final(self).wf(),
            r is Ok,
            final(self).trie_view() == spec_insert_nodes(
                old(self).trie_view(),
                new_trie_nodes@.map_values(|x: InsertTrieNode| insert_node_view(x)),
                trie_entries_version,
            ),
            final(self).blocks == old(self).blocks,
            final(self).meta_best == old(self).meta_best,
            final(self).meta_finalized == old(self).meta_finalized,
            final(self).grandpa_authorities_set_id == old(self).grandpa_authorities_set_id,
            final(self).grandpa_scheduled_target == old(self).grandpa_scheduled_target,
            final(self).grandpa_triggered_authorities == old(self).grandpa_triggered_authorities,
            final(self).grandpa_scheduled_authorities == old(self).grandpa_scheduled_authorities,
            final(self).aura_slot_duration == old(self).aura_slot_duration,
            final(self).aura_finalized_authorities == old(self).aura_finalized_authorities,
            final(self).babe_slots_per_epoch == old(self).babe_slots_per_epoch,
            final(self).babe_finalized_epoch == old(self).babe_finalized_epoch,
            final(self).babe_finalized_next_epoch == old(self).babe_finalized_next_epoch,
    {
        let ghost bv = new_trie_nodes@.map_values(|x: InsertTrieNode| insert_node_view(x));
        let ghost t0 = self.trie_view();
        proof {
            assert(bv.skip(0) =~= bv);
        }
        let mut i: usize = 0;
        while i < new_trie_nodes.len()
            invariant
                i <= new_trie_nodes@.len(),
                bv == new_trie_nodes@.map_values(|x: InsertTrieNode| insert_node_view(x)),
                forall|k: int|
                    0 <= k < new_trie_nodes@.len() ==> (#[trigger] new_trie_nodes@[k]).wf(),
                spec_insert_nodes(t0, bv, trie_entries_version) == spec_insert_nodes(
                    self.trie_view(),
                    bv.skip(i as int),
                    trie_entries_version,
                ),
                self.wf(),
                self.blocks == old(self).blocks,
                self.meta_best == old(self).meta_best,
                self.meta_finalized == old(self).meta_finalized,
                self.grandpa_authorities_set_id == old(self).grandpa_authorities_set_id,
                self.grandpa_scheduled_target == old(self).grandpa_scheduled_target,
                self.grandpa_triggered_authorities == old(self).grandpa_triggered_authorities,
                self.grandpa_scheduled_authorities == old(self).grandpa_scheduled_authorities,
                self.aura_slot_duration == old(self).aura_slot_duration,
                self.aura_finalized_authorities == old(self).aura_finalized_authorities,
                self.babe_slots_per_epoch == old(self).babe_slots_per_epoch,
                self.babe_finalized_epoch == old(self).babe_finalized_epoch,
                self.babe_finalized_next_epoch == old(self).babe_finalized_next_epoch,
            decreases new_trie_nodes@.len() - i,
        {
            let ghost tpre = self.trie_view();
            let node = &new_trie_nodes[i];
            let ghost xv = insert_node_view(new_trie_nodes@[i as int]);

            // node row
            proof {
                self.lemma_node_presence(xv.merkle);
            }
            if self.find_node(node.merkle_value.as_slice()).is_none() {
                let row = TrieNodeRow {
                    merkle_value: crate::bytes::bytes_to_vec(node.merkle_value.as_slice()),
                    partial_key: crate::bytes::bytes_to_vec(node.partial_key_nibbles.as_slice()),
                };
                let ghost pre_nodes = self.trie_nodes@;
                self.trie_nodes.push(row);
                proof {
                    assert forall|a: int, b: int|
                        #![trigger self.trie_nodes@[a], self.trie_nodes@[b]]
                        0 <= a < self.trie_nodes@.len() && 0 <= b < self.trie_nodes@.len() && a
                            != b implies self.trie_nodes@[a].merkle_value@
                        != self.trie_nodes@[b].merkle_value@ by {
                        if a < pre_nodes.len() && b < pre_nodes.len() {
                        } else if a == pre_nodes.len() {
                            assert(pre_nodes[b].merkle_value@ != xv.merkle);
                        } else {
                            assert(pre_nodes[a].merkle_value@ != xv.merkle);
                        }
                    }
                    assert(self.trie_view().nodes =~= tpre.nodes.push(
                        TrieNodeV { merkle: xv.merkle, partial_key: xv.partial_key },
                    ));
                    assert(self.trie_view().children =~= tpre.children);
                    assert(self.trie_view().storage =~= tpre.storage);
                }
            } else {
                proof {
                    self.lemma_node_presence(xv.merkle);
                    assert(tv_has_node(tpre.nodes, xv.merkle));
                }
            }
            let ghost t1 = self.trie_view();
            proof {
                assert(t1 == (if tv_has_node(tpre.nodes, xv.merkle) {
                    tpre
                } else {
                    TrieTablesV {
                        nodes: tpre.nodes.push(
                            TrieNodeV { merkle: xv.merkle, partial_key: xv.partial_key },
                        ),
                        ..tpre
                    }
                }));
            }

            // storage row
            match &node.storage_value {
                InsertTrieNodeStorageValue::Value { value, references_merkle_value } => {
                    proof {
                        self.lemma_storage_presence(xv.merkle);
                    }
                    if self.find_storage(node.merkle_value.as_slice()).is_none() {
                        let isref = *references_merkle_value;
                        let vcopy = crate::bytes::bytes_to_vec(value.as_slice());
                        let row = TrieStorageRow {
                            node_hash: crate::bytes::bytes_to_vec(node.merkle_value.as_slice()),
                            value: if isref {
                                None
                            } else {
                                Some(vcopy)
                            },
                            trie_root_ref: if isref {
                                let v2 = crate::bytes::bytes_to_vec(value.as_slice());
                                Some(v2)
                            } else {
                                None
                            },
                            trie_entry_version: trie_entries_version,
                        };
                        let ghost pre_stor = self.trie_storage@;
                        self.trie_storage.push(row);
                        proof {
                            assert forall|a: int, b: int|
                                #![trigger self.trie_storage@[a], self.trie_storage@[b]]
                                0 <= a < self.trie_storage@.len() && 0 <= b
                                    < self.trie_storage@.len() && a
                                    != b implies self.trie_storage@[a].node_hash@
                                != self.trie_storage@[b].node_hash@ by {
                                if a < pre_stor.len() && b < pre_stor.len() {
                                } else if a == pre_stor.len() {
                                    assert(pre_stor[b].node_hash@ != xv.merkle);
                                } else {
                                    assert(pre_stor[a].node_hash@ != xv.merkle);
                                }
                            }
                            assert(self.trie_view().storage =~= t1.storage.push(
                                TrieStorV {
                                    node: xv.merkle,
                                    value: if xv.storage.unwrap().1 {
                                        None
                                    } else {
                                        Some(xv.storage.unwrap().0)
                                    },
                                    trie_root_ref: if xv.storage.unwrap().1 {
                                        Some(xv.storage.unwrap().0)
                                    } else {
                                        None
                                    },
                                    version: trie_entries_version,
                                },
                            ));
                            assert(self.trie_view().nodes =~= t1.nodes);
                            assert(self.trie_view().children =~= t1.children);
                        }
                    } else {
                        proof {
                            self.lemma_storage_presence(xv.merkle);
                            assert(tv_has_storage(t1.storage, xv.merkle));
                        }
                    }
                },
                InsertTrieNodeStorageValue::NoValue => {},
            }
            let ghost t2 = self.trie_view();
            proof {
                assert(t2 == (match xv.storage {
                    None => t1,
                    Some((val, isref)) => {
                        if tv_has_storage(t1.storage, xv.merkle) {
                            t1
                        } else {
                            TrieTablesV {
                                storage: t1.storage.push(
                                    TrieStorV {
                                        node: xv.merkle,
                                        value: if isref {
                                            None
                                        } else {
                                            Some(val)
                                        },
                                        trie_root_ref: if isref {
                                            Some(val)
                                        } else {
                                            None
                                        },
                                        version: trie_entries_version,
                                    },
                                ),
                                ..t1
                            }
                        }
                    },
                }));
            }

            // child edges
            let mut k: usize = 0;
            while k < 16
                invariant
                    k <= 16,
                    self.wf(),
                    new_trie_nodes@[i as int].wf(),
                    i < new_trie_nodes@.len(),
                    xv == insert_node_view(new_trie_nodes@[i as int]),
                    new_trie_nodes@[i as int].merkle_value@ == xv.merkle,
                    spec_add_children(t2, xv.merkle, xv.children, 0) == spec_add_children(
                        self.trie_view(),
                        xv.merkle,
                        xv.children,
                        k as int,
                    ),
                    self.trie_view().nodes == t2.nodes,
                    self.trie_view().storage == t2.storage,
                    self.blocks == old(self).blocks,
                    self.meta_best == old(self).meta_best,
                    self.meta_finalized == old(self).meta_finalized,
                    self.grandpa_authorities_set_id == old(self).grandpa_authorities_set_id,
                    self.grandpa_scheduled_target == old(self).grandpa_scheduled_target,
                    self.grandpa_triggered_authorities == old(
                        self,
                    ).grandpa_triggered_authorities,
                    self.grandpa_scheduled_authorities == old(
                        self,
                    ).grandpa_scheduled_authorities,
                    self.aura_slot_duration == old(self).aura_slot_duration,
                    self.aura_finalized_authorities == old(self).aura_finalized_authorities,
                    self.babe_slots_per_epoch == old(self).babe_slots_per_epoch,
                    self.babe_finalized_epoch == old(self).babe_finalized_epoch,
                    self.babe_finalized_next_epoch == old(self).babe_finalized_next_epoch,
                decreases 16 - k,
            {
                let ghost tcur = self.trie_view();
                let has = match &new_trie_nodes[i].children_merkle_values[k] {
                    Some(c) => Some(crate::bytes::bytes_to_vec(c.as_slice())),
                    None => None,
                };
                match has {
                    Some(c) => {
                        proof {
                            self.lemma_child_presence(xv.merkle, k as u8);
                        }
                        if self.find_child(new_trie_nodes[i].merkle_value.as_slice(), k as u8)
                            .is_none() {
                            let row = TrieChildRow {
                                parent: crate::bytes::bytes_to_vec(
                                    new_trie_nodes[i].merkle_value.as_slice(),
                                ),
                                child_num: k as u8,
                                child: c,
                            };
                            let ghost pre_ch = self.trie_children@;
                            self.trie_children.push(row);
                            proof {
                                assert forall|a: int, b: int|
                                    #![trigger self.trie_children@[a], self.trie_children@[b]]
                                    0 <= a < self.trie_children@.len() && 0 <= b
                                        < self.trie_children@.len() && a != b implies !(
                                self.trie_children@[a].parent@ == self.trie_children@[b].parent@
                                    && self.trie_children@[a].child_num
                                    == self.trie_children@[b].child_num) by {
                                    if a < pre_ch.len() && b < pre_ch.len() {
                                    } else if a == pre_ch.len() {
                                        assert(!(pre_ch[b].parent@ == xv.merkle
                                            && pre_ch[b].child_num == k as u8));
                                    } else {
                                        assert(!(pre_ch[a].parent@ == xv.merkle
                                            && pre_ch[a].child_num == k as u8));
                                    }
                                }
                                assert(xv.children[k as int] == Some(c@));
                                assert(self.trie_view().children =~= tcur.children.push(
                                    TrieChildV {
                                        parent: xv.merkle,
                                        child_num: k as u8,
                                        child: xv.children[k as int].unwrap(),
                                    },
                                ));
                                assert(self.trie_view().nodes =~= tcur.nodes);
                                assert(self.trie_view().storage =~= tcur.storage);
                            }
                        } else {
                            proof {
                                assert(xv.children[k as int] == Some(c@));
                                self.lemma_child_presence(xv.merkle, k as u8);
                                assert(tv_has_child(tcur.children, xv.merkle, k as u8));
                            }
                        }
                    },
                    None => {
                        proof {
                            assert(xv.children[k as int] is None);
                        }
                    },
                }
                k += 1;
            }
            proof {
                assert(spec_add_children(self.trie_view(), xv.merkle, xv.children, 16)
                    == self.trie_view());
                assert(spec_insert_one(tpre, xv, trie_entries_version) == self.trie_view());
                assert(bv.skip(i as int)[0] == bv[i as int]);
                assert(bv[i as int] == xv);
                assert(bv.skip(i as int).skip(1) =~= bv.skip(i as int + 1));
            }
            i += 1;
        }
        proof {
            assert(bv.skip(bv.len() as int).len() == 0);
        }
        Ok(())
    }
}

} // verus!

// --- the idempotence of bulk insertion ---

verus! {

/// Every row key that inserting `x` would create is already present.
pub open spec fn item_keys_present(t: TrieTablesV, x: InsertNodeV) -> bool {
    &&& tv_has_node(t.nodes, x.merkle)
    &&& (x.storage is Some ==> tv_has_storage(t.storage, x.merkle))
    &&& forall|k: int|
        0 <= k < 16 && k < x.children.len() && (#[trigger] x.children[k]) is Some
            ==> tv_has_child(t.children, x.merkle, k as u8)
}

proof fn lemma_add_children_id(t: TrieTablesV, m: Seq<u8>, ch: Seq<Option<Seq<u8>>>, k: int)
    requires
        forall|j: int|
            k <= j < 16 && j < ch.len() && (#[trigger] ch[j]) is Some ==> tv_has_child(
                t.children,
                m,
                j as u8,
            ),
    ensures
        spec_add_children(t, m, ch, k) == t,
    decreases 16 - k,
{
    if !(k < 0 || k >= 16 || k >= ch.len()) {
        lemma_add_children_id(t, m, ch, k + 1);
    }
}

proof fn lemma_insert_one_id(t: TrieTablesV, x: InsertNodeV, ver: u8)
    requires
        item_keys_present(t, x),
    ensures
        spec_insert_one(t, x, ver) == t,
{
    lemma_add_children_id(t, x.merkle, x.children, 0);
}

/// Inserting child edges never removes rows: presence of any key is kept.
proof fn lemma_add_children_mono(
    t: TrieTablesV,
    m: Seq<u8>,
    ch: Seq<Option<Seq<u8>>>,
    k: int,
)
    ensures
        ({
            let t2 = spec_add_children(t, m, ch, k);
            &&& t2.nodes == t.nodes
            &&& t2.storage == t.storage
            &&& forall|p: Seq<u8>, n: u8|
                tv_has_child(t.children, p, n) ==> tv_has_child(#[trigger] t2.children, p, n)
        }),
    decreases 16 - k,
{
    if !(k < 0 || k >= 16 || k >= ch.len()) {
        let t2 = match ch[k] {
            Some(c) => {
                if tv_has_child(t.children, m, k as u8) {
                    t
                } else {
                    TrieTablesV {
                        children: t.children.push(
                            TrieChildV { parent: m, child_num: k as u8, child: c },
                        ),
                        ..t
                    }
                }
            },
            None => t,
        };
        assert forall|p: Seq<u8>, n: u8|
            tv_has_child(t.children, p, n) implies tv_has_child(
            #[trigger] t2.children,
            p,
            n,
        ) by {
            let w = choose|i: int|
                0 <= i < t.children.len() && (#[trigger] t.children[i]).parent == p
                    && t.children[i].child_num == n;
            assert(t2.children[w] == t.children[w]);
        }
        lemma_add_children_mono(t2, m, ch, k + 1);
    }
}

/// One insertion never removes rows.
proof fn lemma_insert_one_mono(t: TrieTablesV, x: InsertNodeV, ver: u8)
    ensures
        ({
            let t2 = spec_insert_one(t, x, ver);
            &&& forall|m: Seq<u8>|
                tv_has_node(t.nodes, m) ==> tv_has_node(#[trigger] t2.nodes, m)
            &&& forall|m: Seq<u8>|
                tv_has_storage(t.storage, m) ==> tv_has_storage(#[trigger] t2.storage, m)
            &&& forall|p: Seq<u8>, n: u8|
                tv_has_child(t.children, p, n) ==> tv_has_child(#[trigger] t2.children, p, n)
        }),
{
    let t1 = if tv_has_node(t.nodes, x.merkle) {
        t
    } else {
        TrieTablesV {
            nodes: t.nodes.push(TrieNodeV { merkle: x.merkle, partial_key: x.partial_key }),
            ..t
        }
    };
    assert forall|m: Seq<u8>| tv_has_node(t.nodes, m) implies tv_has_node(
        #[trigger] t1.nodes,
        m,
    ) by {
        let w = choose|i: int|
            0 <= i < t.nodes.len() && (#[trigger] t.nodes[i]).merkle == m;
        assert(t1.nodes[w] == t.nodes[w]);
    }
    let t2 = match x.storage {
        None => t1,
        Some((val, isref)) => {
            if tv_has_storage(t1.storage, x.merkle) {
                t1
            } else {
                TrieTablesV {
                    storage: t1.storage.push(
                        TrieStorV {
                            node: x.merkle,
                            value: if isref {
                                None
                            } else {
                                Some(val)
                            },
                            trie_root_ref: if isref {
                                Some(val)
                            } else {
                                None
                            },
                            version: ver,
                        },
                    ),
                    ..t1
                }
            }
        },
    };
    assert forall|m: Seq<u8>| tv_has_storage(t.storage, m) implies tv_has_storage(
        #[trigger] t2.storage,
        m,
    ) by {
        let w = choose|i: int|
            0 <= i < t.storage.len() && (#[trigger] t.storage[i]).node == m;
        assert(t2.storage[w] == t.storage[w]);
    }
    lemma_add_children_mono(t2, x.merkle, x.children, 0);
}

/// After adding the child edges, all of them are present.
proof fn lemma_add_children_present(
    t: TrieTablesV,
    m: Seq<u8>,
    ch: Seq<Option<Seq<u8>>>,
    k: int,
)
    requires
        k >= 0,
    ensures
        forall|j: int|
            0 <= j && k <= j < 16 && j < ch.len() && (#[trigger] ch[j]) is Some
                ==> tv_has_child(spec_add_children(t, m, ch, k).children, m, j as u8),
    decreases 16 - k,
{
    if !(k < 0 || k >= 16 || k >= ch.len()) {
        let t2 = match ch[k] {
            Some(c) => {
                if tv_has_child(t.children, m, k as u8) {
                    t
                } else {
                    TrieTablesV {
                        children: t.children.push(
                            TrieChildV { parent: m, child_num: k as u8, child: c },
                        ),
                        ..t
                    }
                }
            },
            None => t,
        };
        if ch[k] is Some {
            assert(tv_has_child(t2.children, m, k as u8)) by {
                if !tv_has_child(t.children, m, k as u8) {
                    assert(t2.children[t.children.len() as int].parent == m);
                }
            }
        }
        lemma_add_children_present(t2, m, ch, k + 1);
        lemma_add_children_mono(t2, m, ch, k + 1);
        assert(spec_add_children(t, m, ch, k) == spec_add_children(t2, m, ch, k + 1));
        assert forall|j: int|
            0 <= j && k <= j < 16 && j < ch.len() && (#[trigger] ch[j]) is Some
                implies tv_has_child(spec_add_children(t, m, ch, k).children, m, j as u8) by {
            if j == k {
                assert(tv_has_child(t2.children, m, k as u8));
                assert(tv_has_child(
                    spec_add_children(t2, m, ch, k + 1).children,
                    m,
                    k as u8,
                ));
            } else {
                assert(tv_has_child(
                    spec_add_children(t2, m, ch, k + 1).children,
                    m,
                    j as u8,
                ));
            }
        }
    }
}

/// One insertion leaves all of the item's keys present.
proof fn lemma_insert_one_present(t: TrieTablesV, x: InsertNodeV, ver: u8)
    ensures
        item_keys_present(spec_insert_one(t, x, ver), x),
{
    let t1 = if tv_has_node(t.nodes, x.merkle) {
        t
    } else {
        TrieTablesV {
            nodes: t.nodes.push(TrieNodeV { merkle: x.merkle, partial_key: x.partial_key }),
            ..t
        }
    };
    assert(tv_has_node(t1.nodes, x.merkle)) by {
        if !tv_has_node(t.nodes, x.merkle) {
            assert(t1.nodes[t.nodes.len() as int].merkle == x.merkle);
        }
    }
    let t2 = match x.storage {
        None => t1,
        Some((val, isref)) => {
            if tv_has_storage(t1.storage, x.merkle) {
                t1
            } else {
                TrieTablesV {
                    storage: t1.storage.push(
                        TrieStorV {
                            node: x.merkle,
                            value: if isref {
                                None
                            } else {
                                Some(val)
                            },
                            trie_root_ref: if isref {
                                Some(val)
                            } else {
                                None
                            },
                            version: ver,
                        },
                    ),
                    ..t1
                }
            }
        },
    };
    if x.storage is Some {
        assert(tv_has_storage(t2.storage, x.merkle)) by {
            if !tv_has_storage(t1.storage, x.merkle) {
                assert(t2.storage[t1.storage.len() as int].node == x.merkle);
            }
        }
    }
    lemma_add_children_present(t2, x.merkle, x.children, 0);
    lemma_add_children_mono(t2, x.merkle, x.children, 0);
}

/// A whole batch never removes rows.
proof fn lemma_insert_nodes_mono(t: TrieTablesV, b: Seq<InsertNodeV>, ver: u8)
    ensures
        ({
            let t2 = spec_insert_nodes(t, b, ver);
            &&& forall|m: Seq<u8>|
                tv_has_node(t.nodes, m) ==> tv_has_node(#[trigger] t2.nodes, m)
            &&& forall|m: Seq<u8>|
                tv_has_storage(t.storage, m) ==> tv_has_storage(#[trigger] t2.storage, m)
            &&& forall|p: Seq<u8>, n: u8|
                tv_has_child(t.children, p, n) ==> tv_has_child(#[trigger] t2.children, p, n)
        }),
    decreases b.len(),
{
    if b.len() > 0 {
        lemma_insert_one_mono(t, b[0], ver);
        lemma_insert_nodes_mono(spec_insert_one(t, b[0], ver), b.skip(1), ver);
    }
}

/// After a whole batch, every item's keys are present.
proof fn lemma_insert_nodes_present(t: TrieTablesV, b: Seq<InsertNodeV>, ver: u8)
    ensures
        forall|i: int|
            0 <= i < b.len() ==> item_keys_present(
                spec_insert_nodes(t, b, ver),
                #[trigger] b[i],
            ),
    decreases b.len(),
{
    if b.len() > 0 {
        let t1 = spec_insert_one(t, b[0], ver);
        lemma_insert_one_present(t, b[0], ver);
        lemma_insert_nodes_mono(t1, b.skip(1), ver);
        lemma_insert_nodes_present(t1, b.skip(1), ver);
        assert forall|i: int|
            0 <= i < b.len() implies item_keys_present(
            spec_insert_nodes(t, b, ver),
            #[trigger] b[i],
        ) by {
            if i > 0 {
                assert(b.skip(1)[i - 1] == b[i]);
            }
        }
    }
}

/// A batch whose keys are all present changes nothing.
proof fn lemma_insert_nodes_id(t: TrieTablesV, b: Seq<InsertNodeV>, ver: u8)
    requires
        forall|i: int| 0 <= i < b.len() ==> item_keys_present(t, #[trigger] b[i]),
    ensures
        spec_insert_nodes(t, b, ver) == t,
    decreases b.len(),
{
    if b.len() > 0 {
        lemma_insert_one_id(t, b[0], ver);
        assert(forall|i: int|
            0 <= i < b.skip(1).len() ==> item_keys_present(t, #[trigger] b.skip(1)[i]));
        lemma_insert_nodes_id(t, b.skip(1), ver);
    }
}

/// Inserting the same batch twice leaves the store exactly as inserting
/// it once: the bulk insertion is idempotent.
pub proof fn lemma_insert_trie_nodes_idempotent(t: TrieTablesV, b: Seq<InsertNodeV>, ver: u8)
    ensures
        spec_insert_nodes(spec_insert_nodes(t, b, ver), b, ver) == spec_insert_nodes(t, b, ver),
{
    lemma_insert_nodes_present(t, b, ver);
    lemma_insert_nodes_id(spec_insert_nodes(t, b, ver), b, ver);
}

} // verus!
