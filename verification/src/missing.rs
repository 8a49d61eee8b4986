//! Reporting which trie nodes are missing from the store: a recursive
//! descent from the state root of every block at or above the finalized
//! height records every edge whose target node has no row. The report is
//! sound (every entry names an absent, reachable node) and complete
//! (every absent, reachable node is reported, grouped by node hash);
//! ordering is unspecified.

use vstd::prelude::*;

use crate::bytes::{bytes_eq, bytes_to_vec};
use crate::errors::CorruptedError;
use crate::queries::{
    lemma_full_key_flat, lemma_full_key_snoc, spec_full_key, CHILD_TRIE_SEPARATOR,
};
use crate::tables::ChainDb;

verus! {

/// A trie node that is missing from the store.
pub struct MissingTrieNode {
    /// Blocks whose state reaches the missing node; never empty.
    pub blocks: Vec<MissingTrieNodeBlock>,
    /// Hash of the missing trie node; 32 bytes.
    pub trie_node_hash: Vec<u8>,
}

/// One block whose state needs a missing trie node.
pub struct MissingTrieNodeBlock {
    /// Hash of the block.
    pub hash: Vec<u8>,
    /// Height of the block.
    pub number: u64,
    /// Parent-trie path segments leading to the trie of the node.
    pub parent_tries_paths_nibbles: Vec<Vec<u8>>,
    /// Key of the node within its trie.
    pub trie_node_key_nibbles: Vec<u8>,
}

/// Some child edge or child-trie reference points at `m`.
pub open spec fn edge_targets(db: ChainDb, m: Seq<u8>) -> bool {
    (exists|i: int|
        0 <= i < db.trie_children@.len() && (#[trigger] db.trie_children@[i]).child@ == m) || (
    exists|i: int|
        0 <= i < db.trie_storage@.len() && (#[trigger] db.trie_storage@[i]).trie_root_ref
            is Some && db.trie_storage@[i].trie_root_ref.unwrap()@ == m)
}

/// `to` is reachable from `from` through child edges and child-trie
/// references within `fuel` steps.
pub open spec fn reaches(db: ChainDb, from: Seq<u8>, to: Seq<u8>, fuel: nat) -> bool
    decreases fuel,
{
    from == to || (fuel > 0 && db.spec_has_node(from) && ((exists|n: u8|
        n < 16 && db.spec_has_child(from, n) && reaches(
            db,
            db.spec_child(from, n),
            to,
            (fuel - 1) as nat,
        )) || (db.spec_has_storage(from) && db.spec_storage(from).trie_root_ref is Some
        && reaches(db, db.spec_storage(from).trie_root_ref.unwrap()@, to, (fuel - 1) as nat))))
}

/// The descent that starts at `node`, whose key up to its incoming edge
/// is `key`, reaches the absent node `x` and records the path `p` for it:
/// the accumulated key grows by each visited node's partial key and the
/// nibble of the edge taken, with the separator for a child-trie
/// reference.
pub open spec fn path_to_missing(
    db: ChainDb,
    node: Seq<u8>,
    key: Seq<u8>,
    x: Seq<u8>,
    p: Seq<u8>,
    fuel: nat,
) -> bool
    decreases fuel,
{
    (!db.spec_has_node(node) && node == x && p == key) || (fuel > 0 && db.spec_has_node(node)
        && ((exists|n: u8|
        n < 16 && db.spec_has_child(node, n) && path_to_missing(
            db,
            db.spec_child(node, n),
            key + db.spec_node(node).partial_key@ + seq![n],
            x,
            p,
            (fuel - 1) as nat,
        )) || (db.spec_has_storage(node) && db.spec_storage(node).trie_root_ref is Some
        && path_to_missing(
        db,
        db.spec_storage(node).trie_root_ref.unwrap()@,
        key + db.spec_node(node).partial_key@ + seq![CHILD_TRIE_SEPARATOR],
        x,
        p,
        (fuel - 1) as nat,
    ))))
}

/// Depth budget of the scan: one more than the node count, which no
/// acyclic descent can exhaust.
pub open spec fn scan_fuel(db: ChainDb) -> nat {
    if db.trie_nodes@.len() + 2 <= usize::MAX {
        (db.trie_nodes@.len() + 2) as nat
    } else {
        usize::MAX as nat
    }
}

/// One reported entry is sound: its block is stored at or above the
/// finalized height, that block's state root reaches the missing node,
/// and the entry's two path fields are the sentinel-split of the key
/// recorded by such a descent.
pub open spec fn missing_entry_ok(db: ChainDb, b: MissingTrieNodeBlock, h: Seq<u8>) -> bool {
    &&& db.spec_has_block(b.hash@)
    &&& db.spec_block(b.hash@).number == b.number
    &&& b.number >= db.meta_finalized
    &&& exists|f: nat|
        db.spec_block(b.hash@).state_trie_root is Some && reaches(
            db,
            db.spec_block(b.hash@).state_trie_root.unwrap()@,
            h,
            f,
        )
    &&& exists|p: Seq<u8>, f: nat|
        db.spec_block(b.hash@).state_trie_root is Some && path_to_missing(
            db,
            db.spec_block(b.hash@).state_trie_root.unwrap()@,
            Seq::empty(),
            h,
            p,
            f,
        ) && spec_full_key(b.parent_tries_paths_nibbles@, b.trie_node_key_nibbles@) == p
}

/// One reported group is sound: the node is absent and every listed block
/// reaches it.
pub open spec fn missing_group_ok(db: ChainDb, g: MissingTrieNode) -> bool {
    &&& g.trie_node_hash@.len() == 32
    &&& !db.spec_has_node(g.trie_node_hash@)
    &&& g.blocks@.len() >= 1
    &&& forall|j: int|
        0 <= j < g.blocks@.len() ==> missing_entry_ok(db, #[trigger] g.blocks@[j], g.trie_node_hash@)
}

/// The report covers the pair: some group names the node `x` and lists
/// the block `bh`.
pub open spec fn covered(v: Seq<MissingTrieNode>, x: Seq<u8>, bh: Seq<u8>) -> bool {
    exists|g: int|
        0 <= g < v.len() && (#[trigger] v[g]).trie_node_hash@ == x && (exists|e: int|
            0 <= e < v[g].blocks@.len() && (#[trigger] v[g].blocks@[e]).hash@ == bh)
}

/// Growing the report only ever adds coverage: groups keep their hashes
/// and their entries keep their places.
proof fn lemma_covered_mono(
    v1: Seq<MissingTrieNode>,
    v2: Seq<MissingTrieNode>,
    x: Seq<u8>,
    bh: Seq<u8>,
)
    requires
        covered(v1, x, bh),
        v2.len() >= v1.len(),
        forall|g: int|
            0 <= g < v1.len() ==> (#[trigger] v2[g]).trie_node_hash@ == v1[g].trie_node_hash@
                && v2[g].blocks@.len() >= v1[g].blocks@.len() && (forall|e: int|
                0 <= e < v1[g].blocks@.len() ==> (#[trigger] v2[g].blocks@[e]) == v1[g].blocks@[e]),
    ensures
        covered(v2, x, bh),
{
    let g = choose|g: int|
        0 <= g < v1.len() && (#[trigger] v1[g]).trie_node_hash@ == x && (exists|e: int|
            0 <= e < v1[g].blocks@.len() && (#[trigger] v1[g].blocks@[e]).hash@ == bh);
    let e = choose|e: int| 0 <= e < v1[g].blocks@.len() && (#[trigger] v1[g].blocks@[e]).hash@ == bh;
    assert(v2[g].trie_node_hash@ == x);
    assert(v2[g].blocks@[e].hash@ == bh);
}

impl ChainDb {
    /// Walks the subtree reached through the edge to `node` (whose key so
    /// far is `path`) and records every missing node with its key: every
    /// recorded node is absent and reached by a recorded descent, and
    /// every absent node reachable within `fuel` steps is recorded.
    fn missing_scan(&self, node: &[u8], path: Vec<u8>, fuel: usize) -> (r: Vec<(Vec<u8>, Vec<u8>)>)
        requires
            self.wf(),
        ensures
            forall|k: int|
                0 <= k < r@.len() ==> !self.spec_has_node((#[trigger] r@[k]).0@) && reaches(
                    *self,
                    node@,
                    r@[k].0@,
                    fuel as nat,
                ) && (r@[k].0@ == node@ || edge_targets(*self, r@[k].0@)) && path_to_missing(
                    *self,
                    node@,
                    path@,
                    r@[k].0@,
                    r@[k].1@,
                    fuel as nat,
                ),
            forall|x: Seq<u8>|
                !self.spec_has_node(x) && #[trigger] reaches(*self, node@, x, fuel as nat)
                    ==> (exists|k: int| 0 <= k < r@.len() && (#[trigger] r@[k]).0@ == x),
        decreases fuel,
    {
        let ghost path0 = path@;
        let mut out: Vec<(Vec<u8>, Vec<u8>)> = Vec::new();
        let ni = match self.find_node(node) {
            Some(x) => x,
            None => {
                out.push((bytes_to_vec(node), path));
                proof {
                    assert(out@[0].0@ == node@);
                    assert(out@[0].1@ == path0);
                    assert forall|x: Seq<u8>|
                        !self.spec_has_node(x) && #[trigger] reaches(
                            *self,
                            node@,
                            x,
                            fuel as nat,
                        ) implies (exists|k: int|
                        0 <= k < out@.len() && (#[trigger] out@[k]).0@ == x) by {
                        assert(x == node@);
                        assert(out@[0].0@ == x);
                    }
                }
                return out;
            },
        };
        if fuel == 0 {
            return out;
        }
        let mut key2 = path;
        crate::bytes::append_bytes(&mut key2, self.trie_nodes[ni].partial_key.as_slice());
        proof {
            assert(key2@ == path0 + self.spec_node(node@).partial_key@);
        }

        // child edges, in nibble order
        let mut n: u8 = 0;
        while n < 16
            invariant
                self.wf(),
                n <= 16,
                self.spec_has_node(node@),
                key2@ == path0 + self.spec_node(node@).partial_key@,
                fuel >= 1,
                forall|k: int|
                    0 <= k < out@.len() ==> !self.spec_has_node((#[trigger] out@[k]).0@)
                        && reaches(*self, node@, out@[k].0@, fuel as nat) && (out@[k].0@ == node@
                        || edge_targets(*self, out@[k].0@)) && path_to_missing(
                        *self,
                        node@,
                        path0,
                        out@[k].0@,
                        out@[k].1@,
                        fuel as nat,
                    ),
                forall|x: Seq<u8>|
                    !self.spec_has_node(x) && (exists|m: u8|
                        m < n && self.spec_has_child(node@, m) && #[trigger] reaches(
                            *self,
                            self.spec_child(node@, m),
                            x,
                            (fuel - 1) as nat,
                        )) ==> (exists|k: int| 0 <= k < out@.len() && (#[trigger] out@[k]).0@ == x),
            decreases 16 - n,
        {
            match self.find_child(node, n) {
                Some(ci) => {
                    let c = bytes_to_vec(self.trie_children[ci].child.as_slice());
                    let mut cpath = bytes_to_vec(key2.as_slice());
                    cpath.push(n);
                    let ghost cpathv = cpath@;
                    let sub = self.missing_scan(c.as_slice(), cpath, fuel - 1);
                    let mut t: usize = 0;
                    while t < sub.len()
                        invariant
                            self.wf(),
                            t <= sub@.len(),
                            n < 16,
                            self.spec_has_node(node@),
                            self.spec_has_child(node@, n),
                            c@ == self.spec_child(node@, n),
                            cpathv == path0 + self.spec_node(node@).partial_key@ + seq![n],
                            fuel >= 1,
                            forall|k: int|
                                0 <= k < sub@.len() ==> !self.spec_has_node(
                                    (#[trigger] sub@[k]).0@,
                                ) && reaches(*self, c@, sub@[k].0@, (fuel - 1) as nat) && (sub@[
                                    k
                                ].0@ == c@ || edge_targets(*self, sub@[k].0@))
                                    && path_to_missing(
                                    *self,
                                    c@,
                                    cpathv,
                                    sub@[k].0@,
                                    sub@[k].1@,
                                    (fuel - 1) as nat,
                                ),
                            forall|k: int|
                                0 <= k < t ==> (exists|k2: int|
                                    0 <= k2 < out@.len() && (#[trigger] out@[k2]).0@ == (
                                    #[trigger] sub@[k]).0@),
                            forall|k: int|
                                0 <= k < out@.len() ==> !self.spec_has_node(
                                    (#[trigger] out@[k]).0@,
                                ) && reaches(*self, node@, out@[k].0@, fuel as nat) && (out@[
                                    k
                                ].0@ == node@ || edge_targets(*self, out@[k].0@))
                                    && path_to_missing(
                                    *self,
                                    node@,
                                    path0,
                                    out@[k].0@,
                                    out@[k].1@,
                                    fuel as nat,
                                ),
                            forall|x: Seq<u8>|
                                !self.spec_has_node(x) && (exists|m: u8|
                                    m < n && self.spec_has_child(node@, m) && #[trigger] reaches(
                                        *self,
                                        self.spec_child(node@, m),
                                        x,
                                        (fuel - 1) as nat,
                                    )) ==> (exists|k: int|
                                    0 <= k < out@.len() && (#[trigger] out@[k]).0@ == x),
                        decreases sub@.len() - t,
                    {
                        let ghost out0 = out@;
                        let h = bytes_to_vec(sub[t].0.as_slice());
                        let p = bytes_to_vec(sub[t].1.as_slice());
                        proof {
                            let ci2 = self.spec_child_idx(node@, n);
                            assert(self.trie_children@[ci2].child@ == c@);
                            assert(c@ == h@ ==> edge_targets(*self, h@));
                            assert(path_to_missing(
                                *self,
                                node@,
                                path0,
                                h@,
                                p@,
                                fuel as nat,
                            )) by {
                                assert(path_to_missing(
                                    *self,
                                    self.spec_child(node@, n),
                                    path0 + self.spec_node(node@).partial_key@ + seq![n],
                                    h@,
                                    p@,
                                    (fuel - 1) as nat,
                                ));
                            }
                            assert(h@ == sub@[t as int].0@);
                        }
                        out.push((h, p));
                        proof {
                            assert(out@.last().0@ == sub@[t as int].0@);
                            assert forall|k: int|
                                0 <= k < t + 1 implies (exists|k2: int|
                                0 <= k2 < out@.len() && (#[trigger] out@[k2]).0@ == (
                                #[trigger] sub@[k]).0@) by {
                                if k < t {
                                    let k2 = choose|k2: int|
                                        0 <= k2 < out0.len() && (#[trigger] out0[k2]).0@ == sub@[
                                            k
                                        ].0@;
                                    assert(out@[k2] == out0[k2]);
                                } else {
                                    assert(out@[out@.len() - 1].0@ == sub@[k].0@);
                                }
                            }
                            assert forall|x: Seq<u8>|
                                !self.spec_has_node(x) && (exists|m: u8|
                                    m < n && self.spec_has_child(node@, m) && #[trigger] reaches(
                                        *self,
                                        self.spec_child(node@, m),
                                        x,
                                        (fuel - 1) as nat,
                                    )) implies (exists|k: int|
                                0 <= k < out@.len() && (#[trigger] out@[k]).0@ == x) by {
                                let k2 = choose|k2: int|
                                    0 <= k2 < out0.len() && (#[trigger] out0[k2]).0@ == x;
                                assert(out@[k2] == out0[k2]);
                            }
                        }
                        t += 1;
                    }
                    proof {
                        assert forall|x: Seq<u8>|
                            !self.spec_has_node(x) && (exists|m: u8|
                                m < n + 1 && self.spec_has_child(node@, m) && #[trigger] reaches(
                                    *self,
                                    self.spec_child(node@, m),
                                    x,
                                    (fuel - 1) as nat,
                                )) implies (exists|k: int|
                            0 <= k < out@.len() && (#[trigger] out@[k]).0@ == x) by {
                            let m = choose|m: u8|
                                m < n + 1 && self.spec_has_child(node@, m) && #[trigger] reaches(
                                    *self,
                                    self.spec_child(node@, m),
                                    x,
                                    (fuel - 1) as nat,
                                );
                            if m == n {
                                let k = choose|k: int|
                                    0 <= k < sub@.len() && (#[trigger] sub@[k]).0@ == x;
                                assert(exists|k2: int|
                                    0 <= k2 < out@.len() && (#[trigger] out@[k2]).0@ == sub@[
                                        k
                                    ].0@);
                            }
                        }
                    }
                },
                None => {
                    proof {
                        assert forall|x: Seq<u8>|
                            !self.spec_has_node(x) && (exists|m: u8|
                                m < n + 1 && self.spec_has_child(node@, m) && #[trigger] reaches(
                                    *self,
                                    self.spec_child(node@, m),
                                    x,
                                    (fuel - 1) as nat,
                                )) implies (exists|k: int|
                            0 <= k < out@.len() && (#[trigger] out@[k]).0@ == x) by {
                            let m = choose|m: u8|
                                m < n + 1 && self.spec_has_child(node@, m) && #[trigger] reaches(
                                    *self,
                                    self.spec_child(node@, m),
                                    x,
                                    (fuel - 1) as nat,
                                );
                            assert(m < n);
                        }
                    }
                },
            }
            n += 1;
        }

        // child-trie reference
        match self.find_storage(node) {
            Some(si) => match &self.trie_storage[si].trie_root_ref {
                Some(r2) => {
                    let r2c = bytes_to_vec(r2.as_slice());
                    let mut cpath = bytes_to_vec(key2.as_slice());
                    cpath.push(CHILD_TRIE_SEPARATOR);
                    let ghost cpathv = cpath@;
                    let sub = self.missing_scan(r2c.as_slice(), cpath, fuel - 1);
                    let mut t: usize = 0;
                    while t < sub.len()
                        invariant
                            self.wf(),
                            t <= sub@.len(),
                            self.spec_has_node(node@),
                            self.spec_has_storage(node@),
                            (self.spec_storage(node@).trie_root_ref is Some),
                            r2c@ == self.spec_storage(node@).trie_root_ref.unwrap()@,
                            cpathv == path0 + self.spec_node(node@).partial_key@ + seq![
                                CHILD_TRIE_SEPARATOR,
                            ],
                            fuel >= 1,
                            forall|k: int|
                                0 <= k < sub@.len() ==> !self.spec_has_node(
                                    (#[trigger] sub@[k]).0@,
                                ) && reaches(*self, r2c@, sub@[k].0@, (fuel - 1) as nat) && (sub@[
                                    k
                                ].0@ == r2c@ || edge_targets(*self, sub@[k].0@))
                                    && path_to_missing(
                                    *self,
                                    r2c@,
                                    cpathv,
                                    sub@[k].0@,
                                    sub@[k].1@,
                                    (fuel - 1) as nat,
                                ),
                            forall|k: int|
                                0 <= k < t ==> (exists|k2: int|
                                    0 <= k2 < out@.len() && (#[trigger] out@[k2]).0@ == (
                                    #[trigger] sub@[k]).0@),
                            forall|k: int|
                                0 <= k < out@.len() ==> !self.spec_has_node(
                                    (#[trigger] out@[k]).0@,
                                ) && reaches(*self, node@, out@[k].0@, fuel as nat) && (out@[
                                    k
                                ].0@ == node@ || edge_targets(*self, out@[k].0@))
                                    && path_to_missing(
                                    *self,
                                    node@,
                                    path0,
                                    out@[k].0@,
                                    out@[k].1@,
                                    fuel as nat,
                                ),
                            forall|x: Seq<u8>|
                                !self.spec_has_node(x) && (exists|m: u8|
                                    m < 16 && self.spec_has_child(node@, m) && #[trigger] reaches(
                                        *self,
                                        self.spec_child(node@, m),
                                        x,
                                        (fuel - 1) as nat,
                                    )) ==> (exists|k: int|
                                    0 <= k < out@.len() && (#[trigger] out@[k]).0@ == x),
                        decreases sub@.len() - t,
                    {
                        let ghost out0 = out@;
                        let h = bytes_to_vec(sub[t].0.as_slice());
                        let p = bytes_to_vec(sub[t].1.as_slice());
                        proof {
                            let si2 = self.spec_storage_idx(node@);
                            assert(self.trie_storage@[si2].trie_root_ref.unwrap()@ == r2c@);
                            assert(r2c@ == h@ ==> edge_targets(*self, h@));
                            assert(path_to_missing(
                                *self,
                                node@,
                                path0,
                                h@,
                                p@,
                                fuel as nat,
                            )) by {
                                assert(path_to_missing(
                                    *self,
                                    self.spec_storage(node@).trie_root_ref.unwrap()@,
                                    path0 + self.spec_node(node@).partial_key@ + seq![
                                        CHILD_TRIE_SEPARATOR,
                                    ],
                                    h@,
                                    p@,
                                    (fuel - 1) as nat,
                                ));
                            }
                            assert(h@ == sub@[t as int].0@);
                        }
                        out.push((h, p));
                        proof {
                            assert(out@.last().0@ == sub@[t as int].0@);
                            assert forall|k: int|
                                0 <= k < t + 1 implies (exists|k2: int|
                                0 <= k2 < out@.len() && (#[trigger] out@[k2]).0@ == (
                                #[trigger] sub@[k]).0@) by {
                                if k < t {
                                    let k2 = choose|k2: int|
                                        0 <= k2 < out0.len() && (#[trigger] out0[k2]).0@ == sub@[
                                            k
                                        ].0@;
                                    assert(out@[k2] == out0[k2]);
                                } else {
                                    assert(out@[out@.len() - 1].0@ == sub@[k].0@);
                                }
                            }
                            assert forall|x: Seq<u8>|
                                !self.spec_has_node(x) && (exists|m: u8|
                                    m < 16 && self.spec_has_child(node@, m) && #[trigger] reaches(
                                        *self,
                                        self.spec_child(node@, m),
                                        x,
                                        (fuel - 1) as nat,
                                    )) implies (exists|k: int|
                                0 <= k < out@.len() && (#[trigger] out@[k]).0@ == x) by {
                                let k2 = choose|k2: int|
                                    0 <= k2 < out0.len() && (#[trigger] out0[k2]).0@ == x;
                                assert(out@[k2] == out0[k2]);
                            }
                        }
                        t += 1;
                    }
                    proof {
                        assert forall|x: Seq<u8>|
                            !self.spec_has_node(x) && #[trigger] reaches(
                                *self,
                                node@,
                                x,
                                fuel as nat,
                            ) implies (exists|k: int|
                            0 <= k < out@.len() && (#[trigger] out@[k]).0@ == x) by {
                            if x != node@ {
                                if exists|m: u8|
                                    m < 16 && self.spec_has_child(node@, m) && reaches(
                                        *self,
                                        self.spec_child(node@, m),
                                        x,
                                        (fuel - 1) as nat,
                                    ) {
                                } else {
                                    assert(reaches(*self, r2c@, x, (fuel - 1) as nat));
                                    let k = choose|k: int|
                                        0 <= k < sub@.len() && (#[trigger] sub@[k]).0@ == x;
                                    assert(exists|k2: int|
                                        0 <= k2 < out@.len() && (#[trigger] out@[k2]).0@ == sub@[
                                            k
                                        ].0@);
                                }
                            }
                        }
                    }
                },
                None => {
                    proof {
                        assert forall|x: Seq<u8>|
                            !self.spec_has_node(x) && #[trigger] reaches(
                                *self,
                                node@,
                                x,
                                fuel as nat,
                            ) implies (exists|k: int|
                            0 <= k < out@.len() && (#[trigger] out@[k]).0@ == x) by {
                            if x != node@ {
                                assert(exists|m: u8|
                                    m < 16 && self.spec_has_child(node@, m) && reaches(
                                        *self,
                                        self.spec_child(node@, m),
                                        x,
                                        (fuel - 1) as nat,
                                    ));
                            }
                        }
                    }
                },
            },
            None => {
                proof {
                    assert forall|x: Seq<u8>|
                        !self.spec_has_node(x) && #[trigger] reaches(
                            *self,
                            node@,
                            x,
                            fuel as nat,
                        ) implies (exists|k: int|
                        0 <= k < out@.len() && (#[trigger] out@[k]).0@ == x) by {
                        if x != node@ {
                            assert(exists|m: u8|
                                m < 16 && self.spec_has_child(node@, m) && reaches(
                                    *self,
                                    self.spec_child(node@, m),
                                    x,
                                    (fuel - 1) as nat,
                                ));
                        }
                    }
                }
            },
        }
        out
    }

    /// Lists the trie nodes that are missing from the store although the
    /// state of some block at or above the finalized height reaches them:
    /// every reported group is sound, every such reachable absent node is
    /// reported in exactly one group, and that group lists each block
    /// whose state needs it. The order of the groups and of the blocks
    /// within a group is unspecified.
    pub fn finalized_and_above_missing_trie_nodes_unordered(&self) -> (r: Result<
        Vec<MissingTrieNode>,
        CorruptedError,
    >)
        requires
            self.wf(),
        ensures
            match r {
                Ok(v) => {
                    &&& forall|k: int|
                        0 <= k < v@.len() ==> missing_group_ok(*self, #[trigger] v@[k])
                    &&& forall|g1: int, g2: int|
                        0 <= g1 < g2 < v@.len() ==> (#[trigger] v@[g1]).trie_node_hash@ != (
                        #[trigger] v@[g2]).trie_node_hash@
                    &&& forall|bi: int, x: Seq<u8>|
                        0 <= bi < self.blocks@.len() && (#[trigger] self.blocks@[bi]).number
                            >= self.meta_finalized && self.blocks@[bi].state_trie_root is Some
                            && !self.spec_has_node(x) && #[trigger] reaches(
                            *self,
                            self.blocks@[bi].state_trie_root.unwrap()@,
                            x,
                            scan_fuel(*self),
                        ) ==> covered(v@, x, self.blocks@[bi].hash@)
                },
                Err(e) => e == CorruptedError::InvalidTrieHashLen && (exists|x: Seq<u8>|
                    edge_targets(*self, x) && x.len() != 32 && !self.spec_has_node(x)),
            },
    {
        let mut out: Vec<MissingTrieNode> = Vec::new();
        let fin = self.meta_finalized;
        let fuel = match self.trie_nodes.len().checked_add(2) {
            Some(f) => f,
            None => usize::MAX,
        };
        proof {
            assert(fuel as nat == scan_fuel(*self));
        }
        let mut i: usize = 0;
        while i < self.blocks.len()
            invariant
                self.wf(),
                fin == self.meta_finalized,
                fuel as nat == scan_fuel(*self),
                i <= self.blocks@.len(),
                forall|k: int| 0 <= k < out@.len() ==> missing_group_ok(*self, #[trigger] out@[k]),
                forall|g1: int, g2: int|
                    0 <= g1 < g2 < out@.len() ==> (#[trigger] out@[g1]).trie_node_hash@ != (
                    #[trigger] out@[g2]).trie_node_hash@,
                forall|bi: int, x: Seq<u8>|
                    0 <= bi < i && (#[trigger] self.blocks@[bi]).number >= fin
                        && self.blocks@[bi].state_trie_root is Some && !self.spec_has_node(x)
                        && #[trigger] reaches(
                        *self,
                        self.blocks@[bi].state_trie_root.unwrap()@,
                        x,
                        scan_fuel(*self),
                    ) ==> covered(out@, x, self.blocks@[bi].hash@),
            decreases self.blocks@.len() - i,
        {
            if self.blocks[i].number >= fin {
                let root: Option<Vec<u8>> = match &self.blocks[i].state_trie_root {
                    Some(rt) => Some(bytes_to_vec(rt.as_slice())),
                    None => None,
                };
                match root {
                    Some(rt) => {
                        let found = self.missing_scan(rt.as_slice(), Vec::new(), fuel);
                        let bhash = bytes_to_vec(self.blocks[i].hash.as_slice());
                        let bnum = self.blocks[i].number;
                        proof {
                            self.lemma_block_at(i as int);
                        }
                        let mut t: usize = 0;
                        while t < found.len()
                            invariant
                                self.wf(),
                                t <= found@.len(),
                                i < self.blocks@.len(),
                                fin == self.meta_finalized,
                                fuel as nat == scan_fuel(*self),
                                bhash@ == self.blocks@[i as int].hash@,
                                bnum == self.blocks@[i as int].number,
                                bnum >= fin,
                                self.spec_has_block(bhash@),
                                self.spec_block(bhash@) == self.blocks@[i as int],
                                (self.blocks@[i as int].state_trie_root is Some),
                                rt@ == self.blocks@[i as int].state_trie_root.unwrap()@,
                                forall|k: int|
                                    0 <= k < found@.len() ==> !self.spec_has_node(
                                        (#[trigger] found@[k]).0@,
                                    ) && reaches(*self, rt@, found@[k].0@, fuel as nat) && (
                                    found@[k].0@ == rt@ || edge_targets(*self, found@[k].0@))
                                        && path_to_missing(
                                        *self,
                                        rt@,
                                        Seq::empty(),
                                        found@[k].0@,
                                        found@[k].1@,
                                        fuel as nat,
                                    ),
                                forall|k: int|
                                    0 <= k < t ==> covered(
                                        out@,
                                        (#[trigger] found@[k]).0@,
                                        bhash@,
                                    ),
                                forall|k: int|
                                    0 <= k < out@.len() ==> missing_group_ok(
                                        *self,
                                        #[trigger] out@[k],
                                    ),
                                forall|g1: int, g2: int|
                                    0 <= g1 < g2 < out@.len() ==> (
                                    #[trigger] out@[g1]).trie_node_hash@ != (
                                    #[trigger] out@[g2]).trie_node_hash@,
                                forall|bi: int, x: Seq<u8>|
                                    0 <= bi < i && (#[trigger] self.blocks@[bi]).number >= fin
                                        && self.blocks@[bi].state_trie_root is Some
                                        && !self.spec_has_node(x) && #[trigger] reaches(
                                        *self,
                                        self.blocks@[bi].state_trie_root.unwrap()@,
                                        x,
                                        scan_fuel(*self),
                                    ) ==> covered(out@, x, self.blocks@[bi].hash@),
                            decreases found@.len() - t,
                        {
                            let h = bytes_to_vec(found[t].0.as_slice());
                            if h.len() != 32 {
                                // a state root is 32 bytes, so a short
                                // missing hash was an edge target
                                proof {
                                    assert(self.blocks@[i as int].wf());
                                    assert(h@ != rt@);
                                    assert(edge_targets(*self, h@));
                                }
                                return Err(CorruptedError::InvalidTrieHashLen);
                            }
                            // split the recorded key at the child-trie
                            // separators
                            let p = &found[t].1;
                            let mut parents: Vec<Vec<u8>> = Vec::new();
                            let mut keyn: Vec<u8> = Vec::new();
                            let mut u: usize = 0;
                            proof {
                                assert(spec_full_key(parents@, Seq::empty()) + keyn@
                                    =~= found@[t as int].1@.take(0));
                            }
                            while u < p.len()
                                invariant
                                    u <= p@.len(),
                                    p@ == found@[t as int].1@,
                                    t < found@.len(),
                                    spec_full_key(parents@, Seq::empty()) + keyn@ == found@[
                                        t as int
                                    ].1@.take(u as int),
                                decreases p@.len() - u,
                            {
                                if p[u] == CHILD_TRIE_SEPARATOR {
                                    let ghost parents0 = parents@;
                                    let ghost keyn0 = keyn@;
                                    parents.push(keyn);
                                    keyn = Vec::new();
                                    proof {
                                        let v = parents@[parents@.len() - 1];
                                        lemma_full_key_snoc(parents0, v);
                                        assert(parents@ =~= parents0.push(v));
                                        assert(spec_full_key(parents@, Seq::empty())
                                            == spec_full_key(parents0, Seq::empty()) + v@ + seq![
                                            CHILD_TRIE_SEPARATOR,
                                        ]);
                                        assert(v@ == keyn0);
                                        assert(found@[t as int].1@.take(u as int + 1) =~= found@[
                                            t as int
                                        ].1@.take(u as int) + seq![found@[t as int].1@[u as int]]);
                                        assert(spec_full_key(parents@, Seq::empty()) + keyn@
                                            =~= found@[t as int].1@.take(u as int + 1));
                                    }
                                } else {
                                    keyn.push(p[u]);
                                    proof {
                                        assert(found@[t as int].1@.take(u as int + 1) =~= found@[
                                            t as int
                                        ].1@.take(u as int) + seq![found@[t as int].1@[u as int]]);
                                        assert(spec_full_key(parents@, Seq::empty()) + keyn@
                                            =~= found@[t as int].1@.take(u as int + 1));
                                    }
                                }
                                u += 1;
                            }
                            proof {
                                assert(found@[t as int].1@.take(found@[t as int].1@.len() as int)
                                    =~= found@[t as int].1@);
                                lemma_full_key_flat(parents@, keyn@);
                                assert(spec_full_key(parents@, keyn@) == found@[t as int].1@);
                            }
                            let entry = MissingTrieNodeBlock {
                                hash: bytes_to_vec(bhash.as_slice()),
                                number: bnum,
                                parent_tries_paths_nibbles: parents,
                                trie_node_key_nibbles: keyn,
                            };
                            proof {
                                assert(missing_entry_ok(*self, entry, h@)) by {
                                    assert(reaches(*self, rt@, found@[t as int].0@, fuel as nat));
                                    assert(path_to_missing(
                                        *self,
                                        rt@,
                                        Seq::empty(),
                                        found@[t as int].0@,
                                        found@[t as int].1@,
                                        fuel as nat,
                                    ));
                                }
                            }
                            let ghost hv = h@;
                            let ghost entryv = entry;
                            // group by missing node
                            let mut gi_found: Option<usize> = None;
                            let mut gi: usize = 0;
                            while gi < out.len() && gi_found.is_none()
                                invariant
                                    gi <= out@.len(),
                                    (gi_found is None) ==> (forall|g: int|
                                        0 <= g < gi ==> (#[trigger] out@[g]).trie_node_hash@
                                            != h@),
                                    match gi_found {
                                        Some(g) => g < out@.len() && out@[
                                            g as int
                                        ].trie_node_hash@ == h@,
                                        None => true,
                                    },
                                decreases out@.len() - gi,
                            {
                                if bytes_eq(out[gi].trie_node_hash.as_slice(), h.as_slice()) {
                                    gi_found = Some(gi);
                                }
                                gi += 1;
                            }
                            let ghost before = out@;
                            match gi_found {
                                Some(g) => {
                                    out[g].blocks.push(entry);
                                    proof {
                                        assert forall|k: int|
                                            0 <= k < out@.len() implies missing_group_ok(
                                            *self,
                                            #[trigger] out@[k],
                                        ) by {
                                            if k == g {
                                                assert(missing_group_ok(*self, before[k]));
                                                assert(out@[k].blocks@ == before[k].blocks@.push(
                                                    entryv,
                                                ));
                                                assert forall|j: int|
                                                    0 <= j < out@[k].blocks@.len()
                                                        implies missing_entry_ok(
                                                    *self,
                                                    #[trigger] out@[k].blocks@[j],
                                                    out@[k].trie_node_hash@,
                                                ) by {
                                                    if j < before[k].blocks@.len() {
                                                        assert(missing_entry_ok(
                                                            *self,
                                                            before[k].blocks@[j],
                                                            before[k].trie_node_hash@,
                                                        ));
                                                    }
                                                }
                                            } else {
                                                assert(out@[k] == before[k]);
                                            }
                                        }
                                        assert forall|g1: int, g2: int|
                                            0 <= g1 < g2 < out@.len() implies (
                                        #[trigger] out@[g1]).trie_node_hash@ != (
                                        #[trigger] out@[g2]).trie_node_hash@ by {
                                            assert(out@[g1].trie_node_hash@ == before[
                                                g1
                                            ].trie_node_hash@);
                                            assert(out@[g2].trie_node_hash@ == before[
                                                g2
                                            ].trie_node_hash@);
                                        }
                                        assert(covered(out@, hv, bhash@)) by {
                                            assert(out@[g as int].trie_node_hash@ == hv);
                                            assert(out@[g as int].blocks@[
                                                out@[g as int].blocks@.len() - 1
                                            ].hash@ == bhash@);
                                        }
                                    }
                                },
                                None => {
                                    let mut blist: Vec<MissingTrieNodeBlock> = Vec::new();
                                    blist.push(entry);
                                    out.push(
                                        MissingTrieNode { blocks: blist, trie_node_hash: h },
                                    );
                                    proof {
                                        assert forall|k: int|
                                            0 <= k < out@.len() implies missing_group_ok(
                                            *self,
                                            #[trigger] out@[k],
                                        ) by {
                                            if k < before.len() {
                                                assert(out@[k] == before[k]);
                                            } else {
                                                assert(out@[k].trie_node_hash@ == hv);
                                                assert(out@[k].blocks@.len() == 1);
                                                assert(out@[k].blocks@[0] == entryv);
                                            }
                                        }
                                        assert forall|g1: int, g2: int|
                                            0 <= g1 < g2 < out@.len() implies (
                                        #[trigger] out@[g1]).trie_node_hash@ != (
                                        #[trigger] out@[g2]).trie_node_hash@ by {
                                            if g2 < before.len() {
                                                assert(out@[g1] == before[g1]);
                                                assert(out@[g2] == before[g2]);
                                            } else {
                                                assert(out@[g1] == before[g1]);
                                                assert(out@[g2].trie_node_hash@ == hv);
                                                assert(before[g1].trie_node_hash@ != hv);
                                            }
                                        }
                                        assert(covered(out@, hv, bhash@)) by {
                                            assert(out@[out@.len() - 1].trie_node_hash@ == hv);
                                            assert(out@[out@.len() - 1].blocks@[0].hash@
                                                == bhash@);
                                        }
                                    }
                                },
                            }
                            proof {
                                // older coverage survives the growth
                                assert forall|k: int|
                                    0 <= k < t + 1 implies covered(
                                    out@,
                                    (#[trigger] found@[k]).0@,
                                    bhash@,
                                ) by {
                                    if k < t {
                                        lemma_covered_mono(before, out@, found@[k].0@, bhash@);
                                    } else {
                                        assert(found@[k].0@ == hv);
                                        assert(covered(out@, hv, bhash@));
                                    }
                                }
                                assert forall|bi: int, x: Seq<u8>|
                                    0 <= bi < i && (#[trigger] self.blocks@[bi]).number >= fin
                                        && self.blocks@[bi].state_trie_root is Some
                                        && !self.spec_has_node(x) && #[trigger] reaches(
                                        *self,
                                        self.blocks@[bi].state_trie_root.unwrap()@,
                                        x,
                                        scan_fuel(*self),
                                    ) implies covered(out@, x, self.blocks@[bi].hash@) by {
                                    lemma_covered_mono(before, out@, x, self.blocks@[bi].hash@);
                                }
                            }
                            t += 1;
                        }
                        proof {
                            assert forall|bi: int, x: Seq<u8>|
                                0 <= bi < i + 1 && (#[trigger] self.blocks@[bi]).number >= fin
                                    && self.blocks@[bi].state_trie_root is Some
                                    && !self.spec_has_node(x) && #[trigger] reaches(
                                    *self,
                                    self.blocks@[bi].state_trie_root.unwrap()@,
                                    x,
                                    scan_fuel(*self),
                                ) implies covered(out@, x, self.blocks@[bi].hash@) by {
                                if bi == i {
                                    let k = choose|k: int|
                                        0 <= k < found@.len() && (#[trigger] found@[k]).0@ == x;
                                    assert(covered(out@, found@[k].0@, bhash@));
                                }
                            }
                        }
                    },
                    None => {},
                }
            }
            i += 1;
        }
        Ok(out)
    }
}

} // verus!
