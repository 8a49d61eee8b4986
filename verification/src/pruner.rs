//! The pruner: after finalization, drops every stale sibling of the
//! finalized chain together with the trie nodes that only those blocks
//! reached.
//!
//! A trie node is kept as soon as some block still names it as its state
//! root or some storage entry references it as a child trie root; the
//! recursive reclamation stops at such nodes. Reclamation descends through
//! child edges only: nodes reachable solely through a `trie_root_ref` of a
//! deleted node are left in place.

use vstd::prelude::*;

use crate::bytes::bytes_to_vec;
use crate::errors::CorruptedError;
use crate::missing::reaches;
use crate::tables::{BlockRow, ChainDb};

verus! {

/// Some block names `m` as its state trie root.
pub open spec fn root_referenced(s: Seq<BlockRow>, m: Seq<u8>) -> bool {
    exists|i: int|
        0 <= i < s.len() && (#[trigger] s[i]).state_trie_root is Some
            && s[i].state_trie_root.unwrap()@ == m
}

/// The block rows that survive pruning at finalized height `fin`: the
/// best-chain rows and everything above `fin`.
pub open spec fn keep_blocks(s: Seq<BlockRow>, fin: u64) -> Seq<BlockRow>
    decreases s.len(),
{
    if s.len() == 0 {
        Seq::empty()
    } else if s[0].is_best_chain || s[0].number > fin {
        seq![s[0]] + keep_blocks(s.skip(1), fin)
    } else {
        keep_blocks(s.skip(1), fin)
    }
}

/// Some block row of `s` is a pruning orphan (at or below height `fin`
/// and off the best chain) whose state root reaches `x` in `db`.
pub open spec fn orphan_reaches(db: ChainDb, s: Seq<BlockRow>, fin: u64, x: Seq<u8>) -> bool {
    exists|bi: int, f: nat|
        0 <= bi < s.len() && s[bi].number <= fin && !s[bi].is_best_chain
            && s[bi].state_trie_root is Some && reaches(
            db,
            s[bi].state_trie_root.unwrap()@,
            x,
            f,
        )
}

/// The surviving rows keep a child-trie reference alive: if the smaller
/// store still holds a row referencing `x`, so does the bigger one.
proof fn lemma_refs_transfer(a: ChainDb, b: ChainDb, x: Seq<u8>)
    requires
        b.spec_storage_refs(x),
        b.storage_unique(),
        forall|m: Seq<u8>|
            #![trigger b.spec_has_storage(m)]
            b.spec_has_storage(m) ==> a.spec_has_storage(m) && b.spec_storage(m)
                == a.spec_storage(m),
    ensures
        a.spec_storage_refs(x),
{
    let i = choose|i: int|
        0 <= i < b.trie_storage@.len() && (#[trigger] b.trie_storage@[i]).trie_root_ref
            is Some && b.trie_storage@[i].trie_root_ref.unwrap()@ == x;
    let h = b.trie_storage@[i].node_hash@;
    assert(b.spec_has_storage(h));
    let w = b.spec_storage_idx(h);
    assert(b.trie_storage@[w].node_hash@ == h);
    assert(w == i);
    let w2 = a.spec_storage_idx(h);
    assert(a.trie_storage@[w2] == b.trie_storage@[i]);
}

/// Every row that pruning keeps was a row of the original table, on the
/// best chain or above the finalized height.
proof fn lemma_keep_blocks_sub(s: Seq<BlockRow>, fin: u64)
    ensures
        forall|w: int|
            0 <= w < keep_blocks(s, fin).len() ==> (exists|j0: int|
                0 <= j0 < s.len() && s[j0] == (#[trigger] keep_blocks(s, fin)[w])),
        forall|w: int|
            0 <= w < keep_blocks(s, fin).len() ==> (#[trigger] keep_blocks(s, fin)[
                w
            ]).is_best_chain || keep_blocks(s, fin)[w].number > fin,
    decreases s.len(),
{
    if s.len() > 0 {
        lemma_keep_blocks_sub(s.skip(1), fin);
        assert forall|w: int|
            0 <= w < keep_blocks(s, fin).len() implies (exists|j0: int|
            0 <= j0 < s.len() && s[j0] == (#[trigger] keep_blocks(s, fin)[w])) by {
            if s[0].is_best_chain || s[0].number > fin {
                if w > 0 {
                    let j0 = choose|j0: int|
                        0 <= j0 < s.skip(1).len() && s.skip(1)[j0] == keep_blocks(
                            s.skip(1),
                            fin,
                        )[w - 1];
                    assert(s[j0 + 1] == keep_blocks(s, fin)[w]);
                }
            } else {
                let j0 = choose|j0: int|
                    0 <= j0 < s.skip(1).len() && s.skip(1)[j0] == keep_blocks(s.skip(1), fin)[w];
                assert(s[j0 + 1] == keep_blocks(s, fin)[w]);
            }
        }
    }
}

/// Two stores with the same trie tables agree on every trie view.
proof fn lemma_trie_views_eq(a: ChainDb, b: ChainDb)
    requires
        a.trie_nodes@ == b.trie_nodes@,
        a.trie_children@ == b.trie_children@,
        a.trie_storage@ == b.trie_storage@,
        a.children_unique(),
        a.storage_unique(),
    ensures
        forall|x: Seq<u8>| #![trigger a.spec_has_node(x)] a.spec_has_node(x) == b.spec_has_node(x),
        forall|p: Seq<u8>, n: u8|
            #![trigger a.spec_has_child(p, n)]
            a.spec_has_child(p, n) == b.spec_has_child(p, n) && (a.spec_has_child(p, n)
                ==> a.spec_child(p, n) == b.spec_child(p, n)),
        forall|x: Seq<u8>|
            #![trigger a.spec_has_storage(x)]
            a.spec_has_storage(x) == b.spec_has_storage(x) && (a.spec_has_storage(x)
                ==> a.spec_storage(x) == b.spec_storage(x)),
{
    assert forall|x: Seq<u8>| #![trigger a.spec_has_node(x)] a.spec_has_node(x)
        == b.spec_has_node(x) by {
        if a.spec_has_node(x) {
            let w = a.spec_node_idx(x);
            assert(b.trie_nodes@[w].merkle_value@ == x);
        }
        if b.spec_has_node(x) {
            let w = b.spec_node_idx(x);
            assert(a.trie_nodes@[w].merkle_value@ == x);
        }
    }
    assert forall|p: Seq<u8>, n: u8|
        #![trigger a.spec_has_child(p, n)]
        a.spec_has_child(p, n) == b.spec_has_child(p, n) && (a.spec_has_child(p, n)
            ==> a.spec_child(p, n) == b.spec_child(p, n)) by {
        if a.spec_has_child(p, n) {
            let w = a.spec_child_idx(p, n);
            assert(b.trie_children@[w].parent@ == p && b.trie_children@[w].child_num == n);
            let w2 = b.spec_child_idx(p, n);
            assert(a.trie_children@[w2].parent@ == p && a.trie_children@[w2].child_num == n);
            assert(w2 == w);
        }
        if b.spec_has_child(p, n) {
            let w = b.spec_child_idx(p, n);
            assert(a.trie_children@[w].parent@ == p && a.trie_children@[w].child_num == n);
        }
    }
    assert forall|x: Seq<u8>|
        #![trigger a.spec_has_storage(x)]
        a.spec_has_storage(x) == b.spec_has_storage(x) && (a.spec_has_storage(x)
            ==> a.spec_storage(x) == b.spec_storage(x)) by {
        if a.spec_has_storage(x) {
            let w = a.spec_storage_idx(x);
            assert(b.trie_storage@[w].node_hash@ == x);
            let w2 = b.spec_storage_idx(x);
            assert(a.trie_storage@[w2].node_hash@ == x);
            assert(w2 == w);
        }
        if b.spec_has_storage(x) {
            let w = b.spec_storage_idx(x);
            assert(a.trie_storage@[w].node_hash@ == x);
        }
    }
}

/// `kid` is the target of some child edge of `m`.
pub open spec fn kid_edge_of(db: ChainDb, m: Seq<u8>, kid: Seq<u8>) -> bool {
    exists|n: u8| n < 16 && db.spec_has_child(m, n) && db.spec_child(m, n) == kid
}

/// A path that exists after deletions existed before them: reachability
/// in a store carries over to any store that still holds every node,
/// child edge and storage entry of the smaller one, unchanged.
proof fn lemma_reaches_shrink(db1: ChainDb, db2: ChainDb, from: Seq<u8>, to: Seq<u8>, f: nat)
    requires
        reaches(db2, from, to, f),
        forall|m: Seq<u8>| db2.spec_has_node(m) ==> db1.spec_has_node(m),
        forall|p: Seq<u8>, n: u8|
            #![trigger db2.spec_has_child(p, n)]
            db2.spec_has_child(p, n) ==> db1.spec_has_child(p, n) && db2.spec_child(p, n)
                == db1.spec_child(p, n),
        forall|m: Seq<u8>|
            #![trigger db2.spec_has_storage(m)]
            db2.spec_has_storage(m) ==> db1.spec_has_storage(m) && db2.spec_storage(m)
                == db1.spec_storage(m),
    ensures
        reaches(db1, from, to, f),
    decreases f,
{
    if from != to {
        if exists|n: u8|
            n < 16 && db2.spec_has_child(from, n) && reaches(
                db2,
                db2.spec_child(from, n),
                to,
                (f - 1) as nat,
            ) {
            let n = choose|n: u8|
                n < 16 && db2.spec_has_child(from, n) && reaches(
                    db2,
                    db2.spec_child(from, n),
                    to,
                    (f - 1) as nat,
                );
            lemma_reaches_shrink(db1, db2, db2.spec_child(from, n), to, (f - 1) as nat);
        } else {
            lemma_reaches_shrink(
                db1,
                db2,
                db2.spec_storage(from).trie_root_ref.unwrap()@,
                to,
                (f - 1) as nat,
            );
        }
    }
}

impl ChainDb {
    /// Some storage entry references `m` as the root of a child trie.
    pub open spec fn spec_storage_refs(self, m: Seq<u8>) -> bool {
        exists|i: int|
            0 <= i < self.trie_storage@.len() && (
            #[trigger] self.trie_storage@[i]).trie_root_ref is Some
                && self.trie_storage@[i].trie_root_ref.unwrap()@ == m
    }

    fn root_referenced_exec(&self, m: &[u8]) -> (r: bool)
        ensures
            r == root_referenced(self.blocks@, m@),
    {
        let mut i: usize = 0;
        while i < self.blocks.len()
            invariant
                i <= self.blocks@.len(),
                forall|j: int|
                    0 <= j < i ==> !((#[trigger] self.blocks@[j]).state_trie_root is Some
                        && self.blocks@[j].state_trie_root.unwrap()@ == m@),
            decreases self.blocks@.len() - i,
        {
            match &self.blocks[i].state_trie_root {
                Some(rt) => {
                    if crate::bytes::bytes_eq(rt.as_slice(), m) {
                        return true;
                    }
                },
                None => {},
            }
            i += 1;
        }
        false
    }

    fn storage_refs_exec(&self, m: &[u8]) -> (r: bool)
        ensures
            r == self.spec_storage_refs(m@),
    {
        let mut i: usize = 0;
        while i < self.trie_storage.len()
            invariant
                i <= self.trie_storage@.len(),
                forall|j: int|
                    0 <= j < i ==> !((#[trigger] self.trie_storage@[j]).trie_root_ref is Some
                        && self.trie_storage@[j].trie_root_ref.unwrap()@ == m@),
            decreases self.trie_storage@.len() - i,
        {
            match &self.trie_storage[i].trie_root_ref {
                Some(rt) => {
                    if crate::bytes::bytes_eq(rt.as_slice(), m) {
                        return true;
                    }
                },
                None => {},
            }
            i += 1;
        }
        false
    }

    /// Removes every child edge whose parent is `m`. Edges of other
    /// parents stay, in order.
    fn remove_children_of(&mut self, m: &[u8])
        requires
            old(self).wf(),
        ensures
            final(self).wf(),
            final(self).blocks == old(self).blocks,
            final(self).trie_nodes == old(self).trie_nodes,
            final(self).trie_storage == old(self).trie_storage,
            final(self).meta_best == old(self).meta_best,
            final(self).meta_finalized == old(self).meta_finalized,
            final(self).grandpa_authorities_set_id == old(self).grandpa_authorities_set_id,
            final(self).grandpa_scheduled_target == old(self).grandpa_scheduled_target,
            final(self).grandpa_triggered_authorities == old(self).grandpa_triggered_authorities,
            final(self).grandpa_scheduled_authorities == old(self).grandpa_scheduled_authorities,
            final(self).aura_slot_duration == old(self).aura_slot_duration,
            final(self).aura_finalized_authorities == old(self).aura_finalized_authorities,
            final(self).babe_slots_per_epoch == old(self).babe_slots_per_epoch,
            final(self).babe_finalized_epoch == old(self).babe_finalized_epoch,
            final(self).babe_finalized_next_epoch == old(self).babe_finalized_next_epoch,
            forall|p: Seq<u8>, n: u8|
                #![trigger final(self).spec_has_child(p, n)]
                final(self).spec_has_child(p, n) ==> old(self).spec_has_child(p, n)
                    && final(self).spec_child(p, n) == old(self).spec_child(p, n),
            forall|n: u8| !final(self).spec_has_child(m@, n),
            forall|p: Seq<u8>, n: u8|
                p != m@ && old(self).spec_has_child(p, n) ==> final(self).spec_has_child(p, n)
                    && final(self).spec_child(p, n) == old(self).spec_child(p, n),
    {
        let mut i: usize = 0;
        while i < self.trie_children.len()
            invariant
                self.wf(),
                i <= self.trie_children@.len(),
                self.blocks == old(self).blocks,
                self.trie_nodes == old(self).trie_nodes,
                self.trie_storage == old(self).trie_storage,
                self.meta_best == old(self).meta_best,
                self.meta_finalized == old(self).meta_finalized,
                self.grandpa_authorities_set_id == old(self).grandpa_authorities_set_id,
                self.grandpa_scheduled_target == old(self).grandpa_scheduled_target,
                self.grandpa_triggered_authorities == old(self).grandpa_triggered_authorities,
                self.grandpa_scheduled_authorities == old(self).grandpa_scheduled_authorities,
                self.aura_slot_duration == old(self).aura_slot_duration,
                self.aura_finalized_authorities == old(self).aura_finalized_authorities,
                self.babe_slots_per_epoch == old(self).babe_slots_per_epoch,
                self.babe_finalized_epoch == old(self).babe_finalized_epoch,
                self.babe_finalized_next_epoch == old(self).babe_finalized_next_epoch,
                forall|j: int| 0 <= j < i ==> (#[trigger] self.trie_children@[j]).parent@ != m@,
                forall|p: Seq<u8>, n: u8|
                    #![trigger self.spec_has_child(p, n)]
                    self.spec_has_child(p, n) ==> old(self).spec_has_child(p, n)
                        && self.spec_child(p, n) == old(self).spec_child(p, n),
                forall|p: Seq<u8>, n: u8|
                    p != m@ && old(self).spec_has_child(p, n) ==> self.spec_has_child(p, n)
                        && self.spec_child(p, n) == old(self).spec_child(p, n),
            decreases self.trie_children@.len() - i,
        {
            if crate::bytes::bytes_eq(self.trie_children[i].parent.as_slice(), m) {
                let ghost prev = *self;
                self.trie_children.remove(i);
                proof {
                    assert forall|a: int, b: int|
                        #![trigger self.trie_children@[a], self.trie_children@[b]]
                        0 <= a < self.trie_children@.len() && 0 <= b < self.trie_children@.len()
                            && a != b implies !(self.trie_children@[a].parent@
                        == self.trie_children@[b].parent@ && self.trie_children@[a].child_num
                        == self.trie_children@[b].child_num) by {
                        let a0: int = if a < i { a } else { a + 1 };
                        let b0: int = if b < i { b } else { b + 1 };
                        assert(self.trie_children@[a] == prev.trie_children@[a0]);
                        assert(self.trie_children@[b] == prev.trie_children@[b0]);
                    }
                    assert forall|p: Seq<u8>, n: u8|
                        #![trigger self.spec_has_child(p, n)]
                        self.spec_has_child(p, n) implies prev.spec_has_child(p, n)
                            && self.spec_child(p, n) == prev.spec_child(p, n) by {
                        let w = self.spec_child_idx(p, n);
                        let w0: int = if w < i {
                            w
                        } else {
                            w + 1
                        };
                        assert(prev.trie_children@[w0] == self.trie_children@[w]);
                        let w1 = prev.spec_child_idx(p, n);
                        assert(prev.trie_children@[w1].parent@ == p && prev.trie_children@[
                            w1
                        ].child_num == n);
                        assert(w1 == w0);
                    }
                    assert forall|p: Seq<u8>, n: u8|
                        p != m@ && prev.spec_has_child(p, n) implies self.spec_has_child(p, n)
                            && self.spec_child(p, n) == prev.spec_child(p, n) by {
                        let w0 = prev.spec_child_idx(p, n);
                        assert(prev.trie_children@[w0].parent@ == p);
                        assert(w0 != i);
                        let w: int = if w0 < i {
                            w0
                        } else {
                            w0 - 1
                        };
                        assert(self.trie_children@[w] == prev.trie_children@[w0]);
                        assert(self.spec_has_child(p, n));
                        let w2 = self.spec_child_idx(p, n);
                        let w20: int = if w2 < i {
                            w2
                        } else {
                            w2 + 1
                        };
                        assert(prev.trie_children@[w20] == self.trie_children@[w2]);
                        assert(w20 == prev.spec_child_idx(p, n) || prev.trie_children@[
                            w20
                        ].parent@ == p && prev.trie_children@[w20].child_num == n);
                        assert(w20 == w0);
                    }
                }
            } else {
                i += 1;
            }
        }
    }

    /// Reclaims the subtree under `m`. The descent stops at — and never
    /// deletes — a node that some block names as its state root or that
    /// some storage entry references as a child trie root, each checked
    /// against the store as it stands when the node is visited; `m`
    /// itself goes when nothing holds it. Nodes whose protecting
    /// reference is itself reclaimed later in the same descent may
    /// survive, which is the store's accepted under-pruning. `fuel`
    /// bounds the recursion depth; one more than the node count always
    /// suffices.
    fn purge_trie_node(&mut self, m: &[u8], fuel: usize)
        requires
            old(self).wf(),
        ensures
            final(self).wf(),
            final(self).blocks == old(self).blocks,
            final(self).meta_best == old(self).meta_best,
            final(self).meta_finalized == old(self).meta_finalized,
            final(self).grandpa_authorities_set_id == old(self).grandpa_authorities_set_id,
            final(self).grandpa_scheduled_target == old(self).grandpa_scheduled_target,
            final(self).grandpa_triggered_authorities == old(self).grandpa_triggered_authorities,
            final(self).grandpa_scheduled_authorities == old(self).grandpa_scheduled_authorities,
            final(self).aura_slot_duration == old(self).aura_slot_duration,
            final(self).aura_finalized_authorities == old(self).aura_finalized_authorities,
            final(self).babe_slots_per_epoch == old(self).babe_slots_per_epoch,
            final(self).babe_finalized_epoch == old(self).babe_finalized_epoch,
            final(self).babe_finalized_next_epoch == old(self).babe_finalized_next_epoch,
            forall|x: Seq<u8>| final(self).spec_has_node(x) ==> old(self).spec_has_node(x),
            forall|p: Seq<u8>, n: u8|
                #![trigger final(self).spec_has_child(p, n)]
                final(self).spec_has_child(p, n) ==> old(self).spec_has_child(p, n)
                    && final(self).spec_child(p, n) == old(self).spec_child(p, n),
            forall|x: Seq<u8>|
                #![trigger final(self).spec_has_storage(x)]
                final(self).spec_has_storage(x) ==> old(self).spec_has_storage(x)
                    && final(self).spec_storage(x) == old(self).spec_storage(x),
            forall|x: Seq<u8>|
                root_referenced(old(self).blocks@, x) && old(self).spec_has_node(x)
                    ==> final(self).spec_has_node(x),
            forall|x: Seq<u8>|
                old(self).spec_has_node(x) && !final(self).spec_has_node(x) ==> (exists|f: nat|
                    reaches(*old(self), m@, x, f)),
            forall|x: Seq<u8>|
                final(self).spec_storage_refs(x) && old(self).spec_has_node(x)
                    ==> final(self).spec_has_node(x),
            fuel > 0 && old(self).spec_has_node(m@) && !root_referenced(old(self).blocks@, m@)
                && !old(self).spec_storage_refs(m@) ==> !final(self).spec_has_node(m@),
        decreases fuel,
    {
        if fuel == 0 {
            return ;
        }
        let idx = match self.find_node(m) {
            Some(i) => i,
            None => {
                return ;
            },
        };
        if self.root_referenced_exec(m) {
            return ;
        }
        if self.storage_refs_exec(m) {
            return ;
        }

        // Remember the children before the edges are dropped.
        let mut kids: Vec<Vec<u8>> = Vec::new();
        let mut i: usize = 0;
        while i < self.trie_children.len()
            invariant
                self.wf(),
                i <= self.trie_children@.len(),
                forall|k: int|
                    0 <= k < kids@.len() ==> kid_edge_of(*self, m@, (#[trigger] kids@[k])@),
            decreases self.trie_children@.len() - i,
        {
            if crate::bytes::bytes_eq(self.trie_children[i].parent.as_slice(), m) {
                proof {
                    let cn = self.trie_children@[i as int].child_num;
                    assert(self.trie_children@[i as int].wf());
                    assert(self.spec_has_child(m@, cn));
                    let w = self.spec_child_idx(m@, cn);
                    assert(self.trie_children@[w].parent@ == m@ && self.trie_children@[
                        w
                    ].child_num == cn);
                    assert(w == i);
                }
                let ghost kids0 = kids@;
                kids.push(bytes_to_vec(self.trie_children[i].child.as_slice()));
                proof {
                    let cn = self.trie_children@[i as int].child_num;
                    assert(kids@[kids@.len() - 1]@ == self.trie_children@[i as int].child@);
                    assert(cn < 16 && self.spec_has_child(m@, cn) && self.spec_child(m@, cn)
                        == kids@[kids@.len() - 1]@);
                    assert forall|k: int|
                        0 <= k < kids@.len() implies kid_edge_of(
                        *self,
                        m@,
                        (#[trigger] kids@[k])@,
                    ) by {
                        if k < kids@.len() - 1 {
                            assert(kids@[k] == kids0[k]);
                            assert(kid_edge_of(*self, m@, kids0[k]@));
                        }
                    }
                }
            }
            i += 1;
        }

        let ghost prev = *self;
        self.trie_nodes.remove(idx);
        proof {
            assert forall|a: int, b: int|
                #![trigger self.trie_nodes@[a], self.trie_nodes@[b]]
                0 <= a < self.trie_nodes@.len() && 0 <= b < self.trie_nodes@.len() && a
                    != b implies self.trie_nodes@[a].merkle_value@
                != self.trie_nodes@[b].merkle_value@ by {
                let a0: int = if a < idx {
                    a
                } else {
                    a + 1
                };
                let b0: int = if b < idx {
                    b
                } else {
                    b + 1
                };
                assert(self.trie_nodes@[a] == prev.trie_nodes@[a0]);
                assert(self.trie_nodes@[b] == prev.trie_nodes@[b0]);
            }
            assert forall|x: Seq<u8>| self.spec_has_node(x) implies prev.spec_has_node(x) by {
                let w = self.spec_node_idx(x);
                let w0: int = if w < idx {
                    w
                } else {
                    w + 1
                };
                assert(prev.trie_nodes@[w0] == self.trie_nodes@[w]);
            }
            assert forall|x: Seq<u8>|
                x != m@ && prev.spec_has_node(x) implies self.spec_has_node(x) by {
                let w0 = prev.spec_node_idx(x);
                assert(prev.trie_nodes@[w0].merkle_value@ == x);
                assert(w0 != idx);
                let w: int = if w0 < idx {
                    w0
                } else {
                    w0 - 1
                };
                assert(self.trie_nodes@[w] == prev.trie_nodes@[w0]);
            }
            assert(!self.spec_has_node(m@)) by {
                if self.spec_has_node(m@) {
                    let w = self.spec_node_idx(m@);
                    let w0: int = if w < idx {
                        w
                    } else {
                        w + 1
                    };
                    assert(prev.trie_nodes@[w0] == self.trie_nodes@[w]);
                    assert(w0 == idx);
                }
            }
        }

        let ghost s1 = *self;
        self.remove_children_of(m);
        let ghost s2 = *self;

        match self.find_storage(m) {
            Some(si) => {
                let ghost prev2 = *self;
                self.trie_storage.remove(si);
                proof {
                    assert forall|a: int, b: int|
                        #![trigger self.trie_storage@[a], self.trie_storage@[b]]
                        0 <= a < self.trie_storage@.len() && 0 <= b < self.trie_storage@.len()
                            && a != b implies self.trie_storage@[a].node_hash@
                        != self.trie_storage@[b].node_hash@ by {
                        let a0: int = if a < si {
                            a
                        } else {
                            a + 1
                        };
                        let b0: int = if b < si {
                            b
                        } else {
                            b + 1
                        };
                        assert(self.trie_storage@[a] == prev2.trie_storage@[a0]);
                        assert(self.trie_storage@[b] == prev2.trie_storage@[b0]);
                    }
                    assert forall|x: Seq<u8>|
                        #![trigger self.spec_has_storage(x)]
                        self.spec_has_storage(x) implies prev2.spec_has_storage(x)
                            && self.spec_storage(x) == prev2.spec_storage(x) by {
                        let w = self.spec_storage_idx(x);
                        let w0: int = if w < si {
                            w
                        } else {
                            w + 1
                        };
                        assert(prev2.trie_storage@[w0] == self.trie_storage@[w]);
                        let w1 = prev2.spec_storage_idx(x);
                        assert(prev2.trie_storage@[w1].node_hash@ == x);
                        assert(w1 == w0);
                    }
                }
            },
            None => {},
        }

        proof {
            assert forall|x: Seq<u8>| self.spec_has_node(x) implies old(self).spec_has_node(
                x,
            ) by {
                assert(self.trie_nodes@ == s1.trie_nodes@);
                assert(s1.spec_has_node(x));
                assert(prev.spec_has_node(x));
            }
            assert forall|p: Seq<u8>, n: u8|
                #![trigger self.spec_has_child(p, n)]
                self.spec_has_child(p, n) implies old(self).spec_has_child(p, n)
                    && self.spec_child(p, n) == old(self).spec_child(p, n) by {
                assert(self.trie_children@ == s2.trie_children@);
                assert(s2.spec_has_child(p, n) && s2.spec_child(p, n) == self.spec_child(p, n));
                assert(s1.spec_has_child(p, n) && s1.spec_child(p, n) == s2.spec_child(p, n));
                assert(s1.trie_children@ == prev.trie_children@);
                assert(prev.spec_has_child(p, n) && prev.spec_child(p, n) == s1.spec_child(
                    p,
                    n,
                ));
            }
            assert forall|x: Seq<u8>|
                #![trigger self.spec_has_storage(x)]
                self.spec_has_storage(x) implies old(self).spec_has_storage(x)
                    && self.spec_storage(x) == old(self).spec_storage(x) by {
                let w = self.spec_storage_idx(x);
                assert(self.trie_storage@[w].node_hash@ == x);
                let w1 = old(self).spec_storage_idx(x);
                assert(old(self).trie_storage@[w1].node_hash@ == x);
            }
            assert forall|x: Seq<u8>|
                old(self).spec_has_node(x) && !self.spec_has_node(x) implies (exists|f: nat|
                reaches(*old(self), m@, x, f)) by {
                assert(self.trie_nodes@ == s1.trie_nodes@);
                assert(!s1.spec_has_node(x));
                assert(prev.spec_has_node(x));
                if x != m@ {
                    assert(s1.spec_has_node(x));
                }
                assert(x == m@);
                assert(reaches(*old(self), m@, x, 0));
            }
            assert forall|x: Seq<u8>|
                root_referenced(old(self).blocks@, x) && old(self).spec_has_node(x) && x
                    != m@ implies self.spec_has_node(x) by {
                assert(prev.spec_has_node(x));
                assert(s1.spec_has_node(x));
                assert(self.trie_nodes@ == s1.trie_nodes@);
            }
            assert(!self.spec_has_node(m@)) by {
                assert(self.trie_nodes@ == s1.trie_nodes@);
            }
            assert forall|x: Seq<u8>|
                self.spec_storage_refs(x) && old(self).spec_has_node(x)
                    implies self.spec_has_node(x) by {
                lemma_refs_transfer(*old(self), *self, x);
                assert(x != m@);
                assert(s1.spec_has_node(x));
                assert(self.trie_nodes@ == s1.trie_nodes@);
            }
            assert forall|kk: int|
                0 <= kk < kids@.len() implies kid_edge_of(
                *old(self),
                m@,
                (#[trigger] kids@[kk])@,
            ) by {
                assert(kid_edge_of(prev, m@, kids@[kk]@));
                let n = choose|n: u8|
                    n < 16 && prev.spec_has_child(m@, n) && prev.spec_child(m@, n) == kids@[
                        kk
                    ]@;
                assert(n < 16 && old(self).spec_has_child(m@, n) && old(self).spec_child(m@, n)
                    == kids@[kk]@);
            }
            assert(old(self).spec_has_node(m@));
        }
        let mut k: usize = 0;
        while k < kids.len()
            invariant
                self.wf(),
                k <= kids@.len(),
                self.blocks == old(self).blocks,
                self.meta_best == old(self).meta_best,
                self.meta_finalized == old(self).meta_finalized,
                self.grandpa_authorities_set_id == old(self).grandpa_authorities_set_id,
                self.grandpa_scheduled_target == old(self).grandpa_scheduled_target,
                self.grandpa_triggered_authorities == old(self).grandpa_triggered_authorities,
                self.grandpa_scheduled_authorities == old(self).grandpa_scheduled_authorities,
                self.aura_slot_duration == old(self).aura_slot_duration,
                self.aura_finalized_authorities == old(self).aura_finalized_authorities,
                self.babe_slots_per_epoch == old(self).babe_slots_per_epoch,
                self.babe_finalized_epoch == old(self).babe_finalized_epoch,
                self.babe_finalized_next_epoch == old(self).babe_finalized_next_epoch,
                forall|x: Seq<u8>| self.spec_has_node(x) ==> old(self).spec_has_node(x),
                forall|p: Seq<u8>, n: u8|
                    #![trigger self.spec_has_child(p, n)]
                    self.spec_has_child(p, n) ==> old(self).spec_has_child(p, n)
                        && self.spec_child(p, n) == old(self).spec_child(p, n),
                forall|x: Seq<u8>|
                    #![trigger self.spec_has_storage(x)]
                    self.spec_has_storage(x) ==> old(self).spec_has_storage(x)
                        && self.spec_storage(x) == old(self).spec_storage(x),
                forall|x: Seq<u8>|
                    root_referenced(old(self).blocks@, x) && old(self).spec_has_node(x) && x
                        != m@ ==> self.spec_has_node(x),
                forall|x: Seq<u8>|
                    old(self).spec_has_node(x) && !self.spec_has_node(x) ==> (exists|f: nat|
                        reaches(*old(self), m@, x, f)),
                old(self).spec_has_node(m@),
                !self.spec_has_node(m@),
                forall|x: Seq<u8>|
                    self.spec_storage_refs(x) && old(self).spec_has_node(x)
                        ==> self.spec_has_node(x),
                forall|kk: int|
                    0 <= kk < kids@.len() ==> kid_edge_of(*old(self), m@, (#[trigger] kids@[
                        kk
                    ])@),
                fuel >= 1,
            decreases kids@.len() - k,
        {
            let kid = bytes_to_vec(kids[k].as_slice());
            let ghost at_call = *self;
            self.purge_trie_node(kid.as_slice(), fuel - 1);
            proof {
                assert forall|x: Seq<u8>| self.spec_has_node(x) implies old(
                    self,
                ).spec_has_node(x) by {
                    assert(at_call.spec_has_node(x));
                }
                assert forall|p: Seq<u8>, n: u8|
                    #![trigger self.spec_has_child(p, n)]
                    self.spec_has_child(p, n) implies old(self).spec_has_child(p, n)
                        && self.spec_child(p, n) == old(self).spec_child(p, n) by {
                    assert(at_call.spec_has_child(p, n) && self.spec_child(p, n)
                        == at_call.spec_child(p, n));
                }
                assert forall|x: Seq<u8>|
                    #![trigger self.spec_has_storage(x)]
                    self.spec_has_storage(x) implies old(self).spec_has_storage(x)
                        && self.spec_storage(x) == old(self).spec_storage(x) by {
                    assert(at_call.spec_has_storage(x) && self.spec_storage(x)
                        == at_call.spec_storage(x));
                }
                assert forall|x: Seq<u8>|
                    root_referenced(old(self).blocks@, x) && old(self).spec_has_node(x) && x
                        != m@ implies self.spec_has_node(x) by {
                    assert(at_call.spec_has_node(x));
                    assert(root_referenced(at_call.blocks@, x));
                }
                assert(!self.spec_has_node(m@)) by {
                    if self.spec_has_node(m@) {
                        assert(at_call.spec_has_node(m@));
                    }
                }
                assert forall|x: Seq<u8>|
                    self.spec_storage_refs(x) && old(self).spec_has_node(x)
                        implies self.spec_has_node(x) by {
                    lemma_refs_transfer(at_call, *self, x);
                    if at_call.spec_has_node(x) {
                        assert(self.spec_has_node(x));
                    }
                }
                assert forall|x: Seq<u8>|
                    old(self).spec_has_node(x) && !self.spec_has_node(x) implies (
                exists|f: nat| reaches(*old(self), m@, x, f)) by {
                    if at_call.spec_has_node(x) {
                        let f = choose|f: nat| reaches(at_call, kid@, x, f);
                        lemma_reaches_shrink(*old(self), at_call, kid@, x, f);
                        assert(kid_edge_of(*old(self), m@, kids@[k as int]@));
                        let n = choose|n: u8|
                            n < 16 && old(self).spec_has_child(m@, n) && old(self).spec_child(
                                m@,
                                n,
                            ) == kids@[k as int]@;
                        assert(old(self).spec_child(m@, n) == kid@);
                        assert(reaches(*old(self), m@, x, f + 1));
                    }
                }
            }
            k += 1;
        }
        proof {
            assert(!root_referenced(old(self).blocks@, m@));
        }
    }

    /// Deletes every block at or below the finalized height that is not
    /// on the best chain, together with its body, and reclaims each
    /// orphan's state in turn. Only nodes reachable from a purged
    /// orphan's old root are removed; a node that a surviving block
    /// names as its state root, or that a surviving storage entry
    /// references as a child trie root, stays. The orphans are processed
    /// one after the other, so a node kept alive only by a later orphan
    /// may outlive this call — the store's accepted under-pruning.
    #[verifier::rlimit(60)]
    pub fn purge_finality_orphans(&mut self) -> (r: Result<(), CorruptedError>)
        requires
            old(self).wf(),
        ensures
            final(self).wf(),
            r is Ok,
            final(self).blocks@ == keep_blocks(old(self).blocks@, old(self).meta_finalized),
            final(self).meta_best == old(self).meta_best,
            final(self).meta_finalized == old(self).meta_finalized,
            final(self).grandpa_authorities_set_id == old(self).grandpa_authorities_set_id,
            final(self).grandpa_scheduled_target == old(self).grandpa_scheduled_target,
            final(self).grandpa_triggered_authorities == old(self).grandpa_triggered_authorities,
            final(self).grandpa_scheduled_authorities == old(self).grandpa_scheduled_authorities,
            final(self).aura_slot_duration == old(self).aura_slot_duration,
            final(self).aura_finalized_authorities == old(self).aura_finalized_authorities,
            final(self).babe_slots_per_epoch == old(self).babe_slots_per_epoch,
            final(self).babe_finalized_epoch == old(self).babe_finalized_epoch,
            final(self).babe_finalized_next_epoch == old(self).babe_finalized_next_epoch,
            forall|x: Seq<u8>| final(self).spec_has_node(x) ==> old(self).spec_has_node(x),
            forall|p: Seq<u8>, n: u8|
                #![trigger final(self).spec_has_child(p, n)]
                final(self).spec_has_child(p, n) ==> old(self).spec_has_child(p, n)
                    && final(self).spec_child(p, n) == old(self).spec_child(p, n),
            forall|x: Seq<u8>|
                #![trigger final(self).spec_has_storage(x)]
                final(self).spec_has_storage(x) ==> old(self).spec_has_storage(x)
                    && final(self).spec_storage(x) == old(self).spec_storage(x),
            forall|x: Seq<u8>|
                old(self).spec_has_node(x) && !final(self).spec_has_node(x) ==> orphan_reaches(
                    *old(self),
                    old(self).blocks@,
                    old(self).meta_finalized,
                    x,
                ),
            forall|x: Seq<u8>|
                root_referenced(keep_blocks(old(self).blocks@, old(self).meta_finalized), x)
                    && old(self).spec_has_node(x) ==> final(self).spec_has_node(x),
            forall|x: Seq<u8>|
                final(self).spec_storage_refs(x) && old(self).spec_has_node(x)
                    ==> final(self).spec_has_node(x),
    {
        let fin = self.meta_finalized;
        let ghost s0 = self.blocks@;
        proof {
            assert(s0.skip(0) =~= s0);
        }
        let mut i: usize = 0;
        while i < self.blocks.len()
            invariant
                self.wf(),
                i <= self.blocks@.len(),
                fin == self.meta_finalized,
                self.meta_best == old(self).meta_best,
                self.meta_finalized == old(self).meta_finalized,
                self.grandpa_authorities_set_id == old(self).grandpa_authorities_set_id,
                self.grandpa_scheduled_target == old(self).grandpa_scheduled_target,
                self.grandpa_triggered_authorities == old(self).grandpa_triggered_authorities,
                self.grandpa_scheduled_authorities == old(self).grandpa_scheduled_authorities,
                self.aura_slot_duration == old(self).aura_slot_duration,
                self.aura_finalized_authorities == old(self).aura_finalized_authorities,
                self.babe_slots_per_epoch == old(self).babe_slots_per_epoch,
                self.babe_finalized_epoch == old(self).babe_finalized_epoch,
                self.babe_finalized_next_epoch == old(self).babe_finalized_next_epoch,
                forall|x: Seq<u8>| self.spec_has_node(x) ==> old(self).spec_has_node(x),
                forall|p: Seq<u8>, n: u8|
                    #![trigger self.spec_has_child(p, n)]
                    self.spec_has_child(p, n) ==> old(self).spec_has_child(p, n)
                        && self.spec_child(p, n) == old(self).spec_child(p, n),
                forall|x: Seq<u8>|
                    #![trigger self.spec_has_storage(x)]
                    self.spec_has_storage(x) ==> old(self).spec_has_storage(x)
                        && self.spec_storage(x) == old(self).spec_storage(x),
                forall|x: Seq<u8>|
                    old(self).spec_has_node(x) && !self.spec_has_node(x) ==> orphan_reaches(
                        *old(self),
                        old(self).blocks@,
                        old(self).meta_finalized,
                        x,
                    ),
                forall|j: int|
                    0 <= j < self.blocks@.len() ==> (exists|j0: int|
                        0 <= j0 < old(self).blocks@.len() && (#[trigger] self.blocks@[j]) == old(
                            self,
                        ).blocks@[j0]),
                forall|j0: int|
                    0 <= j0 < old(self).blocks@.len() && ((#[trigger] old(self).blocks@[
                        j0
                    ]).is_best_chain || old(self).blocks@[j0].number > fin) ==> (exists|j: int|
                        0 <= j < self.blocks@.len() && self.blocks@[j] == old(self).blocks@[j0]),
                forall|x: Seq<u8>|
                    root_referenced(keep_blocks(old(self).blocks@, fin), x) && old(
                        self,
                    ).spec_has_node(x) ==> self.spec_has_node(x),
                forall|x: Seq<u8>|
                    self.spec_storage_refs(x) && old(self).spec_has_node(x)
                        ==> self.spec_has_node(x),
                forall|j: int|
                    0 <= j < i ==> (#[trigger] self.blocks@[j]).is_best_chain
                        || self.blocks@[j].number > fin,
                keep_blocks(s0, fin) == self.blocks@.take(i as int) + keep_blocks(
                    self.blocks@.skip(i as int),
                    fin,
                ),
            decreases self.blocks@.len() - i,
        {
            proof {
                assert(self.blocks@.skip(i as int)[0] == self.blocks@[i as int]);
                assert(self.blocks@.skip(i as int).skip(1) =~= self.blocks@.skip(i as int + 1));
            }
            if !self.blocks[i].is_best_chain && self.blocks[i].number <= fin {
                let ghost entry = *self;
                // Clear the root so the block no longer keeps its state
                // alive, reclaim the state, then drop the row.
                let root: Option<Vec<u8>> = match &self.blocks[i].state_trie_root {
                    Some(rt) => Some(bytes_to_vec(rt.as_slice())),
                    None => None,
                };
                let ghost before_clear = *self;
                self.blocks[i].state_trie_root = None;
                proof {
                    assert forall|a: int, b: int|
                        #![trigger self.blocks@[a], self.blocks@[b]]
                        0 <= a < self.blocks@.len() && 0 <= b < self.blocks@.len() && a
                            != b implies self.blocks@[a].hash@ != self.blocks@[b].hash@ by {
                        assert(before_clear.blocks@[a].hash@ != before_clear.blocks@[b].hash@);
                    }
                    let bi = before_clear.spec_block_idx(before_clear.meta_best@);
                    before_clear.lemma_block_at(bi);
                    assert(bi != i);
                    assert(self.blocks@[bi] == before_clear.blocks@[bi]);
                    self.lemma_block_at(bi);
                }
                match root {
                    Some(rt) => {
                        let fuel = match self.trie_nodes.len().checked_add(1) {
                            Some(f) => f,
                            None => usize::MAX,
                        };
                        let ghost at_purge = *self;
                        self.purge_trie_node(rt.as_slice(), fuel);
                        proof {
                            assert(self.blocks@ == at_purge.blocks@);
                            assert forall|x: Seq<u8>| self.spec_has_node(x) implies old(
                                self,
                            ).spec_has_node(x) by {
                                assert(at_purge.spec_has_node(x));
                                assert(entry.spec_has_node(x));
                            }
                            assert forall|p: Seq<u8>, n: u8|
                                #![trigger self.spec_has_child(p, n)]
                                self.spec_has_child(p, n) implies old(self).spec_has_child(
                                p,
                                n,
                            ) && self.spec_child(p, n) == old(self).spec_child(p, n) by {
                                assert(at_purge.spec_has_child(p, n) && self.spec_child(p, n)
                                    == at_purge.spec_child(p, n));
                                assert(entry.spec_has_child(p, n) && entry.spec_child(p, n)
                                    == at_purge.spec_child(p, n));
                            }
                            assert forall|x: Seq<u8>|
                                #![trigger self.spec_has_storage(x)]
                                self.spec_has_storage(x) implies old(self).spec_has_storage(
                                x,
                            ) && self.spec_storage(x) == old(self).spec_storage(x) by {
                                assert(at_purge.spec_has_storage(x) && self.spec_storage(x)
                                    == at_purge.spec_storage(x));
                                assert(entry.spec_has_storage(x) && entry.spec_storage(x)
                                    == at_purge.spec_storage(x));
                            }
                            lemma_trie_views_eq(at_purge, entry);
                            assert forall|x: Seq<u8>|
                                at_purge.spec_has_node(x) implies old(self).spec_has_node(
                                x,
                            ) by {
                                assert(entry.spec_has_node(x));
                            }
                            assert forall|p: Seq<u8>, n: u8|
                                #![trigger at_purge.spec_has_child(p, n)]
                                at_purge.spec_has_child(p, n) implies old(self).spec_has_child(
                                p,
                                n,
                            ) && at_purge.spec_child(p, n) == old(self).spec_child(p, n) by {
                                assert(entry.spec_has_child(p, n) && entry.spec_child(p, n)
                                    == at_purge.spec_child(p, n));
                            }
                            assert forall|x: Seq<u8>|
                                #![trigger at_purge.spec_has_storage(x)]
                                at_purge.spec_has_storage(x) implies old(
                                self,
                            ).spec_has_storage(x) && at_purge.spec_storage(x) == old(
                                self,
                            ).spec_storage(x) by {
                                assert(entry.spec_has_storage(x) && entry.spec_storage(x)
                                    == at_purge.spec_storage(x));
                            }
                            assert forall|x: Seq<u8>|
                                root_referenced(keep_blocks(old(self).blocks@, fin), x) && old(
                                    self,
                                ).spec_has_node(x) implies self.spec_has_node(x) by {
                                lemma_keep_blocks_sub(old(self).blocks@, fin);
                                let keep = keep_blocks(old(self).blocks@, fin);
                                let w = choose|w: int|
                                    0 <= w < keep.len() && (#[trigger] keep[w]).state_trie_root
                                        is Some && keep[w].state_trie_root.unwrap()@ == x;
                                let j0 = choose|j0: int|
                                    0 <= j0 < old(self).blocks@.len() && old(self).blocks@[j0]
                                        == keep[w];
                                let j = choose|j: int|
                                    0 <= j < entry.blocks@.len() && entry.blocks@[j] == old(
                                        self,
                                    ).blocks@[j0];
                                assert(j != i);
                                assert(at_purge.blocks@[j] == entry.blocks@[j]);
                                assert(root_referenced(at_purge.blocks@, x));
                                assert(at_purge.spec_has_node(x)) by {
                                    assert(entry.spec_has_node(x));
                                }
                                assert(self.spec_has_node(x));
                            }
                            assert forall|x: Seq<u8>|
                                self.spec_storage_refs(x) && old(self).spec_has_node(
                                    x,
                                ) implies self.spec_has_node(x) by {
                                lemma_refs_transfer(at_purge, *self, x);
                                assert(entry.spec_storage_refs(x));
                                assert(entry.spec_has_node(x));
                                assert(at_purge.spec_has_node(x));
                                assert(self.spec_has_node(x));
                            }
                            assert forall|x: Seq<u8>|
                                old(self).spec_has_node(x) && !self.spec_has_node(
                                    x,
                                ) implies orphan_reaches(
                                *old(self),
                                old(self).blocks@,
                                old(self).meta_finalized,
                                x,
                            ) by {
                                if at_purge.spec_has_node(x) {
                                    // freshly reclaimed: lift the path to
                                    // the pre-call store
                                    let f = choose|f: nat| reaches(at_purge, rt@, x, f);
                                    lemma_reaches_shrink(*old(self), at_purge, rt@, x, f);
                                    let j0 = choose|j0: int|
                                        0 <= j0 < old(self).blocks@.len() && (
                                        #[trigger] old(self).blocks@[j0]) == entry.blocks@[
                                            i as int
                                        ];
                                    assert(old(self).blocks@[j0].state_trie_root.unwrap()@
                                        == rt@);
                                    assert(old(self).blocks@[j0].number <= old(
                                        self,
                                    ).meta_finalized);
                                    assert(!old(self).blocks@[j0].is_best_chain);
                                } else {
                                    assert(!entry.spec_has_node(x));
                                }
                            }
                        }
                    },
                    None => {
                        proof {
                            lemma_trie_views_eq(*self, entry);
                        }
                    },
                }
                let ghost before_rm = *self;
                self.blocks.remove(i);
                proof {
                    assert forall|a: int, b: int|
                        #![trigger self.blocks@[a], self.blocks@[b]]
                        0 <= a < self.blocks@.len() && 0 <= b < self.blocks@.len() && a
                            != b implies self.blocks@[a].hash@ != self.blocks@[b].hash@ by {
                        let a0: int = if a < i {
                            a
                        } else {
                            a + 1
                        };
                        let b0: int = if b < i {
                            b
                        } else {
                            b + 1
                        };
                        assert(self.blocks@[a] == before_rm.blocks@[a0]);
                        assert(self.blocks@[b] == before_rm.blocks@[b0]);
                    }
                    let bi = before_rm.spec_block_idx(before_rm.meta_best@);
                    before_rm.lemma_block_at(bi);
                    assert(bi != i);
                    let bi2: int = if bi < i {
                        bi
                    } else {
                        bi - 1
                    };
                    assert(self.blocks@[bi2] == before_rm.blocks@[bi]);
                    self.lemma_block_at(bi2);
                    // the dropped row was not a keeper, so the kept prefix
                    // and the kept remainder are unchanged
                    assert(self.blocks@.take(i as int) =~= entry.blocks@.take(i as int));
                    assert(entry.blocks@.skip(i as int)[0] == entry.blocks@[i as int]);
                    assert(entry.blocks@.skip(i as int).skip(1) =~= entry.blocks@.skip(
                        i as int + 1,
                    ));
                    assert(before_rm.blocks@.skip(i as int)[0] == before_rm.blocks@[i as int]);
                    assert(before_rm.blocks@.skip(i as int).skip(1) =~= before_rm.blocks@.skip(
                        i as int + 1,
                    ));
                    assert(before_rm.blocks@.skip(i as int + 1) =~= entry.blocks@.skip(
                        i as int + 1,
                    ));
                    assert(self.blocks@.skip(i as int) =~= entry.blocks@.skip(i as int + 1));
                    assert(keep_blocks(entry.blocks@.skip(i as int), fin) == keep_blocks(
                        self.blocks@.skip(i as int),
                        fin,
                    ));
                    assert forall|j: int|
                        0 <= j < self.blocks@.len() implies (exists|j0: int|
                        0 <= j0 < old(self).blocks@.len() && (#[trigger] self.blocks@[j]) == old(
                            self,
                        ).blocks@[j0]) by {
                        let j1: int = if j < i {
                            j
                        } else {
                            j + 1
                        };
                        assert(self.blocks@[j] == entry.blocks@[j1]);
                        let j0 = choose|j0: int|
                            0 <= j0 < old(self).blocks@.len() && (
                            #[trigger] entry.blocks@[j1]) == old(self).blocks@[j0];
                        assert(self.blocks@[j] == old(self).blocks@[j0]);
                    }
                    lemma_trie_views_eq(*self, before_rm);
                    assert forall|j0: int|
                        0 <= j0 < old(self).blocks@.len() && ((#[trigger] old(self).blocks@[
                            j0
                        ]).is_best_chain || old(self).blocks@[j0].number > fin) implies (
                    exists|j: int|
                        0 <= j < self.blocks@.len() && self.blocks@[j] == old(self).blocks@[
                            j0
                        ]) by {
                        let j = choose|j: int|
                            0 <= j < entry.blocks@.len() && (#[trigger] entry.blocks@[j]) == old(
                                self,
                            ).blocks@[j0];
                        assert(j != i);
                        let j2: int = if j < i {
                            j
                        } else {
                            j - 1
                        };
                        assert(before_rm.blocks@[j] == entry.blocks@[j]);
                        assert(self.blocks@[j2] == before_rm.blocks@[j]);
                    }
                    assert forall|x: Seq<u8>|
                        root_referenced(keep_blocks(old(self).blocks@, fin), x) && old(
                            self,
                        ).spec_has_node(x) implies self.spec_has_node(x) by {
                        assert(before_rm.spec_has_node(x));
                    }
                    assert forall|x: Seq<u8>|
                        self.spec_storage_refs(x) && old(self).spec_has_node(
                            x,
                        ) implies self.spec_has_node(x) by {
                        assert(before_rm.spec_storage_refs(x));
                        assert(before_rm.spec_has_node(x));
                    }
                    assert forall|x: Seq<u8>| self.spec_has_node(x) implies old(
                        self,
                    ).spec_has_node(x) by {
                        assert(before_rm.spec_has_node(x));
                    }
                    assert forall|p: Seq<u8>, n: u8|
                        #![trigger self.spec_has_child(p, n)]
                        self.spec_has_child(p, n) implies old(self).spec_has_child(p, n)
                            && self.spec_child(p, n) == old(self).spec_child(p, n) by {
                        assert(before_rm.spec_has_child(p, n) && before_rm.spec_child(p, n)
                            == self.spec_child(p, n));
                    }
                    assert forall|x: Seq<u8>|
                        #![trigger self.spec_has_storage(x)]
                        self.spec_has_storage(x) implies old(self).spec_has_storage(x)
                            && self.spec_storage(x) == old(self).spec_storage(x) by {
                        assert(before_rm.spec_has_storage(x) && before_rm.spec_storage(x)
                            == self.spec_storage(x));
                    }
                    assert forall|x: Seq<u8>|
                        old(self).spec_has_node(x) && !self.spec_has_node(
                            x,
                        ) implies orphan_reaches(
                        *old(self),
                        old(self).blocks@,
                        old(self).meta_finalized,
                        x,
                    ) by {
                        assert(!before_rm.spec_has_node(x));
                    }
                }
            } else {
                proof {
                    assert(self.blocks@.take(i as int + 1) =~= self.blocks@.take(i as int)
                        + seq![self.blocks@[i as int]]);
                    assert(self.blocks@.take(i as int) + (seq![self.blocks@[i as int]]
                        + keep_blocks(self.blocks@.skip(i as int + 1), fin)) =~= self.blocks@.take(
                        i as int + 1,
                    ) + keep_blocks(self.blocks@.skip(i as int + 1), fin));
                }
                i += 1;
            }
        }
        proof {
            assert(self.blocks@.skip(i as int).len() == 0);
            assert(self.blocks@.take(i as int) =~= self.blocks@);
            assert(self.blocks@ + keep_blocks(self.blocks@.skip(i as int), fin)
                =~= self.blocks@);
        }
        Ok(())
    }
}

} // verus!
