//! The trie query engine, part two: the next-key search.
//!
//! The walk descends from the state root keeping the accumulated full key
//! of the current node. On the search path it follows both the child that
//! matches the next nibble of the key and the smallest child beyond it;
//! once the path leaves the key behind, only the leftmost descent can
//! yield the smallest candidate. A candidate is the full key of a node
//! that either carries a storage entry or, when branch nodes are wanted,
//! any node; candidates that do not start with the wanted prefix are
//! dropped, and the smallest surviving candidate wins. A missing node
//! anywhere on the explored paths makes the storage incomplete; a parent
//! path that asks for a child trie at a node without one leads to no
//! trie, and the search finds nothing there.

use vstd::prelude::*;

use crate::bytes::{append_bytes, bytes_lt, bytes_to_vec, is_prefix_exec, is_prefix_of, seq_lt, tail_from};
use crate::errors::StorageAccessError;
use crate::queries::{build_full_key, spec_full_key, CHILD_TRIE_SEPARATOR};
use crate::tables::ChainDb;

verus! {

/// Outcome of a next-key walk.
pub ghost enum NkOutcome {
    /// Smallest acceptable full key found below this point.
    NkFound(Seq<u8>),
    /// Nothing acceptable below this point.
    NkNone,
    /// A node needed by the walk is missing (or the trie is deeper than
    /// any acyclic trie of this store could be).
    NkIncomplete,
}

/// The better of two branch outcomes: incompleteness dominates, then the
/// lexicographically smaller key.
pub open spec fn nk_combine(a: NkOutcome, b: NkOutcome) -> NkOutcome {
    match (a, b) {
        (NkOutcome::NkIncomplete, _) => NkOutcome::NkIncomplete,
        (_, NkOutcome::NkIncomplete) => NkOutcome::NkIncomplete,
        (NkOutcome::NkFound(x), NkOutcome::NkFound(y)) => if seq_lt(y, x) {
            NkOutcome::NkFound(y)
        } else {
            NkOutcome::NkFound(x)
        },
        (NkOutcome::NkFound(x), NkOutcome::NkNone) => NkOutcome::NkFound(x),
        (NkOutcome::NkNone, NkOutcome::NkFound(y)) => NkOutcome::NkFound(y),
        (NkOutcome::NkNone, NkOutcome::NkNone) => NkOutcome::NkNone,
    }
}

/// A candidate key is kept only when it extends the wanted prefix.
pub open spec fn nk_emit(prefix: Seq<u8>, acc: Seq<u8>) -> NkOutcome {
    if is_prefix_of(prefix, acc) {
        NkOutcome::NkFound(acc)
    } else {
        NkOutcome::NkNone
    }
}

/// How the remaining search key relates to a node's partial key:
/// 0 — the node's key is at or beyond the search key (arrive here);
/// 1 — the partial key is consumed, the search continues below;
/// 2 — the node's subtree lies entirely before the search key.
pub open spec fn pk_rel(r: Seq<u8>, pk: Seq<u8>) -> int
    decreases r.len(),
{
    if r.len() == 0 {
        0
    } else if pk.len() == 0 {
        1
    } else if r[0] < pk[0] {
        0
    } else if r[0] > pk[0] {
        2
    } else {
        pk_rel(r.skip(1), pk.skip(1))
    }
}

/// A node carries a storage entry, or branch nodes are acceptable.
pub open spec fn nk_acceptable(db: ChainDb, node: Seq<u8>, branch_ok: bool) -> bool {
    branch_ok || db.spec_has_storage(node)
}

/// The smallest child slot of `node` at or above `lo`.
pub open spec fn spec_min_child(db: ChainDb, node: Seq<u8>, lo: int) -> Option<u8>
    decreases 16 - lo,
{
    if lo < 0 || lo >= 16 {
        None
    } else if db.spec_has_child(node, lo as u8) {
        Some(lo as u8)
    } else {
        spec_min_child(db, node, lo + 1)
    }
}

/// The next-key walk entering `node` with accumulated key `acc`;
/// `rem` is the remaining search key, or `None` once the walk is already
/// beyond the search key and only the leftmost candidate matters.
pub open spec fn spec_nk_desc(
    db: ChainDb,
    node: Seq<u8>,
    acc: Seq<u8>,
    rem: Option<Seq<u8>>,
    branch_ok: bool,
    prefix: Seq<u8>,
    fuel: nat,
) -> NkOutcome
    decreases fuel,
{
    if fuel == 0 {
        NkOutcome::NkIncomplete
    } else if !db.spec_has_node(node) {
        NkOutcome::NkIncomplete
    } else {
        let pk = db.spec_node(node).partial_key@;
        let acc2 = acc + pk;
        match rem {
            None => {
                if nk_acceptable(db, node, branch_ok) {
                    nk_emit(prefix, acc2)
                } else {
                    match spec_min_child(db, node, 0) {
                        None => NkOutcome::NkNone,
                        Some(n) => spec_nk_desc(
                            db,
                            db.spec_child(node, n),
                            acc2.push(n),
                            None,
                            branch_ok,
                            prefix,
                            (fuel - 1) as nat,
                        ),
                    }
                }
            },
            Some(r) => {
                let rel = pk_rel(r, pk);
                if rel == 0 {
                    if nk_acceptable(db, node, branch_ok) {
                        nk_emit(prefix, acc2)
                    } else {
                        match spec_min_child(db, node, 0) {
                            None => NkOutcome::NkNone,
                            Some(n) => spec_nk_desc(
                                db,
                                db.spec_child(node, n),
                                acc2.push(n),
                                None,
                                branch_ok,
                                prefix,
                                (fuel - 1) as nat,
                            ),
                        }
                    }
                } else if rel == 2 {
                    NkOutcome::NkNone
                } else {
                    let r2 = r.skip(pk.len() as int);
                    let nib = r2[0];
                    if nib == CHILD_TRIE_SEPARATOR {
                        if db.spec_has_storage(node) && db.spec_storage(node).trie_root_ref
                            is Some {
                            spec_nk_desc(
                                db,
                                db.spec_storage(node).trie_root_ref.unwrap()@,
                                acc2.push(CHILD_TRIE_SEPARATOR),
                                Some(r2.skip(1)),
                                branch_ok,
                                prefix,
                                (fuel - 1) as nat,
                            )
                        } else {
                            // the parent path asks for a child trie this
                            // node does not have: it leads to no trie
                            NkOutcome::NkNone
                        }
                    } else {
                        let eq_out = if db.spec_has_child(node, nib) {
                            spec_nk_desc(
                                db,
                                db.spec_child(node, nib),
                                acc2.push(nib),
                                Some(r2.skip(1)),
                                branch_ok,
                                prefix,
                                (fuel - 1) as nat,
                            )
                        } else {
                            NkOutcome::NkNone
                        };
                        let gt_out = match spec_min_child(db, node, nib + 1) {
                            None => NkOutcome::NkNone,
                            Some(n2) => spec_nk_desc(
                                db,
                                db.spec_child(node, n2),
                                acc2.push(n2),
                                None,
                                branch_ok,
                                prefix,
                                (fuel - 1) as nat,
                            ),
                        };
                        nk_combine(eq_out, gt_out)
                    }
                }
            },
        }
    }
}

/// Depth budget of the walk: one more than the node count, which no
/// acyclic descent can exhaust.
pub open spec fn nk_fuel(db: ChainDb) -> nat {
    if db.trie_nodes@.len() + 2 <= usize::MAX {
        (db.trie_nodes@.len() + 2) as nat
    } else {
        usize::MAX as nat
    }
}

/// The next key at or after `key` that starts with `prefix` in the trie
/// of `block_hash`, over flattened keys.
pub open spec fn spec_next_key(
    db: ChainDb,
    block_hash: Seq<u8>,
    key: Seq<u8>,
    prefix: Seq<u8>,
    branch_ok: bool,
) -> Result<Option<Seq<u8>>, StorageAccessError> {
    if !db.spec_has_block(block_hash) {
        Err(StorageAccessError::UnknownBlock)
    } else {
        match db.spec_block(block_hash).state_trie_root {
            None => Err(StorageAccessError::IncompleteStorage),
            Some(rt) => match spec_nk_desc(
                db,
                rt@,
                Seq::empty(),
                Some(key),
                branch_ok,
                prefix,
                nk_fuel(db),
            ) {
                NkOutcome::NkFound(k) => Ok(Some(k)),
                NkOutcome::NkNone => Ok(None),
                NkOutcome::NkIncomplete => Err(StorageAccessError::IncompleteStorage),
            },
        }
    }
}

/// A found key always extends the wanted prefix.
pub proof fn lemma_nk_found_has_prefix(
    db: ChainDb,
    node: Seq<u8>,
    acc: Seq<u8>,
    rem: Option<Seq<u8>>,
    branch_ok: bool,
    prefix: Seq<u8>,
    fuel: nat,
    k: Seq<u8>,
)
    requires
        spec_nk_desc(db, node, acc, rem, branch_ok, prefix, fuel) == NkOutcome::NkFound(k),
    ensures
        is_prefix_of(prefix, k),
    decreases fuel,
{
    if fuel != 0 && db.spec_has_node(node) {
        let pk = db.spec_node(node).partial_key@;
        let acc2 = acc + pk;
        match rem {
            None => {
                if !nk_acceptable(db, node, branch_ok) {
                    match spec_min_child(db, node, 0) {
                        None => {},
                        Some(n) => {
                            lemma_nk_found_has_prefix(
                                db,
                                db.spec_child(node, n),
                                acc2.push(n),
                                None,
                                branch_ok,
                                prefix,
                                (fuel - 1) as nat,
                                k,
                            );
                        },
                    }
                }
            },
            Some(r) => {
                let rel = pk_rel(r, pk);
                if rel == 0 {
                    if !nk_acceptable(db, node, branch_ok) {
                        match spec_min_child(db, node, 0) {
                            None => {},
                            Some(n) => {
                                lemma_nk_found_has_prefix(
                                    db,
                                    db.spec_child(node, n),
                                    acc2.push(n),
                                    None,
                                    branch_ok,
                                    prefix,
                                    (fuel - 1) as nat,
                                    k,
                                );
                            },
                        }
                    }
                } else if rel != 2 {
                    let r2 = r.skip(pk.len() as int);
                    let nib = r2[0];
                    if nib == CHILD_TRIE_SEPARATOR {
                        if db.spec_has_storage(node) && db.spec_storage(node).trie_root_ref
                            is Some {
                            lemma_nk_found_has_prefix(
                                db,
                                db.spec_storage(node).trie_root_ref.unwrap()@,
                                acc2.push(CHILD_TRIE_SEPARATOR),
                                Some(r2.skip(1)),
                                branch_ok,
                                prefix,
                                (fuel - 1) as nat,
                                k,
                            );
                        }
                    } else {
                        if db.spec_has_child(node, nib) {
                            let eq_out = spec_nk_desc(
                                db,
                                db.spec_child(node, nib),
                                acc2.push(nib),
                                Some(r2.skip(1)),
                                branch_ok,
                                prefix,
                                (fuel - 1) as nat,
                            );
                            if eq_out == NkOutcome::NkFound(k) {
                                lemma_nk_found_has_prefix(
                                    db,
                                    db.spec_child(node, nib),
                                    acc2.push(nib),
                                    Some(r2.skip(1)),
                                    branch_ok,
                                    prefix,
                                    (fuel - 1) as nat,
                                    k,
                                );
                            }
                        }
                        match spec_min_child(db, node, nib + 1) {
                            None => {},
                            Some(n2) => {
                                let gt_out = spec_nk_desc(
                                    db,
                                    db.spec_child(node, n2),
                                    acc2.push(n2),
                                    None,
                                    branch_ok,
                                    prefix,
                                    (fuel - 1) as nat,
                                );
                                if gt_out == NkOutcome::NkFound(k) {
                                    lemma_nk_found_has_prefix(
                                        db,
                                        db.spec_child(node, n2),
                                        acc2.push(n2),
                                        None,
                                        branch_ok,
                                        prefix,
                                        (fuel - 1) as nat,
                                        k,
                                    );
                                }
                            },
                        }
                    }
                }
            },
        }
    }
}

enum NkStep {
    Found(Vec<u8>),
    NoneK,
    Incomplete,
}

impl ChainDb {
    /// Computes `pk_rel` of the key from position `i` against the partial
    /// key of the node at `node_idx`.
    fn pk_rel_exec(&self, node_idx: usize, key: &Vec<u8>, i: usize) -> (r: u8)
        requires
            node_idx < self.trie_nodes@.len(),
            i <= key@.len(),
        ensures
            r as int == pk_rel(key@.skip(i as int), self.trie_nodes@[node_idx as int].partial_key@),
            r <= 2,
    {
        let pk_len = self.trie_nodes[node_idx].partial_key.len();
        let klen = key.len();
        let mut t: usize = 0;
        proof {
            assert(key@.skip(i as int).skip(0) =~= key@.skip(i as int));
            assert(self.trie_nodes@[node_idx as int].partial_key@.skip(0)
                =~= self.trie_nodes@[node_idx as int].partial_key@);
        }
        while t < pk_len && i + t < klen
            invariant
                node_idx < self.trie_nodes@.len(),
                pk_len == self.trie_nodes@[node_idx as int].partial_key@.len(),
                klen == key@.len(),
                i + t <= klen,
                t <= pk_len,
                forall|s: int|
                    0 <= s < t ==> key@[i + s] == self.trie_nodes@[
                        node_idx as int
                    ].partial_key@[s],
                pk_rel(key@.skip(i as int), self.trie_nodes@[node_idx as int].partial_key@)
                    == pk_rel(
                    key@.skip(i + t),
                    self.trie_nodes@[node_idx as int].partial_key@.skip(t as int),
                ),
            decreases pk_len - t,
        {
            let kb = key[i + t];
            let pb = self.trie_nodes[node_idx].partial_key[t];
            proof {
                assert(key@.skip(i + t)[0] == key@[i + t]);
                assert(self.trie_nodes@[node_idx as int].partial_key@.skip(t as int)[0]
                    == self.trie_nodes@[node_idx as int].partial_key@[t as int]);
                assert(key@.skip(i + t).skip(1) =~= key@.skip(i + t + 1));
                assert(self.trie_nodes@[node_idx as int].partial_key@.skip(t as int).skip(1)
                    =~= self.trie_nodes@[node_idx as int].partial_key@.skip(t as int + 1));
            }
            if kb < pb {
                return 0;
            }
            if kb > pb {
                return 2;
            }
            t += 1;
        }
        proof {
            if i + t >= klen {
                assert(key@.skip(i + t).len() == 0);
            } else {
                assert(self.trie_nodes@[node_idx as int].partial_key@.skip(t as int).len()
                    == 0);
            }
        }
        if i + t >= klen {
            0
        } else {
            1
        }
    }

    /// The smallest child slot of the node at or above `lo`.
    fn min_child_exec(&self, node: &[u8], lo: u8) -> (r: Option<u8>)
        requires
            self.wf(),
            lo <= 16,
        ensures
            r == spec_min_child(*self, node@, lo as int),
            (match r {
                Some(n) => self.spec_has_child(node@, n) && lo <= n < 16,
                None => true,
            }),
    {
        let mut n: u8 = lo;
        while n < 16
            invariant
                self.wf(),
                lo <= n <= 16,
                spec_min_child(*self, node@, lo as int) == spec_min_child(*self, node@, n as int),
            decreases 16 - n,
        {
            if self.find_child(node, n).is_some() {
                return Some(n);
            }
            n += 1;
        }
        None
    }

    /// The next-key walk; `on_path` with position `i` stands for the
    /// remaining search key `key[i..]`, and `!on_path` for the leftmost
    /// descent.
    fn nk_desc(
        &self,
        node: &[u8],
        acc: Vec<u8>,
        key: &Vec<u8>,
        i: usize,
        on_path: bool,
        branch_ok: bool,
        prefix: &Vec<u8>,
        fuel: usize,
    ) -> (r: NkStep)
        requires
            self.wf(),
            i <= key@.len(),
        ensures
            ({
                let rem = if on_path {
                    Some(key@.skip(i as int))
                } else {
                    None
                };
                let spec_r = spec_nk_desc(
                    *self,
                    node@,
                    acc@,
                    rem,
                    branch_ok,
                    prefix@,
                    fuel as nat,
                );
                match r {
                    NkStep::Found(k) => spec_r == NkOutcome::NkFound(k@),
                    NkStep::NoneK => spec_r == NkOutcome::NkNone,
                    NkStep::Incomplete => spec_r == NkOutcome::NkIncomplete,
                }
            }),
        decreases fuel,
    {
        if fuel == 0 {
            return NkStep::Incomplete;
        }
        let ni = match self.find_node(node) {
            Some(x) => x,
            None => {
                return NkStep::Incomplete;
            },
        };
        let pk_len = self.trie_nodes[ni].partial_key.len();
        let mut acc2 = acc;
        let ghost acc_in = acc2@;
        append_bytes(&mut acc2, self.trie_nodes[ni].partial_key.as_slice());
        proof {
            assert(acc2@ == acc_in + self.spec_node(node@).partial_key@);
        }

        let arrived: bool = if !on_path {
            true
        } else {
            let rel = self.pk_rel_exec(ni, key, i);
            if rel == 2 {
                return NkStep::NoneK;
            }
            rel == 0
        };

        if arrived {
            // The search key lies at or before this node: the node itself
            // or its leftmost acceptable descendant is the answer.
            if branch_ok || self.find_storage(node).is_some() {
                if is_prefix_exec(prefix, &acc2) {
                    return NkStep::Found(acc2);
                } else {
                    return NkStep::NoneK;
                }
            }
            match self.min_child_exec(node, 0) {
                None => NkStep::NoneK,
                Some(n) => {
                    let ci = match self.find_child(node, n) {
                        Some(x) => x,
                        None => {
                            proof {
                                assert(false);
                            }
                            return NkStep::NoneK;
                        },
                    };
                    let c = bytes_to_vec(self.trie_children[ci].child.as_slice());
                    acc2.push(n);
                    self.nk_desc(c.as_slice(), acc2, key, i, false, branch_ok, prefix, fuel - 1)
                },
            }
        } else {
            // The partial key was consumed; continue along the key.
            proof {
                assert(pk_rel(key@.skip(i as int), self.spec_node(node@).partial_key@) == 1);
                lemma_pk_rel_continue(key@.skip(i as int), self.spec_node(node@).partial_key@);
            }
            let klen = key.len();
            if i + pk_len >= klen {
                proof {
                    assert(false);
                }
                return NkStep::Incomplete;
            }
            let nib = key[i + pk_len];
            proof {
                assert(key@.skip(i as int).skip(pk_len as int) =~= key@.skip(i + pk_len));
                assert(key@.skip(i + pk_len)[0] == key@[i + pk_len]);
            }
            if nib == CHILD_TRIE_SEPARATOR {
                let si = match self.find_storage(node) {
                    Some(x) => x,
                    None => {
                        return NkStep::NoneK;
                    },
                };
                match &self.trie_storage[si].trie_root_ref {
                    Some(r2) => {
                        let r2c = bytes_to_vec(r2.as_slice());
                        acc2.push(CHILD_TRIE_SEPARATOR);
                        proof {
                            assert(key@.skip(i + pk_len).skip(1) =~= key@.skip(
                                i + pk_len + 1,
                            ));
                        }
                        self.nk_desc(
                            r2c.as_slice(),
                            acc2,
                            key,
                            i + pk_len + 1,
                            true,
                            branch_ok,
                            prefix,
                            fuel - 1,
                        )
                    },
                    None => NkStep::NoneK,
                }
            } else {
                let eq_out: NkStep = match self.find_child(node, nib) {
                    Some(ci) => {
                        let c = bytes_to_vec(self.trie_children[ci].child.as_slice());
                        let mut acc_eq = bytes_to_vec(acc2.as_slice());
                        acc_eq.push(nib);
                        proof {
                            assert(key@.skip(i + pk_len).skip(1) =~= key@.skip(
                                i + pk_len + 1,
                            ));
                        }
                        self.nk_desc(
                            c.as_slice(),
                            acc_eq,
                            key,
                            i + pk_len + 1,
                            true,
                            branch_ok,
                            prefix,
                            fuel - 1,
                        )
                    },
                    None => NkStep::NoneK,
                };
                if nib >= 15 {
                    proof {
                        assert(spec_min_child(*self, node@, nib + 1) is None);
                    }
                    return eq_out;
                }
                let gt_out: NkStep = match self.min_child_exec(node, nib + 1) {
                    None => NkStep::NoneK,
                    Some(n2) => {
                        let ci = match self.find_child(node, n2) {
                            Some(x) => x,
                            None => {
                                proof {
                                    assert(false);
                                }
                                return NkStep::NoneK;
                            },
                        };
                        let c = bytes_to_vec(self.trie_children[ci].child.as_slice());
                        let mut acc_gt = bytes_to_vec(acc2.as_slice());
                        acc_gt.push(n2);
                        self.nk_desc(
                            c.as_slice(),
                            acc_gt,
                            key,
                            i,
                            false,
                            branch_ok,
                            prefix,
                            fuel - 1,
                        )
                    },
                };
                match (eq_out, gt_out) {
                    (NkStep::Incomplete, _) => NkStep::Incomplete,
                    (_, NkStep::Incomplete) => NkStep::Incomplete,
                    (NkStep::Found(x), NkStep::Found(y)) => {
                        if bytes_lt(y.as_slice(), x.as_slice()) {
                            NkStep::Found(y)
                        } else {
                            NkStep::Found(x)
                        }
                    },
                    (NkStep::Found(x), NkStep::NoneK) => NkStep::Found(x),
                    (NkStep::NoneK, NkStep::Found(y)) => NkStep::Found(y),
                    (NkStep::NoneK, NkStep::NoneK) => NkStep::NoneK,
                }
            }
        }
    }

    /// Returns the smallest key at or after `key_nibbles` that starts
    /// with `prefix_nibbles` in the trie of `block_hash`, or `None`.
    ///
    /// When `branch_nodes` is false, keys of nodes without a storage
    /// entry are skipped. The returned key is given without the
    /// parent-tries path. All nibbles must be below 16.
    ///
    /// The walk follows the search key and, past it, only leftmost
    /// descents, so its candidates are the nearest keys at or after
    /// `key_nibbles`; the prefix then filters those candidates. A key
    /// that starts with the prefix but lies in a subtree the walk never
    /// enters (possible only when the prefix region starts after
    /// `key_nibbles`) is therefore not found; callers iterate a prefix
    /// range with a key at or inside it, where the two readings agree.
    pub fn block_storage_next_key(
        &self,
        block_hash: &[u8],
        parent_tries_paths_nibbles: Vec<Vec<u8>>,
        key_nibbles: Vec<u8>,
        prefix_nibbles: Vec<u8>,
        branch_nodes: bool,
    ) -> (r: Result<Option<Vec<u8>>, StorageAccessError>)
        requires
            self.wf(),
            forall|i: int, j: int|
                0 <= i < parent_tries_paths_nibbles@.len() && 0 <= j
                    < parent_tries_paths_nibbles@[i]@.len() ==> parent_tries_paths_nibbles@[i]@[j]
                    < 16,
            forall|j: int| 0 <= j < key_nibbles@.len() ==> key_nibbles@[j] < 16,
            forall|j: int| 0 <= j < prefix_nibbles@.len() ==> prefix_nibbles@[j] < 16,
        ensures
            ({
                let fk = spec_full_key(parent_tries_paths_nibbles@, key_nibbles@);
                let fp = spec_full_key(parent_tries_paths_nibbles@, prefix_nibbles@);
                let plen = fp.len() - prefix_nibbles@.len();
                let spec_r = spec_next_key(*self, block_hash@, fk, fp, branch_nodes);
                match r {
                    Ok(Some(v)) => exists|k: Seq<u8>|
                        spec_r == Ok::<Option<Seq<u8>>, StorageAccessError>(Some(k)) && v@
                            == k.skip(plen as int),
                    Ok(None) => spec_r == Ok::<Option<Seq<u8>>, StorageAccessError>(None),
                    Err(e) => spec_r == Err::<Option<Seq<u8>>, StorageAccessError>(e),
                }
            }),
    {
        let key = build_full_key(&parent_tries_paths_nibbles, &key_nibbles);
        let prefix = build_full_key(&parent_tries_paths_nibbles, &prefix_nibbles);
        proof {
            lemma_full_key_len(parent_tries_paths_nibbles@, prefix_nibbles@);
        }
        let plen = prefix.len() - prefix_nibbles.len();
        let bi = match self.find_block(block_hash) {
            Some(i) => i,
            None => {
                return Err(StorageAccessError::UnknownBlock);
            },
        };
        let root: Vec<u8> = match &self.blocks[bi].state_trie_root {
            Some(rt) => bytes_to_vec(rt.as_slice()),
            None => {
                return Err(StorageAccessError::IncompleteStorage);
            },
        };
        let fuel = match self.trie_nodes.len().checked_add(2) {
            Some(f) => f,
            None => usize::MAX,
        };
        proof {
            assert(key@.skip(0) =~= key@);
        }
        match self.nk_desc(root.as_slice(), Vec::new(), &key, 0, true, branch_nodes, &prefix, fuel) {
            NkStep::Incomplete => Err(StorageAccessError::IncompleteStorage),
            NkStep::NoneK => Ok(None),
            NkStep::Found(k) => {
                proof {
                    lemma_nk_found_has_prefix(
                        *self,
                        root@,
                        Seq::empty(),
                        Some(key@),
                        branch_nodes,
                        prefix@,
                        fuel as nat,
                        k@,
                    );
                }
                let out = tail_from(&k, plen);
                Ok(Some(out))
            },
        }
    }
}

/// The flattened key is the parent path followed by the inner key.
proof fn lemma_full_key_len(parents: Seq<Vec<u8>>, key: Seq<u8>)
    ensures
        spec_full_key(parents, key).len() >= key.len(),
        spec_full_key(parents, key).len() - key.len() == spec_full_key(
            parents,
            Seq::empty(),
        ).len(),
    decreases parents.len(),
{
    if parents.len() > 0 {
        lemma_full_key_len(parents.skip(1), key);
        lemma_full_key_len(parents.skip(1), Seq::empty());
    }
}

/// After a `continue` relation, the partial key is a strict prefix of the
/// remaining key.
proof fn lemma_pk_rel_continue(r: Seq<u8>, pk: Seq<u8>)
    requires
        pk_rel(r, pk) == 1,
    ensures
        r.len() > pk.len(),
        r.take(pk.len() as int) == pk,
    decreases r.len(),
{
    if r.len() > 0 && pk.len() > 0 && r[0] == pk[0] {
        lemma_pk_rel_continue(r.skip(1), pk.skip(1));
        assert forall|j: int| 0 <= j < pk.len() implies r.take(pk.len() as int)[j] == pk[j] by {
            if j > 0 {
                assert(r.skip(1).take(pk.len() - 1)[j - 1] == pk.skip(1)[j - 1]);
                assert(r.skip(1)[j - 1] == r[j]);
            }
        }
        assert(r.take(pk.len() as int) =~= pk);
    }
}

} // verus!
