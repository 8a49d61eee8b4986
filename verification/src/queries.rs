//! The trie query engine, part one: point lookup and closest-descendant
//! search over the shared trie.
//!
//! Both walks start at a block's state root and consume the search key
//! nibble by nibble: a node's partial key must match a prefix of what
//! remains, a nibble below 16 follows a child edge, and the sentinel 16
//! follows the `trie_root_ref` of the current node into a child trie.

use vstd::prelude::*;

use crate::bytes::bytes_to_vec;
use crate::errors::StorageAccessError;
use crate::tables::ChainDb;

verus! {

/// The nibble that separates parent-trie path segments from child-trie
/// segments in a flattened key.
pub const CHILD_TRIE_SEPARATOR: u8 = 16;

/// One search key built from the parent-trie segments (each followed by
/// the separator) and the key within the innermost trie.
pub open spec fn spec_full_key(parents: Seq<Vec<u8>>, key: Seq<u8>) -> Seq<u8>
    decreases parents.len(),
{
    if parents.len() == 0 {
        key
    } else {
        parents[0]@ + seq![CHILD_TRIE_SEPARATOR] + spec_full_key(parents.skip(1), key)
    }
}

/// A full key is the flattened parent path followed by the inner key.
pub proof fn lemma_full_key_flat(parents: Seq<Vec<u8>>, key: Seq<u8>)
    ensures
        spec_full_key(parents, key) == spec_full_key(parents, Seq::empty()) + key,
    decreases parents.len(),
{
    if parents.len() == 0 {
        assert(spec_full_key(parents, Seq::empty()) + key =~= key);
    } else {
        lemma_full_key_flat(parents.skip(1), key);
        let a = parents[0]@ + seq![CHILD_TRIE_SEPARATOR];
        assert(a + (spec_full_key(parents.skip(1), Seq::empty()) + key) =~= (a + spec_full_key(
            parents.skip(1),
            Seq::empty(),
        )) + key);
    }
}

/// Appending one more parent segment appends its nibbles and a separator
/// to the flattened parent path.
pub proof fn lemma_full_key_snoc(parents: Seq<Vec<u8>>, v: Vec<u8>)
    ensures
        spec_full_key(parents.push(v), Seq::empty()) == spec_full_key(parents, Seq::empty())
            + v@ + seq![CHILD_TRIE_SEPARATOR],
    decreases parents.len(),
{
    if parents.len() == 0 {
        assert(parents.push(v)[0] == v);
        assert(parents.push(v).skip(1) =~= Seq::<Vec<u8>>::empty());
        assert(spec_full_key(parents, Seq::empty()) =~= Seq::<u8>::empty());
        assert(spec_full_key(parents.push(v).skip(1), Seq::empty()) =~= Seq::<u8>::empty());
        assert(spec_full_key(parents.push(v), Seq::empty()) =~= spec_full_key(
            parents,
            Seq::empty(),
        ) + v@ + seq![CHILD_TRIE_SEPARATOR]);
    } else {
        assert(parents.push(v).skip(1) =~= parents.skip(1).push(v));
        assert(parents.push(v)[0] == parents[0]);
        lemma_full_key_snoc(parents.skip(1), v);
        assert(spec_full_key(parents.push(v), Seq::empty()) =~= spec_full_key(
            parents,
            Seq::empty(),
        ) + v@ + seq![CHILD_TRIE_SEPARATOR]);
    }
}

/// Builds the flattened search key.
pub fn build_full_key(parents: &Vec<Vec<u8>>, key: &Vec<u8>) -> (r: Vec<u8>)
    ensures
        r@ == spec_full_key(parents@, key@),
{
    let mut out: Vec<u8> = Vec::new();
    let ghost ps = parents@;
    proof {
        assert(ps.skip(0) =~= ps);
    }
    let mut i: usize = 0;
    while i < parents.len()
        invariant
            i <= ps.len(),
            ps == parents@,
            spec_full_key(ps, key@) == out@ + spec_full_key(ps.skip(i as int), key@),
        decreases ps.len() - i,
    {
        proof {
            assert(ps.skip(i as int)[0] == ps[i as int]);
            assert(ps.skip(i as int).skip(1) =~= ps.skip(i as int + 1));
        }
        let ghost before = out@;
        let mut j: usize = 0;
        while j < parents[i].len()
            invariant
                i < ps.len(),
                ps == parents@,
                j <= parents@[i as int]@.len(),
                out@ == before + parents@[i as int]@.take(j as int),
            decreases parents@[i as int]@.len() - j,
        {
            out.push(parents[i][j]);
            proof {
                assert(out@ =~= before + parents@[i as int]@.take(j as int + 1));
            }
            j += 1;
        }
        out.push(CHILD_TRIE_SEPARATOR);
        proof {
            assert(parents@[i as int]@.take(parents@[i as int]@.len() as int) =~= parents@[
                i as int
            ]@);
            assert(out@ =~= before + (ps[i as int]@ + seq![CHILD_TRIE_SEPARATOR]));
            assert(out@ + spec_full_key(ps.skip(i as int + 1), key@) =~= before + (ps[i as int]@
                + seq![CHILD_TRIE_SEPARATOR] + spec_full_key(ps.skip(i as int + 1), key@)));
        }
        i += 1;
    }
    let ghost mid = out@;
    let mut j: usize = 0;
    while j < key.len()
        invariant
            j <= key@.len(),
            out@ == mid + key@.take(j as int),
        decreases key@.len() - j,
    {
        out.push(key[j]);
        proof {
            assert(out@ =~= mid + key@.take(j as int + 1));
        }
        j += 1;
    }
    proof {
        assert(ps.skip(ps.len() as int).len() == 0);
        assert(mid + key@.take(key@.len() as int) =~= mid + key@);
    }
    out
}

// --- point lookup ---

/// Outcome of a lookup walk below a node.
pub ghost enum LookupOutcome {
    /// The key names a node with this storage value and version.
    Found { value: Seq<u8>, version: u8 },
    /// The key names no entry.
    Absent,
    /// A node needed by the walk is missing from the store.
    Incomplete,
}

/// Walk state with the current node's partial key already consumed:
/// `key[i..]` remains to be matched below `node`.
pub open spec fn spec_lookup_at(db: ChainDb, node: Seq<u8>, key: Seq<u8>, i: int) -> LookupOutcome
    decreases key.len() - i, 0int,
{
    if i < 0 || i >= key.len() {
        if db.spec_has_storage(node) {
            let st = db.spec_storage(node);
            LookupOutcome::Found {
                value: match st.value {
                    Some(v) => v@,
                    None => st.trie_root_ref.unwrap()@,
                },
                version: st.trie_entry_version,
            }
        } else {
            LookupOutcome::Absent
        }
    } else if key[i] == CHILD_TRIE_SEPARATOR {
        if !db.spec_has_storage(node) {
            LookupOutcome::Absent
        } else {
            match db.spec_storage(node).trie_root_ref {
                None => LookupOutcome::Absent,
                Some(r) => spec_lookup_enter(db, r@, key, i + 1),
            }
        }
    } else {
        if !db.spec_has_child(node, key[i]) {
            LookupOutcome::Absent
        } else {
            spec_lookup_enter(db, db.spec_child(node, key[i]), key, i + 1)
        }
    }
}

/// Walk state on the edge into `node`: the node itself must exist and its
/// partial key must be the next prefix of the search key.
pub open spec fn spec_lookup_enter(db: ChainDb, node: Seq<u8>, key: Seq<u8>, i: int) -> LookupOutcome
    decreases key.len() - i, 1int,
{
    if i < 0 {
        LookupOutcome::Absent
    } else if !db.spec_has_node(node) {
        LookupOutcome::Incomplete
    } else {
        let pk = db.spec_node(node).partial_key@;
        if i + pk.len() <= key.len() && key.subrange(i, i + pk.len() as int) == pk {
            spec_lookup_at(db, node, key, i + pk.len() as int)
        } else {
            LookupOutcome::Absent
        }
    }
}

/// The value the trie of `block_hash` holds at `key`, where `key` is the
/// flattened search key.
pub open spec fn spec_storage_get(db: ChainDb, block_hash: Seq<u8>, key: Seq<u8>) -> Result<
    Option<(Seq<u8>, u8)>,
    StorageAccessError,
> {
    if !db.spec_has_block(block_hash) {
        Err(StorageAccessError::UnknownBlock)
    } else {
        match db.spec_block(block_hash).state_trie_root {
            None => Err(StorageAccessError::IncompleteStorage),
            Some(rt) => match spec_lookup_enter(db, rt@, key, 0) {
                LookupOutcome::Incomplete => Err(StorageAccessError::IncompleteStorage),
                LookupOutcome::Absent => Ok(None),
                LookupOutcome::Found { value, version } => Ok(Some((value, version))),
            },
        }
    }
}

/// Exec-side outcome of a lookup walk.
enum LookupStep {
    Found(Vec<u8>, u8),
    Absent,
    Incomplete,
}

impl ChainDb {
    /// Checks that the partial key of the node at `node_idx` is the next
    /// prefix of `key` at position `i`.
    fn partial_key_matches(&self, node_idx: usize, key: &Vec<u8>, i: usize) -> (r: bool)
        requires
            node_idx < self.trie_nodes@.len(),
            i <= key@.len(),
        ensures
            r == {
                let pk = self.trie_nodes@[node_idx as int].partial_key@;
                i + pk.len() <= key@.len() && key@.subrange(i as int, i + pk.len() as int) == pk
            },
    {
        let pk_len = self.trie_nodes[node_idx].partial_key.len();
        if pk_len > key.len() - i {
            return false;
        }
        let mut j: usize = 0;
        while j < pk_len
            invariant
                key@.len() <= usize::MAX,
                node_idx < self.trie_nodes@.len(),
                pk_len == self.trie_nodes@[node_idx as int].partial_key@.len(),
                i + pk_len <= key@.len(),
                j <= pk_len,
                forall|t: int|
                    0 <= t < j ==> key@[i + t] == self.trie_nodes@[node_idx as int].partial_key@[
                        t
                    ],
            decreases pk_len - j,
        {
            if key[i + j] != self.trie_nodes[node_idx].partial_key[j] {
                proof {
                    let pk = self.trie_nodes@[node_idx as int].partial_key@;
                    assert(key@.subrange(i as int, i + pk.len() as int)[j as int] == key@[
                        i + j
                    ]);
                }
                return false;
            }
            j += 1;
        }
        proof {
            let pk = self.trie_nodes@[node_idx as int].partial_key@;
            assert(key@.subrange(i as int, i + pk.len() as int) =~= pk);
        }
        true
    }

    fn lookup_at(&self, node: &[u8], key: &Vec<u8>, i: usize) -> (r: LookupStep)
        requires
            self.wf(),
            i <= key@.len(),
        ensures
            match r {
                LookupStep::Found(v, ver) => spec_lookup_at(*self, node@, key@, i as int) == (
                LookupOutcome::Found { value: v@, version: ver }),
                LookupStep::Absent => spec_lookup_at(*self, node@, key@, i as int)
                    == LookupOutcome::Absent,
                LookupStep::Incomplete => spec_lookup_at(*self, node@, key@, i as int)
                    == LookupOutcome::Incomplete,
            },
        decreases key@.len() - i, 0int,
    {
        if i >= key.len() {
            match self.find_storage(node) {
                Some(si) => {
                    let st = &self.trie_storage[si];
                    match &st.value {
                        Some(v) => LookupStep::Found(
                            bytes_to_vec(v.as_slice()),
                            st.trie_entry_version,
                        ),
                        None => match &st.trie_root_ref {
                            Some(r2) => LookupStep::Found(
                                bytes_to_vec(r2.as_slice()),
                                st.trie_entry_version,
                            ),
                            None => {
                                proof {
                                    assert(self.trie_storage@[si as int].wf());
                                    assert(false);
                                }
                                LookupStep::Absent
                            },
                        },
                    }
                },
                None => LookupStep::Absent,
            }
        } else if key[i] == CHILD_TRIE_SEPARATOR {
            match self.find_storage(node) {
                None => LookupStep::Absent,
                Some(si) => match &self.trie_storage[si].trie_root_ref {
                    None => LookupStep::Absent,
                    Some(r2) => {
                        let r2c = bytes_to_vec(r2.as_slice());
                        self.lookup_enter(r2c.as_slice(), key, i + 1)
                    },
                },
            }
        } else {
            match self.find_child(node, key[i]) {
                None => LookupStep::Absent,
                Some(ci) => {
                    let c = bytes_to_vec(self.trie_children[ci].child.as_slice());
                    self.lookup_enter(c.as_slice(), key, i + 1)
                },
            }
        }
    }

    fn lookup_enter(&self, node: &[u8], key: &Vec<u8>, i: usize) -> (r: LookupStep)
        requires
            self.wf(),
            i <= key@.len(),
        ensures
            match r {
                LookupStep::Found(v, ver) => spec_lookup_enter(*self, node@, key@, i as int) == (
                LookupOutcome::Found { value: v@, version: ver }),
                LookupStep::Absent => spec_lookup_enter(*self, node@, key@, i as int)
                    == LookupOutcome::Absent,
                LookupStep::Incomplete => spec_lookup_enter(*self, node@, key@, i as int)
                    == LookupOutcome::Incomplete,
            },
        decreases key@.len() - i, 1int,
    {
        match self.find_node(node) {
            None => LookupStep::Incomplete,
            Some(ni) => {
                let pk_len = self.trie_nodes[ni].partial_key.len();
                if pk_len <= key.len() - i && self.partial_key_matches(ni, key, i) {
                    self.lookup_at(node, key, i + pk_len)
                } else {
                    proof {
                        let pk = self.trie_nodes@[ni as int].partial_key@;
                        if pk_len <= key@.len() - i {
                            assert(!(i + pk.len() <= key@.len() && key@.subrange(
                                i as int,
                                i + pk.len() as int,
                            ) == pk));
                        }
                    }
                    LookupStep::Absent
                }
            },
        }
    }

    /// Returns the value associated with the node at the given key of the
    /// given block's trie, together with its entry version.
    ///
    /// `parent_tries_paths_nibbles` leads through child tries to the trie
    /// in which `key_nibbles` is looked up. All nibbles must be below 16.
    pub fn block_storage_get(
        &self,
        block_hash: &[u8],
        parent_tries_paths_nibbles: Vec<Vec<u8>>,
        key_nibbles: Vec<u8>,
    ) -> (r: Result<Option<(Vec<u8>, u8)>, StorageAccessError>)
        requires
            self.wf(),
            forall|i: int, j: int|
                0 <= i < parent_tries_paths_nibbles@.len() && 0 <= j
                    < parent_tries_paths_nibbles@[i]@.len() ==> parent_tries_paths_nibbles@[i]@[j]
                    < 16,
            forall|j: int| 0 <= j < key_nibbles@.len() ==> key_nibbles@[j] < 16,
        ensures
            match r {
                Ok(Some((v, ver))) => spec_storage_get(
                    *self,
                    block_hash@,
                    spec_full_key(parent_tries_paths_nibbles@, key_nibbles@),
                ) == Ok::<Option<(Seq<u8>, u8)>, StorageAccessError>(Some((v@, ver))),
                Ok(None) => spec_storage_get(
                    *self,
                    block_hash@,
                    spec_full_key(parent_tries_paths_nibbles@, key_nibbles@),
                ) == Ok::<Option<(Seq<u8>, u8)>, StorageAccessError>(None),
                Err(e) => spec_storage_get(
                    *self,
                    block_hash@,
                    spec_full_key(parent_tries_paths_nibbles@, key_nibbles@),
                ) == Err::<Option<(Seq<u8>, u8)>, StorageAccessError>(e),
            },
    {
        let key = build_full_key(&parent_tries_paths_nibbles, &key_nibbles);
        let bi = match self.find_block(block_hash) {
            Some(i) => i,
            None => {
                return Err(StorageAccessError::UnknownBlock);
            },
        };
        let root: Vec<u8> = match &self.blocks[bi].state_trie_root {
            Some(rt) => bytes_to_vec(rt.as_slice()),
            None => {
                return Err(StorageAccessError::IncompleteStorage);
            },
        };
        match self.lookup_enter(root.as_slice(), &key, 0) {
            LookupStep::Incomplete => Err(StorageAccessError::IncompleteStorage),
            LookupStep::Absent => Ok(None),
            LookupStep::Found(v, ver) => Ok(Some((v, ver))),
        }
    }
}

/// Point-lookup correctness on a trie holding exactly one entry: when a
/// block's state is a single leaf with partial key `pk` carrying value
/// `v` at version `ver`, looking up `pk` yields the value, and looking up
/// any other key yields nothing.
pub proof fn lemma_single_leaf_lookup(
    db: ChainDb,
    b: Seq<u8>,
    m: Seq<u8>,
    pk: Seq<u8>,
    v: Seq<u8>,
    ver: u8,
    key: Seq<u8>,
)
    requires
        db.wf(),
        db.spec_has_block(b),
        (db.spec_block(b).state_trie_root is Some),
        db.spec_block(b).state_trie_root.unwrap()@ == m,
        db.spec_has_node(m),
        db.spec_node(m).partial_key@ == pk,
        db.spec_has_storage(m),
        (db.spec_storage(m).value is Some),
        db.spec_storage(m).value.unwrap()@ == v,
        db.spec_storage(m).trie_entry_version == ver,
        forall|n: u8| !db.spec_has_child(m, n),
    ensures
        spec_storage_get(db, b, pk) == Ok::<Option<(Seq<u8>, u8)>, StorageAccessError>(
            Some((v, ver)),
        ),
        key != pk ==> spec_storage_get(db, b, key) == Ok::<
            Option<(Seq<u8>, u8)>,
            StorageAccessError,
        >(None),
{
    let sidx = db.spec_storage_idx(m);
    assert(db.trie_storage@[sidx].wf());
    assert(pk.subrange(0, pk.len() as int) =~= pk);
    assert(spec_lookup_enter(db, m, pk, 0) == (LookupOutcome::Found { value: v, version: ver }));
    if key != pk {
        if pk.len() <= key.len() && key.subrange(0, pk.len() as int) == pk {
            let i = pk.len() as int;
            assert(i < key.len()) by {
                if i == key.len() {
                    assert(key.subrange(0, i) =~= key);
                }
            }
            assert(spec_lookup_at(db, m, key, i) == LookupOutcome::Absent);
        }
    }
}

// --- closest descendant ---

/// Outcome of a closest-descendant walk.
pub ghost enum ClosestOutcome {
    /// Merkle value of the closest descendant.
    FoundCd(Seq<u8>),
    /// The key has no descendant in this trie.
    NoneCd,
    /// A node needed by the walk is missing from the store.
    IncompleteCd,
}

/// Walk state on the edge into `node`, whose Merkle value is known from
/// the parent edge: `key[i..]` remains.
pub open spec fn spec_closest_at(db: ChainDb, node: Seq<u8>, key: Seq<u8>, i: int) -> ClosestOutcome
    decreases key.len() - i,
{
    if i < 0 || i >= key.len() {
        ClosestOutcome::FoundCd(node)
    } else if !db.spec_has_node(node) {
        ClosestOutcome::IncompleteCd
    } else {
        let pk = db.spec_node(node).partial_key@;
        if key.len() - i <= pk.len() && pk.take(key.len() - i) == key.subrange(
            i,
            key.len() as int,
        ) {
            ClosestOutcome::FoundCd(node)
        } else if i + pk.len() < key.len() && key.subrange(i, i + pk.len() as int) == pk {
            let n = key[i + pk.len() as int];
            if n == CHILD_TRIE_SEPARATOR {
                if db.spec_has_storage(node) && db.spec_storage(node).trie_root_ref is Some {
                    spec_closest_at(
                        db,
                        db.spec_storage(node).trie_root_ref.unwrap()@,
                        key,
                        i + pk.len() + 1,
                    )
                } else {
                    ClosestOutcome::NoneCd
                }
            } else {
                if db.spec_has_child(node, n) {
                    spec_closest_at(db, db.spec_child(node, n), key, i + pk.len() + 1)
                } else {
                    ClosestOutcome::NoneCd
                }
            }
        } else {
            ClosestOutcome::NoneCd
        }
    }
}

/// The Merkle value of the node whose key is the shortest extension of
/// `key` in the trie of `block_hash`.
pub open spec fn spec_closest_descendant(db: ChainDb, block_hash: Seq<u8>, key: Seq<u8>) -> Result<
    Option<Seq<u8>>,
    StorageAccessError,
> {
    if !db.spec_has_block(block_hash) {
        Err(StorageAccessError::UnknownBlock)
    } else {
        match db.spec_block(block_hash).state_trie_root {
            None => Ok(None),
            Some(rt) => match spec_closest_at(db, rt@, key, 0) {
                ClosestOutcome::FoundCd(m) => Ok(Some(m)),
                ClosestOutcome::NoneCd => Ok(None),
                ClosestOutcome::IncompleteCd => Err(StorageAccessError::IncompleteStorage),
            },
        }
    }
}

enum ClosestStep {
    FoundCd(Vec<u8>),
    NoneCd,
    IncompleteCd,
}

impl ChainDb {
    fn closest_at(&self, node: &[u8], key: &Vec<u8>, i: usize) -> (r: ClosestStep)
        requires
            self.wf(),
            i <= key@.len(),
        ensures
            match r {
                ClosestStep::FoundCd(m) => spec_closest_at(*self, node@, key@, i as int)
                    == ClosestOutcome::FoundCd(m@),
                ClosestStep::NoneCd => spec_closest_at(*self, node@, key@, i as int)
                    == ClosestOutcome::NoneCd,
                ClosestStep::IncompleteCd => spec_closest_at(*self, node@, key@, i as int)
                    == ClosestOutcome::IncompleteCd,
            },
        decreases key@.len() - i,
    {
        if i >= key.len() {
            return ClosestStep::FoundCd(bytes_to_vec(node));
        }
        let ni = match self.find_node(node) {
            Some(x) => x,
            None => {
                return ClosestStep::IncompleteCd;
            },
        };
        let pk_len = self.trie_nodes[ni].partial_key.len();
        // Is the remaining key a prefix of the partial key?
        if key.len() - i <= pk_len {
            let mut j: usize = 0;
            let rem = key.len() - i;
            while j < rem
                invariant
                    key@.len() <= usize::MAX,
                    self.wf(),
                    ni < self.trie_nodes@.len(),
                    self.spec_has_node(node@),
                    self.spec_node(node@) == self.trie_nodes@[ni as int],
                    i < key@.len(),
                    pk_len == self.trie_nodes@[ni as int].partial_key@.len(),
                    i + rem == key@.len(),
                    rem <= pk_len,
                    j <= rem,
                    forall|t: int|
                        0 <= t < j ==> self.trie_nodes@[ni as int].partial_key@[t] == key@[
                            i + t
                        ],
                decreases rem - j,
            {
                if self.trie_nodes[ni].partial_key[j] != key[i + j] {
                    proof {
                        let pk = self.trie_nodes@[ni as int].partial_key@;
                        assert(pk.take(key@.len() - i)[j as int] == pk[j as int]);
                        assert(key@.subrange(i as int, key@.len() as int)[j as int] == key@[
                            i + j
                        ]);
                    }
                    return ClosestStep::NoneCd;
                }
                j += 1;
            }
            proof {
                let pk = self.trie_nodes@[ni as int].partial_key@;
                assert(pk.take(key@.len() - i) =~= key@.subrange(i as int, key@.len() as int));
            }
            return ClosestStep::FoundCd(bytes_to_vec(node));
        }
        // Otherwise the partial key must be a proper prefix of the rest.
        if pk_len > key.len() - i || !self.partial_key_matches(ni, key, i) {
            proof {
                let pk = self.trie_nodes@[ni as int].partial_key@;
                assert(!(key@.len() - i <= pk.len() && pk.take(key@.len() - i) == key@.subrange(
                    i as int,
                    key@.len() as int,
                )));
            }
            return ClosestStep::NoneCd;
        }
        let n = key[i + pk_len];
        if n == CHILD_TRIE_SEPARATOR {
            match self.find_storage(node) {
                Some(si) => match &self.trie_storage[si].trie_root_ref {
                    Some(r2) => {
                        let r2c = bytes_to_vec(r2.as_slice());
                        self.closest_at(r2c.as_slice(), key, i + pk_len + 1)
                    },
                    None => ClosestStep::NoneCd,
                },
                None => ClosestStep::NoneCd,
            }
        } else {
            match self.find_child(node, n) {
                Some(ci) => {
                    let c = bytes_to_vec(self.trie_children[ci].child.as_slice());
                    self.closest_at(c.as_slice(), key, i + pk_len + 1)
                },
                None => ClosestStep::NoneCd,
            }
        }
    }

    /// Returns the Merkle value of the trie node that is the closest
    /// descendant of the given key in the given block's trie, or `None`
    /// if the key has no descendant. All nibbles must be below 16.
    pub fn block_storage_closest_descendant_merkle_value(
        &self,
        block_hash: &[u8],
        parent_tries_paths_nibbles: Vec<Vec<u8>>,
        key_nibbles: Vec<u8>,
    ) -> (r: Result<Option<Vec<u8>>, StorageAccessError>)
        requires
            self.wf(),
            forall|i: int, j: int|
                0 <= i < parent_tries_paths_nibbles@.len() && 0 <= j
                    < parent_tries_paths_nibbles@[i]@.len() ==> parent_tries_paths_nibbles@[i]@[j]
                    < 16,
            forall|j: int| 0 <= j < key_nibbles@.len() ==> key_nibbles@[j] < 16,
        ensures
            match r {
                Ok(Some(m)) => spec_closest_descendant(
                    *self,
                    block_hash@,
                    spec_full_key(parent_tries_paths_nibbles@, key_nibbles@),
                ) == Ok::<Option<Seq<u8>>, StorageAccessError>(Some(m@)),
                Ok(None) => spec_closest_descendant(
                    *self,
                    block_hash@,
                    spec_full_key(parent_tries_paths_nibbles@, key_nibbles@),
                ) == Ok::<Option<Seq<u8>>, StorageAccessError>(None),
                Err(e) => spec_closest_descendant(
                    *self,
                    block_hash@,
                    spec_full_key(parent_tries_paths_nibbles@, key_nibbles@),
                ) == Err::<Option<Seq<u8>>, StorageAccessError>(e),
            },
    {
        let key = build_full_key(&parent_tries_paths_nibbles, &key_nibbles);
        let bi = match self.find_block(block_hash) {
            Some(i) => i,
            None => {
                return Err(StorageAccessError::UnknownBlock);
            },
        };
        let root: Vec<u8> = match &self.blocks[bi].state_trie_root {
            Some(rt) => bytes_to_vec(rt.as_slice()),
            None => {
                return Ok(None);
            },
        };
        match self.closest_at(root.as_slice(), &key, 0) {
            ClosestStep::FoundCd(m) => Ok(Some(m)),
            ClosestStep::NoneCd => Ok(None),
            ClosestStep::IncompleteCd => Err(StorageAccessError::IncompleteStorage),
        }
    }
}

} // verus!
