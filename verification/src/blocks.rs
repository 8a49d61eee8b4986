//! The block tree store: inserting blocks, looking them up, and moving the
//! best-chain flags when the preferred chain changes.

use vstd::prelude::*;

use crate::bytes::{bytes_eq, bytes_to_vec};
use crate::consensus::{DigestInfo, MAX_BLOCK_NUMBER};
use crate::errors::{CorruptedError, InsertError};
use crate::tables::{BlockRow, ChainDb};

verus! {

/// Everything the engine needs to know about a block being inserted: the
/// encoded header together with the fields the caller decoded from it.
/// Hashing and decoding of headers happen outside the engine.
pub struct BlockDesc {
    /// 32-byte hash of the encoded header.
    pub hash: Vec<u8>,
    /// Hash of the parent block.
    pub parent_hash: Vec<u8>,
    /// Height of the block.
    pub number: u64,
    /// Merkle value of the root of the block's state trie.
    pub state_trie_root: Vec<u8>,
    /// The header itself, as encoded.
    pub scale_encoded_header: Vec<u8>,
    /// Digest items of the header.
    pub digest: DigestInfo,
}

impl BlockDesc {
    pub open spec fn wf(self) -> bool {
        &&& self.hash@.len() == 32
        &&& self.parent_hash@.len() == 32
        &&& self.state_trie_root@.len() == 32
        &&& self.number <= MAX_BLOCK_NUMBER
        &&& self.digest.wf()
    }
}

/// The two rows agree on everything except possibly the best-chain flag.
pub open spec fn same_block_except_flag(x: BlockRow, y: BlockRow) -> bool {
    &&& y.hash == x.hash
    &&& y.parent_hash == x.parent_hash
    &&& y.number == x.number
    &&& y.state_trie_root == x.state_trie_root
    &&& y.scale_encoded_header == x.scale_encoded_header
    &&& y.justification == x.justification
    &&& y.body == x.body
    &&& y.digest == x.digest
}

/// The two block tables agree row by row on everything except possibly
/// the best-chain flags.
pub open spec fn same_blocks_except_flags(a: Seq<BlockRow>, b: Seq<BlockRow>) -> bool {
    &&& b.len() == a.len()
    &&& forall|i: int| 0 <= i < a.len() ==> same_block_except_flag(a[i], #[trigger] b[i])
}

/// Hash of the first block row (in table order) whose number is `n`.
pub open spec fn first_hash_at_number(s: Seq<BlockRow>, n: u64) -> Option<Seq<u8>>
    decreases s.len(),
{
    if s.len() == 0 {
        None
    } else if s[0].number == n {
        Some(s[0].hash@)
    } else {
        first_hash_at_number(s.skip(1), n)
    }
}

/// Hash of the first block row (in table order) whose number is `n` and
/// which is flagged best-chain.
pub open spec fn first_best_hash_at_number(s: Seq<BlockRow>, n: u64) -> Option<Seq<u8>>
    decreases s.len(),
{
    if s.len() == 0 {
        None
    } else if s[0].number == n && s[0].is_best_chain {
        Some(s[0].hash@)
    } else {
        first_best_hash_at_number(s.skip(1), n)
    }
}

/// Hashes of all block rows whose number is `n`, in table order.
pub open spec fn hashes_at_number(s: Seq<BlockRow>, n: u64) -> Seq<Seq<u8>>
    decreases s.len(),
{
    if s.len() == 0 {
        Seq::empty()
    } else if s[0].number == n {
        seq![s[0].hash@] + hashes_at_number(s.skip(1), n)
    } else {
        hashes_at_number(s.skip(1), n)
    }
}

proof fn lemma_first_hash_skip(s: Seq<BlockRow>, n: u64, i: int)
    requires
        0 <= i <= s.len(),
        forall|j: int| 0 <= j < i ==> (#[trigger] s[j]).number != n,
    ensures
        first_hash_at_number(s, n) == first_hash_at_number(s.skip(i), n),
    decreases i,
{
    if i > 0 {
        assert(s.skip(1).len() == s.len() - 1);
        assert(forall|j: int| 0 <= j < i - 1 ==> (#[trigger] s.skip(1)[j]).number != n);
        lemma_first_hash_skip(s.skip(1), n, i - 1);
        assert(s.skip(1).skip(i - 1) =~= s.skip(i));
    } else {
        assert(s.skip(0) =~= s);
    }
}

proof fn lemma_first_best_hash_skip(s: Seq<BlockRow>, n: u64, i: int)
    requires
        0 <= i <= s.len(),
        forall|j: int| 0 <= j < i ==> !((#[trigger] s[j]).number == n && s[j].is_best_chain),
    ensures
        first_best_hash_at_number(s, n) == first_best_hash_at_number(s.skip(i), n),
    decreases i,
{
    if i > 0 {
        assert(forall|j: int|
            0 <= j < i - 1 ==> !((#[trigger] s.skip(1)[j]).number == n
                && s.skip(1)[j].is_best_chain));
        lemma_first_best_hash_skip(s.skip(1), n, i - 1);
        assert(s.skip(1).skip(i - 1) =~= s.skip(i));
    } else {
        assert(s.skip(0) =~= s);
    }
}


/// Outcome of the best-chain walk: the hashes to flag (ancestors of the
/// new best block, tip first) and to unflag (ancestors of the old best
/// block); or a break in the chain; or the refusal to touch the flag of a
/// block at or below the finalized height, which means the new best chain
/// would leave the finalized chain.
pub ghost enum WalkOutcome {
    WalkOk { mark: Seq<Seq<u8>>, unmark: Seq<Seq<u8>> },
    WalkBroken,
    WalkBelowFinalized,
}

/// Prepends already-collected hashes to a walk outcome.
pub open spec fn walk_prepend(gm: Seq<Seq<u8>>, gu: Seq<Seq<u8>>, w: WalkOutcome) -> WalkOutcome {
    match w {
        WalkOutcome::WalkBroken => WalkOutcome::WalkBroken,
        WalkOutcome::WalkBelowFinalized => WalkOutcome::WalkBelowFinalized,
        WalkOutcome::WalkOk { mark, unmark } => WalkOutcome::WalkOk {
            mark: gm + mark,
            unmark: gu + unmark,
        },
    }
}

/// The lockstep walk of the best-chain reassignment: starting from the new
/// best block (still outside the table, with `new_parent` as its parent)
/// and the old best block, the pointer at the greater height steps to its
/// parent, collecting the stepped-from block, until the two pointers meet.
/// A stored block at or below the finalized height `fin` is never
/// collected: reaching one means the new best chain leaves the finalized
/// chain.
pub open spec fn spec_walk(
    db: ChainDb,
    inc_h: Seq<u8>,
    inc_n: u64,
    ret_h: Seq<u8>,
    ret_n: u64,
    new_h: Seq<u8>,
    new_parent: Seq<u8>,
    fin: u64,
) -> WalkOutcome
    decreases inc_n + ret_n,
{
    if inc_h == ret_h {
        WalkOutcome::WalkOk { mark: Seq::empty(), unmark: Seq::empty() }
    } else {
        let step_inc = inc_n >= ret_n;
        let step_ret = ret_n >= inc_n;
        if step_inc && inc_n == 0 {
            WalkOutcome::WalkBroken
        } else if step_inc && inc_h != new_h && !db.spec_has_block(inc_h) {
            WalkOutcome::WalkBroken
        } else if step_inc && inc_h != new_h && db.spec_block(inc_h).number <= fin {
            WalkOutcome::WalkBelowFinalized
        } else if step_inc && inc_h != new_h && db.spec_block(inc_h).parent_hash is None {
            WalkOutcome::WalkBroken
        } else {
            let m1: Seq<Seq<u8>> = if step_inc && inc_h != new_h {
                seq![inc_h]
            } else {
                Seq::empty()
            };
            let ih2: Seq<u8> = if !step_inc {
                inc_h
            } else if inc_h == new_h {
                new_parent
            } else {
                db.spec_block(inc_h).parent_hash.unwrap()@
            };
            let in2: u64 = if step_inc {
                (inc_n - 1) as u64
            } else {
                inc_n
            };
            if step_ret && ret_n == 0 {
                WalkOutcome::WalkBroken
            } else if step_ret && !db.spec_has_block(ret_h) {
                WalkOutcome::WalkBroken
            } else if step_ret && db.spec_block(ret_h).number <= fin {
                WalkOutcome::WalkBelowFinalized
            } else if step_ret && db.spec_block(ret_h).parent_hash is None {
                WalkOutcome::WalkBroken
            } else {
                let u1: Seq<Seq<u8>> = if step_ret {
                    seq![ret_h]
                } else {
                    Seq::empty()
                };
                let rh2: Seq<u8> = if step_ret {
                    db.spec_block(ret_h).parent_hash.unwrap()@
                } else {
                    ret_h
                };
                let rn2: u64 = if step_ret {
                    (ret_n - 1) as u64
                } else {
                    ret_n
                };
                walk_prepend(
                    m1,
                    u1,
                    spec_walk(db, ih2, in2, rh2, rn2, new_h, new_parent, fin),
                )
            }
        }
    }
}

impl ChainDb {
    /// A block row lives at index `i`; then looking its hash up yields
    /// exactly that row.
    pub proof fn lemma_block_at(self, i: int)
        requires
            self.blocks_unique(),
            0 <= i < self.blocks@.len(),
        ensures
            self.spec_has_block(self.blocks@[i].hash@),
            self.spec_block_idx(self.blocks@[i].hash@) == i,
            self.spec_block(self.blocks@[i].hash@) == self.blocks@[i],
    {
        let h = self.blocks@[i].hash@;
        assert(self.spec_has_block(h));
        let k = self.spec_block_idx(h);
        assert(0 <= k < self.blocks@.len() && self.blocks@[k].hash@ == h);
        assert(k == i);
    }

    /// Returns the hash of the block whose storage is currently accessible,
    /// i.e. the tip of the preferred chain.
    pub fn best_block_hash(&self) -> (r: Result<Vec<u8>, CorruptedError>)
        requires
            self.wf(),
        ensures
            r.is_ok(),
            r.unwrap()@ == self.meta_best@,
            self.spec_has_block(self.meta_best@),
    {
        Ok(bytes_to_vec(self.meta_best.as_slice()))
    }

    /// Returns the hash of the finalized block: the block stored at the
    /// finalized height.
    pub fn finalized_block_hash(&self) -> (r: Result<Vec<u8>, CorruptedError>)
        requires
            self.wf(),
        ensures
            match r {
                Ok(h) => first_hash_at_number(self.blocks@, self.meta_finalized) == Some(h@),
                Err(e) => e == CorruptedError::InvalidFinalizedNum && first_hash_at_number(
                    self.blocks@,
                    self.meta_finalized,
                ) is None,
            },
    {
        let n = self.meta_finalized;
        let mut i: usize = 0;
        while i < self.blocks.len()
            invariant
                i <= self.blocks@.len(),
                n == self.meta_finalized,
                forall|j: int| 0 <= j < i ==> (#[trigger] self.blocks@[j]).number != n,
            decreases self.blocks@.len() - i,
        {
            if self.blocks[i].number == n {
                proof {
                    lemma_first_hash_skip(self.blocks@, n, i as int);
                    assert(self.blocks@.skip(i as int)[0] == self.blocks@[i as int]);
                }
                return Ok(bytes_to_vec(self.blocks[i].hash.as_slice()));
            }
            i += 1;
        }
        proof {
            lemma_first_hash_skip(self.blocks@, n, self.blocks@.len() as int);
        }
        Err(CorruptedError::InvalidFinalizedNum)
    }

    /// Returns the encoded header of the given block, or `None` if the
    /// block is unknown.
    pub fn block_scale_encoded_header(&self, block_hash: &[u8]) -> (r: Result<
        Option<Vec<u8>>,
        CorruptedError,
    >)
        requires
            self.wf(),
        ensures
            match r {
                Ok(Some(h)) => self.spec_has_block(block_hash@) && h@ == self.spec_block(
                    block_hash@,
                ).scale_encoded_header@,
                Ok(None) => !self.spec_has_block(block_hash@),
                Err(_) => false,
            },
    {
        match self.find_block(block_hash) {
            Some(i) => Ok(Some(bytes_to_vec(self.blocks[i].scale_encoded_header.as_slice()))),
            None => Ok(None),
        }
    }

    /// Returns the hash of the parent of the given block, or `None` if the
    /// block is unknown. A stored block without a parent (a root block)
    /// reports `InvalidBlockHashLen`, there being no 32-byte hash to return.
    pub fn block_parent(&self, block_hash: &[u8]) -> (r: Result<Option<Vec<u8>>, CorruptedError>)
        requires
            self.wf(),
        ensures
            match r {
                Ok(Some(p)) => self.spec_has_block(block_hash@) && self.spec_block(
                    block_hash@,
                ).parent_hash is Some && p@ == self.spec_block(block_hash@).parent_hash.unwrap()@,
                Ok(None) => !self.spec_has_block(block_hash@),
                Err(e) => e == CorruptedError::InvalidBlockHashLen && self.spec_has_block(
                    block_hash@,
                ) && self.spec_block(block_hash@).parent_hash is None,
            },
    {
        match self.find_block(block_hash) {
            Some(i) => match &self.blocks[i].parent_hash {
                Some(p) => Ok(Some(bytes_to_vec(p.as_slice()))),
                None => Err(CorruptedError::InvalidBlockHashLen),
            },
            None => Ok(None),
        }
    }

    /// Returns the extrinsics of the given block in order, or `None` if
    /// the block is unknown.
    pub fn block_extrinsics(&self, block_hash: &[u8]) -> (r: Result<
        Option<Vec<Vec<u8>>>,
        CorruptedError,
    >)
        requires
            self.wf(),
        ensures
            match r {
                Ok(Some(b)) => self.spec_has_block(block_hash@) && b@.len() == self.spec_block(
                    block_hash@,
                ).body@.len() && (forall|k: int|
                    0 <= k < b@.len() ==> (#[trigger] b@[k])@ == self.spec_block(
                        block_hash@,
                    ).body@[k]@),
                Ok(None) => !self.spec_has_block(block_hash@),
                Err(_) => false,
            },
    {
        match self.find_block(block_hash) {
            Some(i) => {
                let src = &self.blocks[i].body;
                let mut out: Vec<Vec<u8>> = Vec::new();
                let mut j: usize = 0;
                while j < src.len()
                    invariant
                        j <= src@.len(),
                        out@.len() == j,
                        forall|k: int| 0 <= k < j ==> (#[trigger] out@[k])@ == src@[k]@,
                    decreases src@.len() - j,
                {
                    out.push(bytes_to_vec(src[j].as_slice()));
                    j += 1;
                }
                Ok(Some(out))
            },
            None => Ok(None),
        }
    }

    /// Returns the hashes of all stored blocks at the given height, in
    /// table order. Heights that don't fit the storage column have no
    /// blocks.
    pub fn block_hash_by_number(&self, block_number: u64) -> (r: Result<
        Vec<Vec<u8>>,
        CorruptedError,
    >)
        requires
            self.wf(),
        ensures
            match r {
                Ok(v) => (block_number > MAX_BLOCK_NUMBER ==> v@.len() == 0) && (block_number
                    <= MAX_BLOCK_NUMBER ==> v@.len() == hashes_at_number(
                    self.blocks@,
                    block_number,
                ).len() && (forall|k: int|
                    0 <= k < v@.len() ==> (#[trigger] v@[k])@ == hashes_at_number(
                        self.blocks@,
                        block_number,
                    )[k])),
                Err(_) => false,
            },
    {
        let mut out: Vec<Vec<u8>> = Vec::new();
        if block_number > MAX_BLOCK_NUMBER {
            return Ok(out);
        }
        let ghost s = self.blocks@;
        let ghost mut gacc: Seq<Seq<u8>> = Seq::empty();
        proof {
            assert(s.skip(0) =~= s);
            assert(gacc + hashes_at_number(s.skip(0), block_number) =~= hashes_at_number(
                s,
                block_number,
            ));
        }
        let mut i: usize = 0;
        while i < self.blocks.len()
            invariant
                i <= s.len(),
                s == self.blocks@,
                hashes_at_number(s, block_number) == gacc + hashes_at_number(
                    s.skip(i as int),
                    block_number,
                ),
                out@.len() == gacc.len(),
                forall|k: int| 0 <= k < gacc.len() ==> (#[trigger] out@[k])@ == gacc[k],
            decreases s.len() - i,
        {
            proof {
                assert(s.skip(i as int)[0] == s[i as int]);
                assert(s.skip(i as int).skip(1) =~= s.skip(i as int + 1));
            }
            if self.blocks[i].number == block_number {
                out.push(bytes_to_vec(self.blocks[i].hash.as_slice()));
                proof {
                    let ghost gacc2 = gacc.push(s[i as int].hash@);
                    assert(gacc + (seq![s[i as int].hash@] + hashes_at_number(
                        s.skip(i as int + 1),
                        block_number,
                    )) =~= gacc2 + hashes_at_number(s.skip(i as int + 1), block_number));
                    gacc = gacc2;
                }
            }
            i += 1;
        }
        proof {
            assert(s.skip(s.len() as int) =~= Seq::<BlockRow>::empty());
            assert(gacc + hashes_at_number(s.skip(s.len() as int), block_number) =~= gacc);
        }
        Ok(out)
    }

    /// Returns the hash of the block of the preferred chain at the given
    /// height, or `None` if there is none.
    pub fn best_block_hash_by_number(&self, block_number: u64) -> (r: Result<
        Option<Vec<u8>>,
        CorruptedError,
    >)
        requires
            self.wf(),
        ensures
            match r {
                Ok(o) => (block_number > MAX_BLOCK_NUMBER ==> o is None) && (block_number
                    <= MAX_BLOCK_NUMBER ==> match o {
                    Some(h) => first_best_hash_at_number(self.blocks@, block_number) == Some(h@),
                    None => first_best_hash_at_number(self.blocks@, block_number) is None,
                }),
                Err(_) => false,
            },
    {
        if block_number > MAX_BLOCK_NUMBER {
            return Ok(None);
        }
        let mut i: usize = 0;
        while i < self.blocks.len()
            invariant
                i <= self.blocks@.len(),
                block_number <= MAX_BLOCK_NUMBER,
                forall|j: int|
                    0 <= j < i ==> !((#[trigger] self.blocks@[j]).number == block_number
                        && self.blocks@[j].is_best_chain),
            decreases self.blocks@.len() - i,
        {
            if self.blocks[i].number == block_number && self.blocks[i].is_best_chain {
                proof {
                    lemma_first_best_hash_skip(self.blocks@, block_number, i as int);
                    assert(self.blocks@.skip(i as int)[0] == self.blocks@[i as int]);
                }
                return Ok(Some(bytes_to_vec(self.blocks[i].hash.as_slice())));
            }
            i += 1;
        }
        proof {
            lemma_first_best_hash_skip(self.blocks@, block_number, self.blocks@.len() as int);
        }
        Ok(None)
    }

    /// Walks the old and the new best chain upward in lockstep and collects
    /// the rows to flag (ancestors of the new best block) and to unflag
    /// (ancestors of the old best block), stopping at their common
    /// ancestor. The new block itself is not yet in the table and is
    /// described by `new_hash`, `new_number`, `new_parent`.
    fn walk_best_chain_paths(&self, new_hash: &[u8], new_number: u64, new_parent: &[u8]) -> (r:
        Result<(Vec<usize>, Vec<usize>), InsertError>)
        requires
            self.wf(),
        ensures
            ({
                let w = spec_walk(
                    *self,
                    new_hash@,
                    new_number,
                    self.meta_best@,
                    self.spec_block(self.meta_best@).number,
                    new_hash@,
                    new_parent@,
                    self.meta_finalized,
                );
                match r {
                    Ok((mark, unmark)) => match w {
                        WalkOutcome::WalkOk { mark: wm, unmark: wu } => {
                            &&& mark@.len() == wm.len()
                            &&& forall|k: int|
                                0 <= k < mark@.len() ==> (#[trigger] mark@[k])
                                    < self.blocks@.len() && self.blocks@[
                                    mark@[k] as int
                                ].hash@ == wm[k] && self.blocks@[mark@[k] as int].number
                                    > self.meta_finalized
                            &&& unmark@.len() == wu.len()
                            &&& forall|k: int|
                                0 <= k < unmark@.len() ==> (#[trigger] unmark@[k])
                                    < self.blocks@.len() && self.blocks@[
                                    unmark@[k] as int
                                ].hash@ == wu[k] && self.blocks@[unmark@[k] as int].number
                                    > self.meta_finalized
                        },
                        WalkOutcome::WalkBroken => false,
                        WalkOutcome::WalkBelowFinalized => false,
                    },
                    Err(e) => (e == InsertError::Corrupted(CorruptedError::BrokenChain) && w
                        == WalkOutcome::WalkBroken) || (e
                        == InsertError::BestNotInFinalizedChain && w
                        == WalkOutcome::WalkBelowFinalized),
                }
            }),
    {
        let mut mark: Vec<usize> = Vec::new();
        let mut unmark: Vec<usize> = Vec::new();
        let ghost mut gm: Seq<Seq<u8>> = Seq::empty();
        let ghost mut gu: Seq<Seq<u8>> = Seq::empty();

        let mut inc_hash: Vec<u8> = bytes_to_vec(new_hash);
        let mut inc_num: u64 = new_number;
        let mut ret_hash: Vec<u8> = bytes_to_vec(self.meta_best.as_slice());
        let ret_idx = match self.find_block(self.meta_best.as_slice()) {
            Some(i) => i,
            None => {
                proof {
                    assert(false);
                }
                return Err(InsertError::Corrupted(CorruptedError::BrokenChain));
            },
        };
        let mut ret_num: u64 = self.blocks[ret_idx].number;
        let fin = self.meta_finalized;
        let ghost w0 = spec_walk(
            *self,
            new_hash@,
            new_number,
            self.meta_best@,
            self.spec_block(self.meta_best@).number,
            new_hash@,
            new_parent@,
            fin,
        );
        proof {
            let bi = self.spec_block_idx(self.meta_best@);
            self.lemma_block_at(bi);
            assert(ret_idx == bi);
        }

        while !bytes_eq(inc_hash.as_slice(), ret_hash.as_slice())
            invariant
                self.wf(),
                fin == self.meta_finalized,
                w0 == spec_walk(
                    *self,
                    new_hash@,
                    new_number,
                    self.meta_best@,
                    self.spec_block(self.meta_best@).number,
                    new_hash@,
                    new_parent@,
                    fin,
                ),
                w0 == walk_prepend(
                    gm,
                    gu,
                    spec_walk(
                        *self,
                        inc_hash@,
                        inc_num,
                        ret_hash@,
                        ret_num,
                        new_hash@,
                        new_parent@,
                        fin,
                    ),
                ),
                mark@.len() == gm.len(),
                forall|k: int|
                    0 <= k < mark@.len() ==> (#[trigger] mark@[k]) < self.blocks@.len()
                        && self.blocks@[mark@[k] as int].hash@ == gm[k] && self.blocks@[
                        mark@[k] as int
                    ].number > fin,
                unmark@.len() == gu.len(),
                forall|k: int|
                    0 <= k < unmark@.len() ==> (#[trigger] unmark@[k]) < self.blocks@.len()
                        && self.blocks@[unmark@[k] as int].hash@ == gu[k] && self.blocks@[
                        unmark@[k] as int
                    ].number > fin,
            decreases inc_num + ret_num,
        {
            let ghost cur = spec_walk(
                *self,
                inc_hash@,
                inc_num,
                ret_hash@,
                ret_num,
                new_hash@,
                new_parent@,
                fin,
            );
            let ghost gm_in = gm;
            let ghost gu_in = gu;
            let step_inc = inc_num >= ret_num;
            let step_ret = ret_num >= inc_num;
            let ghost inc_h_in = inc_hash@;
            let ghost ret_h_in = ret_hash@;
            let ghost inc_n_in = inc_num;
            let ghost ret_n_in = ret_num;
            if step_inc {
                if inc_num == 0 {
                    return Err(InsertError::Corrupted(CorruptedError::BrokenChain));
                }
                let next: Vec<u8> = if bytes_eq(inc_hash.as_slice(), new_hash) {
                    bytes_to_vec(new_parent)
                } else {
                    match self.find_block(inc_hash.as_slice()) {
                        Some(i) => {
                            if self.blocks[i].number <= fin {
                                return Err(InsertError::BestNotInFinalizedChain);
                            }
                            mark.push(i);
                            proof {
                                gm = gm.push(inc_hash@);
                            }
                            match &self.blocks[i].parent_hash {
                                Some(p) => bytes_to_vec(p.as_slice()),
                                None => {
                                    return Err(
                                        InsertError::Corrupted(CorruptedError::BrokenChain),
                                    );
                                },
                            }
                        },
                        None => {
                            return Err(InsertError::Corrupted(CorruptedError::BrokenChain));
                        },
                    }
                };
                inc_hash = next;
                inc_num = inc_num - 1;
            }
            if step_ret {
                if ret_num == 0 {
                    return Err(InsertError::Corrupted(CorruptedError::BrokenChain));
                }
                let next: Vec<u8> = match self.find_block(ret_hash.as_slice()) {
                    Some(i) => {
                        if self.blocks[i].number <= fin {
                            return Err(InsertError::BestNotInFinalizedChain);
                        }
                        unmark.push(i);
                        proof {
                            gu = gu.push(ret_h_in);
                        }
                        match &self.blocks[i].parent_hash {
                            Some(p) => bytes_to_vec(p.as_slice()),
                            None => {
                                return Err(
                                    InsertError::Corrupted(CorruptedError::BrokenChain),
                                );
                            },
                        }
                    },
                    None => {
                        return Err(InsertError::Corrupted(CorruptedError::BrokenChain));
                    },
                };
                ret_hash = next;
                ret_num = ret_num - 1;
            }
            proof {
                let m1: Seq<Seq<u8>> = if step_inc && inc_h_in != new_hash@ {
                    seq![inc_h_in]
                } else {
                    Seq::empty()
                };
                let u1: Seq<Seq<u8>> = if step_ret {
                    seq![ret_h_in]
                } else {
                    Seq::empty()
                };
                assert(cur == walk_prepend(
                    m1,
                    u1,
                    spec_walk(
                        *self,
                        inc_hash@,
                        inc_num,
                        ret_hash@,
                        ret_num,
                        new_hash@,
                        new_parent@,
                        fin,
                    ),
                ));
                match spec_walk(
                    *self,
                    inc_hash@,
                    inc_num,
                    ret_hash@,
                    ret_num,
                    new_hash@,
                    new_parent@,
                    fin,
                ) {
                    WalkOutcome::WalkBroken => {},
                    WalkOutcome::WalkBelowFinalized => {},
                    WalkOutcome::WalkOk { mark: mr, unmark: ur } => {
                        assert((gm_in + (m1 + mr)) =~= (gm + mr));
                        assert((gu_in + (u1 + ur)) =~= (gu + ur));
                    },
                }
            }
        }
        proof {
            assert(spec_walk(
                *self,
                inc_hash@,
                inc_num,
                ret_hash@,
                ret_num,
                new_hash@,
                new_parent@,
                fin,
            ) == (WalkOutcome::WalkOk { mark: Seq::<Seq<u8>>::empty(), unmark: Seq::<
                Seq<u8>,
            >::empty() }));
            assert(gm + Seq::<Seq<u8>>::empty() =~= gm);
            assert(gu + Seq::<Seq<u8>>::empty() =~= gu);
        }
        Ok((mark, unmark))
    }

    /// Insert a new block.
    ///
    /// The caller must already have verified the block; the engine only
    /// checks its relation to what is stored: the block must not be present
    /// yet, its parent must be, and if it is to become the new best block
    /// its height must be beyond the finalized height and its chain must
    /// keep the finalized chain: a reassignment that would touch the
    /// best-chain flag of any block at or below the finalized height is
    /// refused.
    ///
    /// On success the block is appended; when `is_new_best` is set, the
    /// best-chain flags are re-assigned along the two chains and the `best`
    /// pointer moves to the new block. On failure nothing changes.
    pub fn insert(&mut self, desc: BlockDesc, is_new_best: bool, body: Vec<Vec<u8>>) -> (r: Result<
        (),
        InsertError,
    >)
        requires
            old(self).wf(),
            desc.wf(),
        ensures
            final(self).wf(),
            r is Err ==> *final(self) == *old(self),
            old(self).spec_has_block(desc.hash@) ==> r == Err::<(), InsertError>(
                InsertError::Duplicate,
            ),
            !old(self).spec_has_block(desc.hash@) && !old(self).spec_has_block(desc.parent_hash@)
                ==> r == Err::<(), InsertError>(InsertError::MissingParent),
            !old(self).spec_has_block(desc.hash@) && old(self).spec_has_block(desc.parent_hash@)
                && is_new_best && desc.number <= old(self).meta_finalized ==> r == Err::<
                (),
                InsertError,
            >(InsertError::BestNotInFinalizedChain),
            r is Ok ==> !old(self).spec_has_block(desc.hash@) && old(self).spec_has_block(
                desc.parent_hash@,
            ) && (is_new_best ==> desc.number > old(self).meta_finalized),
            !old(self).spec_has_block(desc.hash@) && old(self).spec_has_block(desc.parent_hash@)
                && !is_new_best ==> r is Ok,
            !old(self).spec_has_block(desc.hash@) && old(self).spec_has_block(desc.parent_hash@)
                && is_new_best && desc.number > old(self).meta_finalized ==> (match spec_walk(
                *old(self),
                desc.hash@,
                desc.number,
                old(self).meta_best@,
                old(self).spec_block(old(self).meta_best@).number,
                desc.hash@,
                desc.parent_hash@,
                old(self).meta_finalized,
            ) {
                WalkOutcome::WalkOk { .. } => r is Ok,
                WalkOutcome::WalkBroken => r == Err::<(), InsertError>(
                    InsertError::Corrupted(CorruptedError::BrokenChain),
                ),
                WalkOutcome::WalkBelowFinalized => r == Err::<(), InsertError>(
                    InsertError::BestNotInFinalizedChain,
                ),
            }),
            r is Ok ==> {
                &&& final(self).blocks@.len() == old(self).blocks@.len() + 1
                &&& same_blocks_except_flags(
                    old(self).blocks@,
                    final(self).blocks@.take(old(self).blocks@.len() as int),
                )
                &&& final(self).spec_has_block(desc.hash@)
                &&& {
                    let row = final(self).spec_block(desc.hash@);
                    &&& row.hash == desc.hash
                    &&& row.parent_hash == Some(desc.parent_hash)
                    &&& row.number == desc.number
                    &&& row.state_trie_root == Some(desc.state_trie_root)
                    &&& row.scale_encoded_header == desc.scale_encoded_header
                    &&& row.justification is None
                    &&& row.body == body
                    &&& row.digest == desc.digest
                    &&& row.is_best_chain == is_new_best
                }
                &&& !is_new_best ==> final(self).meta_best == old(self).meta_best
                &&& is_new_best ==> final(self).meta_best@ == desc.hash@
                &&& final(self).meta_finalized == old(self).meta_finalized
                &&& final(self).trie_nodes == old(self).trie_nodes
                &&& final(self).trie_children == old(self).trie_children
                &&& final(self).trie_storage == old(self).trie_storage
                &&& final(self).grandpa_authorities_set_id == old(
                    self,
                ).grandpa_authorities_set_id
                &&& final(self).grandpa_scheduled_target == old(self).grandpa_scheduled_target
                &&& final(self).grandpa_triggered_authorities == old(
                    self,
                ).grandpa_triggered_authorities
                &&& final(self).grandpa_scheduled_authorities == old(
                    self,
                ).grandpa_scheduled_authorities
                &&& final(self).aura_slot_duration == old(self).aura_slot_duration
                &&& final(self).aura_finalized_authorities == old(
                    self,
                ).aura_finalized_authorities
                &&& final(self).babe_slots_per_epoch == old(self).babe_slots_per_epoch
                &&& final(self).babe_finalized_epoch == old(self).babe_finalized_epoch
                &&& final(self).babe_finalized_next_epoch == old(self).babe_finalized_next_epoch
                &&& !is_new_best ==> final(self).blocks@.take(old(self).blocks@.len() as int)
                    == old(self).blocks@
                &&& forall|j: int|
                    0 <= j < old(self).blocks@.len() && (#[trigger] old(self).blocks@[j]).number
                        <= old(self).meta_finalized ==> final(self).blocks@[j].is_best_chain
                        == old(self).blocks@[j].is_best_chain
                &&& is_new_best ==> (match spec_walk(
                    *old(self),
                    desc.hash@,
                    desc.number,
                    old(self).meta_best@,
                    old(self).spec_block(old(self).meta_best@).number,
                    desc.hash@,
                    desc.parent_hash@,
                    old(self).meta_finalized,
                ) {
                    WalkOutcome::WalkOk { mark: wm, unmark: wu } => forall|j: int|
                        0 <= j < old(self).blocks@.len() ==> (
                        #[trigger] final(self).blocks@[j]).is_best_chain == (if wm.contains(
                            old(self).blocks@[j].hash@,
                        ) {
                            true
                        } else if wu.contains(old(self).blocks@[j].hash@) {
                            false
                        } else {
                            old(self).blocks@[j].is_best_chain
                        }),
                    WalkOutcome::WalkBroken => false,
                    WalkOutcome::WalkBelowFinalized => false,
                })
            },
    {
        if self.find_block(desc.hash.as_slice()).is_some() {
            return Err(InsertError::Duplicate);
        }
        if self.find_block(desc.parent_hash.as_slice()).is_none() {
            return Err(InsertError::MissingParent);
        }

        let mut walk: Option<(Vec<usize>, Vec<usize>)> = None;
        if is_new_best {
            if desc.number <= self.meta_finalized {
                return Err(InsertError::BestNotInFinalizedChain);
            }
            match self.walk_best_chain_paths(
                desc.hash.as_slice(),
                desc.number,
                desc.parent_hash.as_slice(),
            ) {
                Ok(lists) => {
                    walk = Some(lists);
                },
                Err(e) => {
                    return Err(e);
                },
            }
        }

        let ghost pre = *self;
        let new_hash_copy = bytes_to_vec(desc.hash.as_slice());
        let row = BlockRow {
            hash: desc.hash,
            parent_hash: Some(desc.parent_hash),
            number: desc.number,
            state_trie_root: Some(desc.state_trie_root),
            scale_encoded_header: desc.scale_encoded_header,
            is_best_chain: false,
            justification: None,
            body,
            digest: desc.digest,
        };
        let new_idx = self.blocks.len();
        self.blocks.push(row);

        proof {
            assert(self.blocks@.take(pre.blocks@.len() as int) =~= pre.blocks@);
            assert forall|i: int, j: int|
                #![trigger self.blocks@[i], self.blocks@[j]]
                0 <= i < self.blocks@.len() && 0 <= j < self.blocks@.len() && i
                    != j implies self.blocks@[i].hash@ != self.blocks@[j].hash@ by {
                if i < pre.blocks@.len() && j < pre.blocks@.len() {
                    assert(pre.blocks@[i].hash@ != pre.blocks@[j].hash@);
                } else if i == pre.blocks@.len() {
                    assert(pre.blocks@[j].hash@ != new_hash_copy@);
                } else {
                    assert(pre.blocks@[i].hash@ != new_hash_copy@);
                }
            }
        }

        match walk {
            Some((mark, unmark)) => {
                let ghost nlen = pre.blocks@.len() as int;
                let ghost grow = self.blocks@[nlen];
                let mut k: usize = 0;
                while k < unmark.len()
                    invariant
                        k <= unmark@.len(),
                        self.blocks@.len() == pre.blocks@.len() + 1,
                        nlen == pre.blocks@.len() as int,
                        forall|t: int|
                            0 <= t < unmark@.len() ==> (#[trigger] unmark@[t]) < pre.blocks@.len(),
                        forall|j: int|
                            0 <= j < nlen ==> (#[trigger] self.blocks@[j]).is_best_chain == (
                            if (exists|t: int| 0 <= t < k && unmark@[t] == j) {
                                false
                            } else {
                                pre.blocks@[j].is_best_chain
                            }),
                        same_blocks_except_flags(pre.blocks@, self.blocks@.take(nlen)),
                        same_block_except_flag(grow, self.blocks@[nlen]),
                        self.blocks_unique(),
                        self.rows_wf(),
                        self.trie_nodes == pre.trie_nodes,
                        self.trie_children == pre.trie_children,
                        self.trie_storage == pre.trie_storage,
                        self.meta_best == pre.meta_best,
                        self.meta_finalized == pre.meta_finalized,
                        self.grandpa_authorities_set_id == pre.grandpa_authorities_set_id,
                        self.grandpa_scheduled_target == pre.grandpa_scheduled_target,
                        self.grandpa_triggered_authorities == pre.grandpa_triggered_authorities,
                        self.grandpa_scheduled_authorities == pre.grandpa_scheduled_authorities,
                        self.aura_slot_duration == pre.aura_slot_duration,
                        self.aura_finalized_authorities == pre.aura_finalized_authorities,
                        self.babe_slots_per_epoch == pre.babe_slots_per_epoch,
                        self.babe_finalized_epoch == pre.babe_finalized_epoch,
                        self.babe_finalized_next_epoch == pre.babe_finalized_next_epoch,
                    decreases unmark@.len() - k,
                {
                    let i = unmark[k];
                    proof {
                        assert(unmark@[k as int] < pre.blocks@.len());
                    }
                    let ghost bprev = self.blocks@;
                    self.blocks[i].is_best_chain = false;
                    proof {
                        assert forall|t: int|
                            0 <= t < pre.blocks@.len() implies same_block_except_flag(
                            pre.blocks@[t],
                            #[trigger] self.blocks@.take(nlen)[t],
                        ) by {
                            assert(self.blocks@.take(nlen)[t] == self.blocks@[t]);
                            assert(same_block_except_flag(pre.blocks@[t], bprev.take(nlen)[t]));
                            assert(bprev.take(nlen)[t] == bprev[t]);
                        }
                        assert forall|j: int|
                            0 <= j < nlen implies (#[trigger] self.blocks@[j]).is_best_chain
                            == (if (exists|t: int| 0 <= t < k + 1 && unmark@[t] == j) {
                                false
                            } else {
                                pre.blocks@[j].is_best_chain
                            }) by {
                            if j == i {
                                assert(unmark@[k as int] == j);
                            } else {
                                assert(self.blocks@[j] == bprev[j]);
                                if exists|t: int| 0 <= t < k + 1 && unmark@[t] == j {
                                    let t = choose|t: int|
                                        0 <= t < k + 1 && unmark@[t] == j;
                                    assert(t < k);
                                }
                            }
                        }
                    }
                    k += 1;
                }
                let mut k2: usize = 0;
                while k2 < mark.len()
                    invariant
                        k2 <= mark@.len(),
                        self.blocks@.len() == pre.blocks@.len() + 1,
                        nlen == pre.blocks@.len() as int,
                        forall|t: int|
                            0 <= t < mark@.len() ==> (#[trigger] mark@[t]) < pre.blocks@.len(),
                        forall|j: int|
                            0 <= j < nlen ==> (#[trigger] self.blocks@[j]).is_best_chain == (
                            if (exists|t: int| 0 <= t < k2 && mark@[t] == j) {
                                true
                            } else if (exists|t: int|
                                0 <= t < unmark@.len() && unmark@[t] == j) {
                                false
                            } else {
                                pre.blocks@[j].is_best_chain
                            }),
                        same_blocks_except_flags(pre.blocks@, self.blocks@.take(nlen)),
                        same_block_except_flag(grow, self.blocks@[nlen]),
                        self.blocks_unique(),
                        self.rows_wf(),
                        self.trie_nodes == pre.trie_nodes,
                        self.trie_children == pre.trie_children,
                        self.trie_storage == pre.trie_storage,
                        self.meta_best == pre.meta_best,
                        self.meta_finalized == pre.meta_finalized,
                        self.grandpa_authorities_set_id == pre.grandpa_authorities_set_id,
                        self.grandpa_scheduled_target == pre.grandpa_scheduled_target,
                        self.grandpa_triggered_authorities == pre.grandpa_triggered_authorities,
                        self.grandpa_scheduled_authorities == pre.grandpa_scheduled_authorities,
                        self.aura_slot_duration == pre.aura_slot_duration,
                        self.aura_finalized_authorities == pre.aura_finalized_authorities,
                        self.babe_slots_per_epoch == pre.babe_slots_per_epoch,
                        self.babe_finalized_epoch == pre.babe_finalized_epoch,
                        self.babe_finalized_next_epoch == pre.babe_finalized_next_epoch,
                    decreases mark@.len() - k2,
                {
                    let i = mark[k2];
                    proof {
                        assert(mark@[k2 as int] < pre.blocks@.len());
                    }
                    let ghost bprev = self.blocks@;
                    self.blocks[i].is_best_chain = true;
                    proof {
                        assert forall|t: int|
                            0 <= t < pre.blocks@.len() implies same_block_except_flag(
                            pre.blocks@[t],
                            #[trigger] self.blocks@.take(nlen)[t],
                        ) by {
                            assert(self.blocks@.take(nlen)[t] == self.blocks@[t]);
                            assert(same_block_except_flag(pre.blocks@[t], bprev.take(nlen)[t]));
                            assert(bprev.take(nlen)[t] == bprev[t]);
                        }
                        assert forall|j: int|
                            0 <= j < nlen implies (#[trigger] self.blocks@[j]).is_best_chain
                            == (if (exists|t: int| 0 <= t < k2 + 1 && mark@[t] == j) {
                                true
                            } else if (exists|t: int|
                                0 <= t < unmark@.len() && unmark@[t] == j) {
                                false
                            } else {
                                pre.blocks@[j].is_best_chain
                            }) by {
                            if j == i {
                                assert(mark@[k2 as int] == j);
                            } else {
                                assert(self.blocks@[j] == bprev[j]);
                                if exists|t: int| 0 <= t < k2 + 1 && mark@[t] == j {
                                    let t = choose|t: int| 0 <= t < k2 + 1 && mark@[t] == j;
                                    assert(t < k2);
                                }
                            }
                        }
                    }
                    k2 += 1;
                }
                let ghost before_final = self.blocks@;
                self.blocks[new_idx].is_best_chain = true;
                self.meta_best = new_hash_copy;
                proof {
                    assert(self.blocks@.take(nlen) =~= before_final.take(nlen));
                    assert forall|t: int|
                        0 <= t < pre.blocks@.len() implies same_block_except_flag(
                        pre.blocks@[t],
                        #[trigger] self.blocks@.take(nlen)[t],
                    ) by {
                        assert(same_block_except_flag(pre.blocks@[t], before_final.take(nlen)[t]));
                        assert(self.blocks@.take(nlen)[t] == before_final.take(nlen)[t]);
                    }
                    assert(same_block_except_flag(grow, self.blocks@[nlen]));
                    assert(self.blocks@[nlen].is_best_chain);
                    self.lemma_block_at(nlen);
                    assert(self.spec_block(new_hash_copy@) == self.blocks@[nlen]);
                    match spec_walk(
                        pre,
                        desc.hash@,
                        desc.number,
                        pre.meta_best@,
                        pre.spec_block(pre.meta_best@).number,
                        desc.hash@,
                        desc.parent_hash@,
                        pre.meta_finalized,
                    ) {
                        WalkOutcome::WalkOk { mark: wm, unmark: wu } => {
                            assert forall|j: int|
                                0 <= j < pre.blocks@.len() implies (
                            #[trigger] self.blocks@[j]).is_best_chain == (if wm.contains(
                                pre.blocks@[j].hash@,
                            ) {
                                true
                            } else if wu.contains(pre.blocks@[j].hash@) {
                                false
                            } else {
                                pre.blocks@[j].is_best_chain
                            }) by {
                                assert(self.blocks@[j] == before_final[j]);
                                if wm.contains(pre.blocks@[j].hash@) {
                                    let t = choose|t: int|
                                        0 <= t < wm.len() && wm[t] == pre.blocks@[j].hash@;
                                    assert(pre.blocks@[mark@[t] as int].hash@ == wm[t]);
                                    assert(mark@[t] == j);
                                } else if wu.contains(pre.blocks@[j].hash@) {
                                    let t = choose|t: int|
                                        0 <= t < wu.len() && wu[t] == pre.blocks@[j].hash@;
                                    assert(pre.blocks@[unmark@[t] as int].hash@ == wu[t]);
                                    assert(unmark@[t] == j);
                                    if exists|t2: int|
                                        0 <= t2 < mark@.len() && mark@[t2] == j {
                                        let t2 = choose|t2: int|
                                            0 <= t2 < mark@.len() && mark@[t2] == j;
                                        assert(wm[t2] == pre.blocks@[j].hash@);
                                        assert(wm.contains(pre.blocks@[j].hash@));
                                    }
                                } else {
                                    if exists|t2: int|
                                        0 <= t2 < mark@.len() && mark@[t2] == j {
                                        let t2 = choose|t2: int|
                                            0 <= t2 < mark@.len() && mark@[t2] == j;
                                        assert(wm[t2] == pre.blocks@[j].hash@);
                                        assert(wm.contains(pre.blocks@[j].hash@));
                                    }
                                    if exists|t2: int|
                                        0 <= t2 < unmark@.len() && unmark@[t2] == j {
                                        let t2 = choose|t2: int|
                                            0 <= t2 < unmark@.len() && unmark@[t2] == j;
                                        assert(wu[t2] == pre.blocks@[j].hash@);
                                        assert(wu.contains(pre.blocks@[j].hash@));
                                    }
                                }
                            }
                            assert forall|j: int|
                                0 <= j < pre.blocks@.len() && (
                            #[trigger] pre.blocks@[j]).number
                                <= pre.meta_finalized implies self.blocks@[j].is_best_chain
                                == pre.blocks@[j].is_best_chain by {
                                if wm.contains(pre.blocks@[j].hash@) {
                                    let t = choose|t: int|
                                        0 <= t < wm.len() && wm[t] == pre.blocks@[j].hash@;
                                    assert(pre.blocks@[mark@[t] as int].hash@ == wm[t]);
                                    assert(mark@[t] == j);
                                    assert(pre.blocks@[mark@[t] as int].number
                                        > pre.meta_finalized);
                                }
                                if wu.contains(pre.blocks@[j].hash@) {
                                    let t = choose|t: int|
                                        0 <= t < wu.len() && wu[t] == pre.blocks@[j].hash@;
                                    assert(pre.blocks@[unmark@[t] as int].hash@ == wu[t]);
                                    assert(unmark@[t] == j);
                                    assert(pre.blocks@[unmark@[t] as int].number
                                        > pre.meta_finalized);
                                }
                            }
                        },
                        WalkOutcome::WalkBroken => {
                            assert(false);
                        },
                        WalkOutcome::WalkBelowFinalized => {
                            assert(false);
                        },
                    }
                }
                Ok(())
            },
            None => {
                proof {
                    self.lemma_block_at(pre.blocks@.len() as int);
                    let bi = pre.spec_block_idx(pre.meta_best@);
                    pre.lemma_block_at(bi);
                    assert(self.blocks@[bi] == pre.blocks@[bi]);
                    self.lemma_block_at(bi);
                    assert(self.spec_block(self.meta_best@).is_best_chain);
                }
                Ok(())
            },
        }
    }
}

/// The tip of the preferred chain is itself marked best-chain: the block
/// that `best_block_hash` names is stored and carries the flag, in every
/// well-formed store. (Whether every ancestor of the tip carries the flag
/// depends on the parent links and heights of the stored headers, which
/// the store accepts unchecked from its caller.)
pub proof fn lemma_best_block_flagged(db: ChainDb)
    requires
        db.wf(),
    ensures
        db.spec_has_block(db.meta_best@),
        db.spec_block(db.meta_best@).is_best_chain,
{
}

/// The hash that `first_hash_at_number` returns names a stored block at
/// that height.
pub proof fn lemma_first_hash_is_block(s: Seq<BlockRow>, n: u64)
    requires
        (first_hash_at_number(s, n) is Some),
    ensures
        exists|i: int|
            0 <= i < s.len() && (#[trigger] s[i]).hash@ == first_hash_at_number(s, n).unwrap()
                && s[i].number == n,
    decreases s.len(),
{
    if s.len() > 0 {
        if s[0].number == n {
        } else {
            lemma_first_hash_is_block(s.skip(1), n);
            let i = choose|i: int|
                0 <= i < s.skip(1).len() && (#[trigger] s.skip(1)[i]).hash@
                    == first_hash_at_number(s.skip(1), n).unwrap() && s.skip(1)[i].number == n;
            assert(s[i + 1] == s.skip(1)[i]);
        }
    }
}

/// A block row at height `n` always shows up in the listing of hashes at
/// that height.
proof fn lemma_hashes_at_contains(s: Seq<BlockRow>, n: u64, i: int)
    requires
        0 <= i < s.len(),
        s[i].number == n,
    ensures
        hashes_at_number(s, n).contains(s[i].hash@),
    decreases s.len(),
{
    if i == 0 {
        assert(hashes_at_number(s, n)[0] == s[0].hash@);
    } else {
        lemma_hashes_at_contains(s.skip(1), n, i - 1);
        let w = choose|w: int|
            0 <= w < hashes_at_number(s.skip(1), n).len() && hashes_at_number(s.skip(1), n)[w]
                == s.skip(1)[i - 1].hash@;
        if s[0].number == n {
            assert(hashes_at_number(s, n)[w + 1] == s[i].hash@);
        } else {
            assert(hashes_at_number(s, n)[w] == s[i].hash@);
        }
    }
}

/// Round trip of block insertion: a store that `insert` has just extended
/// with a block hands the block's header, body and height listing back
/// unchanged, through the contracts of `block_scale_encoded_header`,
/// `block_extrinsics` and `block_hash_by_number`.
pub proof fn lemma_insert_round_trip(
    pre: ChainDb,
    post: ChainDb,
    desc: BlockDesc,
    body: Vec<Vec<u8>>,
)
    requires
        post.wf(),
        post.blocks@.len() == pre.blocks@.len() + 1,
        same_blocks_except_flags(pre.blocks@, post.blocks@.take(pre.blocks@.len() as int)),
        post.spec_has_block(desc.hash@),
        post.spec_block(desc.hash@).scale_encoded_header == desc.scale_encoded_header,
        post.spec_block(desc.hash@).body == body,
        post.spec_block(desc.hash@).number == desc.number,
    ensures
        post.spec_block(desc.hash@).scale_encoded_header@ == desc.scale_encoded_header@,
        post.spec_block(desc.hash@).body@ == body@,
        hashes_at_number(post.blocks@, desc.number).contains(desc.hash@),
{
    let i = post.spec_block_idx(desc.hash@);
    assert(0 <= i < post.blocks@.len() && post.blocks@[i].hash@ == desc.hash@);
    lemma_hashes_at_contains(post.blocks@, desc.number, i);
    assert(post.blocks@[i].hash@ == desc.hash@);
}

} // verus!
