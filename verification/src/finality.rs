//! The finality engine: moving the finalized pointer forward and rolling
//! the consensus metadata (BABE epochs, GRANDPA authority sets) along the
//! newly finalized headers.

use vstd::prelude::*;

use crate::babe_codec::{
    authority_view, decode_babe_epoch_information, encode_babe_epoch_information,
    epoch_info_view, spec_decode_babe_epoch, spec_encode_babe_epoch, BabeEpochInfoView,
};
use crate::blocks::first_best_hash_at_number;
use crate::bytes::{bytes_to_vec, clone_opt_bytes};
use crate::consensus::{
    clone_babe_list, clone_grandpa_list, expect_nz_u64, BabeAuthority, BabeEpochInformation,
    GrandpaAuthority, GrandpaScheduledChangeDigest,
};
use crate::errors::{CorruptedError, SetFinalizedError};
use crate::tables::{BlockRow, ChainDb};

verus! {

/// Authority list as plain values: public key bytes and weight.
pub open spec fn grandpa_list_view(s: Seq<GrandpaAuthority>) -> Seq<(Seq<u8>, u64)> {
    s.map_values(|a: GrandpaAuthority| (a.public_key@, a.weight))
}

/// The consensus metadata that finalization rolls forward.
pub ghost struct ConsensusMeta {
    pub babe_epoch: Option<Seq<u8>>,
    pub babe_next: Option<Seq<u8>>,
    pub triggered: Seq<(Seq<u8>, u64)>,
    pub set_id: Option<u64>,
}

pub open spec fn opt_bytes_view(o: Option<Vec<u8>>) -> Option<Seq<u8>> {
    match o {
        Some(v) => Some(v@),
        None => None,
    }
}

impl ChainDb {
    /// The rolled-forward part of the store's metadata.
    pub open spec fn consensus_meta_view(self) -> ConsensusMeta {
        ConsensusMeta {
            babe_epoch: opt_bytes_view(self.babe_finalized_epoch),
            babe_next: opt_bytes_view(self.babe_finalized_next_epoch),
            triggered: grandpa_list_view(self.grandpa_triggered_authorities@),
            set_id: self.grandpa_authorities_set_id,
        }
    }

    /// No best-chain block at a height in `(lo, hi]` schedules a GRANDPA
    /// change with a non-zero delay. Delayed changes are not supported;
    /// finalizing across one is a caller error, so `set_finalized` asks
    /// this only of the blocks it is about to finalize.
    pub open spec fn no_delayed_grandpa_changes_in(self, lo: u64, hi: u64) -> bool {
        forall|i: int, j: int|
            0 <= i < self.blocks@.len() && lo < self.blocks@[i].number <= hi
                && self.blocks@[i].is_best_chain && 0 <= j
                < self.blocks@[i].digest.grandpa_scheduled_changes@.len() ==> (
            #[trigger] self.blocks@[i].digest.grandpa_scheduled_changes@[j]).delay == 0
    }
}

/// Applies the GRANDPA scheduled changes of one header, from index `j` on:
/// each replaces the triggered authority set and bumps the set id.
pub open spec fn spec_apply_grandpa_changes(
    m: ConsensusMeta,
    changes: Seq<GrandpaScheduledChangeDigest>,
    j: int,
) -> Result<ConsensusMeta, CorruptedError>
    decreases changes.len() - j,
{
    if j < 0 || j >= changes.len() {
        Ok(m)
    } else if m.set_id.unwrap() == 0xffff_ffff_ffff_ffffu64 {
        Err(CorruptedError::InvalidNumber)
    } else {
        spec_apply_grandpa_changes(
            ConsensusMeta {
                triggered: grandpa_list_view(changes[j].next_authorities@),
                set_id: Some((m.set_id.unwrap() + 1) as u64),
                ..m
            },
            changes,
            j + 1,
        )
    }
}

/// The metadata change that finalizing the sole canonical block at height
/// `h` causes.
pub open spec fn spec_finalize_step(db: ChainDb, h: u64, m: ConsensusMeta) -> Result<
    ConsensusMeta,
    CorruptedError,
> {
    match first_best_hash_at_number(db.blocks@, h) {
        None => Err(CorruptedError::MissingBlockHeader),
        Some(bh) => {
            let row = db.spec_block(bh);
            let after_babe: Result<ConsensusMeta, CorruptedError> = match row
                .digest
                .babe_epoch_information {
                None => Ok(m),
                Some(ed) => match m.babe_next {
                    None => Err(CorruptedError::MissingMetaKey),
                    Some(blob) => match spec_decode_babe_epoch(blob) {
                        None => Err(CorruptedError::InvalidBabeEpochInformation),
                        Some(dec) => match row.digest.babe_pre_runtime_slot {
                            None => Err(CorruptedError::BlockHeaderCorrupted),
                            Some(slot) => match db.babe_slots_per_epoch {
                                None => Err(CorruptedError::MissingMetaKey),
                                Some(spe) => {
                                    if spe == 0 {
                                        Err(CorruptedError::InvalidNumber)
                                    } else if dec.epoch_index == 0xffff_ffff_ffff_ffffu64 {
                                        Err(CorruptedError::InvalidNumber)
                                    } else {
                                        let base = match dec.start_slot_number {
                                            Some(x) => x,
                                            None => slot,
                                        };
                                        if base + spe > 0xffff_ffff_ffff_ffffu64 {
                                            Err(CorruptedError::InvalidNumber)
                                        } else {
                                            let newv = BabeEpochInfoView {
                                                epoch_index: (dec.epoch_index + 1) as u64,
                                                start_slot_number: Some((base + spe) as u64),
                                                authorities: ed.authorities@.map_values(
                                                    |a: BabeAuthority| authority_view(a),
                                                ),
                                                randomness: ed.randomness@,
                                                c_num: match ed.next_config {
                                                    Some(c) => c.c_num,
                                                    None => dec.c_num,
                                                },
                                                c_den: match ed.next_config {
                                                    Some(c) => c.c_den,
                                                    None => dec.c_den,
                                                },
                                                allowed_slots: match ed.next_config {
                                                    Some(c) => c.allowed_slots,
                                                    None => dec.allowed_slots,
                                                },
                                            };
                                            Ok(
                                                ConsensusMeta {
                                                    babe_epoch: Some(blob),
                                                    babe_next: Some(
                                                        spec_encode_babe_epoch(newv),
                                                    ),
                                                    ..m
                                                },
                                            )
                                        }
                                    }
                                },
                            },
                        },
                    },
                },
            };
            match after_babe {
                Err(e) => Err(e),
                Ok(m1) => {
                    if m1.set_id is Some {
                        spec_apply_grandpa_changes(
                            m1,
                            row.digest.grandpa_scheduled_changes@,
                            0,
                        )
                    } else {
                        Ok(m1)
                    }
                },
            }
        },
    }
}

/// The metadata change of finalizing every height from `h` to `hi`.
pub open spec fn spec_finalize_range(db: ChainDb, h: int, hi: int, m: ConsensusMeta) -> Result<
    ConsensusMeta,
    CorruptedError,
>
    decreases hi + 1 - h,
{
    if h > hi || h < 0 || hi > 0xffff_ffff_ffff_ffff {
        Ok(m)
    } else {
        match spec_finalize_step(db, h as u64, m) {
            Err(e) => Err(e),
            Ok(m2) => spec_finalize_range(db, h + 1, hi, m2),
        }
    }
}

/// The hash that `first_best_hash_at_number` returns names a stored block
/// at that height, flagged best-chain.
proof fn lemma_first_best_is_block(s: Seq<BlockRow>, n: u64)
    requires
        (first_best_hash_at_number(s, n) is Some),
    ensures
        exists|i: int|
            0 <= i < s.len() && (#[trigger] s[i]).hash@ == first_best_hash_at_number(
                s,
                n,
            ).unwrap() && s[i].number == n && s[i].is_best_chain,
    decreases s.len(),
{
    if s.len() > 0 {
        if s[0].number == n && s[0].is_best_chain {
        } else {
            lemma_first_best_is_block(s.skip(1), n);
            let i = choose|i: int|
                0 <= i < s.skip(1).len() && (#[trigger] s.skip(1)[i]).hash@
                    == first_best_hash_at_number(s.skip(1), n).unwrap() && s.skip(1)[i].number
                    == n && s.skip(1)[i].is_best_chain;
            assert(s[i + 1] == s.skip(1)[i]);
        }
    }
}

impl ChainDb {
    /// Moves the finalized pointer to the given block.
    ///
    /// The block must be stored and at or above the current finalized
    /// height; reverting finalization is forbidden. Finalizing the current
    /// height again is a no-op. On success the finalized height becomes
    /// the block's height and the BABE and GRANDPA metadata are advanced
    /// over every newly finalized header; on any failure the store is
    /// unchanged.
    pub fn set_finalized(&mut self, new_finalized_block_hash: &[u8]) -> (r: Result<
        (),
        SetFinalizedError,
    >)
        requires
            old(self).wf(),
            old(self).spec_has_block(new_finalized_block_hash@) ==> old(
                self,
            ).no_delayed_grandpa_changes_in(
                old(self).meta_finalized,
                old(self).spec_block(new_finalized_block_hash@).number,
            ),
        ensures
            final(self).wf(),
            r is Err ==> *final(self) == *old(self),
            !old(self).spec_has_block(new_finalized_block_hash@) ==> r == Err::<
                (),
                SetFinalizedError,
            >(SetFinalizedError::UnknownBlock),
            old(self).spec_has_block(new_finalized_block_hash@) && old(self).spec_block(
                new_finalized_block_hash@,
            ).number < old(self).meta_finalized ==> r == Err::<(), SetFinalizedError>(
                SetFinalizedError::RevertForbidden,
            ),
            old(self).spec_has_block(new_finalized_block_hash@) && old(self).spec_block(
                new_finalized_block_hash@,
            ).number == old(self).meta_finalized ==> r is Ok && *final(self) == *old(self),
            r is Ok ==> final(self).meta_finalized >= old(self).meta_finalized,
            old(self).spec_has_block(new_finalized_block_hash@) && old(self).spec_block(
                new_finalized_block_hash@,
            ).number > old(self).meta_finalized ==> {
                let res = spec_finalize_range(
                    *old(self),
                    old(self).meta_finalized + 1,
                    old(self).spec_block(new_finalized_block_hash@).number as int,
                    old(self).consensus_meta_view(),
                );
                match res {
                    Ok(m) => {
                        &&& r is Ok
                        &&& final(self).meta_finalized == old(self).spec_block(
                            new_finalized_block_hash@,
                        ).number
                        &&& final(self).consensus_meta_view() == m
                        &&& final(self).blocks == old(self).blocks
                        &&& final(self).trie_nodes == old(self).trie_nodes
                        &&& final(self).trie_children == old(self).trie_children
                        &&& final(self).trie_storage == old(self).trie_storage
                        &&& final(self).meta_best == old(self).meta_best
                        &&& final(self).grandpa_scheduled_target == old(
                            self,
                        ).grandpa_scheduled_target
                        &&& final(self).grandpa_scheduled_authorities == old(
                            self,
                        ).grandpa_scheduled_authorities
                        &&& final(self).aura_slot_duration == old(self).aura_slot_duration
                        &&& final(self).aura_finalized_authorities == old(
                            self,
                        ).aura_finalized_authorities
                        &&& final(self).babe_slots_per_epoch == old(self).babe_slots_per_epoch
                    },
                    Err(e) => r == Err::<(), SetFinalizedError>(
                        SetFinalizedError::Corrupted(e),
                    ),
                }
            },
    {
        let new_idx = match self.find_block(new_finalized_block_hash) {
            Some(i) => i,
            None => {
                return Err(SetFinalizedError::UnknownBlock);
            },
        };
        let new_number = self.blocks[new_idx].number;
        let current = self.meta_finalized;
        if new_number == current {
            return Ok(());
        }
        if new_number < current {
            return Err(SetFinalizedError::RevertForbidden);
        }

        // First phase: compute the new consensus metadata without touching
        // the store, so that a corrupted blob leaves everything unchanged.
        let mut cur_epoch: Option<Vec<u8>> = clone_opt_bytes(&self.babe_finalized_epoch);
        let mut cur_next: Option<Vec<u8>> = clone_opt_bytes(&self.babe_finalized_next_epoch);
        let mut cur_trig: Vec<GrandpaAuthority> = clone_grandpa_list(
            &self.grandpa_triggered_authorities,
        );
        let mut cur_sid: Option<u64> = self.grandpa_authorities_set_id;
        let ghost m0 = self.consensus_meta_view();
        proof {
            assert(m0 == (ConsensusMeta {
                babe_epoch: opt_bytes_view(cur_epoch),
                babe_next: opt_bytes_view(cur_next),
                triggered: grandpa_list_view(cur_trig@),
                set_id: cur_sid,
            })) by {
                assert(grandpa_list_view(cur_trig@) =~= grandpa_list_view(
                    self.grandpa_triggered_authorities@,
                ));
            }
        }

        let mut h: u64 = current + 1;
        while h <= new_number
            invariant
                self.wf(),
                *self == *old(self),
                old(self).spec_has_block(new_finalized_block_hash@),
                old(self).spec_block(new_finalized_block_hash@).number == new_number,
                current == old(self).meta_finalized,
                current < new_number <= crate::consensus::MAX_BLOCK_NUMBER,
                current + 1 <= h <= new_number + 1,
                m0 == old(self).consensus_meta_view(),
                forall|k: int| 0 <= k < cur_trig@.len() ==> (#[trigger] cur_trig@[k]).wf(),
                spec_finalize_range(*self, current + 1, new_number as int, m0)
                    == spec_finalize_range(
                    *self,
                    h as int,
                    new_number as int,
                    ConsensusMeta {
                        babe_epoch: opt_bytes_view(cur_epoch),
                        babe_next: opt_bytes_view(cur_next),
                        triggered: grandpa_list_view(cur_trig@),
                        set_id: cur_sid,
                    },
                ),
            decreases new_number + 1 - h,
        {
            let ghost m_in = ConsensusMeta {
                babe_epoch: opt_bytes_view(cur_epoch),
                babe_next: opt_bytes_view(cur_next),
                triggered: grandpa_list_view(cur_trig@),
                set_id: cur_sid,
            };
            let bh = match self.best_block_hash_by_number(h) {
                Ok(Some(x)) => x,
                Ok(None) => {
                    return Err(
                        SetFinalizedError::Corrupted(CorruptedError::MissingBlockHeader),
                    );
                },
                Err(e) => {
                    return Err(SetFinalizedError::Corrupted(e));
                },
            };
            proof {
                lemma_first_best_is_block(self.blocks@, h);
            }
            let idx = match self.find_block(bh.as_slice()) {
                Some(i) => i,
                None => {
                    proof {
                        let wi = choose|i: int|
                            0 <= i < self.blocks@.len() && (#[trigger] self.blocks@[i]).hash@
                                == first_best_hash_at_number(self.blocks@, h).unwrap()
                                && self.blocks@[i].number == h && self.blocks@[i].is_best_chain;
                        assert(self.blocks@[wi].hash@ == bh@);
                        assert(self.spec_has_block(bh@));
                        assert(false);
                    }
                    return Err(
                        SetFinalizedError::Corrupted(CorruptedError::MissingBlockHeader),
                    );
                },
            };
            proof {
                self.lemma_block_at(idx as int);
            }
            let ghost mut m_mid = m_in;

            // BABE: promote the stored next epoch and derive the one after
            // it from the digest.
            match &self.blocks[idx].digest.babe_epoch_information {
                Some(ed) => {
                    let blob_copy: Vec<u8> = match &cur_next {
                        Some(b) => bytes_to_vec(b.as_slice()),
                        None => {
                            return Err(
                                SetFinalizedError::Corrupted(CorruptedError::MissingMetaKey),
                            );
                        },
                    };
                    let dec = match decode_babe_epoch_information(blob_copy.as_slice()) {
                        Ok(d) => d,
                        Err(_) => {
                            return Err(
                                SetFinalizedError::Corrupted(
                                    CorruptedError::InvalidBabeEpochInformation,
                                ),
                            );
                        },
                    };
                    let slot = match self.blocks[idx].digest.babe_pre_runtime_slot {
                        Some(s) => s,
                        None => {
                            return Err(
                                SetFinalizedError::Corrupted(
                                    CorruptedError::BlockHeaderCorrupted,
                                ),
                            );
                        },
                    };
                    let spe_raw = match self.babe_slots_per_epoch {
                        Some(v) => v,
                        None => {
                            return Err(
                                SetFinalizedError::Corrupted(CorruptedError::MissingMetaKey),
                            );
                        },
                    };
                    let spe = match expect_nz_u64(spe_raw) {
                        Ok(v) => v,
                        Err(e) => {
                            return Err(SetFinalizedError::Corrupted(e));
                        },
                    };
                    let new_index = match dec.epoch_index.checked_add(1) {
                        Some(v) => v,
                        None => {
                            return Err(
                                SetFinalizedError::Corrupted(CorruptedError::InvalidNumber),
                            );
                        },
                    };
                    let base = match dec.start_slot_number {
                        Some(x) => x,
                        None => slot,
                    };
                    let new_start = match base.checked_add(spe) {
                        Some(v) => v,
                        None => {
                            return Err(
                                SetFinalizedError::Corrupted(CorruptedError::InvalidNumber),
                            );
                        },
                    };
                    let (c_num, c_den, allowed) = match &ed.next_config {
                        Some(c) => (c.c_num, c.c_den, c.allowed_slots),
                        None => (dec.c_num, dec.c_den, dec.allowed_slots),
                    };
                    let e = BabeEpochInformation {
                        epoch_index: new_index,
                        start_slot_number: Some(new_start),
                        authorities: clone_babe_list(&ed.authorities),
                        randomness: bytes_to_vec(ed.randomness.as_slice()),
                        c_num,
                        c_den,
                        allowed_slots: allowed,
                    };
                    let enc = encode_babe_epoch_information(&e);
                    proof {
                        let edv = self.blocks@[
                            idx as int
                        ].digest.babe_epoch_information.unwrap();
                        let decv = epoch_info_view(dec);
                        let specnew = BabeEpochInfoView {
                            epoch_index: (decv.epoch_index + 1) as u64,
                            start_slot_number: Some((base + spe) as u64),
                            authorities: edv.authorities@.map_values(
                                |a: BabeAuthority| authority_view(a),
                            ),
                            randomness: edv.randomness@,
                            c_num: match edv.next_config {
                                Some(c) => c.c_num,
                                None => decv.c_num,
                            },
                            c_den: match edv.next_config {
                                Some(c) => c.c_den,
                                None => decv.c_den,
                            },
                            allowed_slots: match edv.next_config {
                                Some(c) => c.allowed_slots,
                                None => decv.allowed_slots,
                            },
                        };
                        assert(epoch_info_view(e).authorities =~= specnew.authorities);
                        assert(epoch_info_view(e) == specnew);
                        assert(enc@ == spec_encode_babe_epoch(specnew));
                        m_mid = ConsensusMeta {
                            babe_epoch: Some(blob_copy@),
                            babe_next: Some(enc@),
                            ..m_in
                        };
                    }
                    cur_epoch = Some(blob_copy);
                    cur_next = Some(enc);
                },
                None => {},
            }
            proof {
                assert(spec_finalize_step(*self, h, m_in) == (if cur_sid is Some {
                    spec_apply_grandpa_changes(
                        m_mid,
                        self.blocks@[idx as int].digest.grandpa_scheduled_changes@,
                        0,
                    )
                } else {
                    Ok::<ConsensusMeta, CorruptedError>(m_mid)
                }));
                assert(m_mid == (ConsensusMeta {
                    babe_epoch: opt_bytes_view(cur_epoch),
                    babe_next: opt_bytes_view(cur_next),
                    triggered: grandpa_list_view(cur_trig@),
                    set_id: cur_sid,
                }));
            }

            // GRANDPA: a scheduled change with zero delay replaces the
            // triggered set and bumps the set id.
            if cur_sid.is_some() {
                let nchanges = self.blocks[idx].digest.grandpa_scheduled_changes.len();
                let mut j: usize = 0;
                while j < nchanges
                    invariant
                        self.wf(),
                        *self == *old(self),
                        old(self).spec_has_block(new_finalized_block_hash@),
                        old(self).spec_block(new_finalized_block_hash@).number == new_number,
                        current == old(self).meta_finalized,
                        current < new_number <= crate::consensus::MAX_BLOCK_NUMBER,
                        current + 1 <= h <= new_number,
                        m0 == old(self).consensus_meta_view(),
                        idx < self.blocks@.len(),
                        j <= nchanges,
                        nchanges == self.blocks@[
                            idx as int
                        ].digest.grandpa_scheduled_changes@.len(),
                        (cur_sid is Some),
                        forall|k: int|
                            0 <= k < cur_trig@.len() ==> (#[trigger] cur_trig@[k]).wf(),
                        spec_finalize_range(*self, current + 1, new_number as int, m0)
                            == spec_finalize_range(*self, h as int, new_number as int, m_in),
                        spec_finalize_step(*self, h, m_in) == spec_apply_grandpa_changes(
                            ConsensusMeta {
                                babe_epoch: opt_bytes_view(cur_epoch),
                                babe_next: opt_bytes_view(cur_next),
                                triggered: grandpa_list_view(cur_trig@),
                                set_id: cur_sid,
                            },
                            self.blocks@[idx as int].digest.grandpa_scheduled_changes@,
                            j as int,
                        ),
                    decreases nchanges - j,
                {
                    let sid = match cur_sid {
                        Some(s) => s,
                        None => {
                            proof {
                                assert(false);
                            }
                            0
                        },
                    };
                    let nsid = match sid.checked_add(1) {
                        Some(v) => v,
                        None => {
                            proof {
                                assert(spec_finalize_step(*self, h, m_in) == Err::<
                                    ConsensusMeta,
                                    CorruptedError,
                                >(CorruptedError::InvalidNumber));
                            }
                            return Err(
                                SetFinalizedError::Corrupted(CorruptedError::InvalidNumber),
                            );
                        },
                    };
                    let new_trig = clone_grandpa_list(
                        &self.blocks[idx].digest.grandpa_scheduled_changes[j].next_authorities,
                    );
                    proof {
                        assert(self.blocks@[idx as int].wf());
                        assert(self.blocks@[idx as int].digest.grandpa_scheduled_changes@[
                            j as int
                        ].wf());
                        assert(grandpa_list_view(new_trig@) =~= grandpa_list_view(
                            self.blocks@[idx as int].digest.grandpa_scheduled_changes@[
                                j as int
                            ].next_authorities@,
                        ));
                        assert forall|k: int|
                            0 <= k < new_trig@.len() implies (
                        #[trigger] new_trig@[k]).wf() by {
                            assert(self.blocks@[idx as int].digest.grandpa_scheduled_changes@[
                                j as int
                            ].next_authorities@[k].wf());
                        }
                    }
                    cur_trig = new_trig;
                    cur_sid = Some(nsid);
                    j += 1;
                }
            }
            proof {
                let m_out = ConsensusMeta {
                    babe_epoch: opt_bytes_view(cur_epoch),
                    babe_next: opt_bytes_view(cur_next),
                    triggered: grandpa_list_view(cur_trig@),
                    set_id: cur_sid,
                };
                assert(spec_finalize_step(*self, h, m_in) == Ok::<
                    ConsensusMeta,
                    CorruptedError,
                >(m_out));
            }
            h = h + 1;
        }

        // Second phase: apply.
        self.meta_finalized = new_number;
        self.babe_finalized_epoch = cur_epoch;
        self.babe_finalized_next_epoch = cur_next;
        self.grandpa_triggered_authorities = cur_trig;
        self.grandpa_authorities_set_id = cur_sid;
        proof {
            let bi = old(self).spec_block_idx(old(self).meta_best@);
            old(self).lemma_block_at(bi);
            self.lemma_block_at(bi);
        }
        Ok(())
    }
}

} // verus!
