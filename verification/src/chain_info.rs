//! Installing a chain snapshot and reading one back: `reset` writes a
//! single finalized block together with the consensus metadata, and
//! `to_chain_information` re-assembles that metadata from the store.

use vstd::prelude::*;

use crate::babe_codec::{
    decode_babe_epoch_information, encode_babe_epoch_information, epoch_info_view,
    spec_decode_babe_epoch, spec_encode_babe_epoch,
};
use crate::blocks::{first_hash_at_number, BlockDesc};
use crate::bytes::bytes_to_vec;
use crate::consensus::{
    clone_grandpa_list, expect_nz_u64, AuraAuthority, BabeEpochInformation, GrandpaAuthority,
};
use crate::errors::{CorruptedError, StorageAccessError};
use crate::finality::grandpa_list_view;
use crate::tables::{BlockRow, ChainDb};

verus! {

/// How the chain decides finality.
pub enum ChainInformationFinality {
    /// Finality is decided outside the node.
    Outsourced,
    /// GRANDPA finality.
    Grandpa {
        after_finalized_block_authorities_set_id: u64,
        finalized_triggered_authorities: Vec<GrandpaAuthority>,
        /// Height and authority list of a scheduled change, if one is
        /// pending.
        finalized_scheduled_change: Option<(u64, Vec<GrandpaAuthority>)>,
    },
}

impl ChainInformationFinality {
    pub open spec fn wf(self) -> bool {
        match self {
            ChainInformationFinality::Outsourced => true,
            ChainInformationFinality::Grandpa {
                finalized_triggered_authorities: t,
                finalized_scheduled_change: s,
                ..
            } => {
                &&& forall|i: int| 0 <= i < t@.len() ==> (#[trigger] t@[i]).wf()
                &&& match s {
                    Some(c) => forall|i: int| 0 <= i < c.1@.len() ==> (#[trigger] c.1@[i]).wf(),
                    None => true,
                }
            },
        }
    }
}

/// Which consensus engine produced the chain.
pub enum ChainInformationConsensus {
    /// Not known to this store.
    Unknown,
    /// Aura, with its authority list and slot duration.
    Aura { finalized_authorities_list: Vec<AuraAuthority>, slot_duration: u64 },
    /// BABE, with its epoch information.
    Babe {
        slots_per_epoch: u64,
        finalized_next_epoch_transition: BabeEpochInformation,
        finalized_block_epoch_information: Option<BabeEpochInformation>,
    },
}

impl ChainInformationConsensus {
    pub open spec fn wf(self) -> bool {
        match self {
            ChainInformationConsensus::Unknown => true,
            ChainInformationConsensus::Aura { finalized_authorities_list: a, slot_duration: d } => {
                &&& forall|i: int| 0 <= i < a@.len() ==> (#[trigger] a@[i]).wf()
                &&& d != 0
            },
            ChainInformationConsensus::Babe {
                slots_per_epoch: spe,
                finalized_next_epoch_transition: n,
                finalized_block_epoch_information: e,
            } => {
                &&& spe != 0
                &&& n.wf()
                &&& match e {
                    Some(x) => x.wf(),
                    None => true,
                }
            },
        }
    }
}

/// A validated snapshot of the chain at its finalized block.
pub struct ChainInformation {
    /// The finalized block. For a block at height zero the parent hash
    /// carries no meaning.
    pub finalized_block: BlockDesc,
    pub consensus: ChainInformationConsensus,
    pub finality: ChainInformationFinality,
}

impl ChainInformation {
    pub open spec fn wf(self) -> bool {
        self.finalized_block.wf() && self.consensus.wf() && self.finality.wf()
    }
}

/// The stored finality metadata is self-contradictory: no authority set
/// id, yet GRANDPA state.
pub open spec fn finality_meta_mixed(db: ChainDb) -> bool {
    db.grandpa_authorities_set_id is None && (db.grandpa_triggered_authorities@.len() != 0
        || db.grandpa_scheduled_target is Some)
}

/// The stored consensus metadata mixes engines, or a BABE store lacks its
/// next epoch.
pub open spec fn consensus_meta_mixed(db: ChainDb) -> bool {
    match (db.aura_slot_duration, db.babe_slots_per_epoch) {
        (Some(_), Some(_)) => true,
        (None, Some(_)) => db.babe_finalized_next_epoch is None,
        (Some(_), None) => db.babe_finalized_next_epoch is Some,
        (None, None) => db.babe_finalized_next_epoch is Some,
    }
}

impl ChainDb {
    /// Installs `chain_information`'s finalized block as both best and
    /// finalized, with the given body and justification, and rewrites all
    /// consensus metadata from it. An existing block row with the same
    /// hash is replaced; other blocks and the trie tables stay.
    pub fn reset(
        &mut self,
        chain_information: ChainInformation,
        finalized_block_body: Vec<Vec<u8>>,
        finalized_block_justification: Option<Vec<u8>>,
    ) -> (r: Result<(), CorruptedError>)
        requires
            old(self).tables_wf(),
            chain_information.wf(),
        ensures
            final(self).wf(),
            r is Ok,
            final(self).spec_has_block(chain_information.finalized_block.hash@),
            ({
                let row = final(self).spec_block(chain_information.finalized_block.hash@);
                let d = chain_information.finalized_block;
                &&& row.hash@ == d.hash@
                &&& row.number == d.number
                &&& (d.number != 0 ==> row.parent_hash is Some
                    && row.parent_hash.unwrap()@ == d.parent_hash@)
                &&& (d.number == 0 ==> row.parent_hash is None)
                &&& row.state_trie_root == Some(d.state_trie_root)
                &&& row.scale_encoded_header == d.scale_encoded_header
                &&& row.is_best_chain
                &&& row.justification == finalized_block_justification
                &&& row.body == finalized_block_body
                &&& row.digest == d.digest
            }),
            final(self).meta_best@ == chain_information.finalized_block.hash@,
            final(self).meta_finalized == chain_information.finalized_block.number,
            old(self).spec_has_block(chain_information.finalized_block.hash@)
                ==> final(self).blocks@.len() == old(self).blocks@.len(),
            !old(self).spec_has_block(chain_information.finalized_block.hash@)
                ==> final(self).blocks@.len() == old(self).blocks@.len() + 1,
            forall|j: int|
                0 <= j < old(self).blocks@.len() && (#[trigger] old(self).blocks@[j]).hash@
                    != chain_information.finalized_block.hash@
                    ==> final(self).blocks@[j] == old(self).blocks@[j],
            final(self).trie_nodes == old(self).trie_nodes,
            final(self).trie_children == old(self).trie_children,
            final(self).trie_storage == old(self).trie_storage,
            (match chain_information.finality {
                ChainInformationFinality::Outsourced => {
                    &&& final(self).grandpa_authorities_set_id is None
                    &&& final(self).grandpa_scheduled_target is None
                    &&& final(self).grandpa_triggered_authorities@.len() == 0
                    &&& final(self).grandpa_scheduled_authorities@.len() == 0
                },
                ChainInformationFinality::Grandpa {
                    after_finalized_block_authorities_set_id: sid,
                    finalized_triggered_authorities: trig,
                    finalized_scheduled_change: sched,
                } => {
                    &&& final(self).grandpa_authorities_set_id == Some(sid)
                    &&& grandpa_list_view(final(self).grandpa_triggered_authorities@)
                        == grandpa_list_view(trig@)
                    &&& match sched {
                        Some(c) => final(self).grandpa_scheduled_target == Some(c.0)
                            && grandpa_list_view(final(self).grandpa_scheduled_authorities@)
                            == grandpa_list_view(c.1@),
                        None => final(self).grandpa_scheduled_target is None
                            && final(self).grandpa_scheduled_authorities@.len() == 0,
                    }
                },
            }),
            (match chain_information.consensus {
                ChainInformationConsensus::Unknown => {
                    &&& final(self).aura_slot_duration is None
                    &&& final(self).aura_finalized_authorities@.len() == 0
                    &&& final(self).babe_slots_per_epoch is None
                    &&& final(self).babe_finalized_epoch is None
                    &&& final(self).babe_finalized_next_epoch is None
                },
                ChainInformationConsensus::Aura {
                    finalized_authorities_list: a,
                    slot_duration: d,
                } => {
                    &&& final(self).aura_slot_duration == Some(d)
                    &&& final(self).aura_finalized_authorities@.len() == a@.len()
                    &&& (forall|i: int|
                        0 <= i < a@.len() ==> (
                        #[trigger] final(self).aura_finalized_authorities@[i]).public_key@ == a@[
                            i
                        ].public_key@)
                    &&& final(self).babe_slots_per_epoch is None
                    &&& final(self).babe_finalized_epoch is None
                    &&& final(self).babe_finalized_next_epoch is None
                },
                ChainInformationConsensus::Babe {
                    slots_per_epoch: spe,
                    finalized_next_epoch_transition: n,
                    finalized_block_epoch_information: e,
                } => {
                    &&& final(self).aura_slot_duration is None
                    &&& final(self).aura_finalized_authorities@.len() == 0
                    &&& final(self).babe_slots_per_epoch == Some(spe)
                    &&& final(self).babe_finalized_next_epoch is Some
                    &&& final(self).babe_finalized_next_epoch.unwrap()@
                        == spec_encode_babe_epoch(epoch_info_view(n))
                    &&& match e {
                        Some(x) => final(self).babe_finalized_epoch is Some
                            && final(self).babe_finalized_epoch.unwrap()@
                            == spec_encode_babe_epoch(epoch_info_view(x)),
                        None => final(self).babe_finalized_epoch is None,
                    }
                },
            }),
    {
        let ChainInformation { finalized_block: d, consensus, finality } = chain_information;
        let hash_copy = bytes_to_vec(d.hash.as_slice());
        let number = d.number;
        let parent: Option<Vec<u8>> = if d.number != 0 {
            Some(d.parent_hash)
        } else {
            None
        };
        let row = BlockRow {
            hash: d.hash,
            parent_hash: parent,
            number,
            state_trie_root: Some(d.state_trie_root),
            scale_encoded_header: d.scale_encoded_header,
            is_best_chain: true,
            justification: finalized_block_justification,
            body: finalized_block_body,
            digest: d.digest,
        };
        let ghost pre = *self;
        let idx: usize = match self.find_block(hash_copy.as_slice()) {
            Some(i) => {
                self.blocks[i] = row;
                proof {
                    assert forall|a: int, b: int|
                        #![trigger self.blocks@[a], self.blocks@[b]]
                        0 <= a < self.blocks@.len() && 0 <= b < self.blocks@.len() && a
                            != b implies self.blocks@[a].hash@ != self.blocks@[b].hash@ by {
                        assert(pre.blocks@[a].hash@ != pre.blocks@[b].hash@);
                        if a != i && b != i {
                        } else if a == i {
                            assert(self.blocks@[b] == pre.blocks@[b]);
                            assert(pre.blocks@[i as int].hash@ == hash_copy@);
                        } else {
                            assert(self.blocks@[a] == pre.blocks@[a]);
                            assert(pre.blocks@[i as int].hash@ == hash_copy@);
                        }
                    }
                }
                i
            },
            None => {
                let i = self.blocks.len();
                self.blocks.push(row);
                proof {
                    assert forall|a: int, b: int|
                        #![trigger self.blocks@[a], self.blocks@[b]]
                        0 <= a < self.blocks@.len() && 0 <= b < self.blocks@.len() && a
                            != b implies self.blocks@[a].hash@ != self.blocks@[b].hash@ by {
                        if a < pre.blocks@.len() && b < pre.blocks@.len() {
                            assert(pre.blocks@[a].hash@ != pre.blocks@[b].hash@);
                        } else if a == pre.blocks@.len() {
                            assert(pre.blocks@[b].hash@ != hash_copy@);
                        } else {
                            assert(pre.blocks@[a].hash@ != hash_copy@);
                        }
                    }
                }
                i
            },
        };
        proof {
            self.lemma_block_at(idx as int);
        }
        self.meta_best = hash_copy;
        self.meta_finalized = number;

        // finality metadata
        match &finality {
            ChainInformationFinality::Outsourced => {
                self.grandpa_authorities_set_id = None;
                self.grandpa_scheduled_target = None;
                self.grandpa_triggered_authorities = Vec::new();
                self.grandpa_scheduled_authorities = Vec::new();
            },
            ChainInformationFinality::Grandpa {
                after_finalized_block_authorities_set_id,
                finalized_triggered_authorities,
                finalized_scheduled_change,
            } => {
                self.grandpa_authorities_set_id = Some(*after_finalized_block_authorities_set_id);
                let trig = clone_grandpa_list(finalized_triggered_authorities);
                proof {
                    assert(grandpa_list_view(trig@) =~= grandpa_list_view(
                        finalized_triggered_authorities@,
                    ));
                }
                self.grandpa_triggered_authorities = trig;
                match finalized_scheduled_change {
                    Some(c) => {
                        self.grandpa_scheduled_target = Some(c.0);
                        let sched = clone_grandpa_list(&c.1);
                        proof {
                            assert(grandpa_list_view(sched@) =~= grandpa_list_view(c.1@));
                        }
                        self.grandpa_scheduled_authorities = sched;
                    },
                    None => {
                        self.grandpa_scheduled_target = None;
                        self.grandpa_scheduled_authorities = Vec::new();
                    },
                }
            },
        }

        // consensus metadata
        match &consensus {
            ChainInformationConsensus::Unknown => {
                self.aura_slot_duration = None;
                self.aura_finalized_authorities = Vec::new();
                self.babe_slots_per_epoch = None;
                self.babe_finalized_epoch = None;
                self.babe_finalized_next_epoch = None;
            },
            ChainInformationConsensus::Aura { finalized_authorities_list, slot_duration } => {
                self.aura_slot_duration = Some(*slot_duration);
                let mut auths: Vec<AuraAuthority> = Vec::new();
                let mut i: usize = 0;
                while i < finalized_authorities_list.len()
                    invariant
                        i <= finalized_authorities_list@.len(),
                        auths@.len() == i,
                        forall|j: int|
                            0 <= j < i ==> (#[trigger] auths@[j]).public_key@
                                == finalized_authorities_list@[j].public_key@,
                        forall|j: int|
                            0 <= j < finalized_authorities_list@.len() ==> (
                            #[trigger] finalized_authorities_list@[j]).wf(),
                    decreases finalized_authorities_list@.len() - i,
                {
                    auths.push(
                        AuraAuthority {
                            public_key: bytes_to_vec(
                                finalized_authorities_list[i].public_key.as_slice(),
                            ),
                        },
                    );
                    i += 1;
                }
                self.aura_finalized_authorities = auths;
                self.babe_slots_per_epoch = None;
                self.babe_finalized_epoch = None;
                self.babe_finalized_next_epoch = None;
            },
            ChainInformationConsensus::Babe {
                slots_per_epoch,
                finalized_next_epoch_transition,
                finalized_block_epoch_information,
            } => {
                self.aura_slot_duration = None;
                self.aura_finalized_authorities = Vec::new();
                self.babe_slots_per_epoch = Some(*slots_per_epoch);
                self.babe_finalized_next_epoch = Some(
                    encode_babe_epoch_information(finalized_next_epoch_transition),
                );
                match finalized_block_epoch_information {
                    Some(x) => {
                        self.babe_finalized_epoch = Some(encode_babe_epoch_information(x));
                    },
                    None => {
                        self.babe_finalized_epoch = None;
                    },
                }
            },
        }
        Ok(())
    }

    /// Reads the finalized snapshot back: the finalized block, the
    /// consensus metadata and the finality metadata, as one value.
    ///
    /// To guard against a concurrent finalization, the caller passes the
    /// finalized block hash it expects; a mismatch reports incomplete
    /// storage.
    pub fn to_chain_information(&self, finalized_block_hash: &[u8]) -> (r: Result<
        ChainInformation,
        StorageAccessError,
    >)
        requires
            self.wf(),
        ensures
            ({
                let fh = first_hash_at_number(self.blocks@, self.meta_finalized);
                match r {
                    Ok(ci) => {
                        &&& fh == Some(finalized_block_hash@)
                        &&& self.spec_has_block(finalized_block_hash@)
                        &&& ci.finalized_block.hash@ == finalized_block_hash@
                        &&& ci.finalized_block.number == self.spec_block(
                            finalized_block_hash@,
                        ).number
                        &&& ci.finalized_block.scale_encoded_header@ == self.spec_block(
                            finalized_block_hash@,
                        ).scale_encoded_header@
                        &&& match ci.finality {
                            ChainInformationFinality::Outsourced => self.grandpa_authorities_set_id
                                is None && self.grandpa_triggered_authorities@.len() == 0
                                && self.grandpa_scheduled_target is None,
                            ChainInformationFinality::Grandpa {
                                after_finalized_block_authorities_set_id: sid,
                                finalized_triggered_authorities: trig,
                                finalized_scheduled_change: sched,
                            } => self.grandpa_authorities_set_id == Some(sid)
                                && grandpa_list_view(trig@) == grandpa_list_view(
                                self.grandpa_triggered_authorities@,
                            ) && (match sched {
                                Some(c) => self.grandpa_scheduled_target == Some(c.0)
                                    && grandpa_list_view(c.1@) == grandpa_list_view(
                                    self.grandpa_scheduled_authorities@,
                                ),
                                None => self.grandpa_scheduled_target is None,
                            }),
                        }
                        &&& match ci.consensus {
                            ChainInformationConsensus::Unknown => self.aura_slot_duration is None
                                && self.babe_slots_per_epoch is None
                                && self.babe_finalized_next_epoch is None,
                            ChainInformationConsensus::Aura {
                                finalized_authorities_list: a,
                                slot_duration: d,
                            } => self.aura_slot_duration == Some(d) && self.babe_slots_per_epoch
                                is None && self.babe_finalized_next_epoch is None && a@.len()
                                == self.aura_finalized_authorities@.len() && (forall|i: int|
                                0 <= i < a@.len() ==> (#[trigger] a@[i]).public_key@
                                    == self.aura_finalized_authorities@[i].public_key@),
                            ChainInformationConsensus::Babe {
                                slots_per_epoch: spe,
                                finalized_next_epoch_transition: n,
                                finalized_block_epoch_information: e,
                            } => self.babe_slots_per_epoch == Some(spe)
                                && self.aura_slot_duration is None
                                && self.babe_finalized_next_epoch is Some
                                && spec_decode_babe_epoch(
                                self.babe_finalized_next_epoch.unwrap()@,
                            ) == Some(epoch_info_view(n)) && (match e {
                                Some(x) => self.babe_finalized_epoch is Some
                                    && spec_decode_babe_epoch(self.babe_finalized_epoch.unwrap()@)
                                    == Some(epoch_info_view(x)),
                                None => self.babe_finalized_epoch is None,
                            }),
                        }
                    },
                    Err(StorageAccessError::IncompleteStorage) => fh != Some(
                        finalized_block_hash@,
                    ) || fh is None || (self.spec_has_block(finalized_block_hash@)
                        && self.spec_block(finalized_block_hash@).state_trie_root is None),
                    Err(StorageAccessError::Corrupted(e)) => (e
                        == CorruptedError::InvalidFinalizedNum && fh is None) || (fh == Some(
                        finalized_block_hash@,
                    ) && ((e == CorruptedError::ConsensusAlgorithmMix && (finality_meta_mixed(
                        *self,
                    ) || consensus_meta_mixed(*self))) || (e == CorruptedError::InvalidNumber && (
                    self.aura_slot_duration == Some(0u64) || self.babe_slots_per_epoch == Some(
                        0u64,
                    ))) || (e == CorruptedError::InvalidBabeEpochInformation && ((
                    self.babe_finalized_next_epoch is Some && spec_decode_babe_epoch(
                        self.babe_finalized_next_epoch.unwrap()@,
                    ) is None) || (self.babe_finalized_epoch is Some && spec_decode_babe_epoch(
                        self.babe_finalized_epoch.unwrap()@,
                    ) is None))))),
                    Err(StorageAccessError::UnknownBlock) => false,
                }
            }),
    {
        let fh = match self.finalized_block_hash() {
            Ok(h) => h,
            Err(e) => {
                return Err(StorageAccessError::Corrupted(e));
            },
        };
        if !crate::bytes::bytes_eq(fh.as_slice(), finalized_block_hash) {
            return Err(StorageAccessError::IncompleteStorage);
        }
        let bi = match self.find_block(finalized_block_hash) {
            Some(i) => i,
            None => {
                // the finalized hash always names a stored row
                proof {
                    crate::blocks::lemma_first_hash_is_block(self.blocks@, self.meta_finalized);
                    assert(false);
                }
                return Err(StorageAccessError::Corrupted(CorruptedError::MissingBlockHeader));
            },
        };

        // finality
        let finality: ChainInformationFinality = match self.grandpa_authorities_set_id {
            Some(sid) => {
                let trig = clone_grandpa_list(&self.grandpa_triggered_authorities);
                let sched: Option<(u64, Vec<GrandpaAuthority>)> = match self
                    .grandpa_scheduled_target {
                    Some(t) => Some((t, clone_grandpa_list(&self.grandpa_scheduled_authorities))),
                    None => None,
                };
                proof {
                    assert(grandpa_list_view(trig@) =~= grandpa_list_view(
                        self.grandpa_triggered_authorities@,
                    ));
                }
                ChainInformationFinality::Grandpa {
                    after_finalized_block_authorities_set_id: sid,
                    finalized_triggered_authorities: trig,
                    finalized_scheduled_change: sched,
                }
            },
            None => {
                if self.grandpa_triggered_authorities.len() != 0
                    || self.grandpa_scheduled_target.is_some() {
                    return Err(
                        StorageAccessError::Corrupted(CorruptedError::ConsensusAlgorithmMix),
                    );
                }
                ChainInformationFinality::Outsourced
            },
        };
        proof {
            if self.grandpa_scheduled_target is Some {
                assert(grandpa_list_view(self.grandpa_scheduled_authorities@)
                    =~= grandpa_list_view(self.grandpa_scheduled_authorities@));
            }
        }

        // consensus
        let consensus: ChainInformationConsensus = match (
            self.aura_slot_duration,
            self.babe_slots_per_epoch,
        ) {
            (None, Some(spe_raw)) => {
                let spe = match expect_nz_u64(spe_raw) {
                    Ok(v) => v,
                    Err(e) => {
                        return Err(StorageAccessError::Corrupted(e));
                    },
                };
                let next_blob: Vec<u8> = match &self.babe_finalized_next_epoch {
                    Some(b) => bytes_to_vec(b.as_slice()),
                    None => {
                        return Err(
                            StorageAccessError::Corrupted(CorruptedError::ConsensusAlgorithmMix),
                        );
                    },
                };
                let next = match decode_babe_epoch_information(next_blob.as_slice()) {
                    Ok(x) => x,
                    Err(e) => {
                        return Err(StorageAccessError::Corrupted(e));
                    },
                };
                let epoch: Option<BabeEpochInformation> = match &self.babe_finalized_epoch {
                    Some(b) => {
                        let bc = bytes_to_vec(b.as_slice());
                        match decode_babe_epoch_information(bc.as_slice()) {
                            Ok(x) => Some(x),
                            Err(e) => {
                                return Err(StorageAccessError::Corrupted(e));
                            },
                        }
                    },
                    None => None,
                };
                ChainInformationConsensus::Babe {
                    slots_per_epoch: spe,
                    finalized_next_epoch_transition: next,
                    finalized_block_epoch_information: epoch,
                }
            },
            (Some(sd_raw), None) => {
                if self.babe_finalized_next_epoch.is_some() {
                    return Err(
                        StorageAccessError::Corrupted(CorruptedError::ConsensusAlgorithmMix),
                    );
                }
                let sd = match expect_nz_u64(sd_raw) {
                    Ok(v) => v,
                    Err(e) => {
                        return Err(StorageAccessError::Corrupted(e));
                    },
                };
                let mut auths: Vec<AuraAuthority> = Vec::new();
                let mut i: usize = 0;
                while i < self.aura_finalized_authorities.len()
                    invariant
                        self.wf(),
                        i <= self.aura_finalized_authorities@.len(),
                        auths@.len() == i,
                        forall|j: int|
                            0 <= j < i ==> (#[trigger] auths@[j]).public_key@
                                == self.aura_finalized_authorities@[j].public_key@,
                    decreases self.aura_finalized_authorities@.len() - i,
                {
                    auths.push(
                        AuraAuthority {
                            public_key: bytes_to_vec(
                                self.aura_finalized_authorities[i].public_key.as_slice(),
                            ),
                        },
                    );
                    i += 1;
                }
                ChainInformationConsensus::Aura {
                    finalized_authorities_list: auths,
                    slot_duration: sd,
                }
            },
            (None, None) => {
                if self.babe_finalized_next_epoch.is_some() {
                    return Err(
                        StorageAccessError::Corrupted(CorruptedError::ConsensusAlgorithmMix),
                    );
                }
                ChainInformationConsensus::Unknown
            },
            (Some(_), Some(_)) => {
                return Err(
                    StorageAccessError::Corrupted(CorruptedError::ConsensusAlgorithmMix),
                );
            },
        };

        let row = &self.blocks[bi];
        let parent: Vec<u8> = match &row.parent_hash {
            Some(p) => bytes_to_vec(p.as_slice()),
            None => {
                let mut z: Vec<u8> = Vec::new();
                let mut i: usize = 0;
                while i < 32
                    invariant
                        i <= 32,
                        z@.len() == i,
                    decreases 32 - i,
                {
                    z.push(0u8);
                    i += 1;
                }
                z
            },
        };
        let root: Vec<u8> = match &row.state_trie_root {
            Some(rt) => bytes_to_vec(rt.as_slice()),
            None => {
                return Err(StorageAccessError::IncompleteStorage);
            },
        };
        let desc = BlockDesc {
            hash: bytes_to_vec(row.hash.as_slice()),
            parent_hash: parent,
            number: row.number,
            state_trie_root: root,
            scale_encoded_header: bytes_to_vec(row.scale_encoded_header.as_slice()),
            digest: crate::consensus::DigestInfo::empty(),
        };
        Ok(ChainInformation { finalized_block: desc, consensus, finality })
    }
}

} // verus!
