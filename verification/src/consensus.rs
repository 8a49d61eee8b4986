//! Plain-value models of the consensus data that travels through the
//! engine: authority lists, BABE epoch information and the digest items
//! that the engine reads when a block is finalized.
//!
//! Header decoding, header hashing and consensus validation are outside
//! collaborators: the caller decodes a header and hands the engine these
//! plain values.

use vstd::prelude::*;

use crate::errors::CorruptedError;

verus! {

/// Upper bound of a block number: numbers are unsigned but must fit the
/// signed 64-bit column of the persisted layout.
pub const MAX_BLOCK_NUMBER: u64 = 0x7fff_ffff_ffff_ffff;

/// A GRANDPA authority: a 32-byte public key and a non-zero voting weight.
pub struct GrandpaAuthority {
    pub public_key: Vec<u8>,
    pub weight: u64,
}

impl GrandpaAuthority {
    pub open spec fn wf(self) -> bool {
        self.public_key@.len() == 32 && self.weight != 0
    }
}

/// An Aura authority: a 32-byte public key.
pub struct AuraAuthority {
    pub public_key: Vec<u8>,
}

impl AuraAuthority {
    pub open spec fn wf(self) -> bool {
        self.public_key@.len() == 32
    }
}

/// A BABE authority: a 32-byte public key and a weight (zero is allowed).
pub struct BabeAuthority {
    pub public_key: Vec<u8>,
    pub weight: u64,
}

impl BabeAuthority {
    pub open spec fn wf(self) -> bool {
        self.public_key@.len() == 32
    }
}

/// Which categories of slot claims an epoch accepts.
#[derive(Debug, Clone, Copy, PartialEq, Eq, Structural)]
pub enum BabeAllowedSlots {
    /// Only primary slot claims.
    PrimarySlots,
    /// Primary and secondary plain slot claims.
    PrimaryAndSecondaryPlainSlots,
    /// Primary and secondary VRF slot claims.
    PrimaryAndSecondaryVrfSlots,
}

/// Everything the engine keeps about one BABE epoch.
pub struct BabeEpochInformation {
    pub epoch_index: u64,
    /// Slot at which the epoch starts; `None` only for epoch zero, whose
    /// start is discovered from the first block.
    pub start_slot_number: Option<u64>,
    pub authorities: Vec<BabeAuthority>,
    /// 32-byte randomness seed of the epoch.
    pub randomness: Vec<u8>,
    /// Numerator and denominator of the probability of a primary slot.
    pub c_num: u64,
    pub c_den: u64,
    pub allowed_slots: BabeAllowedSlots,
}

impl BabeEpochInformation {
    /// Structural well-formedness plus the consistency rules that the
    /// consensus validator imposes: the slot-probability fraction is at
    /// most one with a non-zero denominator, and every epoch after the
    /// first knows its start slot.
    pub open spec fn wf(self) -> bool {
        &&& forall|i: int|
            0 <= i < self.authorities@.len() ==> (#[trigger] self.authorities@[i]).wf()
        &&& self.randomness@.len() == 32
        &&& self.c_num <= self.c_den
        &&& self.c_den != 0
        &&& (self.epoch_index != 0 ==> self.start_slot_number.is_some())
    }
}

/// BABE epoch transition announced in a header's digest: the authorities
/// and randomness of the epoch after the next one, with an optional
/// configuration change.
pub struct BabeEpochDigest {
    pub authorities: Vec<BabeAuthority>,
    pub randomness: Vec<u8>,
    /// Present when the digest also carries a `NextConfig` item.
    pub next_config: Option<BabeNextConfigDigest>,
}

impl BabeEpochDigest {
    pub open spec fn wf(self) -> bool {
        &&& forall|i: int|
            0 <= i < self.authorities@.len() ==> (#[trigger] self.authorities@[i]).wf()
        &&& self.randomness@.len() == 32
        &&& match self.next_config {
            Some(c) => c.wf(),
            None => true,
        }
    }
}

/// Configuration part of a BABE epoch transition.
pub struct BabeNextConfigDigest {
    pub c_num: u64,
    pub c_den: u64,
    pub allowed_slots: BabeAllowedSlots,
}

impl BabeNextConfigDigest {
    pub open spec fn wf(self) -> bool {
        self.c_num <= self.c_den && self.c_den != 0
    }
}

/// A GRANDPA scheduled-change digest item: after `delay` blocks, the
/// authority set becomes `next_authorities`.
pub struct GrandpaScheduledChangeDigest {
    pub delay: u32,
    pub next_authorities: Vec<GrandpaAuthority>,
}

impl GrandpaScheduledChangeDigest {
    pub open spec fn wf(self) -> bool {
        forall|i: int|
            0 <= i < self.next_authorities@.len() ==> (
            #[trigger] self.next_authorities@[i]).wf()
    }
}

/// The digest items of one header that the engine reads on finalization,
/// decoded by the caller.
pub struct DigestInfo {
    /// Epoch transition announced by this block, if any.
    pub babe_epoch_information: Option<BabeEpochDigest>,
    /// Slot number claimed by the block's BABE pre-runtime digest, if any.
    pub babe_pre_runtime_slot: Option<u64>,
    /// GRANDPA scheduled changes carried by this block, in digest order.
    pub grandpa_scheduled_changes: Vec<GrandpaScheduledChangeDigest>,
}

impl DigestInfo {
    pub open spec fn wf(self) -> bool {
        &&& match self.babe_epoch_information {
            Some(d) => d.wf(),
            None => true,
        }
        &&& forall|i: int|
            0 <= i < self.grandpa_scheduled_changes@.len() ==> (
            #[trigger] self.grandpa_scheduled_changes@[i]).wf()
    }

    /// An empty digest, for blocks carrying no consensus items.
    pub fn empty() -> (r: DigestInfo)
        ensures
            r.wf(),
            r.babe_epoch_information.is_none(),
            r.babe_pre_runtime_slot.is_none(),
            r.grandpa_scheduled_changes@.len() == 0,
    {
        DigestInfo {
            babe_epoch_information: None,
            babe_pre_runtime_slot: None,
            grandpa_scheduled_changes: Vec::new(),
        }
    }
}

/// Copies a list of GRANDPA authorities.
pub fn clone_grandpa_list(v: &Vec<GrandpaAuthority>) -> (r: Vec<GrandpaAuthority>)
    ensures
        r@.len() == v@.len(),
        forall|i: int|
            0 <= i < v@.len() ==> (#[trigger] r@[i]).public_key@ == v@[i].public_key@
                && r@[i].weight == v@[i].weight,
{
    let mut out: Vec<GrandpaAuthority> = Vec::new();
    let mut i: usize = 0;
    while i < v.len()
        invariant
            i <= v@.len(),
            out@.len() == i,
            forall|j: int|
                0 <= j < i ==> (#[trigger] out@[j]).public_key@ == v@[j].public_key@
                    && out@[j].weight == v@[j].weight,
        decreases v@.len() - i,
    {
        let pk = crate::bytes::bytes_to_vec(v[i].public_key.as_slice());
        out.push(GrandpaAuthority { public_key: pk, weight: v[i].weight });
        i += 1;
    }
    out
}

/// Copies a list of BABE authorities.
pub fn clone_babe_list(v: &Vec<BabeAuthority>) -> (r: Vec<BabeAuthority>)
    ensures
        r@.len() == v@.len(),
        forall|i: int|
            0 <= i < v@.len() ==> (#[trigger] r@[i]).public_key@ == v@[i].public_key@
                && r@[i].weight == v@[i].weight,
{
    let mut out: Vec<BabeAuthority> = Vec::new();
    let mut i: usize = 0;
    while i < v.len()
        invariant
            i <= v@.len(),
            out@.len() == i,
            forall|j: int|
                0 <= j < i ==> (#[trigger] out@[j]).public_key@ == v@[j].public_key@
                    && out@[j].weight == v@[j].weight,
        decreases v@.len() - i,
    {
        let pk = crate::bytes::bytes_to_vec(v[i].public_key.as_slice());
        out.push(BabeAuthority { public_key: pk, weight: v[i].weight });
        i += 1;
    }
    out
}

/// Checks that a stored number that stands for a non-zero quantity is
/// indeed non-zero.
pub fn expect_nz_u64(value: u64) -> (r: Result<u64, CorruptedError>)
    ensures
        value != 0 ==> r == Ok::<u64, CorruptedError>(value),
        value == 0 ==> r == Err::<u64, CorruptedError>(CorruptedError::InvalidNumber),
{
    if value == 0 {
        Err(CorruptedError::InvalidNumber)
    } else {
        Ok(value)
    }
}

} // verus!
