//! Finalization rolling the consensus metadata forward: BABE epochs are
//! promoted and re-derived from the digest, GRANDPA scheduled changes
//! replace the triggered set, and the snapshot reads back.

use chain_db::babe_codec::decode_babe_epoch_information;
use chain_db::blocks::BlockDesc;
use chain_db::chain_info::{ChainInformation, ChainInformationConsensus, ChainInformationFinality};
use chain_db::consensus::{
    BabeAllowedSlots, BabeAuthority, BabeEpochDigest, BabeEpochInformation, DigestInfo,
    GrandpaAuthority, GrandpaScheduledChangeDigest,
};
use chain_db::tables::ChainDb;

fn h(b: u8) -> Vec<u8> {
    vec![b; 32]
}

fn epoch_zero() -> BabeEpochInformation {
    BabeEpochInformation {
        epoch_index: 0,
        start_slot_number: None,
        authorities: vec![BabeAuthority { public_key: vec![0x31; 32], weight: 1 }],
        randomness: vec![0x01; 32],
        c_num: 1,
        c_den: 2,
        allowed_slots: BabeAllowedSlots::PrimarySlots,
    }
}

fn babe_grandpa_db() -> ChainDb {
    let mut db = ChainDb::empty();
    let ci = ChainInformation {
        finalized_block: BlockDesc {
            hash: h(0x00),
            parent_hash: h(0xff),
            number: 0,
            state_trie_root: h(0xa0),
            scale_encoded_header: vec![0],
            digest: DigestInfo::empty(),
        },
        consensus: ChainInformationConsensus::Babe {
            slots_per_epoch: 100,
            finalized_next_epoch_transition: epoch_zero(),
            finalized_block_epoch_information: None,
        },
        finality: ChainInformationFinality::Grandpa {
            after_finalized_block_authorities_set_id: 5,
            finalized_triggered_authorities: vec![GrandpaAuthority {
                public_key: vec![0x41; 32],
                weight: 1,
            }],
            finalized_scheduled_change: None,
        },
    };
    db.reset(ci, Vec::new(), None).unwrap();
    db
}

#[test]
fn finalizing_a_babe_epoch_block_advances_the_epochs() {
    let mut db = babe_grandpa_db();
    let digest = DigestInfo {
        babe_epoch_information: Some(BabeEpochDigest {
            authorities: vec![BabeAuthority { public_key: vec![0x32; 32], weight: 7 }],
            randomness: vec![0x02; 32],
            next_config: None,
        }),
        babe_pre_runtime_slot: Some(1000),
        grandpa_scheduled_changes: Vec::new(),
    };
    let b1 = BlockDesc {
        hash: h(0x01),
        parent_hash: h(0x00),
        number: 1,
        state_trie_root: h(0xa1),
        scale_encoded_header: vec![1],
        digest,
    };
    db.insert(b1, true, Vec::new()).unwrap();
    db.set_finalized(&h(0x01)).unwrap();

    // the former "next" epoch becomes the finalized epoch
    let ep = decode_babe_epoch_information(db.babe_finalized_epoch.as_ref().unwrap()).unwrap();
    assert_eq!(ep.epoch_index, 0);
    assert_eq!(ep.start_slot_number, None);

    // and its successor is derived from the digest: the index steps, the
    // start slot comes from the pre-runtime slot plus the epoch length
    let next =
        decode_babe_epoch_information(db.babe_finalized_next_epoch.as_ref().unwrap()).unwrap();
    assert_eq!(next.epoch_index, 1);
    assert_eq!(next.start_slot_number, Some(1100));
    assert_eq!(next.authorities.len(), 1);
    assert_eq!(next.authorities[0].public_key, vec![0x32; 32]);
    assert_eq!(next.authorities[0].weight, 7);
    assert_eq!(next.randomness, vec![0x02; 32]);
    // the configuration is carried over when the digest has none
    assert_eq!(next.c_num, 1);
    assert_eq!(next.c_den, 2);
    assert_eq!(next.allowed_slots, BabeAllowedSlots::PrimarySlots);
}

#[test]
fn finalizing_a_scheduled_change_replaces_the_grandpa_set() {
    let mut db = babe_grandpa_db();
    let digest = DigestInfo {
        babe_epoch_information: None,
        babe_pre_runtime_slot: Some(77),
        grandpa_scheduled_changes: vec![GrandpaScheduledChangeDigest {
            delay: 0,
            next_authorities: vec![GrandpaAuthority { public_key: vec![0x42; 32], weight: 9 }],
        }],
    };
    let b1 = BlockDesc {
        hash: h(0x01),
        parent_hash: h(0x00),
        number: 1,
        state_trie_root: h(0xa1),
        scale_encoded_header: vec![1],
        digest,
    };
    db.insert(b1, true, Vec::new()).unwrap();
    db.set_finalized(&h(0x01)).unwrap();

    assert_eq!(db.grandpa_authorities_set_id, Some(6));
    assert_eq!(db.grandpa_triggered_authorities.len(), 1);
    assert_eq!(db.grandpa_triggered_authorities[0].public_key, vec![0x42; 32]);
    assert_eq!(db.grandpa_triggered_authorities[0].weight, 9);
}

#[test]
fn snapshot_reads_back_as_chain_information() {
    let db = babe_grandpa_db();
    let ci = db.to_chain_information(&h(0x00)).unwrap();
    assert_eq!(ci.finalized_block.hash, h(0x00));
    assert_eq!(ci.finalized_block.number, 0);
    match ci.consensus {
        ChainInformationConsensus::Babe {
            slots_per_epoch,
            finalized_next_epoch_transition,
            finalized_block_epoch_information,
        } => {
            assert_eq!(slots_per_epoch, 100);
            assert_eq!(finalized_next_epoch_transition.epoch_index, 0);
            assert!(finalized_block_epoch_information.is_none());
        }
        _ => panic!("expected a BABE snapshot"),
    }
    match ci.finality {
        ChainInformationFinality::Grandpa {
            after_finalized_block_authorities_set_id,
            finalized_triggered_authorities,
            finalized_scheduled_change,
        } => {
            assert_eq!(after_finalized_block_authorities_set_id, 5);
            assert_eq!(finalized_triggered_authorities.len(), 1);
            assert!(finalized_scheduled_change.is_none());
        }
        _ => panic!("expected GRANDPA finality"),
    }
}

#[test]
fn snapshot_with_wrong_hash_is_refused() {
    let db = babe_grandpa_db();
    assert!(db.to_chain_information(&h(0x77)).is_err());
}
