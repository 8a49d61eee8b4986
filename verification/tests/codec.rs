//! The BABE epoch information codec: round trips and rejected blobs.

use chain_db::babe_codec::{decode_babe_epoch_information, encode_babe_epoch_information};
use chain_db::consensus::{BabeAllowedSlots, BabeAuthority, BabeEpochInformation};
use chain_db::errors::CorruptedError;

fn sample_epoch() -> BabeEpochInformation {
    BabeEpochInformation {
        epoch_index: 7,
        start_slot_number: Some(4200),
        authorities: vec![
            BabeAuthority { public_key: vec![0x11; 32], weight: 1 },
            BabeAuthority { public_key: vec![0x22; 32], weight: 3 },
        ],
        randomness: vec![0x5a; 32],
        c_num: 1,
        c_den: 4,
        allowed_slots: BabeAllowedSlots::PrimaryAndSecondaryVrfSlots,
    }
}

#[test]
fn encode_decode_round_trip() {
    let e = sample_epoch();
    let blob = encode_babe_epoch_information(&e);
    let d = decode_babe_epoch_information(&blob).unwrap();
    assert_eq!(d.epoch_index, 7);
    assert_eq!(d.start_slot_number, Some(4200));
    assert_eq!(d.authorities.len(), 2);
    assert_eq!(d.authorities[0].public_key, vec![0x11; 32]);
    assert_eq!(d.authorities[1].weight, 3);
    assert_eq!(d.randomness, vec![0x5a; 32]);
    assert_eq!(d.c_num, 1);
    assert_eq!(d.c_den, 4);
    assert_eq!(d.allowed_slots, BabeAllowedSlots::PrimaryAndSecondaryVrfSlots);
}

#[test]
fn exact_encoding_of_a_minimal_epoch() {
    let e = BabeEpochInformation {
        epoch_index: 0,
        start_slot_number: None,
        authorities: Vec::new(),
        randomness: vec![0; 32],
        c_num: 1,
        c_den: 1,
        allowed_slots: BabeAllowedSlots::PrimarySlots,
    };
    let blob = encode_babe_epoch_information(&e);
    let mut expect: Vec<u8> = Vec::new();
    expect.extend_from_slice(&[0, 0, 0, 0, 0, 0, 0, 0]); // epoch index
    expect.push(0); // no start slot
    expect.push(0); // zero authorities, compact
    expect.extend_from_slice(&[0; 32]); // randomness
    expect.extend_from_slice(&[1, 0, 0, 0, 0, 0, 0, 0]); // c numerator
    expect.extend_from_slice(&[1, 0, 0, 0, 0, 0, 0, 0]); // c denominator
    expect.push(0); // primary slots only
    assert_eq!(blob, expect);
}

#[test]
fn truncated_blob_is_rejected() {
    let e = sample_epoch();
    let mut blob = encode_babe_epoch_information(&e);
    blob.pop();
    assert!(matches!(
        decode_babe_epoch_information(&blob),
        Err(CorruptedError::InvalidBabeEpochInformation)
    ));
    assert!(matches!(
        decode_babe_epoch_information(&[]),
        Err(CorruptedError::InvalidBabeEpochInformation)
    ));
}

#[test]
fn invalid_slot_fraction_is_rejected() {
    let mut e = sample_epoch();
    e.c_num = 5;
    e.c_den = 4;
    let blob = encode_babe_epoch_information(&e);
    assert!(matches!(
        decode_babe_epoch_information(&blob),
        Err(CorruptedError::InvalidBabeEpochInformation)
    ));
}
