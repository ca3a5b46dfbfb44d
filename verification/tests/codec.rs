//! The `.lgb` binary format.

use logigator_sim::board::{BoardBuilder, BoardDescriptor};
use logigator_sim::codec::{decode_board, encode_board};
use logigator_sim::error::SimError;
use logigator_sim::types::CompType;

fn sample() -> BoardDescriptor {
    let mut b = BoardBuilder::new(8);
    b.component(CompType::UserInput, &[], &[0, 1], &[]); // no inputs, 2 outputs
    b.component(CompType::And, &[0, 1], &[2], &[]);
    b.component(CompType::Clk, &[3], &[4], &[7]); // carries an op
    b.component(CompType::Not, &[4], &[5], &[]);
    b.finish()
}

#[test]
fn round_trips() {
    let desc = sample();
    let bytes = encode_board(&desc);
    assert_eq!(decode_board(&bytes).unwrap(), desc);
}

#[test]
fn header_is_well_formed() {
    let bytes = encode_board(&sample());
    // Pin the literal on-disk bytes (not `LGB_MAGIC.to_le_bytes()`, which would be tautological):
    // the little-endian magic begins `31 42 47 4C`, then version 1 as a u16.
    assert_eq!(&bytes[0..4], &[0x31, 0x42, 0x47, 0x4C]);
    assert_eq!(&bytes[4..6], &[0x01, 0x00]);
    // u32 link_count at offset 8, u32 component_count at offset 12.
    assert_eq!(
        u32::from_le_bytes([bytes[8], bytes[9], bytes[10], bytes[11]]),
        8
    );
    assert_eq!(
        u32::from_le_bytes([bytes[12], bytes[13], bytes[14], bytes[15]]),
        4
    );
}

#[test]
fn rejects_bad_magic() {
    let mut bytes = encode_board(&sample());
    bytes[0] ^= 0xFF;
    assert!(matches!(decode_board(&bytes), Err(SimError::BadBinary(_))));
}

#[test]
fn rejects_truncation() {
    let bytes = encode_board(&sample());
    // Drop the last 3 bytes of the final component's op array.
    assert!(matches!(
        decode_board(&bytes[..bytes.len() - 3]),
        Err(SimError::BadBinary(_))
    ));
    // A header cut short errors too (no panic).
    assert!(matches!(
        decode_board(&bytes[..10]),
        Err(SimError::BadBinary(_))
    ));
    assert!(matches!(decode_board(&[]), Err(SimError::BadBinary(_))));
}

#[test]
fn rejects_unknown_type() {
    let mut bytes = encode_board(&sample());
    // The first component's type id lives right after the 16-byte header; stamp an unassigned id.
    bytes[16..18].copy_from_slice(&7u16.to_le_bytes());
    assert!(matches!(
        decode_board(&bytes),
        Err(SimError::UnknownComponentType(7))
    ));
}

#[test]
fn every_cut_is_reported_as_one() {
    let bytes = encode_board(&sample());
    for n in 0..bytes.len() {
        match decode_board(&bytes[..n]) {
            Err(SimError::BadBinary(why)) => assert!(why.starts_with("truncated: need "), "{why}"),
            other => panic!("cut at {n}: {other:?}"),
        }
    }
}

#[test]
fn rewriting_gives_the_bytes_back() {
    let bytes = encode_board(&sample());
    assert_eq!(encode_board(&decode_board(&bytes).unwrap()), bytes);

    // Reserved fields, another id of a user input, and a tail do not matter.
    let mut other = bytes.clone();
    other[6] = 9;
    other[18] = 7;
    other[16..18].copy_from_slice(&203u16.to_le_bytes());
    other.extend_from_slice(&[1, 2, 3]);
    assert_eq!(decode_board(&other).unwrap(), sample());
    assert_eq!(encode_board(&decode_board(&other).unwrap()), bytes);
}
