//! Tests of the pure pieces: big-endian id encoding, the counter update
//! function, and the value deduplication rule.

use statekey_migration::codec::{decode_u64, encode_u64};
use statekey_migration::counter::increment;
use statekey_migration::rewrite::{build_migrated_key, dedup};

#[test]
fn encode_is_big_endian() {
    assert_eq!(encode_u64(1), vec![0, 0, 0, 0, 0, 0, 0, 1]);
    assert_eq!(encode_u64(0x0102030405060708), vec![1, 2, 3, 4, 5, 6, 7, 8]);
    assert_eq!(encode_u64(u64::MAX), vec![0xFF; 8]);
}

#[test]
fn decode_inverts_encode() {
    for x in [0u64, 1, 255, 256, 0xDEAD_BEEF, u64::MAX - 1] {
        assert_eq!(decode_u64(&encode_u64(x)), x);
    }
    assert_eq!(decode_u64(&[0, 0, 0, 0, 0, 0, 1, 0]), 256);
}

#[test]
fn increment_starts_at_one() {
    assert_eq!(increment(None), Some(vec![0, 0, 0, 0, 0, 0, 0, 1]));
}

#[test]
fn increment_advances_a_stored_scalar() {
    let five = encode_u64(5);
    assert_eq!(increment(Some(&five)), Some(encode_u64(6)));
}

#[test]
fn increment_hands_a_malformed_scalar_back_unchanged() {
    let bad = vec![1, 2, 3];
    assert_eq!(increment(Some(&bad)), Some(bad));
}

#[test]
fn dedup_drops_the_first_part_of_a_two_part_value() {
    // Lengths 3 and 5: 3 + 5 + 1 = 9, not 8, so only the second part stays.
    let v = vec![0x00, 0x00, 0x00, 0xFF, 0x01, 0x02, 0x03, 0x04, 0x05];
    assert_eq!(dedup(&v), vec![0x01, 0x02, 0x03, 0x04, 0x05]);
}

#[test]
fn dedup_keeps_a_value_without_a_sentinel() {
    let v = vec![0x01, 0x02, 0x03];
    assert_eq!(dedup(&v), v);
    let empty: Vec<u8> = Vec::new();
    assert_eq!(dedup(&empty), empty);
}

#[test]
fn dedup_keeps_a_two_part_value_summing_to_eight() {
    // Lengths 3 and 4: 3 + 4 + 1 = 8, so the value is left untouched.
    let v = vec![0x09, 0x08, 0x07, 0xFF, 0x01, 0x02, 0x03, 0x04];
    assert_eq!(dedup(&v), v);
}

#[test]
fn dedup_splits_on_the_first_sentinel_only() {
    // 1 + 4 + 1 = 6, not 8: the second part keeps its own sentinel.
    let v = vec![0x01, 0xFF, 0x02, 0xFF, 0x03, 0x04];
    assert_eq!(dedup(&v), vec![0x02, 0xFF, 0x03, 0x04]);
}

#[test]
fn migrated_key_is_prefix_sentinel_id() {
    let mut key = vec![0x11; 32];
    key.extend_from_slice(&[0x05, 0xAA, 0xBB]);
    let built = build_migrated_key(&key, 1);
    let mut expected = vec![0x11; 32];
    expected.push(0xFF);
    expected.extend_from_slice(&[0, 0, 0, 0, 0, 0, 0, 1]);
    assert_eq!(built, expected);
    assert_eq!(built.len(), 41);
}
