use bifrost::keys::{MetadataKey, MetadataKind, RecordKey};
use bifrost::record::{
    decode_record_value, encode_record_value, DecodeError, KeyFilter, Keys, Record,
};

#[test]
fn test_record_key() {
    let key = RecordKey::new(1, 2);
    let bytes = key.to_bytes();
    let key2 = RecordKey::from_slice(&bytes);
    assert_eq!(key, key2);
}

#[test]
fn test_metadata_key() {
    let key = MetadataKey::new(1, MetadataKind::LogState);
    assert_eq!(key.log_id, 1);
    assert_eq!(key.kind, MetadataKind::LogState);
    let bytes = key.to_bytes();
    let key2 = MetadataKey::from_slice(&bytes);
    assert_eq!(key, key2);
    assert_eq!(key2.log_id, 1);
    assert_eq!(key2.kind, MetadataKind::LogState);
}

#[test]
fn record_key_layout_is_bit_exact() {
    let key = RecordKey::new(0x0102030405060708, 9);
    let bytes = key.to_bytes();
    assert_eq!(
        bytes,
        vec![b'd', 1, 2, 3, 4, 5, 6, 7, 8, 0, 0, 0, 0, 0, 0, 0, 9]
    );
}

#[test]
fn metadata_key_unknown_kind_decodes_to_sentinel() {
    let mut bytes = MetadataKey::new(7, MetadataKind::LogState).to_bytes();
    bytes[9] = 200;
    let key = MetadataKey::from_slice(&bytes);
    assert_eq!(key.kind, MetadataKind::Unknown);
    assert_eq!(key.log_id, 7);
}

#[test]
fn record_value_layout_is_bit_exact() {
    let encoded = encode_record_value(&b"abc".to_vec(), false);
    assert_eq!(
        encoded,
        vec![1, 0, 0, 0, 0, 3, 97, 98, 99, 123, 214, 171, 31]
    );
}

#[test]
fn record_value_round_trips() {
    let payload = b"hello, log".to_vec();
    let encoded = encode_record_value(&payload, true);
    let decoded = decode_record_value(&encoded).unwrap();
    assert_eq!(decoded.payload, payload);
    assert!(decoded.compressed);
}

#[test]
fn record_value_too_short_is_rejected() {
    assert_eq!(decode_record_value(&[1, 0, 0, 0]), Err(DecodeError::TooShort));
}

#[test]
fn record_value_unknown_version_is_rejected() {
    let mut encoded = encode_record_value(&b"x".to_vec(), false);
    encoded[0] = 9;
    assert_eq!(decode_record_value(&encoded), Err(DecodeError::UnsupportedVersion));
}

#[test]
fn record_value_length_mismatch_is_rejected() {
    let mut encoded = encode_record_value(&b"xy".to_vec(), false);
    encoded[5] = 7;
    assert_eq!(decode_record_value(&encoded), Err(DecodeError::LengthMismatch));
}

#[test]
fn record_value_corruption_fails_the_checksum() {
    let mut encoded = encode_record_value(&b"payload".to_vec(), false);
    encoded[6] ^= 0xFF;
    assert_eq!(decode_record_value(&encoded), Err(DecodeError::ChecksumMismatch));
}

#[test]
fn key_filters_match_as_documented() {
    let rec = Record::new(b"p".to_vec(), Keys::Single(10), 0);
    assert!(rec.matches_key_query(KeyFilter::Any));
    assert!(rec.matches_key_query(KeyFilter::Include(10)));
    assert!(!rec.matches_key_query(KeyFilter::Include(11)));
    assert!(rec.matches_key_query(KeyFilter::Within(5, 15)));
    assert!(!rec.matches_key_query(KeyFilter::Within(11, 15)));

    let ranged = Record::new(b"p".to_vec(), Keys::RangeInclusive(20, 30), 0);
    assert!(ranged.matches_key_query(KeyFilter::Include(25)));
    assert!(!ranged.matches_key_query(KeyFilter::Include(31)));
    assert!(ranged.matches_key_query(KeyFilter::Within(30, 40)));
    assert!(!ranged.matches_key_query(KeyFilter::Within(31, 40)));

    let bare = Record::new(b"p".to_vec(), Keys::Empty, 0);
    assert!(bare.matches_key_query(KeyFilter::Any));
    assert!(!bare.matches_key_query(KeyFilter::Include(1)));
}
