use dm_tools::codec::{decode, encode, CorruptionError, HEADER_LEN};
use dm_tools::entry::Entry;
use dm_tools::history::HistoryStore;

fn sample() -> HistoryStore {
    let mut s = HistoryStore::new(3);
    s.record_use(b"/tmp/a".to_vec(), 10);
    s.record_use(b"/tmp/bb".to_vec(), 20);
    s.record_use(b"/tmp/a".to_vec(), 30);
    s
}

#[test]
fn round_trip_keeps_entries_and_order() {
    let s = sample();
    let d = decode(&encode(&s)).unwrap();
    assert_eq!(d.list(), s.list());
    assert_eq!(d.capacity(), 3);
    assert_eq!(d.clock(), 30);
}

#[test]
fn round_trip_of_empty_store() {
    let s = HistoryStore::new(7);
    let bytes = encode(&s);
    assert_eq!(bytes.len(), HEADER_LEN);
    let d = decode(&bytes).unwrap();
    assert_eq!(d.len(), 0);
    assert_eq!(d.capacity(), 7);
}

#[test]
fn encoding_is_exact_and_deterministic() {
    let mut s = HistoryStore::new(2);
    s.record_use(b"ab".to_vec(), 258);
    let bytes = encode(&s);
    let mut expected: Vec<u8> = vec![0x4d, 0x52, 0x55, 0x48, 1, 0];
    expected.extend_from_slice(&2u64.to_le_bytes());
    expected.extend_from_slice(&258u64.to_le_bytes());
    expected.extend_from_slice(&1u64.to_le_bytes());
    expected.extend_from_slice(&2u64.to_le_bytes());
    expected.extend_from_slice(b"ab");
    expected.extend_from_slice(&258u64.to_le_bytes());
    expected.extend_from_slice(&1u64.to_le_bytes());
    assert_eq!(bytes, expected);
    assert_eq!(encode(&s), bytes);
}

#[test]
fn trailing_bytes_and_newer_minor_are_accepted() {
    let s = sample();
    let mut bytes = encode(&s);
    bytes[5] = 9;
    bytes.extend_from_slice(&[1, 2, 3, 4, 5]);
    let d = decode(&bytes).unwrap();
    assert_eq!(d.list(), s.list());
}

#[test]
fn truncated_bytes_are_rejected() {
    let bytes = encode(&sample());
    assert_eq!(decode(&bytes[..3]).unwrap_err(), CorruptionError::Truncated);
    assert_eq!(decode(&bytes[..20]).unwrap_err(), CorruptionError::Truncated);
    assert_eq!(decode(&bytes[..bytes.len() - 1]).unwrap_err(), CorruptionError::Truncated);
    assert_eq!(decode(&bytes[..HEADER_LEN + 4]).unwrap_err(), CorruptionError::Truncated);
}

#[test]
fn wrong_magic_is_rejected() {
    let mut bytes = encode(&sample());
    bytes[0] = b'X';
    assert_eq!(decode(&bytes).unwrap_err(), CorruptionError::NotAHistory);
}

#[test]
fn unsupported_major_version_is_rejected() {
    let mut bytes = encode(&sample());
    bytes[4] = 2;
    assert_eq!(decode(&bytes).unwrap_err(), CorruptionError::UnsupportedVersion);
}

#[test]
fn duplicate_identities_are_rejected() {
    let mut v = Vec::new();
    v.push(Entry::new(b"a".to_vec(), 5, 1));
    v.push(Entry::new(b"b".to_vec(), 4, 1));
    let s = HistoryStore::from_parts(v, 3, 5);
    let mut bytes = encode(&s);
    let at = bytes.len() - 17;
    assert_eq!(bytes[at], b'b');
    bytes[at] = b'a';
    assert_eq!(decode(&bytes).unwrap_err(), CorruptionError::Malformed);
}

#[test]
fn count_over_capacity_is_rejected() {
    let mut bytes = encode(&sample());
    bytes[6..14].copy_from_slice(&1u64.to_le_bytes());
    assert_eq!(decode(&bytes).unwrap_err(), CorruptionError::Malformed);
}

#[test]
fn stamps_out_of_order_are_rejected() {
    let mut bytes = encode(&sample());
    bytes[14..22].copy_from_slice(&5u64.to_le_bytes());
    assert_eq!(decode(&bytes).unwrap_err(), CorruptionError::Malformed);
}
