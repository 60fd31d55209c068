use actionkv::codec::{decode_next, encode, DecodeNext};
use actionkv::store::{ActionKV, StoreError};

fn open_empty() -> ActionKV {
    ActionKV::open(Vec::new())
}

#[test]
fn round_trip_basic() {
    let record = encode(b"key", b"value");
    assert_eq!(record.len(), 12 + 3 + 5);
    match decode_next(&record, 0) {
        DecodeNext::Record { kv, next } => {
            assert_eq!(kv.key, b"key".to_vec());
            assert_eq!(kv.value, b"value".to_vec());
            assert_eq!(next, record.len());
        }
        _ => panic!("expected a record"),
    }
}

#[test]
fn round_trip_empty_value() {
    let record = encode(b"a-key", b"");
    match decode_next(&record, 0) {
        DecodeNext::Record { kv, next } => {
            assert_eq!(kv.key, b"a-key".to_vec());
            assert_eq!(kv.value, Vec::<u8>::new());
            assert_eq!(next, record.len());
        }
        _ => panic!("expected a record"),
    }
}

#[test]
fn round_trip_empty_key_and_arbitrary_bytes() {
    let value: Vec<u8> = (0u8..=255).collect();
    let record = encode(b"", &value);
    match decode_next(&record, 0) {
        DecodeNext::Record { kv, .. } => {
            assert_eq!(kv.key, Vec::<u8>::new());
            assert_eq!(kv.value, value);
        }
        _ => panic!("expected a record"),
    }
}

#[test]
fn checksum_matches_known_crc32c_value() {
    // The Castagnoli check value: CRC32-C of "123456789" is 0xE3069283.
    let record = encode(b"1234", b"56789");
    assert_eq!(&record[0..4], &0xE3069283u32.to_le_bytes());
    assert_eq!(&record[4..8], &4u32.to_le_bytes());
    assert_eq!(&record[8..12], &5u32.to_le_bytes());
    assert_eq!(&record[12..16], b"1234");
    assert_eq!(&record[16..21], b"56789");
}

#[test]
fn flipping_any_payload_bit_is_reported_as_corruption() {
    let record = encode(b"stable", b"payload");
    for byte in 12..record.len() {
        for bit in 0..8 {
            let mut tampered = record.clone();
            tampered[byte] ^= 1 << bit;
            match decode_next(&tampered, 0) {
                DecodeNext::Corruption { stored, computed } => {
                    assert_ne!(stored, computed);
                }
                _ => panic!("bit {} of byte {} went undetected", bit, byte),
            }
        }
    }
}

#[test]
fn flipping_any_stored_checksum_bit_is_reported_as_corruption() {
    let record = encode(b"stable", b"payload");
    for byte in 0..4 {
        for bit in 0..8 {
            let mut tampered = record.clone();
            tampered[byte] ^= 1 << bit;
            match decode_next(&tampered, 0) {
                DecodeNext::Corruption { stored, computed } => {
                    assert_ne!(stored, computed);
                }
                _ => panic!("bit {} of checksum byte {} went undetected", bit, byte),
            }
        }
    }
}

#[test]
fn last_write_wins() {
    let mut store = open_empty();
    store.insert(b"K", b"A");
    store.insert(b"K", b"B");
    store.load().expect("clean log");
    assert_eq!(store.get(b"K").unwrap(), Some(b"B".to_vec()));
    let second_offset = (12 + 1 + 1) as u64;
    let found = store.find(b"K").expect("clean log");
    assert_eq!(found, Some((second_offset, b"B".to_vec())));
    assert_eq!(store.index.get(b"K"), Some(second_offset));
}

#[test]
fn tombstone_is_found_with_empty_value() {
    // A delete appends an empty-value record and leaves the key indexed:
    // current semantics report the key as present with an empty value, not
    // as absent.
    let mut store = open_empty();
    store.insert(b"k", b"v");
    store.delete(b"k");
    store.load().expect("clean log");
    assert_eq!(store.get(b"k").unwrap(), Some(Vec::new()));
}

#[test]
fn persistence_across_reopen() {
    let mut store = open_empty();
    let keys: Vec<Vec<u8>> = (0u8..50).map(|i| vec![b'k', i]).collect();
    for (i, key) in keys.iter().enumerate() {
        store.insert(key, &[i as u8, 0xAB]);
    }
    let bytes = store.log_bytes().clone();
    drop(store);

    let mut reopened = ActionKV::open(bytes);
    reopened.load().expect("clean log");
    for (i, key) in keys.iter().enumerate() {
        assert_eq!(reopened.get(key).unwrap(), Some(vec![i as u8, 0xAB]));
    }
}

#[test]
fn empty_log_bootstrap() {
    let mut store = open_empty();
    assert_eq!(store.seek_to_end(), 0);
    store.load().expect("an empty log is clean");
    assert_eq!(store.get(b"anything").unwrap(), None);
    assert_eq!(store.find(b"anything").unwrap(), None);
}

#[test]
fn scan_and_index_agree_for_every_key() {
    let mut store = open_empty();
    let keys: Vec<Vec<u8>> = (0u8..20).map(|i| vec![i]).collect();
    for key in &keys {
        store.insert(key, b"first");
    }
    for key in keys.iter().step_by(2) {
        store.insert(key, b"second");
    }
    store.load().expect("clean log");
    for key in &keys {
        let via_get = store.get(key).unwrap();
        let via_find = store.find(key).unwrap();
        let (offset, value) = via_find.expect("every key was inserted");
        assert_eq!(via_get, Some(value));
        assert_eq!(store.index.get(key), Some(offset));
    }
}

#[test]
fn load_is_idempotent() {
    let mut store = open_empty();
    store.insert(b"a", b"1");
    store.insert(b"b", b"2");
    store.load().expect("clean log");
    let first_a = store.index.get(b"a");
    let first_b = store.index.get(b"b");
    store.load().expect("clean log");
    assert_eq!(store.index.get(b"a"), first_a);
    assert_eq!(store.index.get(b"b"), first_b);
    assert_eq!(store.get(b"a").unwrap(), Some(b"1".to_vec()));
    assert_eq!(store.get(b"b").unwrap(), Some(b"2".to_vec()));
}

#[test]
fn corrupt_record_aborts_load_with_both_checksums() {
    let mut bytes = encode(b"one", b"fine");
    let mut second = encode(b"two", b"bad");
    second[14] ^= 0x40; // a payload byte of the second record
    let second_start = bytes.len();
    bytes.append(&mut second);
    let mut store = ActionKV::open(bytes);
    match store.load() {
        Err(StoreError::Corruption { stored, computed }) => assert_ne!(stored, computed),
        other => panic!("expected corruption, got {:?}", other),
    }
    // The record before the corruption was already indexed.
    assert_eq!(store.index.get(b"one"), Some(0));
    assert_eq!(store.index.get(b"two"), None);
    // find aborts on the same corruption.
    assert!(matches!(
        store.find(b"one"),
        Err(StoreError::Corruption { .. })
    ));
    let _ = second_start;
}

#[test]
fn torn_tail_ends_scan_cleanly() {
    let mut bytes = encode(b"whole", b"record");
    let torn = encode(b"torn", b"record");
    bytes.extend_from_slice(&torn[..torn.len() - 3]);
    let mut store = ActionKV::open(bytes);
    store.load().expect("a torn tail is not an error");
    assert_eq!(store.get(b"whole").unwrap(), Some(b"record".to_vec()));
    assert_eq!(store.get(b"torn").unwrap(), None);
}

#[test]
fn get_at_reports_truncation() {
    let record = encode(b"k", b"v");
    let mut store = ActionKV::open(record[..record.len() - 1].to_vec());
    assert!(matches!(store.get_at(0), Err(StoreError::Truncated)));
    let mut whole = ActionKV::open(record);
    let kv = whole.get_at(0).unwrap();
    assert_eq!(kv.key, b"k".to_vec());
    assert_eq!(kv.value, b"v".to_vec());
}

#[test]
fn insert_but_ignore_index_leaves_index_alone() {
    let mut store = open_empty();
    let offset = store.insert_but_ignore_index(b"k", b"v");
    assert_eq!(offset, 0);
    assert_eq!(store.index.get(b"k"), None);
    assert_eq!(store.seek_to_end(), 12 + 2);
    store.load().expect("clean log");
    assert_eq!(store.get(b"k").unwrap(), Some(b"v".to_vec()));
}

#[test]
fn insert_indexes_without_a_load() {
    // insert itself points the index at the new record, so a get works
    // before any load.
    let mut store = open_empty();
    store.insert(b"fresh", b"value");
    assert_eq!(store.get(b"fresh").unwrap(), Some(b"value".to_vec()));
}

#[test]
fn update_shadows_like_insert() {
    let mut store = open_empty();
    store.insert(b"key", b"old");
    store.update(b"key", b"new");
    store.load().expect("clean log");
    assert_eq!(store.get(b"key").unwrap(), Some(b"new".to_vec()));
}
