use record_store::snapshot::{decode, encode};
use record_store::record::Record;
use record_store::store::ItemStore;

#[test]
fn empty_store_snapshot_is_a_zero_count() {
    let s = ItemStore::new();
    assert_eq!(s.snapshot_bytes(), vec![0u8; 8]);
}

#[test]
fn one_record_snapshot_has_exact_bytes() {
    let records = vec![Record { id: 1, name: b"pen".to_vec(), price_bits: 1.5f64.to_bits() }];
    let bytes = encode(&records);
    let mut expected: Vec<u8> = Vec::new();
    expected.extend_from_slice(&1u64.to_le_bytes()); // record count
    expected.extend_from_slice(&1u64.to_le_bytes()); // identity
    expected.extend_from_slice(&1.5f64.to_bits().to_le_bytes()); // price bits
    expected.extend_from_slice(&3u64.to_le_bytes()); // name length
    expected.extend_from_slice(b"pen");
    assert_eq!(bytes, expected);
}

#[test]
fn snapshot_written_after_mutations_loads_back_identically() {
    let mut s = ItemStore::new();
    s.create(b"pen".to_vec(), 1.5f64.to_bits());
    s.create(b"ink".to_vec(), 4.25f64.to_bits());
    s.bulk_update(
        &vec![2],
        &record_store::record::Patch { name: Some(b"India ink".to_vec()), price_bits: None },
    );
    let bytes = s.snapshot_bytes();
    let loaded = ItemStore::from_snapshot(&bytes).unwrap();
    let before = s.list();
    let after = loaded.list();
    assert_eq!(before.len(), after.len());
    for (x, y) in before.iter().zip(after.iter()) {
        assert_eq!(x.id, y.id);
        assert_eq!(x.name, y.name);
        assert_eq!(x.price_bits, y.price_bits);
    }
}

#[test]
fn decode_inverts_encode_for_empty_and_unusual_names() {
    let records = vec![
        Record { id: 1, name: Vec::new(), price_bits: 0 },
        Record { id: 2, name: vec![0u8, 255u8, 10u8], price_bits: u64::MAX },
    ];
    let decoded = decode(&encode(&records)).unwrap();
    assert_eq!(decoded.len(), 2);
    assert_eq!(decoded[0].name, Vec::<u8>::new());
    assert_eq!(decoded[1].name, vec![0u8, 255u8, 10u8]);
    assert_eq!(decoded[1].price_bits, u64::MAX);
}

#[test]
fn truncated_artifact_is_malformed() {
    let records = vec![Record { id: 1, name: b"pen".to_vec(), price_bits: 7 }];
    let mut bytes = encode(&records);
    bytes.pop();
    assert!(decode(&bytes).is_none());
    assert!(ItemStore::from_snapshot(&bytes).is_none());
}

#[test]
fn trailing_garbage_is_malformed() {
    let records = vec![Record { id: 1, name: b"pen".to_vec(), price_bits: 7 }];
    let mut bytes = encode(&records);
    bytes.push(0);
    assert!(decode(&bytes).is_none());
}

#[test]
fn short_header_is_malformed() {
    assert!(decode(&vec![1, 2, 3]).is_none());
}

#[test]
fn snapshot_of_duplicate_identities_is_rejected_at_load() {
    let records = vec![
        Record { id: 4, name: b"x".to_vec(), price_bits: 0 },
        Record { id: 4, name: b"y".to_vec(), price_bits: 0 },
    ];
    let bytes = encode(&records);
    assert!(decode(&bytes).is_some());
    assert!(ItemStore::from_snapshot(&bytes).is_none());
}
