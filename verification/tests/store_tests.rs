use record_store::record::{Patch, Record};
use record_store::store::ItemStore;

fn bits(p: f64) -> u64 {
    p.to_bits()
}

#[test]
fn create_assigns_one_in_empty_store() {
    let mut s = ItemStore::new();
    let r = s.create(b"pen".to_vec(), bits(1.5));
    assert_eq!(r.id, 1);
    assert_eq!(r.name, b"pen".to_vec());
    assert_eq!(r.price_bits, bits(1.5));
}

#[test]
fn create_assigns_max_plus_one() {
    let mut s = ItemStore::new();
    let a = s.create(b"a".to_vec(), bits(1.0));
    let b = s.create(b"b".to_vec(), bits(2.0));
    let c = s.create(b"c".to_vec(), bits(3.0));
    assert_eq!((a.id, b.id, c.id), (1, 2, 3));
}

#[test]
fn create_after_loading_high_ids_continues_above_them() {
    let records = vec![
        Record { id: 5, name: b"x".to_vec(), price_bits: bits(0.5) },
        Record { id: 2, name: b"y".to_vec(), price_bits: bits(0.25) },
    ];
    let mut s = ItemStore::from_records(records).ok().unwrap();
    let r = s.create(b"z".to_vec(), bits(9.0));
    assert_eq!(r.id, 6);
}

#[test]
fn create_ids_stay_unique_across_many_calls() {
    let mut s = ItemStore::new();
    let mut ids = Vec::new();
    for k in 0..20 {
        ids.push(s.create(format!("item{}", k).into_bytes(), bits(k as f64)).id);
    }
    for j in 0..ids.len() {
        for k in 0..j {
            assert_ne!(ids[j], ids[k]);
        }
    }
}

#[test]
fn get_finds_existing_and_rejects_unknown() {
    let mut s = ItemStore::new();
    s.create(b"a".to_vec(), bits(1.0));
    let b = s.create(b"b".to_vec(), bits(2.0));
    let got = s.get(b.id).unwrap();
    assert_eq!(got.id, b.id);
    assert_eq!(got.name, b"b".to_vec());
    assert_eq!(got.price_bits, bits(2.0));
    assert!(s.get(99).is_none());
}

#[test]
fn list_preserves_insertion_order() {
    let mut s = ItemStore::new();
    s.create(b"first".to_vec(), bits(1.0));
    s.create(b"second".to_vec(), bits(2.0));
    let all = s.list();
    assert_eq!(all.len(), 2);
    assert_eq!(all[0].name, b"first".to_vec());
    assert_eq!(all[1].name, b"second".to_vec());
}

#[test]
fn price_only_patch_leaves_names_unchanged() {
    let mut s = ItemStore::new();
    s.create(b"pen".to_vec(), bits(1.5));
    s.create(b"ink".to_vec(), bits(4.0));
    let updated = s.bulk_update(&vec![1, 2], &Patch { name: None, price_bits: Some(bits(7.5)) });
    assert_eq!(updated, vec![1, 2]);
    let all = s.list();
    assert_eq!(all[0].name, b"pen".to_vec());
    assert_eq!(all[1].name, b"ink".to_vec());
    assert_eq!(all[0].price_bits, bits(7.5));
    assert_eq!(all[1].price_bits, bits(7.5));
}

#[test]
fn name_only_patch_leaves_prices_unchanged() {
    let mut s = ItemStore::new();
    s.create(b"pen".to_vec(), bits(1.5));
    let updated = s.bulk_update(&vec![1], &Patch { name: Some(b"quill".to_vec()), price_bits: None });
    assert_eq!(updated, vec![1]);
    let all = s.list();
    assert_eq!(all[0].name, b"quill".to_vec());
    assert_eq!(all[0].price_bits, bits(1.5));
}

#[test]
fn bulk_update_returns_existing_subset_in_input_order() {
    let mut s = ItemStore::new();
    s.create(b"a".to_vec(), bits(1.0));
    s.create(b"b".to_vec(), bits(2.0));
    s.create(b"c".to_vec(), bits(3.0));
    let updated = s.bulk_update(
        &vec![99, 3, 42, 1],
        &Patch { name: None, price_bits: Some(bits(0.0)) },
    );
    assert_eq!(updated, vec![3, 1]);
    // the record whose identity was never requested kept its price
    assert_eq!(s.get(2).unwrap().price_bits, bits(2.0));
    // the unknown identities left no trace
    assert!(s.get(99).is_none());
    assert!(s.get(42).is_none());
    assert_eq!(s.len(), 3);
}

#[test]
fn bulk_update_ignores_ids_and_touches_nothing_when_none_exist() {
    let mut s = ItemStore::new();
    s.create(b"a".to_vec(), bits(1.0));
    let updated = s.bulk_update(&vec![7, 8], &Patch { name: Some(b"x".to_vec()), price_bits: None });
    assert!(updated.is_empty());
    assert_eq!(s.get(1).unwrap().name, b"a".to_vec());
}

#[test]
fn bulk_update_never_changes_identities() {
    let mut s = ItemStore::new();
    s.create(b"a".to_vec(), bits(1.0));
    s.create(b"b".to_vec(), bits(2.0));
    s.bulk_update(&vec![1, 2], &Patch { name: Some(b"n".to_vec()), price_bits: Some(bits(5.0)) });
    let all = s.list();
    assert_eq!(all[0].id, 1);
    assert_eq!(all[1].id, 2);
}

#[test]
fn from_records_rejects_duplicate_identities() {
    let records = vec![
        Record { id: 3, name: b"x".to_vec(), price_bits: 0 },
        Record { id: 3, name: b"y".to_vec(), price_bits: 0 },
    ];
    assert!(ItemStore::from_records(records).is_err());
}

#[test]
fn from_records_rejects_identity_zero() {
    let records = vec![Record { id: 0, name: b"x".to_vec(), price_bits: 0 }];
    assert!(ItemStore::from_records(records).is_err());
}
