//! The whole service flow at the library level: registration, login,
//! token-gated mutation, lookup, and durability, exactly as the HTTP
//! layer drives it.

use record_store::directory::UserDirectory;
use record_store::store::ItemStore;

#[test]
fn full_service_scenario() {
    let mut directory = UserDirectory::new();
    let mut store = ItemStore::new();

    // register a@x.com / secret1 -> {id: 1, email: "a@x.com"}
    let summary = directory.register(b"a@x.com".to_vec(), &b"secret1".to_vec()).unwrap();
    assert_eq!(summary.id, 1);
    assert_eq!(summary.email, b"a@x.com".to_vec());

    // login a@x.com / secret1 -> a token
    let token = directory.login(&b"a@x.com".to_vec(), &b"secret1".to_vec()).unwrap();

    // login a@x.com / wrong -> unauthorized
    assert!(directory.login(&b"a@x.com".to_vec(), &b"wrong".to_vec()).is_err());

    // create {name: "pen", price: 1.5} with the bearer token -> {id: 1, ...}
    assert!(directory.validate(&token));
    let created = store.create(b"pen".to_vec(), 1.5f64.to_bits());
    assert_eq!(created.id, 1);
    assert_eq!(created.name, b"pen".to_vec());
    assert_eq!(f64::from_bits(created.price_bits), 1.5);
    let snapshot = store.snapshot_bytes();
    assert!(ItemStore::from_snapshot(&snapshot).is_some());

    // create again -> {id: 2, ...}
    let second = store.create(b"ink".to_vec(), 4.0f64.to_bits());
    assert_eq!(second.id, 2);

    // a request without a valid token is refused before any mutation
    assert!(!directory.validate(&b"forged".to_vec()));

    // GET /items/2 -> the second record
    let got = store.get(2).unwrap();
    assert_eq!(got.id, 2);
    assert_eq!(got.name, b"ink".to_vec());

    // GET /items/99 -> not found
    assert!(store.get(99).is_none());
}
