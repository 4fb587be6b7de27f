use record_store::directory::{extract_bearer, LoginError, UserDirectory};

#[test]
fn register_returns_sequential_ids_and_the_email() {
    let mut d = UserDirectory::new();
    let a = d.register(b"a@x.com".to_vec(), &b"secret1".to_vec()).unwrap();
    assert_eq!(a.id, 1);
    assert_eq!(a.email, b"a@x.com".to_vec());
    let b = d.register(b"b@x.com".to_vec(), &b"secret2".to_vec()).unwrap();
    assert_eq!(b.id, 2);
}

#[test]
fn login_returns_the_registration_token() {
    let mut d = UserDirectory::new();
    d.register(b"a@x.com".to_vec(), &b"secret1".to_vec()).unwrap();
    let t = d.login(&b"a@x.com".to_vec(), &b"secret1".to_vec()).unwrap();
    assert!(d.validate(&t));
    // logging in again yields the same, never-rotated token
    let t2 = d.login(&b"a@x.com".to_vec(), &b"secret1".to_vec()).unwrap();
    assert_eq!(t, t2);
}

#[test]
fn login_with_wrong_password_is_unauthorized() {
    let mut d = UserDirectory::new();
    d.register(b"a@x.com".to_vec(), &b"secret1".to_vec()).unwrap();
    let r = d.login(&b"a@x.com".to_vec(), &b"wrong".to_vec());
    assert_eq!(r.unwrap_err(), LoginError::Unauthorized);
}

#[test]
fn login_with_unknown_email_is_not_found() {
    let mut d = UserDirectory::new();
    d.register(b"a@x.com".to_vec(), &b"secret1".to_vec()).unwrap();
    let r = d.login(&b"nobody@x.com".to_vec(), &b"secret1".to_vec());
    assert_eq!(r.unwrap_err(), LoginError::NotFound);
}

#[test]
fn duplicate_email_registers_and_first_match_wins_at_login() {
    let mut d = UserDirectory::new();
    let first = d.register(b"a@x.com".to_vec(), &b"one".to_vec()).unwrap();
    let second = d.register(b"a@x.com".to_vec(), &b"two".to_vec()).unwrap();
    assert_eq!((first.id, second.id), (1, 2));
    // the first identity's password opens the account; its token comes back
    let t = d.login(&b"a@x.com".to_vec(), &b"one".to_vec()).unwrap();
    assert!(d.validate(&t));
    // the second identity's password does not match the first identity
    let r = d.login(&b"a@x.com".to_vec(), &b"two".to_vec());
    assert_eq!(r.unwrap_err(), LoginError::Unauthorized);
}

#[test]
fn validate_accepts_only_issued_tokens() {
    let mut d = UserDirectory::new();
    d.register(b"a@x.com".to_vec(), &b"secret1".to_vec()).unwrap();
    let t = d.login(&b"a@x.com".to_vec(), &b"secret1".to_vec()).unwrap();
    assert!(d.validate(&t));
    assert!(!d.validate(&Vec::new()));
    assert!(!d.validate(&b"token1".to_vec()));
    // a proper substring of a real token is not a token
    let mut shorter = t.clone();
    shorter.pop();
    assert!(!d.validate(&shorter));
    assert!(!d.validate(&t[1..].to_vec()));
    // neither is a one-byte corruption
    let mut twiddled = t.clone();
    twiddled[47] ^= 1;
    assert!(!d.validate(&twiddled));
}

#[test]
fn tokens_are_48_hex_bytes_with_the_identity_prefix() {
    let mut d = UserDirectory::new();
    d.register(b"a@x.com".to_vec(), &b"s1".to_vec()).unwrap();
    d.register(b"b@x.com".to_vec(), &b"s2".to_vec()).unwrap();
    let t1 = d.login(&b"a@x.com".to_vec(), &b"s1".to_vec()).unwrap();
    let t2 = d.login(&b"b@x.com".to_vec(), &b"s2".to_vec()).unwrap();
    assert_eq!(t1.len(), 48);
    assert_eq!(t2.len(), 48);
    assert_eq!(&t1[0..16], b"0000000000000001");
    assert_eq!(&t2[0..16], b"0000000000000002");
    assert_ne!(t1, t2);
    assert!(t1.iter().all(|c| c.is_ascii_hexdigit()));
}

#[test]
fn fresh_entropy_makes_even_same_identity_numbers_unpredictable() {
    // two directories both issue identity 1; the random suffixes differ
    let mut d1 = UserDirectory::new();
    let mut d2 = UserDirectory::new();
    d1.register(b"a@x.com".to_vec(), &b"s".to_vec()).unwrap();
    d2.register(b"a@x.com".to_vec(), &b"s".to_vec()).unwrap();
    let t1 = d1.login(&b"a@x.com".to_vec(), &b"s".to_vec()).unwrap();
    let t2 = d2.login(&b"a@x.com".to_vec(), &b"s".to_vec()).unwrap();
    assert_ne!(t1, t2);
}

#[test]
fn bearer_extraction_takes_what_follows_the_marker() {
    assert_eq!(extract_bearer(&b"Bearer abc".to_vec()), Some(b"abc".to_vec()));
    assert_eq!(extract_bearer(&b"Bearer ".to_vec()), Some(Vec::new()));
    assert_eq!(extract_bearer(&b"bearer abc".to_vec()), None);
    assert_eq!(extract_bearer(&b"Bear".to_vec()), None);
    assert_eq!(extract_bearer(&b"Token abc".to_vec()), None);
    assert_eq!(extract_bearer(&Vec::new()), None);
}
