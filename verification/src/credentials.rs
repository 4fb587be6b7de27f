//! The opaque one-way credential verifier.
//!
//! Hashing and verification are delegated to a well-reviewed password
//! primitive; the library treats it as a pluggable capability with two
//! operations — derive a hash from a secret, check a secret against a
//! stored hash — and a hard error when the primitive cannot do its work.

use vstd::prelude::*;

verus! {

/// Failure of the credential primitive: it could not derive a hash from
/// the secret, or could not read a stored hash.
#[derive(Clone, Copy, PartialEq, Eq, Structural, Debug)]
pub struct CredentialFailure;

/// The verifier's verdict on a secret and a stored hash: `Some(true)`
/// for a match, `Some(false)` for a mismatch, `None` when the stored
/// hash is not one the verifier can read. The verdict is a function of
/// the two arguments alone: verification re-derives the digest from the
/// parameters embedded in the hash string, with no other input.
pub uninterp spec fn credential_verdict(plain: Seq<u8>, hashed: Seq<char>) -> Option<bool>;

/// Relies on bcrypt::hash: the returned string embeds the cost and a
/// fresh random salt together with the digest, and bcrypt::verify
/// re-derives the digest from exactly those, so a returned hash always
/// verifies against the secret it was derived from.
#[verifier::external_body]
pub(crate) fn hash_secret(plain: &Vec<u8>) -> (r: Result<String, CredentialFailure>)
    ensures
        match r {
            Ok(h) => credential_verdict(plain@, h@) == Some(true),
            Err(_) => true,
        },
{
    match bcrypt::hash(plain.as_slice(), bcrypt::DEFAULT_COST) {
        Ok(h) => Ok(h),
        Err(_) => Err(CredentialFailure),
    }
}

/// Relies on bcrypt::verify: deterministic in the secret and the hash —
/// it parses the cost and salt out of the hash string, re-derives the
/// digest and compares — and an error exactly when the hash string is
/// malformed, which is likewise determined by the hash alone.
#[verifier::external_body]
pub(crate) fn verify_secret(plain: &Vec<u8>, hashed: &String) -> (r: Result<
    bool,
    CredentialFailure,
>)
    ensures
        match r {
            Ok(b) => credential_verdict(plain@, hashed@) == Some(b),
            Err(_) => credential_verdict(plain@, hashed@) is None,
        },
{
    match bcrypt::verify(plain.as_slice(), hashed.as_str()) {
        Ok(b) => Ok(b),
        Err(_) => Err(CredentialFailure),
    }
}

} // verus!
