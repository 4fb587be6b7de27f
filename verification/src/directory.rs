//! The user directory and token issuer: identity registration, login,
//! and validation of the bearer tokens that gate mutating operations.
//!
//! A token is issued exactly once, at registration, and never rotated or
//! revoked. It is an opaque 48-byte ASCII-hex string: 16 hex digits of
//! the identity's number followed by 32 hex digits of fresh entropy from
//! the system's random generator. The entropy makes tokens unguessable;
//! the fixed-width identity prefix makes them provably pairwise distinct.
//!
//! Duplicate emails are deliberately not rejected — registration always
//! appends — and login takes the first identity with a matching email,
//! preserving the service's first-match semantics.

use vstd::prelude::*;

use crate::credentials::{credential_verdict, hash_secret, verify_secret, CredentialFailure};
use crate::record::{bytes_eq, clone_bytes};

verus! {

/// An ASCII hex digit (lower case).
pub open spec fn hex_digit(n: u64) -> u8
    recommends
        n < 16,
{
    if n < 10 {
        (48 + n) as u8
    } else {
        (87 + n) as u8
    }
}

/// Whether a byte is an ASCII hex digit (lower case).
pub open spec fn is_hex_byte(c: u8) -> bool {
    (48 <= c <= 57) || (97 <= c <= 102)
}

/// The 16 hex digits of a 64-bit value, most significant first.
pub open spec fn hex16(v: u64) -> Seq<u8> {
    seq![
        hex_digit((v >> 60) & 0xF),
        hex_digit((v >> 56) & 0xF),
        hex_digit((v >> 52) & 0xF),
        hex_digit((v >> 48) & 0xF),
        hex_digit((v >> 44) & 0xF),
        hex_digit((v >> 40) & 0xF),
        hex_digit((v >> 36) & 0xF),
        hex_digit((v >> 32) & 0xF),
        hex_digit((v >> 28) & 0xF),
        hex_digit((v >> 24) & 0xF),
        hex_digit((v >> 20) & 0xF),
        hex_digit((v >> 16) & 0xF),
        hex_digit((v >> 12) & 0xF),
        hex_digit((v >> 8) & 0xF),
        hex_digit((v >> 4) & 0xF),
        hex_digit((v >> 0) & 0xF),
    ]
}

/// Two distinct hex digits come from two distinct nibbles.
proof fn lemma_hex_digit_inj(x: u64, y: u64)
    requires
        x < 16,
        y < 16,
        hex_digit(x) == hex_digit(y),
    ensures
        x == y,
{
}

/// The hex digits of a value determine it: distinct identities yield
/// distinct token prefixes.
pub proof fn lemma_hex16_injective(a: u64, b: u64)
    requires
        hex16(a) == hex16(b),
    ensures
        a == b,
{
    assert forall|sh: u64| sh <= 60 implies ((a >> sh) & 0xF) < 16 && ((b >> sh) & 0xF)
        < 16 by {
        assert((a >> sh) & 0xF < 16) by (bit_vector);
        assert((b >> sh) & 0xF < 16) by (bit_vector);
    }
    lemma_hex_digit_inj((a >> 60) & 0xF, (b >> 60) & 0xF);
    lemma_hex_digit_inj((a >> 56) & 0xF, (b >> 56) & 0xF);
    lemma_hex_digit_inj((a >> 52) & 0xF, (b >> 52) & 0xF);
    lemma_hex_digit_inj((a >> 48) & 0xF, (b >> 48) & 0xF);
    lemma_hex_digit_inj((a >> 44) & 0xF, (b >> 44) & 0xF);
    lemma_hex_digit_inj((a >> 40) & 0xF, (b >> 40) & 0xF);
    lemma_hex_digit_inj((a >> 36) & 0xF, (b >> 36) & 0xF);
    lemma_hex_digit_inj((a >> 32) & 0xF, (b >> 32) & 0xF);
    lemma_hex_digit_inj((a >> 28) & 0xF, (b >> 28) & 0xF);
    lemma_hex_digit_inj((a >> 24) & 0xF, (b >> 24) & 0xF);
    lemma_hex_digit_inj((a >> 20) & 0xF, (b >> 20) & 0xF);
    lemma_hex_digit_inj((a >> 16) & 0xF, (b >> 16) & 0xF);
    lemma_hex_digit_inj((a >> 12) & 0xF, (b >> 12) & 0xF);
    lemma_hex_digit_inj((a >> 8) & 0xF, (b >> 8) & 0xF);
    lemma_hex_digit_inj((a >> 4) & 0xF, (b >> 4) & 0xF);
    lemma_hex_digit_inj((a >> 0) & 0xF, (b >> 0) & 0xF);
    assert((((a >> 60) & 0xF == (b >> 60) & 0xF) && ((a >> 56) & 0xF == (b >> 56) & 0xF) && ((a
        >> 52) & 0xF == (b >> 52) & 0xF) && ((a >> 48) & 0xF == (b >> 48) & 0xF) && ((a >> 44)
        & 0xF == (b >> 44) & 0xF) && ((a >> 40) & 0xF == (b >> 40) & 0xF) && ((a >> 36) & 0xF == (b
        >> 36) & 0xF) && ((a >> 32) & 0xF == (b >> 32) & 0xF) && ((a >> 28) & 0xF == (b >> 28)
        & 0xF) && ((a >> 24) & 0xF == (b >> 24) & 0xF) && ((a >> 20) & 0xF == (b >> 20) & 0xF) && ((
    a >> 16) & 0xF == (b >> 16) & 0xF) && ((a >> 12) & 0xF == (b >> 12) & 0xF) && ((a >> 8) & 0xF
        == (b >> 8) & 0xF) && ((a >> 4) & 0xF == (b >> 4) & 0xF) && ((a >> 0) & 0xF == (b >> 0)
        & 0xF)) ==> a == b) by (bit_vector);
}

/// One nibble of `v`.
fn nibble(v: u64, sh: u64) -> (n: u64)
    requires
        sh <= 60,
    ensures
        n == (v >> sh) & 0xF,
        n < 16,
{
    let n = (v >> sh) & 0xF;
    proof {
        assert((v >> sh) & 0xF < 16) by (bit_vector);
    }
    n
}

/// One hex digit byte.
fn hexd(nib: u64) -> (d: u8)
    requires
        nib < 16,
    ensures
        d == hex_digit(nib),
        is_hex_byte(d),
{
    if nib < 10 {
        (48 + nib) as u8
    } else {
        (87 + nib) as u8
    }
}

/// The 16 hex digit bytes of `v`, most significant first.
fn hex16_bytes(v: u64) -> (out: Vec<u8>)
    ensures
        out@ == hex16(v),
        forall|k: int| 0 <= k < out@.len() ==> is_hex_byte(#[trigger] out@[k]),
{
    let mut out: Vec<u8> = Vec::new();
    out.push(hexd(nibble(v, 60)));
    out.push(hexd(nibble(v, 56)));
    out.push(hexd(nibble(v, 52)));
    out.push(hexd(nibble(v, 48)));
    out.push(hexd(nibble(v, 44)));
    out.push(hexd(nibble(v, 40)));
    out.push(hexd(nibble(v, 36)));
    out.push(hexd(nibble(v, 32)));
    out.push(hexd(nibble(v, 28)));
    out.push(hexd(nibble(v, 24)));
    out.push(hexd(nibble(v, 20)));
    out.push(hexd(nibble(v, 16)));
    out.push(hexd(nibble(v, 12)));
    out.push(hexd(nibble(v, 8)));
    out.push(hexd(nibble(v, 4)));
    out.push(hexd(nibble(v, 0)));
    proof {
        assert(out@ =~= hex16(v));
    }
    out
}

/// Relies on rand::random: 16 bytes from the thread-local generator,
/// seeded from the operating system; nothing is assumed of their values.
#[verifier::external_body]
fn token_entropy() -> (r: Vec<u8>)
    ensures
        r@.len() == 16,
{
    rand::random::<[u8; 16]>().to_vec()
}

/// A bearer token: 16 hex digits of the identity number, then 32 hex
/// digits of entropy.
fn token_from(id: u64, entropy: &Vec<u8>) -> (t: Vec<u8>)
    requires
        entropy@.len() == 16,
    ensures
        t@.len() == 48,
        t@.subrange(0, 16) == hex16(id),
        forall|k: int| 0 <= k < t@.len() ==> is_hex_byte(#[trigger] t@[k]),
{
    let mut t = hex16_bytes(id);
    let ghost prefix = t@;
    let mut i: usize = 0;
    while i < 16
        invariant
            i <= 16,
            entropy@.len() == 16,
            prefix == hex16(id),
            prefix.len() == 16,
            t@.len() == 16 + 2 * i,
            t@.subrange(0, 16) == prefix,
            forall|k: int| 0 <= k < t@.len() ==> is_hex_byte(#[trigger] t@[k]),
        decreases 16 - i,
    {
        let b = entropy[i];
        let hi = (b >> 4) as u64;
        let lo = (b & 0xF) as u64;
        proof {
            assert(b >> 4 < 16 && b & 0xF < 16) by (bit_vector);
        }
        let ghost before = t@;
        t.push(hexd(hi));
        t.push(hexd(lo));
        proof {
            assert(t@.subrange(0, 16) =~= before.subrange(0, 16));
        }
        i = i + 1;
    }
    t
}

/// The ASCII bytes of the `Bearer ` marker that precedes a token in an
/// authorization header value.
pub open spec fn bearer_marker() -> Seq<u8> {
    seq![66u8, 101u8, 97u8, 114u8, 101u8, 114u8, 32u8]
}

/// The token carried by an authorization header value: whatever follows
/// the `Bearer ` marker, or `None` when the value does not start with it.
pub open spec fn spec_bearer_token(header: Seq<u8>) -> Option<Seq<u8>> {
    if header.len() >= 7 && header.subrange(0, 7) == bearer_marker() {
        Some(header.skip(7))
    } else {
        None
    }
}

/// Extracts the bearer token from an authorization header value.
pub fn extract_bearer(header: &Vec<u8>) -> (r: Option<Vec<u8>>)
    ensures
        match r {
            Some(t) => spec_bearer_token(header@) == Some(t@),
            None => spec_bearer_token(header@) is None,
        },
{
    if header.len() < 7 {
        return None;
    }
    if header[0] == 66 && header[1] == 101 && header[2] == 97 && header[3] == 114 && header[4]
        == 101 && header[5] == 114 && header[6] == 32 {
        proof {
            assert(header@.subrange(0, 7) =~= bearer_marker());
        }
        let mut t: Vec<u8> = Vec::new();
        let mut i: usize = 7;
        while i < header.len()
            invariant
                7 <= i <= header@.len(),
                t@ == header@.subrange(7, i as int),
            decreases header@.len() - i,
        {
            t.push(header[i]);
            proof {
                assert(t@ =~= header@.subrange(7, i + 1));
            }
            i = i + 1;
        }
        proof {
            assert(t@ == header@.skip(7));
        }
        Some(t)
    } else {
        proof {
            if header@.subrange(0, 7) == bearer_marker() {
                assert(header@[0] == 66 && header@[1] == 101 && header@[2] == 97 && header@[3]
                    == 114 && header@[4] == 101 && header@[5] == 114 && header@[6] == 32) by {
                    assert(forall|i: int|
                        0 <= i < 7 ==> header@.subrange(0, 7)[i] == bearer_marker()[i]);
                }
            }
        }
        None
    }
}

/// Mathematical model of a registered identity.
pub ghost struct IdentityModel {
    pub id: usize,
    pub email: Seq<u8>,
    pub credential_hash: Seq<char>,
    pub token: Seq<u8>,
}

/// A registered identity: number, email, stored credential hash, and the
/// token issued at registration.
pub struct Identity {
    pub id: usize,
    pub email: Vec<u8>,
    pub credential_hash: String,
    pub token: Vec<u8>,
}

impl View for Identity {
    type V = IdentityModel;

    open spec fn view(&self) -> IdentityModel {
        IdentityModel {
            id: self.id,
            email: self.email@,
            credential_hash: self.credential_hash@,
            token: self.token@,
        }
    }
}

/// The public summary returned by registration: never the hash, never
/// the token.
pub struct IdentitySummary {
    pub id: usize,
    pub email: Vec<u8>,
}

/// Why a login failed: no identity with that email, a wrong password, or
/// the credential primitive failing on the stored hash.
#[derive(Clone, Copy, PartialEq, Eq, Structural, Debug)]
pub enum LoginError {
    NotFound,
    Unauthorized,
    Credential,
}

/// The first identity in `s` whose email is `email`, if any: duplicate
/// emails are permitted and the first match wins.
pub open spec fn find_identity(s: Seq<IdentityModel>, email: Seq<u8>) -> Option<IdentityModel>
    decreases s.len(),
{
    if s.len() == 0 {
        None
    } else if s[0].email == email {
        Some(s[0])
    } else {
        find_identity(s.drop_first(), email)
    }
}

/// Whether some identity in `s` holds exactly the token `t`.
pub open spec fn has_token(s: Seq<IdentityModel>, t: Seq<u8>) -> bool {
    exists|k: int| 0 <= k < s.len() && s[k].token == t
}

/// When `s[k]` is the first identity with `email`, `find_identity`
/// returns it.
pub proof fn lemma_find_identity_first(s: Seq<IdentityModel>, email: Seq<u8>, k: int)
    requires
        0 <= k < s.len(),
        s[k].email == email,
        forall|i: int| 0 <= i < k ==> (#[trigger] s[i].email) != email,
    ensures
        find_identity(s, email) == Some(s[k]),
    decreases k,
{
    if k > 0 {
        assert(forall|i: int| 0 <= i < s.len() - 1 ==> s.drop_first()[i] == s[i + 1]);
        lemma_find_identity_first(s.drop_first(), email, k - 1);
    }
}

/// When no identity has `email`, `find_identity` returns `None`.
pub proof fn lemma_find_identity_none(s: Seq<IdentityModel>, email: Seq<u8>)
    requires
        forall|i: int| 0 <= i < s.len() ==> (#[trigger] s[i].email) != email,
    ensures
        find_identity(s, email) is None,
    decreases s.len(),
{
    if s.len() > 0 {
        assert(forall|i: int| 0 <= i < s.len() - 1 ==> s.drop_first()[i] == s[i + 1]);
        lemma_find_identity_none(s.drop_first(), email);
    }
}

/// Well-formedness of the identity sequence: the k-th identity carries
/// the number k+1, and its token is 48 bytes whose first 16 are the hex
/// digits of that number.
pub open spec fn wf_identities(s: Seq<IdentityModel>) -> bool {
    forall|k: int|
        0 <= k < s.len() ==> {
            &&& (#[trigger] s[k]).id == k + 1
            &&& s[k].token.len() == 48
            &&& s[k].token.subrange(0, 16) == hex16(s[k].id as u64)
        }
}

/// Tokens authorize exactly one identity: under the directory invariant,
/// no two identities share a token, since a token's fixed-width prefix
/// is the hex image of its identity's unique number.
pub proof fn lemma_tokens_unique(s: Seq<IdentityModel>)
    requires
        wf_identities(s),
    ensures
        forall|j: int, k: int|
            0 <= j < k < s.len() ==> (#[trigger] s[j].token) != (#[trigger] s[k].token),
{
    assert forall|j: int, k: int| 0 <= j < k < s.len() implies (#[trigger] s[j].token)
        != (#[trigger] s[k].token) by {
        if s[j].token == s[k].token {
            assert(s[j].token.subrange(0, 16) == s[k].token.subrange(0, 16));
            lemma_hex16_injective(s[j].id as u64, s[k].id as u64);
        }
    }
}

/// The identity registry: registration appends, nothing is ever removed
/// or rewritten, and mutating callers serialize through `&mut self` so
/// identity numbers stay sequential under any interleaving of requests.
pub struct UserDirectory {
    identities: Vec<Identity>,
}

impl View for UserDirectory {
    type V = Seq<IdentityModel>;

    closed spec fn view(&self) -> Seq<IdentityModel> {
        self.identities@.map_values(|u: Identity| u@)
    }
}

impl UserDirectory {
    /// Well-formedness: sequential identity numbers, well-formed tokens.
    pub open spec fn wf(&self) -> bool {
        wf_identities(self@)
    }

    /// An empty directory.
    pub fn new() -> (d: UserDirectory)
        ensures
            d@ == Seq::<IdentityModel>::empty(),
            d.wf(),
    {
        let d = UserDirectory { identities: Vec::new() };
        proof {
            assert(d@ =~= Seq::<IdentityModel>::empty());
        }
        d
    }

    /// The number of registered identities.
    pub fn len(&self) -> (n: usize)
        ensures
            n == self@.len(),
    {
        self.identities.len()
    }

    /// Registers an identity: assigns the number `count + 1`, hashes the
    /// secret through the credential verifier, issues a fresh token, and
    /// returns the public summary — never the hash or the token. A
    /// duplicate email is deliberately accepted (first match wins at
    /// login). On a credential failure nothing is stored.
    pub fn register(&mut self, email: Vec<u8>, secret: &Vec<u8>) -> (r: Result<
        IdentitySummary,
        CredentialFailure,
    >)
        requires
            old(self).wf(),
            old(self)@.len() < usize::MAX,
        ensures
            final(self).wf(),
            match r {
                Ok(summary) => {
                    &&& summary.id == old(self)@.len() + 1
                    &&& summary.email@ == email@
                    &&& final(self)@.len() == old(self)@.len() + 1
                    &&& forall|k: int|
                        0 <= k < old(self)@.len() ==> (#[trigger] final(self)@[k]) == old(
                            self,
                        )@[k]
                    &&& final(self)@.last().id == summary.id
                    &&& final(self)@.last().email == email@
                    &&& credential_verdict(secret@, final(self)@.last().credential_hash) == Some(
                        true,
                    )
                },
                Err(_) => final(self)@ == old(self)@,
            },
    {
        let hash = match hash_secret(secret) {
            Ok(h) => h,
            Err(e) => {
                return Err(e);
            },
        };
        let id = self.identities.len() + 1;
        let entropy = token_entropy();
        let token = token_from(id as u64, &entropy);
        let summary = IdentitySummary { id, email: clone_bytes(&email) };
        let ident = Identity { id, email, credential_hash: hash, token };
        self.identities.push(ident);
        proof {
            assert(self@ =~= old(self)@.push(
                IdentityModel {
                    id: id,
                    email: summary.email@,
                    credential_hash: self@.last().credential_hash,
                    token: self@.last().token,
                },
            ));
            assert(forall|k: int| 0 <= k < old(self)@.len() ==> self@[k] == old(self)@[k]);
        }
        Ok(summary)
    }

    /// Login: finds the first identity with the email; returns its token
    /// when the verifier confirms the secret, `Unauthorized` when it
    /// denies it, `Credential` when it fails, and `NotFound` when no
    /// identity has that email.
    pub fn login(&self, email: &Vec<u8>, secret: &Vec<u8>) -> (r: Result<Vec<u8>, LoginError>)
        ensures
            match find_identity(self@, email@) {
                None => r == Err::<Vec<u8>, LoginError>(LoginError::NotFound),
                Some(ident) => match credential_verdict(secret@, ident.credential_hash) {
                    Some(true) => r matches Ok(t) && t@ == ident.token,
                    Some(false) => r == Err::<Vec<u8>, LoginError>(LoginError::Unauthorized),
                    None => r == Err::<Vec<u8>, LoginError>(LoginError::Credential),
                },
            },
    {
        let mut k: usize = 0;
        while k < self.identities.len()
            invariant
                k <= self@.len(),
                forall|i: int| 0 <= i < k ==> (#[trigger] self@[i].email) != email@,
            decreases self@.len() - k,
        {
            if bytes_eq(&self.identities[k].email, email) {
                proof {
                    lemma_find_identity_first(self@, email@, k as int);
                }
                match verify_secret(secret, &self.identities[k].credential_hash) {
                    Ok(true) => {
                        return Ok(clone_bytes(&self.identities[k].token));
                    },
                    Ok(false) => {
                        return Err(LoginError::Unauthorized);
                    },
                    Err(_) => {
                        return Err(LoginError::Credential);
                    },
                }
            }
            k = k + 1;
        }
        proof {
            lemma_find_identity_none(self@, email@);
        }
        Err(LoginError::NotFound)
    }

    /// Token validation: true exactly when some registered identity
    /// holds this very token — the one handed out for it at registration
    /// — and false for every other byte string, the empty one and proper
    /// substrings of real tokens included.
    pub fn validate(&self, token: &Vec<u8>) -> (r: bool)
        ensures
            r == has_token(self@, token@),
    {
        let mut k: usize = 0;
        while k < self.identities.len()
            invariant
                k <= self@.len(),
                forall|i: int| 0 <= i < k ==> (#[trigger] self@[i].token) != token@,
            decreases self@.len() - k,
        {
            if bytes_eq(&self.identities[k].token, token) {
                proof {
                    assert(self@[k as int].token == token@);
                }
                return true;
            }
            k = k + 1;
        }
        false
    }
}

} // verus!
