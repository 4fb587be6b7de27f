//! The record ("item") data model.
//!
//! A record's `name` is kept as raw bytes and its price as the raw bit
//! pattern of a 64-bit IEEE-754 value: the store never interprets either,
//! it only assigns identities and copies field values, so callers convert
//! at the boundary.

use vstd::prelude::*;

verus! {

/// Mathematical model of a record.
pub ghost struct RecordModel {
    pub id: usize,
    pub name: Seq<u8>,
    pub price_bits: u64,
}

/// A stored record. `id` is assigned by the store and immutable thereafter.
pub struct Record {
    pub id: usize,
    pub name: Vec<u8>,
    pub price_bits: u64,
}

impl View for Record {
    type V = RecordModel;

    open spec fn view(&self) -> RecordModel {
        RecordModel { id: self.id, name: self.name@, price_bits: self.price_bits }
    }
}

impl Record {
    /// An exact copy of this record.
    pub fn duplicate(&self) -> (r: Record)
        ensures
            r@ == self@,
    {
        Record { id: self.id, name: clone_bytes(&self.name), price_bits: self.price_bits }
    }
}

/// A partial update: only the fields that are present overwrite the
/// record's current values.
pub ghost struct PatchModel {
    pub name: Option<Seq<u8>>,
    pub price_bits: Option<u64>,
}

/// A bulk-update patch; absent fields leave existing values untouched.
pub struct Patch {
    pub name: Option<Vec<u8>>,
    pub price_bits: Option<u64>,
}

impl View for Patch {
    type V = PatchModel;

    open spec fn view(&self) -> PatchModel {
        PatchModel {
            name: match self.name {
                Some(n) => Some(n@),
                None => None,
            },
            price_bits: self.price_bits,
        }
    }
}

/// The record that results from applying `p` to `r`: present patch fields
/// overwrite, absent ones are kept, and the id never changes.
pub open spec fn apply_patch(r: RecordModel, p: PatchModel) -> RecordModel {
    RecordModel {
        id: r.id,
        name: match p.name {
            Some(n) => n,
            None => r.name,
        },
        price_bits: match p.price_bits {
            Some(b) => b,
            None => r.price_bits,
        },
    }
}

/// A patch without a `name` field leaves every record's name unchanged,
/// and one without a `price` field leaves every price unchanged; the id
/// is never touched by a patch.
pub proof fn lemma_patch_preserves_absent_fields(r: RecordModel, p: PatchModel)
    ensures
        apply_patch(r, p).id == r.id,
        p.name is None ==> apply_patch(r, p).name == r.name,
        p.price_bits is None ==> apply_patch(r, p).price_bits == r.price_bits,
{
}

/// An exact copy of a byte vector.
pub fn clone_bytes(v: &Vec<u8>) -> (r: Vec<u8>)
    ensures
        r@ == v@,
{
    let mut out: Vec<u8> = Vec::new();
    let mut i: usize = 0;
    while i < v.len()
        invariant
            i <= v.len(),
            out@ == v@.take(i as int),
        decreases v.len() - i,
    {
        out.push(v[i]);
        i = i + 1;
        proof {
            assert(out@ =~= v@.take(i as int));
        }
    }
    proof {
        assert(v@.take(v@.len() as int) =~= v@);
    }
    out
}

/// Whether two byte vectors hold the same bytes.
pub fn bytes_eq(a: &Vec<u8>, b: &Vec<u8>) -> (r: bool)
    ensures
        r == (a@ == b@),
{
    if a.len() != b.len() {
        proof {
            assert(a@.len() != b@.len());
        }
        return false;
    }
    let mut i: usize = 0;
    while i < a.len()
        invariant
            i <= a.len(),
            a@.len() == b@.len(),
            forall|j: int| 0 <= j < i ==> a@[j] == b@[j],
        decreases a.len() - i,
    {
        if a[i] != b[i] {
            return false;
        }
        i = i + 1;
    }
    proof {
        assert(a@ =~= b@);
    }
    true
}

} // verus!
