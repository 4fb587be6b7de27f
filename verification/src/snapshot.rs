//! The snapshot codec: the byte-level format of the single durable
//! artifact that holds the full record set.
//!
//! The artifact is a flat framing of the whole set: a record count, then
//! each record as fixed-width little-endian fields (identity, price bits,
//! name length) followed by the raw name bytes. Encoding and decoding are
//! exact inverses, so a snapshot written after a mutation reads back as
//! precisely the record set that was in memory; a caller does the actual
//! file I/O and treats a `None` from decoding as a fatal malformed-state
//! condition, distinct from an absent artifact.

use vstd::bytes::{
    lemma_auto_spec_u64_to_from_le_bytes, spec_u64_from_le_bytes, spec_u64_to_le_bytes,
    u64_from_le_bytes, u64_to_le_bytes,
};
use vstd::prelude::*;
use vstd::slice::{slice_subrange, slice_to_vec};

use crate::record::{Record, RecordModel};

verus! {

/// The encoding of one record: identity, price bits and name length as
/// 8-byte little-endian words, then the name bytes themselves.
pub open spec fn enc_record(r: RecordModel) -> Seq<u8> {
    spec_u64_to_le_bytes(r.id as u64) + spec_u64_to_le_bytes(r.price_bits) + spec_u64_to_le_bytes(
        r.name.len() as u64,
    ) + r.name
}

/// The concatenated encodings of a record sequence.
pub open spec fn enc_records(s: Seq<RecordModel>) -> Seq<u8>
    decreases s.len(),
{
    if s.len() == 0 {
        Seq::empty()
    } else {
        enc_record(s[0]) + enc_records(s.drop_first())
    }
}

/// The full snapshot artifact: the record count, then every record.
pub open spec fn spec_encode(s: Seq<RecordModel>) -> Seq<u8> {
    spec_u64_to_le_bytes(s.len() as u64) + enc_records(s)
}

/// An 8-byte little-endian word read at `off`, with the offset after it.
pub open spec fn parse_u64(b: Seq<u8>, off: int) -> Option<(u64, int)> {
    if 0 <= off && off + 8 <= b.len() {
        Some((spec_u64_from_le_bytes(b.subrange(off, off + 8)), off + 8))
    } else {
        None
    }
}

/// One record read at `off`, with the offset after it.
pub open spec fn parse_record(b: Seq<u8>, off: int) -> Option<(RecordModel, int)> {
    match parse_u64(b, off) {
        Some((idv, o1)) => match parse_u64(b, o1) {
            Some((price, o2)) => match parse_u64(b, o2) {
                Some((lenv, o3)) => if idv <= usize::MAX as u64 && o3 + lenv <= b.len() {
                    Some(
                        (
                            RecordModel {
                                id: idv as usize,
                                name: b.subrange(o3, o3 + lenv),
                                price_bits: price,
                            },
                            o3 + lenv,
                        ),
                    )
                } else {
                    None
                },
                None => None,
            },
            None => None,
        },
        None => None,
    }
}

/// `n` consecutive records read at `off`, with the offset after them.
pub open spec fn parse_records(b: Seq<u8>, off: int, n: nat) -> Option<(Seq<RecordModel>, int)>
    decreases n,
{
    if n == 0 {
        Some((Seq::empty(), off))
    } else {
        match parse_record(b, off) {
            Some((r, o)) => match parse_records(b, o, (n - 1) as nat) {
                Some((s, e)) => Some((seq![r] + s, e)),
                None => None,
            },
            None => None,
        }
    }
}

/// The record sequence held by a whole artifact, or `None` when the bytes
/// are not exactly a count followed by that many records.
pub open spec fn spec_decode(b: Seq<u8>) -> Option<Seq<RecordModel>> {
    match parse_u64(b, 0) {
        Some((n, off)) => if n <= usize::MAX as u64 {
            match parse_records(b, off, n as nat) {
                Some((s, e)) => if e == b.len() {
                    Some(s)
                } else {
                    None
                },
                None => None,
            }
        } else {
            None
        },
        None => None,
    }
}

/// Every name in `s` fits the machine's size type (true of every record
/// sequence that was ever held in memory).
pub open spec fn bounded_records(s: Seq<RecordModel>) -> bool {
    forall|k: int| 0 <= k < s.len() ==> (#[trigger] s[k].name).len() <= usize::MAX
}

/// Appending a record to a sequence appends its encoding to the bytes.
pub proof fn lemma_enc_records_push(s: Seq<RecordModel>, r: RecordModel)
    ensures
        enc_records(s.push(r)) == enc_records(s) + enc_record(r),
    decreases s.len(),
{
    if s.len() == 0 {
        assert(s.push(r)[0] == r);
        assert(s.push(r).drop_first() =~= Seq::<RecordModel>::empty());
        assert(enc_records(Seq::<RecordModel>::empty()) == Seq::<u8>::empty());
        assert(enc_records(s.push(r)) == enc_record(r) + Seq::<u8>::empty());
        assert(enc_record(r) + Seq::<u8>::empty() =~= Seq::<u8>::empty() + enc_record(r));
    } else {
        assert(s.push(r).drop_first() =~= s.drop_first().push(r));
        lemma_enc_records_push(s.drop_first(), r);
        assert(s.push(r)[0] == s[0]);
        assert(enc_record(s[0]) + (enc_records(s.drop_first()) + enc_record(r)) =~= (enc_record(
            s[0],
        ) + enc_records(s.drop_first())) + enc_record(r));
    }
}

/// Reading a record where one was encoded yields it back.
pub proof fn lemma_parse_record_encoded(b: Seq<u8>, off: int, r: RecordModel)
    requires
        0 <= off,
        off + enc_record(r).len() <= b.len(),
        b.subrange(off, off + enc_record(r).len()) == enc_record(r),
        r.name.len() <= usize::MAX,
    ensures
        parse_record(b, off) == Some((r, off + enc_record(r).len())),
{
    lemma_auto_spec_u64_to_from_le_bytes();
    let e = enc_record(r);
    let a = spec_u64_to_le_bytes(r.id as u64);
    let p = spec_u64_to_le_bytes(r.price_bits);
    let l = spec_u64_to_le_bytes(r.name.len() as u64);
    assert(a.len() == 8 && p.len() == 8 && l.len() == 8);
    assert(e.len() == 24 + r.name.len());
    let w = b.subrange(off, off + e.len() as int);
    assert(b.subrange(off, off + 8) =~= e.subrange(0, 8)) by {
        assert(forall|i: int| 0 <= i < 8 ==> b.subrange(off, off + 8)[i] == w[i]);
    }
    assert(e.subrange(0, 8) =~= a);
    assert(b.subrange(off + 8, off + 16) =~= e.subrange(8, 16)) by {
        assert(forall|i: int| #![trigger w[i + 8]] 0 <= i < 8 ==> b.subrange(off + 8, off + 16)[i] == w[i + 8]);
    }
    assert(e.subrange(8, 16) =~= p);
    assert(b.subrange(off + 16, off + 24) =~= e.subrange(16, 24)) by {
        assert(forall|i: int| #![trigger w[i + 16]] 0 <= i < 8 ==> b.subrange(off + 16, off + 24)[i] == w[i + 16]);
    }
    assert(e.subrange(16, 24) =~= l);
    assert(parse_u64(b, off) == Some((r.id as u64, off + 8)));
    assert(parse_u64(b, off + 8) == Some((r.price_bits, off + 16)));
    assert(parse_u64(b, off + 16) == Some((r.name.len() as u64, off + 24)));
    assert(b.subrange(off + 24, off + 24 + r.name.len()) =~= e.subrange(
        24,
        24 + r.name.len() as int,
    )) by {
        assert(forall|i: int| #![trigger w[i + 24]] 0 <= i < r.name.len() ==> b.subrange(off + 24, off + 24 + r.name.len())[i] == w[i + 24]);
    }
    assert(e.subrange(24, 24 + r.name.len() as int) =~= r.name);
    assert((r.id as u64) as usize == r.id);
    assert((r.name.len() as u64) as int == r.name.len());
}

/// Reading `s.len()` records where `enc_records(s)` was written yields
/// `s` back.
pub proof fn lemma_parse_records_encoded(b: Seq<u8>, off: int, s: Seq<RecordModel>)
    requires
        0 <= off,
        off + enc_records(s).len() <= b.len(),
        b.subrange(off, off + enc_records(s).len()) == enc_records(s),
        bounded_records(s),
    ensures
        parse_records(b, off, s.len()) == Some((s, off + enc_records(s).len())),
    decreases s.len(),
{
    if s.len() == 0 {
        assert(Some((Seq::<RecordModel>::empty(), off)) == Some((s, off + enc_records(s).len())))
            by {
            assert(s =~= Seq::<RecordModel>::empty());
        }
    } else {
        let e0 = enc_record(s[0]);
        let rest = enc_records(s.drop_first());
        assert(enc_records(s) == e0 + rest);
        let w = b.subrange(off, off + enc_records(s).len());
        assert(b.subrange(off, off + e0.len() as int) =~= (e0 + rest).subrange(
            0,
            e0.len() as int,
        )) by {
            assert(forall|i: int|
                0 <= i < e0.len() ==> b.subrange(off, off + e0.len() as int)[i] == w[i]);
        }
        assert((e0 + rest).subrange(0, e0.len() as int) =~= e0);
        lemma_parse_record_encoded(b, off, s[0]);
        let o1 = off + e0.len();
        assert(b.subrange(o1, o1 + rest.len() as int) =~= (e0 + rest).subrange(
            e0.len() as int,
            (e0 + rest).len() as int,
        )) by {
            assert(forall|i: int| #![trigger w[i + e0.len()]] 0 <= i < rest.len() ==> b.subrange(o1, o1 + rest.len() as int)[i] == w[i + e0.len()]);
        }
        assert((e0 + rest).subrange(e0.len() as int, (e0 + rest).len() as int) =~= rest);
        assert(bounded_records(s.drop_first())) by {
            assert(forall|k: int|
                0 <= k < s.len() - 1 ==> (#[trigger] s.drop_first()[k]) == s[k + 1]);
        }
        lemma_parse_records_encoded(b, o1, s.drop_first());
        assert(seq![s[0]] + s.drop_first() =~= s);
        assert(o1 + rest.len() == off + enc_records(s).len());
    }
}

/// Durability after write: decoding an encoded record set yields exactly
/// that set, so an immediate load of a snapshot written after a mutation
/// sees the mutated in-memory state, byte for byte.
pub proof fn lemma_save_then_load_is_identity(s: Seq<RecordModel>)
    requires
        s.len() <= usize::MAX,
        bounded_records(s),
    ensures
        spec_decode(spec_encode(s)) == Some(s),
{
    lemma_auto_spec_u64_to_from_le_bytes();
    let b = spec_encode(s);
    let n = spec_u64_to_le_bytes(s.len() as u64);
    let body = enc_records(s);
    assert(b.subrange(0, 8) =~= n);
    assert(parse_u64(b, 0) == Some((s.len() as u64, 8int)));
    assert(b.subrange(8, 8 + body.len() as int) =~= body);
    lemma_parse_records_encoded(b, 8, s);
    assert((s.len() as u64) as nat == s.len());
}

/// Encodes the record set as one snapshot artifact.
pub fn encode(records: &Vec<Record>) -> (out: Vec<u8>)
    ensures
        out@ == spec_encode(records@.map_values(|x: Record| x@)),
{
    let ghost m = records@.map_values(|x: Record| x@);
    let mut out = u64_to_le_bytes(records.len() as u64);
    let mut k: usize = 0;
    while k < records.len()
        invariant
            k <= records@.len(),
            m == records@.map_values(|x: Record| x@),
            m.len() == records@.len(),
            out@ == spec_u64_to_le_bytes(m.len() as u64) + enc_records(m.take(k as int)),
        decreases records@.len() - k,
    {
        let rec = &records[k];
        let mut idb = u64_to_le_bytes(rec.id as u64);
        out.append(&mut idb);
        let mut pb = u64_to_le_bytes(rec.price_bits);
        out.append(&mut pb);
        let mut lb = u64_to_le_bytes(rec.name.len() as u64);
        out.append(&mut lb);
        let mut nb = slice_to_vec(rec.name.as_slice());
        out.append(&mut nb);
        proof {
            lemma_enc_records_push(m.take(k as int), m[k as int]);
            assert(m.take(k + 1) =~= m.take(k as int).push(m[k as int]));
            assert(out@ =~= spec_u64_to_le_bytes(m.len() as u64) + enc_records(m.take(k + 1)));
        }
        k = k + 1;
    }
    proof {
        assert(m.take(m.len() as int) =~= m);
    }
    out
}

/// Reads the 8-byte word at `off`, exactly as `parse_u64` does.
fn read_u64(bytes: &Vec<u8>, off: usize) -> (r: Option<(u64, usize)>)
    ensures
        match r {
            Some((v, o)) => parse_u64(bytes@, off as int) == Some((v, o as int)),
            None => parse_u64(bytes@, off as int) is None,
        },
{
    if off <= bytes.len() && bytes.len() - off >= 8 {
        let s = slice_subrange(bytes.as_slice(), off, off + 8);
        Some((u64_from_le_bytes(s), off + 8))
    } else {
        None
    }
}

/// Reads one record at `off`, exactly as `parse_record` does.
fn read_record(bytes: &Vec<u8>, off: usize) -> (r: Option<(Record, usize)>)
    ensures
        match r {
            Some((rec, o)) => parse_record(bytes@, off as int) == Some((rec@, o as int)),
            None => parse_record(bytes@, off as int) is None,
        },
{
    let (idv, o1) = match read_u64(bytes, off) {
        Some(x) => x,
        None => {
            return None;
        },
    };
    let (price, o2) = match read_u64(bytes, o1) {
        Some(x) => x,
        None => {
            return None;
        },
    };
    let (lenv, o3) = match read_u64(bytes, o2) {
        Some(x) => x,
        None => {
            return None;
        },
    };
    if idv > usize::MAX as u64 {
        return None;
    }
    if lenv > (bytes.len() - o3) as u64 {
        return None;
    }
    let nlen = lenv as usize;
    let name = slice_to_vec(slice_subrange(bytes.as_slice(), o3, o3 + nlen));
    let rec = Record { id: idv as usize, name, price_bits: price };
    Some((rec, o3 + nlen))
}

/// Decodes a snapshot artifact back into its record set; `None` means
/// the bytes are not a whole, well-formed artifact.
pub fn decode(bytes: &Vec<u8>) -> (r: Option<Vec<Record>>)
    ensures
        match r {
            Some(v) => spec_decode(bytes@) == Some(v@.map_values(|x: Record| x@)),
            None => spec_decode(bytes@) is None,
        },
{
    let (count, start) = match read_u64(bytes, 0) {
        Some(x) => x,
        None => {
            return None;
        },
    };
    if count > usize::MAX as u64 {
        return None;
    }
    let n = count as usize;
    let mut acc: Vec<Record> = Vec::new();
    let mut off = start;
    let mut i: usize = 0;
    while i < n
        invariant
            i <= n,
            n == count as nat,
            count <= usize::MAX as u64,
            parse_u64(bytes@, 0) == Some((count, start as int)),
            acc@.len() == i,
            parse_records(bytes@, start as int, n as nat) == (match parse_records(
                bytes@,
                off as int,
                (n - i) as nat,
            ) {
                Some((s, e)) => Some((acc@.map_values(|x: Record| x@) + s, e)),
                None => None::<(Seq<RecordModel>, int)>,
            }),
        decreases n - i,
    {
        let ghost accm = acc@.map_values(|x: Record| x@);
        match read_record(bytes, off) {
            Some((rec, o)) => {
                proof {
                    assert(parse_record(bytes@, off as int) == Some((rec@, o as int)));
                }
                acc.push(rec);
                proof {
                    assert(acc@.map_values(|x: Record| x@) =~= accm.push(rec@));
                    match parse_records(bytes@, o as int, (n - i - 1) as nat) {
                        Some(t) => {
                            assert(accm + (seq![rec@] + t.0) =~= accm.push(rec@) + t.0);
                        },
                        None => {},
                    }
                }
                off = o;
            },
            None => {
                proof {
                    assert(parse_records(bytes@, off as int, (n - i) as nat) is None);
                }
                return None;
            },
        }
        i = i + 1;
    }
    proof {
        assert(parse_records(bytes@, off as int, 0) == Some(
            (Seq::<RecordModel>::empty(), off as int),
        ));
        assert(acc@.map_values(|x: Record| x@) + Seq::<RecordModel>::empty() =~= acc@.map_values(
            |x: Record| x@,
        ));
    }
    if off == bytes.len() {
        Some(acc)
    } else {
        None
    }
}

} // verus!
