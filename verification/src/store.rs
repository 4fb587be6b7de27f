//! The concurrent record store's core: authoritative holder of the record
//! set, sole assigner of record identities, serializer of mutations.
//!
//! Callers that share a store across tasks wrap it in a reader/writer lock
//! and hold the write side across a mutation and the snapshot write that
//! follows it; every mutation here is a plain `&mut self` method, so writes
//! are serialized by construction and the identity-assignment and
//! uniqueness guarantees below hold for every interleaving of calls.

use vstd::prelude::*;
use vstd::seq_lib::group_seq_properties;

use crate::record::{apply_patch, clone_bytes, Patch, Record, RecordModel};
use crate::snapshot::{bounded_records, decode, encode, spec_decode, spec_encode};

verus! {

broadcast use group_seq_properties;

/// Whether some record in `s` carries the identity `id`.
pub open spec fn has_id(s: Seq<RecordModel>, id: usize) -> bool {
    exists|k: int| 0 <= k < s.len() && s[k].id == id
}

/// The largest identity present in `s`, or 0 when `s` is empty.
pub open spec fn max_id(s: Seq<RecordModel>) -> usize
    decreases s.len(),
{
    if s.len() == 0 {
        0
    } else {
        let rest = max_id(s.drop_last());
        if s.last().id > rest {
            s.last().id
        } else {
            rest
        }
    }
}

/// Well-formedness of a record sequence: every identity is positive and
/// no two records share one.
pub open spec fn wf_records(s: Seq<RecordModel>) -> bool {
    &&& forall|k: int| 0 <= k < s.len() ==> (#[trigger] s[k].id) >= 1
    &&& forall|j: int, k: int|
        0 <= j < k < s.len() ==> (#[trigger] s[j].id) != (#[trigger] s[k].id)
}

/// Every identity in `s` is bounded by `max_id(s)`.
pub proof fn lemma_max_id_is_bound(s: Seq<RecordModel>)
    ensures
        forall|k: int| 0 <= k < s.len() ==> (#[trigger] s[k].id) <= max_id(s),
    decreases s.len(),
{
    if s.len() > 0 {
        lemma_max_id_is_bound(s.drop_last());
        assert(forall|k: int| 0 <= k < s.len() - 1 ==> s[k] == s.drop_last()[k]);
    }
}

/// Freshness of assigned identities: `max_id(s) + 1` never collides with
/// an existing identity, so a record sequence with pairwise distinct
/// identities stays distinct when a record carrying it is appended.
/// Applied once per `create`, this is the induction step showing that any
/// sequence of serialized `create` calls yields pairwise distinct
/// identities, whatever the interleaving of the requests that issued them.
pub proof fn lemma_fresh_id_keeps_records_wf(s: Seq<RecordModel>, r: RecordModel)
    requires
        wf_records(s),
        max_id(s) < usize::MAX,
        r.id == max_id(s) + 1,
    ensures
        !has_id(s, r.id),
        wf_records(s.push(r)),
{
    lemma_max_id_is_bound(s);
    assert(forall|k: int| 0 <= k < s.len() ==> s.push(r)[k] == s[k]);
    assert(s.push(r)[s.len() as int] == r);
}

/// The first record in `s` whose identity is `id`, if any.
pub open spec fn find_record(s: Seq<RecordModel>, id: usize) -> Option<RecordModel>
    decreases s.len(),
{
    if s.len() == 0 {
        None
    } else if s[0].id == id {
        Some(s[0])
    } else {
        find_record(s.drop_first(), id)
    }
}

/// When `s[k]` is the first record carrying `id`, `find_record` returns it.
pub proof fn lemma_find_record_first(s: Seq<RecordModel>, id: usize, k: int)
    requires
        0 <= k < s.len(),
        s[k].id == id,
        forall|i: int| 0 <= i < k ==> (#[trigger] s[i].id) != id,
    ensures
        find_record(s, id) == Some(s[k]),
    decreases k,
{
    if k > 0 {
        assert(forall|i: int| 0 <= i < s.len() - 1 ==> s.drop_first()[i] == s[i + 1]);
        lemma_find_record_first(s.drop_first(), id, k - 1);
    }
}

/// When no record carries `id`, `find_record` returns `None`.
pub proof fn lemma_find_record_none(s: Seq<RecordModel>, id: usize)
    requires
        !has_id(s, id),
    ensures
        find_record(s, id) is None,
    decreases s.len(),
{
    if s.len() > 0 {
        assert(s[0].id != id);
        assert(forall|i: int| 0 <= i < s.len() - 1 ==> s.drop_first()[i] == s[i + 1]);
        assert(!has_id(s.drop_first(), id));
        lemma_find_record_none(s.drop_first(), id);
    }
}

/// The authoritative record set. Insertion order is preserved; identities
/// are unique and assigned only here.
pub struct ItemStore {
    records: Vec<Record>,
}

impl View for ItemStore {
    type V = Seq<RecordModel>;

    closed spec fn view(&self) -> Seq<RecordModel> {
        self.records@.map_values(|r: Record| r@)
    }
}

impl ItemStore {
    /// Well-formedness: positive, pairwise distinct identities.
    pub open spec fn wf(&self) -> bool {
        wf_records(self@)
    }

    /// An empty store.
    pub fn new() -> (s: ItemStore)
        ensures
            s@ == Seq::<RecordModel>::empty(),
            s.wf(),
    {
        let s = ItemStore { records: Vec::new() };
        proof {
            assert(s@ =~= Seq::<RecordModel>::empty());
        }
        s
    }

    /// A store over the given records, accepted only if they satisfy the
    /// identity invariant (positive, pairwise distinct identities); the
    /// records are handed back otherwise.
    pub fn from_records(records: Vec<Record>) -> (r: Result<ItemStore, Vec<Record>>)
        ensures
            match r {
                Ok(s) => s@ == records@.map_values(|x: Record| x@) && s.wf(),
                Err(v) => v@ == records@ && !wf_records(records@.map_values(|x: Record| x@)),
            },
    {
        let ghost m = records@.map_values(|x: Record| x@);
        let mut k: usize = 0;
        while k < records.len()
            invariant
                k <= records@.len(),
                m == records@.map_values(|x: Record| x@),
                forall|i: int| 0 <= i < k ==> (#[trigger] m[i].id) >= 1,
                forall|i: int, j: int|
                    0 <= i < j < k ==> (#[trigger] m[i].id) != (#[trigger] m[j].id),
            decreases records@.len() - k,
        {
            if records[k].id < 1 {
                proof {
                    assert(m[k as int] == records@.map_values(|x: Record| x@)[k as int]);
                    assert(m[k as int].id < 1);
                    assert(!wf_records(m));
                }
                return Err(records);
            }
            let mut j: usize = 0;
            while j < k
                invariant
                    j <= k < records@.len(),
                    m == records@.map_values(|x: Record| x@),
                    forall|i: int| 0 <= i < j ==> (#[trigger] m[i].id) != m[k as int].id,
                decreases k - j,
            {
                if records[j].id == records[k].id {
                    proof {
                        assert(m[j as int] == records@.map_values(|x: Record| x@)[j as int]);
                        assert(m[k as int] == records@.map_values(|x: Record| x@)[k as int]);
                        assert(m[j as int].id == m[k as int].id && j < k);
                        assert(!wf_records(m));
                    }
                    return Err(records);
                }
                j = j + 1;
            }
            k = k + 1;
        }
        Ok(ItemStore { records })
    }

    /// An exact copy of the record set, taken by a caller before a
    /// mutation so that a failed snapshot write can be rolled back to
    /// the state that is still durably on disk.
    pub fn duplicate(&self) -> (r: ItemStore)
        ensures
            r@ == self@,
    {
        let mut records: Vec<Record> = Vec::new();
        let mut k: usize = 0;
        while k < self.records.len()
            invariant
                k <= self.records@.len(),
                records@.len() == k,
                forall|i: int| 0 <= i < k ==> (#[trigger] records@[i])@ == self.records@[i]@,
            decreases self.records@.len() - k,
        {
            records.push(self.records[k].duplicate());
            k = k + 1;
        }
        let r = ItemStore { records };
        proof {
            assert(r@ =~= self@);
        }
        r
    }

    /// The number of records held.
    pub fn len(&self) -> (n: usize)
        ensures
            n == self@.len(),
    {
        self.records.len()
    }

    /// The largest identity assigned so far, 0 for an empty store. The
    /// next `create` call assigns one more than this, so a caller checks
    /// here that the machine's integer width is not exhausted.
    pub fn max_assigned_id(&self) -> (m: usize)
        ensures
            m == max_id(self@),
    {
        let mut m: usize = 0;
        let mut k: usize = 0;
        while k < self.records.len()
            invariant
                k <= self@.len(),
                m == max_id(self@.take(k as int)),
            decreases self@.len() - k,
        {
            proof {
                assert(self@.take(k + 1).drop_last() =~= self@.take(k as int));
                assert(self@.take(k + 1).last() == self@[k as int]);
            }
            if self.records[k].id > m {
                m = self.records[k].id;
            }
            k = k + 1;
        }
        proof {
            assert(self@.take(self@.len() as int) =~= self@);
        }
        m
    }

    /// The index of some record carrying `id`, or `None` when no record
    /// does.
    fn index_of(&self, id: usize) -> (r: Option<usize>)
        ensures
            match r {
                Some(k) => k < self@.len() && self@[k as int].id == id && (forall|i: int|
                    0 <= i < k ==> (#[trigger] self@[i].id) != id),
                None => !has_id(self@, id),
            },
    {
        let mut k: usize = 0;
        while k < self.records.len()
            invariant
                k <= self@.len(),
                forall|i: int| 0 <= i < k ==> (#[trigger] self@[i].id) != id,
            decreases self@.len() - k,
        {
            if self.records[k].id == id {
                return Some(k);
            }
            k = k + 1;
        }
        None
    }

    /// A snapshot view of all records, insertion order preserved.
    pub fn list(&self) -> (r: Vec<Record>)
        ensures
            r@.len() == self@.len(),
            forall|k: int| 0 <= k < r@.len() ==> (#[trigger] r@[k])@ == self@[k],
    {
        let mut out: Vec<Record> = Vec::new();
        let mut k: usize = 0;
        while k < self.records.len()
            invariant
                k <= self@.len(),
                out@.len() == k,
                forall|i: int| 0 <= i < k ==> (#[trigger] out@[i])@ == self@[i],
            decreases self@.len() - k,
        {
            out.push(self.records[k].duplicate());
            k = k + 1;
        }
        out
    }

    /// Point lookup: the first record with the given identity, or `None`
    /// when no record carries it (under `wf` there is at most one).
    pub fn get(&self, id: usize) -> (r: Option<Record>)
        ensures
            match r {
                Some(rec) => find_record(self@, id) == Some(rec@),
                None => find_record(self@, id) is None,
            },
            (r is Some) == has_id(self@, id),
    {
        match self.index_of(id) {
            Some(k) => {
                proof {
                    lemma_find_record_first(self@, id, k as int);
                }
                Some(self.records[k].duplicate())
            },
            None => {
                proof {
                    lemma_find_record_none(self@, id);
                }
                None
            },
        }
    }

    /// Creates a record: assigns the identity `max_id + 1` (so 1 in an
    /// empty store), appends the record, and returns it. The assigned
    /// identity never collides with an existing one, and identity
    /// uniqueness of the store is preserved.
    pub fn create(&mut self, name: Vec<u8>, price_bits: u64) -> (r: Record)
        requires
            old(self).wf(),
            max_id(old(self)@) < usize::MAX,
        ensures
            r@.id == max_id(old(self)@) + 1,
            old(self)@.len() == 0 ==> r@.id == 1,
            r@.name == name@,
            r@.price_bits == price_bits,
            !has_id(old(self)@, r@.id),
            final(self)@ == old(self)@.push(r@),
            final(self).wf(),
    {
        let id = self.max_assigned_id() + 1;
        let rec = Record { id, name, price_bits };
        let stored = rec.duplicate();
        self.records.push(stored);
        proof {
            assert(self@ =~= old(self)@.push(rec@));
            lemma_fresh_id_keeps_records_wf(old(self)@, rec@);
        }
        rec
    }

    /// The snapshot artifact holding the current record set, handed to
    /// the caller to write out (whole-artifact replace) directly after
    /// every successful mutation, under the same write lock.
    pub fn snapshot_bytes(&self) -> (out: Vec<u8>)
        ensures
            out@ == spec_encode(self@),
    {
        encode(&self.records)
    }

    /// Rebuilds a store from a snapshot artifact read at startup. `None`
    /// means the artifact is malformed — undecodable, or decodable only
    /// to records that break the identity invariant — a fatal condition
    /// distinct from an absent artifact (an absent one simply yields
    /// `ItemStore::new`).
    pub fn from_snapshot(bytes: &Vec<u8>) -> (r: Option<ItemStore>)
        ensures
            match r {
                Some(s) => spec_decode(bytes@) == Some(s@) && s.wf(),
                None => match spec_decode(bytes@) {
                    Some(m) => !wf_records(m),
                    None => true,
                },
            },
    {
        match decode(bytes) {
            Some(records) => match Self::from_records(records) {
                Ok(s) => Some(s),
                Err(_) => None,
            },
            None => None,
        }
    }

    /// A store that lives in memory is always small enough to encode:
    /// its length and every name fit the machine's size type.
    pub proof fn lemma_view_bounded(&self)
        ensures
            self@.len() <= usize::MAX,
            bounded_records(self@),
    {
        broadcast use vstd::std_specs::vec::axiom_spec_len;

        assert(vstd::std_specs::vec::spec_vec_len(&self.records) == self.records@.len());
        assert forall|k: int| 0 <= k < self@.len() implies (#[trigger] self@[k].name).len()
            <= usize::MAX by {
            assert(self@[k].name == self.records@[k].name@);
            assert(vstd::std_specs::vec::spec_vec_len(&self.records@[k].name)
                == self.records@[k].name@.len());
        }
    }

    /// Applies `patch` to every record whose identity occurs in `ids`:
    /// present patch fields overwrite, absent ones are kept, identities
    /// never change, and records whose identity was not requested — or
    /// requested identities that no record carries — are untouched.
    /// Returns exactly the requested identities that were found, in
    /// request order (duplicates in the request recur in the result).
    pub fn bulk_update(&mut self, ids: &Vec<usize>, patch: &Patch) -> (updated: Vec<usize>)
        requires
            old(self).wf(),
        ensures
            final(self)@.len() == old(self)@.len(),
            forall|k: int|
                0 <= k < old(self)@.len() ==> (#[trigger] final(self)@[k]) == (if ids@.contains(
                    old(self)@[k].id,
                ) {
                    apply_patch(old(self)@[k], patch@)
                } else {
                    old(self)@[k]
                }),
            updated@ == ids@.filter(|i: usize| has_id(old(self)@, i)),
            final(self).wf(),
    {
        let ghost orig = self@;
        let mut updated: Vec<usize> = Vec::new();
        let mut t: usize = 0;
        while t < ids.len()
            invariant
                t <= ids@.len(),
                self@.len() == orig.len(),
                wf_records(orig),
                forall|i: int| 0 <= i < orig.len() ==> (#[trigger] self@[i].id) == orig[i].id,
                forall|k: int|
                    0 <= k < orig.len() ==> (#[trigger] self@[k]) == (if ids@.take(
                        t as int,
                    ).contains(orig[k].id) {
                        apply_patch(orig[k], patch@)
                    } else {
                        orig[k]
                    }),
                updated@ == ids@.take(t as int).filter(|i: usize| has_id(orig, i)),
            decreases ids@.len() - t,
        {
            let id = ids[t];
            proof {
                reveal(Seq::filter);
                assert(ids@.take(t + 1).drop_last() =~= ids@.take(t as int));
                assert(ids@.take(t + 1).last() == ids@[t as int]);
            }
            match self.index_of(id) {
                Some(k) => {
                    let newname = match &patch.name {
                        Some(n) => clone_bytes(n),
                        None => clone_bytes(&self.records[k].name),
                    };
                    let newprice = match patch.price_bits {
                        Some(b) => b,
                        None => self.records[k].price_bits,
                    };
                    let newrec = Record {
                        id: self.records[k].id,
                        name: newname,
                        price_bits: newprice,
                    };
                    let ghost prev = self@;
                    proof {
                        assert(newrec@ == apply_patch(prev[k as int], patch@));
                    }
                    self.records[k] = newrec;
                    updated.push(id);
                    proof {
                        assert(self@ =~= prev.update(k as int, newrec@));
                        // the record at `k` carries `id` now and in `orig`,
                        // and patching twice equals patching once, so the
                        // elementwise picture extends to the next prefix
                        assert(orig[k as int].id == id);
                        assert(has_id(orig, id));
                        assert forall|i: int| 0 <= i < orig.len() implies (#[trigger] self@[i])
                            == (if ids@.take(t + 1).contains(orig[i].id) {
                            apply_patch(orig[i], patch@)
                        } else {
                            orig[i]
                        }) by {
                            if i == k {
                                assert(apply_patch(apply_patch(orig[i], patch@), patch@)
                                    == apply_patch(orig[i], patch@));
                            } else {
                                assert(orig[i].id != id);
                            }
                        };
                    }
                },
                None => {
                    proof {
                        assert(!has_id(orig, id)) by {
                            if has_id(orig, id) {
                                let w = choose|w: int|
                                    0 <= w < orig.len() && orig[w].id == id;
                                assert(self@[w].id == id);
                            }
                        };
                        assert forall|i: int| 0 <= i < orig.len() implies (#[trigger] self@[i])
                            == (if ids@.take(t + 1).contains(orig[i].id) {
                            apply_patch(orig[i], patch@)
                        } else {
                            orig[i]
                        }) by {
                            assert(orig[i].id != id);
                        };
                    }
                },
            }
            t = t + 1;
        }
        proof {
            assert(ids@.take(ids@.len() as int) =~= ids@);
        }
        updated
    }
}

} // verus!
