//! A per-field secondary index: from a value to the offsets of the log
//! records that hold it.
//!
//! Recent additions wait in memory; `flush` merges them into the backing
//! record file, which holds one entry per value: the value and its offsets
//! in ascending order. The term map gives the offset of each value's entry
//! and is stored after the accounted end of the file when it is closed.
use vstd::prelude::*;

use itertools::EitherOrBoth;
use itertools::Itertools;
use multimap::MultiMap;

use crate::codec::{decode_value, enc_val, encode_value, lemma_enc_injective, lemma_value_decodes};
use crate::index_codec::{
    lemma_enc_u64s,
    decode_entry, decode_terms, enc_entry, enc_terms, encode_entry, encode_terms, lemma_entry_round_trip,
    parse_entry, parse_terms, terms_view, terms_wf,
};
use crate::log_value::{lemma_cmp_total, wf_val, LogValue, Val};
use crate::record_error::RecordError;
use crate::bytes::{le32, le64};
use crate::record_file::{frames, RecordFile, BAD_COUNT};

verus! {

#[verifier::external_type_specification]
#[verifier::external_body]
#[verifier::reject_recursive_types(K)]
#[verifier::reject_recursive_types(V)]
#[verifier::reject_recursive_types(S)]
pub struct ExMultiMap<K, V, S>(MultiMap<K, V, S>);

/// What a multimap of encoded values to offsets holds: each key with its
/// offsets in the order they were inserted.
pub uninterp spec fn pending_of(m: MultiMap<Vec<u8>, u64>) -> Map<Seq<u8>, Seq<u64>>;

/// Relies on `MultiMap::new`: a new multimap is empty.
#[verifier::external_body]
fn mm_new() -> (r: MultiMap<Vec<u8>, u64>)
    ensures
        pending_of(r).dom() == Set::<Seq<u8>>::empty(),
{
    MultiMap::new()
}

/// Relies on `MultiMap::insert`: the value is pushed onto the key's vector,
/// which is created if the key is new.
#[verifier::external_body]
fn mm_insert(m: &mut MultiMap<Vec<u8>, u64>, k: Vec<u8>, v: u64)
    ensures
        pending_of(*final(m)) == pending_of(*old(m)).insert(
            k@,
            if pending_of(*old(m)).contains_key(k@) {
                pending_of(*old(m))[k@].push(v)
            } else {
                seq![v]
            },
        ),
{
    m.insert(k, v)
}

/// Relies on `MultiMap::get_vec`: the key's vector, if the key is present.
#[verifier::external_body]
fn mm_get(m: &MultiMap<Vec<u8>, u64>, k: &Vec<u8>) -> (r: Option<Vec<u64>>)
    ensures
        r is Some <==> pending_of(*m).contains_key(k@),
        r matches Some(l) ==> l@ == pending_of(*m)[k@],
{
    m.get_vec(k).cloned()
}

/// Relies on `MultiMap::remove`: the key and its vector are taken out.
#[verifier::external_body]
fn mm_remove(m: &mut MultiMap<Vec<u8>, u64>, k: &Vec<u8>)
    ensures
        pending_of(*final(m)) == pending_of(*old(m)).remove(k@),
{
    m.remove(k);
}

/// Relies on `MultiMap::is_empty`: true when no key is present.
#[verifier::external_body]
fn mm_is_empty(m: &MultiMap<Vec<u8>, u64>) -> (r: bool)
    ensures
        r <==> pending_of(*m).dom() == Set::<Seq<u8>>::empty(),
{
    m.is_empty()
}

/// Relies on `MultiMap::clear`: every key is removed.
#[verifier::external_body]
fn mm_clear(m: &mut MultiMap<Vec<u8>, u64>)
    ensures
        pending_of(*final(m)).dom() == Set::<Seq<u8>>::empty(),
{
    m.clear()
}

/// Relies on `MultiMap::clone`: the copy holds the same keys and vectors.
#[verifier::external_body]
fn mm_clone(m: &MultiMap<Vec<u8>, u64>) -> (r: MultiMap<Vec<u8>, u64>)
    ensures
        pending_of(r) == pending_of(*m),
{
    m.clone()
}

/// Relies on `MultiMap::iter_all`: it visits each key once, with its vector,
/// in an order that is not specified.
#[verifier::external_body]
fn mm_entries(m: &MultiMap<Vec<u8>, u64>) -> (r: Vec<(Vec<u8>, Vec<u64>)>)
    ensures
        forall|i: int|
            0 <= i < r@.len() ==> pending_of(*m).contains_key((#[trigger] r@[i]).0@) && pending_of(
                *m,
            )[r@[i].0@] == r@[i].1@,
        forall|i: int, j: int| 0 <= i < j < r@.len() ==> (#[trigger] r@[i]).0@ != (#[trigger] r@[j]).0@,
        forall|k: Seq<u8>|
            #[trigger] pending_of(*m).contains_key(k) ==> exists|i: int|
                0 <= i < r@.len() && (#[trigger] r@[i]).0@ == k,
{
    m.iter_all().map(|(k, v)| (k.clone(), v.clone())).collect()
}

/// Every element is below the next one.
pub open spec fn strictly_ascending(s: Seq<u64>) -> bool {
    forall|i: int, j: int| 0 <= i < j < s.len() ==> s[i] < s[j]
}

/// Every element is at most the next one.
pub open spec fn ascending(s: Seq<u64>) -> bool {
    forall|i: int, j: int| 0 <= i < j < s.len() ==> s[i] <= s[j]
}

/// Relies on `slice::sort_unstable`: the elements are put in ascending order.
#[verifier::external_body]
fn sort_offsets(v: &mut Vec<u64>)
    ensures
        ascending(final(v)@),
        final(v)@.to_multiset() == old(v)@.to_multiset(),
        final(v)@.to_set() == old(v)@.to_set(),
{
    v.sort_unstable()
}

/// Relies on `Vec::dedup`: consecutive repeats are removed, so a sorted
/// vector keeps one copy of each element.
#[verifier::external_body]
fn dedup_offsets(v: &mut Vec<u64>)
    requires
        ascending(old(v)@),
    ensures
        strictly_ascending(final(v)@),
        final(v)@.to_set() == old(v)@.to_set(),
{
    v.dedup()
}

/// The order of two offsets.
pub fn cmp_offsets(a: &u64, b: &u64) -> (r: core::cmp::Ordering)
    ensures
        (r == core::cmp::Ordering::Less) == (*a < *b),
        (r == core::cmp::Ordering::Equal) == (*a == *b),
        (r == core::cmp::Ordering::Greater) == (*a > *b),
{
    if *a < *b {
        core::cmp::Ordering::Less
    } else if *a == *b {
        core::cmp::Ordering::Equal
    } else {
        core::cmp::Ordering::Greater
    }
}

/// Relies on `Itertools::merge_join_by` with the order of offsets: on two
/// ascending inputs it yields, in ascending order, each offset of one side
/// alone and once each offset that both sides hold.
#[verifier::external_body]
fn merge_offsets(a: &Vec<u64>, b: &Vec<u64>) -> (r: Vec<u64>)
    requires
        strictly_ascending(a@),
        strictly_ascending(b@),
    ensures
        strictly_ascending(r@),
        r@.to_set() == a@.to_set() + b@.to_set(),
{
    a.iter().merge_join_by(b.iter(), |i, j| cmp_offsets(i, j)).map(
        |e| match e {
            EitherOrBoth::Left(x) => *x,
            EitherOrBoth::Right(x) => *x,
            EitherOrBoth::Both(x, _) => *x,
        },
    ).collect()
}

/// `LOGINDEX`, version 1, then three padding bytes.
pub open spec fn index_header() -> Seq<u8> {
    seq![76u8, 79u8, 71u8, 73u8, 78u8, 68u8, 69u8, 88u8, 1u8, 88u8, 88u8, 88u8]
}

fn make_index_header() -> (r: Vec<u8>)
    ensures
        r@ == index_header(),
{
    let mut r: Vec<u8> = Vec::new();
    r.push(76u8);
    r.push(79u8);
    r.push(71u8);
    r.push(73u8);
    r.push(78u8);
    r.push(68u8);
    r.push(69u8);
    r.push(88u8);
    r.push(1u8);
    r.push(88u8);
    r.push(88u8);
    r.push(88u8);
    assert(r@ =~= index_header());
    r
}

/// The entries of a backing file, its term map, and how they agree: entry
/// `j` is record `j`, its offsets ascend strictly, its value is term `j`,
/// whose offset is that of record `j`; no value has two entries.
pub open spec fn entries_wf(rf: RecordFile, es: Seq<(Val, Seq<u64>)>, tm: Seq<(LogValue, u64)>) -> bool {
    &&& es.len() == rf.records@.len()
    &&& tm.len() == es.len()
    &&& forall|j: int|
        0 <= j < es.len() ==> parse_entry(rf.records@[j]) == Some(#[trigger] es[j]) && strictly_ascending(
            es[j].1,
        ) && wf_val(es[j].0)
    &&& forall|j: int|
        0 <= j < tm.len() ==> (#[trigger] tm[j]).0@ == es[j].0 && tm[j].0.wf() && tm[j].1
            == rf.offset_of(j)
    &&& forall|i: int, j: int| 0 <= i < j < es.len() ==> (#[trigger] es[i]).0 != (#[trigger] es[j]).0
}

/// The offset of record `j` of an index file, whose header has twelve bytes.
pub open spec fn index_offset(recs: Seq<Seq<u8>>, j: int) -> int {
    24 + frames(recs.take(j)).len() as int
}

/// The term map that agrees with the records of an index file.
pub open spec fn aligned_terms(recs: Seq<Seq<u8>>) -> Seq<(Val, u64)> {
    Seq::new(recs.len(), |j: int| (parse_entry(recs[j])->Some_0.0, index_offset(recs, j) as u64))
}

/// An index image that opens: its records are entries with strictly
/// ascending offsets and distinct values, and the term map stored after the
/// accounted end, if any, agrees with them.
pub open spec fn valid_index_image(image: Seq<u8>) -> bool {
    match crate::record_file::open_spec(image, index_header()) {
        Ok((recs, eof)) => {
            &&& forall|j: int|
                0 <= j < recs.len() ==> (#[trigger] parse_entry(recs[j])) is Some && strictly_ascending(
                    parse_entry(recs[j])->Some_0.1,
                ) && wf_val(parse_entry(recs[j])->Some_0.0)
            &&& forall|i: int, j: int|
                0 <= i < j < recs.len() ==> (#[trigger] parse_entry(recs[i]))->Some_0.0 != (
                #[trigger] parse_entry(recs[j]))->Some_0.0
            &&& (image.len() == eof || parse_terms(image.subrange(eof, image.len() as int)) == Some(
                aligned_terms(recs),
            ))
        },
        Err(_) => false,
    }
}

/// Every key is the encoding of a value.
pub open spec fn keys_are_values(p: Map<Seq<u8>, Seq<u64>>) -> bool {
    forall|k: Seq<u8>| #[trigger] p.contains_key(k) ==> exists|v: Val| wf_val(v) && enc_val(v) == k
}

/// The index of one field.
pub struct IndexFile {
    /// The backing file: one entry per value.
    pub rec_file: RecordFile,
    /// Offsets added since the last flush, keyed by the encoded value.
    pub mem_index: MultiMap<Vec<u8>, u64>,
    /// Each value with the offset of its entry in the backing file.
    pub term_map: Vec<(LogValue, u64)>,
    /// The name of the field.
    pub index_name: String,
    /// The decoded entries of the backing file, in order.
    pub entries: Ghost<Seq<(Val, Seq<u64>)>>,
}

impl IndexFile {
    pub open spec fn pending(&self) -> Map<Seq<u8>, Seq<u64>> {
        pending_of(self.mem_index)
    }

    pub open spec fn wf(&self) -> bool {
        &&& self.rec_file.wf()
        &&& self.rec_file.header_len == 12
        &&& self.rec_file.data@.subrange(0, 12) == index_header()
        &&& entries_wf(self.rec_file, self.entries@, self.term_map@)
        &&& keys_are_values(self.pending())
    }

    /// The offsets stored on disk for `v`.
    pub open spec fn disk_list(&self, v: Val) -> Seq<u64> {
        if exists|j: int| 0 <= j < self.entries@.len() && (#[trigger] self.entries@[j]).0 == v {
            self.entries@[choose|j: int| 0 <= j < self.entries@.len() && (#[trigger] self.entries@[j]).0 == v].1
        } else {
            seq![]
        }
    }

    /// The offsets added for `v` since the last flush.
    pub open spec fn mem_list(&self, v: Val) -> Seq<u64> {
        if self.pending().contains_key(enc_val(v)) {
            self.pending()[enc_val(v)]
        } else {
            seq![]
        }
    }

    /// Every offset indexed under `v`.
    pub open spec fn offsets(&self, v: Val) -> Set<u64> {
        self.disk_list(v).to_set() + self.mem_list(v).to_set()
    }
}

proof fn lemma_disk_list_at(f: &IndexFile, j: int)
    requires
        f.wf(),
        0 <= j < f.entries@.len(),
    ensures
        f.disk_list(f.entries@[j].0) == f.entries@[j].1,
{
    let v = f.entries@[j].0;
    assert(exists|q: int| 0 <= q < f.entries@.len() && (#[trigger] f.entries@[q]).0 == v);
    let q = choose|q: int| 0 <= q < f.entries@.len() && (#[trigger] f.entries@[q]).0 == v;
    if q != j {
        if q < j {
            assert(f.entries@[q].0 != f.entries@[j].0);
        } else {
            assert(f.entries@[j].0 != f.entries@[q].0);
        }
    }
}

proof fn lemma_disk_list_absent(f: &IndexFile, v: Val)
    requires
        f.wf(),
        forall|j: int| 0 <= j < f.entries@.len() ==> (#[trigger] f.entries@[j]).0 != v,
    ensures
        f.disk_list(v) == Seq::<u64>::empty(),
{
}

/// Whether two well-formed values are equal.
fn same_value(a: &LogValue, b: &LogValue) -> (r: bool)
    requires
        a.wf(),
        b.wf(),
    ensures
        r == (a@ == b@),
{
    let c = a.compare(b);
    proof {
        lemma_cmp_total(a@, b@);
    }
    match c {
        core::cmp::Ordering::Equal => true,
        _ => false,
    }
}

fn is_strictly_ascending(v: &Vec<u64>) -> (r: bool)
    ensures
        r == strictly_ascending(v@),
{
    let mut i: usize = 1;
    if v.len() == 0 {
        return true;
    }
    while i < v.len()
        invariant
            1 <= i <= v@.len(),
            forall|a: int, b: int| 0 <= a < b < i ==> v@[a] < v@[b],
        decreases v@.len() - i,
    {
        if v[i - 1] >= v[i] {
            return false;
        }
        i = i + 1;
    }
    true
}

fn same_terms(a: &Vec<(LogValue, u64)>, b: &Vec<(LogValue, u64)>) -> (r: bool)
    requires
        terms_wf(a@),
        terms_wf(b@),
    ensures
        r == (terms_view(a@) == terms_view(b@)),
{
    if a.len() != b.len() {
        assert(terms_view(a@).len() != terms_view(b@).len());
        return false;
    }
    let mut i: usize = 0;
    while i < a.len()
        invariant
            terms_wf(a@),
            terms_wf(b@),
            a@.len() == b@.len(),
            0 <= i <= a@.len(),
            forall|j: int| 0 <= j < i ==> terms_view(a@)[j] == terms_view(b@)[j],
        decreases a@.len() - i,
    {
        assert(a@[i as int].0.wf() && b@[i as int].0.wf());
        if !same_value(&a[i].0, &b[i].0) || a[i].1 != b[i].1 {
            assert(terms_view(a@)[i as int] != terms_view(b@)[i as int]);
            return false;
        }
        i = i + 1;
    }
    assert(terms_view(a@) =~= terms_view(b@));
    true
}

impl IndexFile {
    /// Opens the index of field `index_name` from the image of its file
    /// (empty for a new index). Every entry is decoded; the term map stored
    /// after the accounted end, if any, must match the entries.
    pub fn new(image: Vec<u8>, index_name: String) -> (r: Result<IndexFile, RecordError>)
        ensures
            image@.len() == 0 ==> r is Ok,
            valid_index_image(image@) ==> r is Ok,
            match r {
                Ok(f) => {
                    &&& f.wf()
                    &&& f.pending().dom() == Set::<Seq<u8>>::empty()
                    &&& f.index_name@ == index_name@
                    &&& crate::record_file::open_spec(image@, index_header()) == Ok::<
                        (Seq<Seq<u8>>, int),
                        RecordError,
                    >((f.rec_file.records@, f.rec_file.end_of_file as int))
                },
                Err(e) => crate::record_file::open_spec(image@, index_header()) == Err::<
                    (Seq<Seq<u8>>, int),
                    RecordError,
                >(e) || e == RecordError::Corrupt,
            },
    {
        let header = make_index_header();
        let ghost img0 = image@;
        let rec_file = RecordFile::new(image, header.as_slice())?;
        if !rec_file.consistent {
            return Err(RecordError::Corrupt);
        }
        assert(img0.len() == 0 ==> rec_file.records@.len() == 0 && rec_file.data@.len()
            == rec_file.end_of_file);
        assert(rec_file.data@.subrange(0, 12) =~= index_header());
        let recs = rec_file.records();
        let mut term_map: Vec<(LogValue, u64)> = Vec::new();
        let ghost mut es: Seq<(Val, Seq<u64>)> = seq![];
        let len = rec_file.data.len();
        let mut pos: usize = 24;
        let mut j: usize = 0;
        while j < recs.len()
            invariant
                rec_file.wf(),
                rec_file.header_len == 12,
                rec_file.data@.subrange(0, 12) == index_header(),
                img0.len() == 0 ==> rec_file.records@.len() == 0 && rec_file.data@.len()
                    == rec_file.end_of_file,
                img0 == image@,
                crate::record_file::open_spec(img0, index_header()) == Ok::<(Seq<Seq<u8>>, int), RecordError>(
                    (rec_file.records@, rec_file.end_of_file as int),
                ),
                len == rec_file.data@.len(),
                recs@.len() == rec_file.records@.len(),
                forall|q: int| 0 <= q < recs@.len() ==> (#[trigger] recs@[q])@ == rec_file.records@[q],
                0 <= j <= recs@.len(),
                pos == rec_file.offset_of(j as int),
                es.len() == j,
                term_map@.len() == j,
                forall|q: int|
                    0 <= q < es.len() ==> parse_entry(rec_file.records@[q]) == Some(#[trigger] es[q])
                        && strictly_ascending(es[q].1) && wf_val(es[q].0),
                forall|q: int|
                    0 <= q < term_map@.len() ==> (#[trigger] term_map@[q]).0@ == es[q].0
                        && term_map@[q].0.wf() && term_map@[q].1 == rec_file.offset_of(q),
                forall|a: int, b: int| 0 <= a < b < es.len() ==> (#[trigger] es[a]).0 != (#[trigger] es[b]).0,
            decreases recs@.len() - j,
        {
            let (v, offs) = match decode_entry(recs[j].as_slice()) {
                Some(x) => x,
                None => {
                    assert(!valid_index_image(img0));
                    return Err(RecordError::Corrupt);
                },
            };
            assert(valid_index_image(img0) ==> parse_entry(rec_file.records@[j as int]) is Some);
            if !is_strictly_ascending(&offs) {
                assert(!valid_index_image(img0));
                return Err(RecordError::Corrupt);
            }
            let mut q: usize = 0;
            while q < term_map.len()
                invariant
                    0 <= q <= term_map@.len(),
                    image@.len() != 0,
                    img0 == image@,
                    q <= es.len(),
                    term_map@.len() == es.len(),
                    es.len() == j,
                    j < rec_file.records@.len(),
                    crate::record_file::open_spec(img0, index_header()) == Ok::<(Seq<Seq<u8>>, int), RecordError>(
                        (rec_file.records@, rec_file.end_of_file as int),
                    ),
                    parse_entry(rec_file.records@[j as int]) == Some((v@, offs@)),
                    forall|a: int|
                        0 <= a < es.len() ==> parse_entry(rec_file.records@[a]) == Some(#[trigger] es[a]),
                    forall|a: int| 0 <= a < term_map@.len() ==> (#[trigger] term_map@[a]).0@ == es[a].0,
                    v.wf(),
                    forall|a: int| 0 <= a < term_map@.len() ==> (#[trigger] term_map@[a]).0.wf(),
                    forall|a: int| 0 <= a < q ==> (#[trigger] term_map@[a]).0@ != v@,
                decreases term_map@.len() - q,
            {
                if same_value(&term_map[q].0, &v) {
                    proof {
                        let recs = rec_file.records@;
                        assert(parse_entry(recs[q as int])->Some_0.0 == parse_entry(recs[j as int])->Some_0.0);
                        assert(!valid_index_image(img0));
                    }
                    return Err(RecordError::Corrupt);
                }
                q = q + 1;
            }
            proof {
                crate::record_file::lemma_read_record(rec_file, j as int);
            }
            term_map.push((v, pos as u64));
            proof {
                es = es.push((v@, offs@));
                assert forall|a: int, b: int| 0 <= a < b < es.len() implies (#[trigger] es[a]).0 != (
                #[trigger] es[b]).0 by {
                    if b == es.len() - 1 {
                        assert(term_map@[a].0@ == es[a].0);
                    }
                }
            }
            pos = pos + 4 + recs[j].len();
            j = j + 1;
        }
        let eof = rec_file.end_of_file as usize;
        if len > eof {
            proof {
                let recs = rec_file.records@;
                assert(terms_view(term_map@) =~= aligned_terms(recs));
            }
            match decode_terms(rec_file.data.as_slice(), eof) {
                Some(stored) => {
                    if !same_terms(&stored, &term_map) {
                        assert(!valid_index_image(img0));
                        return Err(RecordError::Corrupt);
                    }
                },
                None => {
                    assert(!valid_index_image(img0));
                    return Err(RecordError::Corrupt);
                },
            }
        }
        Ok(
            IndexFile {
                rec_file,
                mem_index: mm_new(),
                term_map,
                index_name,
                entries: Ghost(es),
            },
        )
    }

    /// Records that the log record at `offset` holds `value` in this field.
    pub fn add(&mut self, value: LogValue, offset: u64)
        requires
            old(self).wf(),
            value.wf(),
        ensures
            final(self).wf(),
            final(self).rec_file == old(self).rec_file,
            final(self).entries == old(self).entries,
            final(self).term_map@ == old(self).term_map@,
            final(self).index_name == old(self).index_name,
            final(self).pending() == old(self).pending().insert(
                enc_val(value@),
                old(self).mem_list(value@).push(offset),
            ),
    {
        let mut key: Vec<u8> = Vec::new();
        encode_value(&value, &mut key);
        mm_insert(&mut self.mem_index, key, offset);
        proof {
            let p = self.pending();
            assert forall|k: Seq<u8>| #[trigger] p.contains_key(k) implies exists|v: Val|
                wf_val(v) && enc_val(v) == k by {
                if k != enc_val(value@) {
                    assert(old(self).pending().contains_key(k));
                } else {
                    assert(wf_val(value@) && enc_val(value@) == k);
                }
            }
        }
    }

    /// The offsets indexed under `value`, in strictly ascending order.
    pub fn get(&self, value: &LogValue) -> (r: Result<Vec<u64>, RecordError>)
        requires
            self.wf(),
            value.wf(),
        ensures
            r matches Ok(l) && strictly_ascending(l@) && l@.to_set() == self.offsets(value@),
    {
        let mut key: Vec<u8> = Vec::new();
        encode_value(value, &mut key);
        let mut in_memory = match mm_get(&self.mem_index, &key) {
            Some(l) => l,
            None => Vec::new(),
        };
        assert(in_memory@ == self.mem_list(value@));
        sort_offsets(&mut in_memory);
        dedup_offsets(&mut in_memory);
        let mut j: usize = 0;
        let mut found = false;
        while j < self.term_map.len()
            invariant_except_break
                !found,
            invariant
                self.wf(),
                value.wf(),
                0 <= j <= self.term_map@.len(),
                forall|a: int| 0 <= a < j ==> (#[trigger] self.term_map@[a]).0@ != value@,
            ensures
                found ==> j < self.term_map@.len() && self.term_map@[j as int].0@ == value@,
                !found ==> j == self.term_map@.len(),
            decreases self.term_map@.len() - j,
        {
            assert(self.term_map@[j as int].0.wf());
            if same_value(&self.term_map[j].0, value) {
                found = true;
                break;
            }
            j = j + 1;
        }
        let on_disk = if found {
            proof {
                crate::record_file::lemma_read_record(self.rec_file, j as int);
                lemma_disk_list_at(self, j as int);
            }
            let b = match self.rec_file.read_at(self.term_map[j].1) {
                Ok(b) => b,
                Err(e) => {
                    return Err(e);
                },
            };
            match decode_entry(b.as_slice()) {
                Some((_, offs)) => offs,
                None => {
                    return Err(RecordError::Decode);
                },
            }
        } else {
            proof {
                assert forall|q: int| 0 <= q < self.entries@.len() implies (#[trigger] self.entries@[q]).0
                    != value@ by {
                    assert(self.term_map@[q].0@ == self.entries@[q].0);
                }
                lemma_disk_list_absent(self, value@);
            }
            Vec::new()
        };
        assert(on_disk@ == self.disk_list(value@));
        let merged = merge_offsets(&in_memory, &on_disk);
        assert(merged@.to_set() =~= self.offsets(value@));
        Ok(merged)
    }
}

fn copy_offsets(v: &Vec<u64>) -> (r: Vec<u64>)
    ensures
        r@ == v@,
{
    let mut r: Vec<u64> = Vec::new();
    let mut i: usize = 0;
    while i < v.len()
        invariant
            0 <= i <= v@.len(),
            r@ == v@.subrange(0, i as int),
        decreases v@.len() - i,
    {
        r.push(v[i]);
        i = i + 1;
        assert(r@ =~= v@.subrange(0, i as int));
    }
    assert(v@.subrange(0, v@.len() as int) =~= v@);
    r
}

/// `work` is `pending` without the keys of the first `j` entries.
pub open spec fn pending_after(
    work: Map<Seq<u8>, Seq<u64>>,
    pending: Map<Seq<u8>, Seq<u64>>,
    es: Seq<(Val, Seq<u64>)>,
    j: int,
) -> bool {
    forall|k: Seq<u8>|
        #[trigger] work.contains_key(k) == (pending.contains_key(k) && forall|q: int|
            0 <= q < j ==> k != enc_val(#[trigger] es[q].0)) && (work.contains_key(k) ==> work[k]
            == pending[k])
}

/// The flush of `ix` stays within the limits of the format: fewer than
/// 4096 entries, and each entry (value, count and offsets) at most
/// 0x7_FFFC bytes.
pub open spec fn flush_fits(ix: IndexFile) -> bool {
    &&& ix.pending().dom().finite()
    &&& ix.entries@.len() + ix.pending().dom().len() <= 0x1000
    &&& forall|j: int|
        0 <= j < ix.entries@.len() ==> enc_val((#[trigger] ix.entries@[j]).0).len() + 8 * (
        ix.entries@[j].1.len() + ix.mem_list(ix.entries@[j].0).len()) <= 0x7_FFF8
    &&& forall|k: Seq<u8>|
        #[trigger] ix.pending().contains_key(k) ==> k.len() + 8 * ix.pending()[k].len() <= 0x7_FFF8
}

pub proof fn lemma_strict_len(s: Seq<u64>)
    requires
        strictly_ascending(s),
    ensures
        s.len() == s.to_set().len(),
{
    assert(s.no_duplicates()) by {
        assert forall|i: int, j: int| 0 <= i < s.len() && 0 <= j < s.len() && i != j implies s[i] != s[j] by {
            if i < j {
                assert(s[i] < s[j]);
            } else {
                assert(s[j] < s[i]);
            }
        }
    }
    s.unique_seq_to_set();
}

proof fn lemma_count_keys(
    rest: Seq<(Vec<u8>, Vec<u64>)>,
    work: Map<Seq<u8>, Seq<u64>>,
    p: Map<Seq<u8>, Seq<u64>>,
)
    requires
        p.dom().finite(),
        forall|i: int| 0 <= i < rest.len() ==> work.contains_key((#[trigger] rest[i]).0@),
        forall|k: Seq<u8>| #[trigger] work.contains_key(k) ==> p.contains_key(k),
        forall|i: int, k: int| 0 <= i < k < rest.len() ==> (#[trigger] rest[i]).0@ != (#[trigger] rest[k]).0@,
    ensures
        rest.len() <= p.dom().len(),
{
    let ks = rest.map_values(|r: (Vec<u8>, Vec<u64>)| r.0@);
    assert(ks.no_duplicates()) by {
        assert forall|i: int, j: int| 0 <= i < ks.len() && 0 <= j < ks.len() && i != j implies ks[i] != ks[j] by {
            if i < j {
                assert(rest[i].0@ != rest[j].0@);
            } else {
                assert(rest[j].0@ != rest[i].0@);
            }
        }
    }
    ks.unique_seq_to_set();
    assert(ks.to_set().subset_of(p.dom())) by {
        assert forall|k: Seq<u8>| ks.to_set().contains(k) implies p.dom().contains(k) by {
            let i = choose|i: int| 0 <= i < ks.len() && ks[i] == k;
            assert(work.contains_key(rest[i].0@));
        }
    }
    vstd::set_lib::lemma_len_subset(ks.to_set(), p.dom());
}

/// The offsets of `v`, sorted and without repeats.
fn sorted_unique(v: &Vec<u64>) -> (r: Vec<u64>)
    ensures
        strictly_ascending(r@),
        r@.to_set() == v@.to_set(),
        r@.len() <= v@.len(),
{
    let mut l = copy_offsets(v);
    let ghost unsorted = l@;
    sort_offsets(&mut l);
    let ghost sorted = l@;
    dedup_offsets(&mut l);
    proof {
        lemma_strict_len(l@);
        sorted.lemma_cardinality_of_set();
        assert(sorted.len() == v@.len()) by {
            broadcast use vstd::seq_lib::group_to_multiset_ensures;

            assert(sorted.to_multiset().len() == unsorted.to_multiset().len());
        }
    }
    l
}

/// `offs` merged with the pending offsets `pend`, if any.
fn merge_pending(offs: &Vec<u64>, pend: Option<Vec<u64>>) -> (r: Vec<u64>)
    requires
        strictly_ascending(offs@),
    ensures
        strictly_ascending(r@),
        r@.to_set() == offs@.to_set() + match pend {
            Some(l) => l@.to_set(),
            None => Set::<u64>::empty(),
        },
        r@.len() <= offs@.len() + match pend {
            Some(l) => l@.len(),
            None => 0,
        },
{
    match pend {
        Some(l) => {
            let l2 = sorted_unique(&l);
            let m = merge_offsets(offs, &l2);
            proof {
                lemma_strict_len(m@);
                lemma_strict_len(offs@);
                lemma_strict_len(l2@);
                offs@.lemma_cardinality_of_set();
                vstd::set_lib::lemma_len_union(offs@.to_set(), l2@.to_set());
                assert(offs@.to_set() + l2@.to_set() == offs@.to_set().union(l2@.to_set()));
            }
            m
        },
        None => {
            let m = copy_offsets(offs);
            assert(m@.to_set() =~= offs@.to_set() + Set::<u64>::empty());
            m
        },
    }
}

impl IndexFile {
    /// Merges the offsets added since the last flush into a new backing
    /// file: each existing entry gets the new offsets of its value, then
    /// each new value gets an entry. On failure nothing changes.
    #[verifier::spinoff_prover]
    #[verifier::rlimit(60)]
    pub fn flush(&mut self) -> (r: Result<(), RecordError>)
        requires
            old(self).wf(),
        ensures
            final(self).wf(),
            final(self).index_name == old(self).index_name,
            match r {
                Ok(()) => {
                    &&& final(self).pending().dom() == Set::<Seq<u8>>::empty()
                    &&& forall|v: Val|
                        wf_val(v) ==> #[trigger] final(self).disk_list(v).to_set() == old(self).offsets(v)
                    &&& forall|v: Val|
                        wf_val(v) ==> (#[trigger] has_entry(final(self).entries@, v) <==> (has_entry(
                            old(self).entries@,
                            v,
                        ) || old(self).pending().contains_key(enc_val(v))))
                },
                Err(e) => e == RecordError::FlushFailed && *final(self) == *old(self),
            },
            flush_fits(*old(self)) ==> r is Ok,
    {
        if mm_is_empty(&self.mem_index) {
            proof {
                assert forall|v: Val| wf_val(v) implies #[trigger] self.disk_list(v).to_set() == self.offsets(v) by {
                    assert(!self.pending().contains_key(enc_val(v)));
                    assert(self.mem_list(v).to_set() =~= Set::<u64>::empty());
                    assert(self.offsets(v) =~= self.disk_list(v).to_set());
                }
            }
            return Ok(());
        }
        let ghost pre = *self;
        let header = make_index_header();
        let mut tmp = match RecordFile::new(Vec::new(), header.as_slice()) {
            Ok(f) => f,
            Err(_) => {
                return Err(RecordError::FlushFailed);
            },
        };
        assert(tmp.data@.subrange(0, 12) =~= index_header());
        let mut work = mm_clone(&self.mem_index);
        let mut new_terms: Vec<(LogValue, u64)> = Vec::new();
        let ghost mut new_es: Seq<(Val, Seq<u64>)> = seq![];
        let recs = self.rec_file.records();
        let n = recs.len();
        let mut j: usize = 0;
        while j < n
            invariant
                *self == pre,
                pre.wf(),
                n == recs@.len(),
                recs@.len() == pre.rec_file.records@.len(),
                forall|q: int| 0 <= q < recs@.len() ==> (#[trigger] recs@[q])@ == pre.rec_file.records@[q],
                0 <= j <= n,
                tmp.wf(),
                tmp.header_len == 12,
                tmp.data@.subrange(0, 12) == index_header(),
                entries_wf(tmp, new_es, new_terms@),
                new_es.len() == j,
                forall|q: int|
                    0 <= q < j ==> (#[trigger] new_es[q]).0 == pre.entries@[q].0 && new_es[q].1.to_set()
                        == pre.entries@[q].1.to_set() + pre.mem_list(pre.entries@[q].0).to_set(),
                pending_after(pending_of(work), pre.pending(), pre.entries@, j as int),
                flush_fits(pre) ==> tmp.end_of_file <= 24 + j * 0x8_0000,
            decreases n - j,
        {
            let (t, offs) = match decode_entry(recs[j].as_slice()) {
                Some(x) => x,
                None => {
                    return Err(RecordError::FlushFailed);
                },
            };
            assert(parse_entry(pre.rec_file.records@[j as int]) == Some(pre.entries@[j as int]));
            assert(t@ == pre.entries@[j as int].0 && offs@ == pre.entries@[j as int].1);
            let mut key: Vec<u8> = Vec::new();
            encode_value(&t, &mut key);
            proof {
                lemma_key_fresh(pre, j as int);
                assert(pending_of(work).contains_key(key@) == pre.pending().contains_key(key@));
            }
            let pend = mm_get(&work, &key);
            let merged = merge_pending(&offs, pend);
            assert(merged@.to_set() =~= pre.entries@[j as int].1.to_set() + pre.mem_list(t@).to_set());
            assert(merged@.len() <= offs@.len() + pre.mem_list(t@).len());
            let ghost before_remove = pending_of(work);
            mm_remove(&mut work, &key);
            proof {
                lemma_pending_step(before_remove, pending_of(work), pre.pending(), pre.entries@, j as int);
            }
            if merged.len() > 0xFFFF_FFFF {
                proof {
                    if flush_fits(pre) {
                        assert(pre.entries@[j as int].0 == t@);
                    }
                }
                return Err(RecordError::FlushFailed);
            }
            let bytes = encode_entry(&t, &merged);
            let len = bytes.len();
            proof {
                lemma_enc_u64s(merged@);
                if flush_fits(pre) {
                    assert(pre.entries@[j as int].0 == t@);
                    assert(len <= 0x7_FFFC);
                }
            }
            if len > 0xFFFF_FFFF || tmp.record_count >= BAD_COUNT - 1 || len > usize::MAX - 4
                || tmp.end_of_file > (usize::MAX - 4 - len) as u64 {
                return Err(RecordError::FlushFailed);
            }
            let ghost tmp0 = tmp;
            let loc = tmp.append(bytes.as_slice());
            assert(tmp.data@.subrange(0, 12) =~= tmp0.data@.subrange(0, 12));
            proof {
                lemma_entry_round_trip(t@, merged@);
                assert forall|a: int| 0 <= a < new_es.len() implies (#[trigger] new_es[a]).0 != t@ by {
                    assert(pre.entries@[a].0 != pre.entries@[j as int].0);
                }
                lemma_entries_push(tmp0, tmp, new_es, new_terms@, t, merged@, bytes@, loc);
            }
            new_terms.push((t, loc));
            proof {
                new_es = new_es.push((t@, merged@));
            }
            j = j + 1;
        }
        let rest = mm_entries(&work);
        let m = rest.len();
        let ghost phase1 = new_es;
        proof {
            if flush_fits(pre) {
                lemma_count_keys(rest@, pending_of(work), pre.pending());
            }
        }
        let mut q: usize = 0;
        while q < m
            invariant
                *self == pre,
                pre.wf(),
                n == pre.entries@.len(),
                m == rest@.len(),
                0 <= q <= m,
                tmp.wf(),
                tmp.header_len == 12,
                tmp.data@.subrange(0, 12) == index_header(),
                entries_wf(tmp, new_es, new_terms@),
                new_es.len() == n + q,
                new_es.subrange(0, n as int) == phase1,
                forall|a: int|
                    0 <= a < n ==> (#[trigger] phase1[a]).0 == pre.entries@[a].0 && phase1[a].1.to_set()
                        == pre.entries@[a].1.to_set() + pre.mem_list(pre.entries@[a].0).to_set(),
                pending_after(pending_of(work), pre.pending(), pre.entries@, n as int),
                forall|i: int|
                    0 <= i < rest@.len() ==> pending_of(work).contains_key((#[trigger] rest@[i]).0@)
                        && pending_of(work)[rest@[i].0@] == rest@[i].1@,
                forall|i: int, k: int| 0 <= i < k < rest@.len() ==> (#[trigger] rest@[i]).0@ != (
                #[trigger] rest@[k]).0@,
                forall|a: int|
                    0 <= a < q ==> enc_val((#[trigger] new_es[n + a]).0) == rest@[a].0@
                        && new_es[n + a].1.to_set() == rest@[a].1@.to_set(),
                flush_fits(pre) ==> tmp.end_of_file <= 24 + (n + q) * 0x8_0000 && n + m <= 0x1000,
            decreases m - q,
        {
            let k = &rest[q].0;
            proof {
                assert(pending_of(work).contains_key(k@));
                assert(pre.pending().contains_key(k@));
                let w = choose|w: Val| wf_val(w) && enc_val(w) == k@;
                lemma_value_decodes(w);
                assert(k@.subrange(0, k@.len() as int) =~= k@);
            }
            let (v, end) = match decode_value(k.as_slice(), 0) {
                Some(x) => x,
                None => {
                    return Err(RecordError::FlushFailed);
                },
            };
            proof {
                let w = choose|w: Val| wf_val(w) && enc_val(w) == k@;
                assert(v@ == w);
            }
            let l = sorted_unique(&rest[q].1);
            proof {
                if flush_fits(pre) {
                    assert(pre.pending()[k@] == rest@[q as int].1@);
                    assert(enc_val(v@) == k@);
                }
            }
            if l.len() > 0xFFFF_FFFF {
                return Err(RecordError::FlushFailed);
            }
            let bytes = encode_entry(&v, &l);
            let len = bytes.len();
            proof {
                lemma_enc_u64s(l@);
                if flush_fits(pre) {
                    assert(len <= 0x7_FFFC);
                }
            }
            if len > 0xFFFF_FFFF || tmp.record_count >= BAD_COUNT - 1 || len > usize::MAX - 4
                || tmp.end_of_file > (usize::MAX - 4 - len) as u64 {
                return Err(RecordError::FlushFailed);
            }
            let ghost tmp0 = tmp;
            let loc = tmp.append(bytes.as_slice());
            assert(tmp.data@.subrange(0, 12) =~= tmp0.data@.subrange(0, 12));
            proof {
                lemma_entry_round_trip(v@, l@);
                assert forall|a: int| 0 <= a < new_es.len() implies (#[trigger] new_es[a]).0 != v@ by {
                    if a < n {
                        assert(new_es[a] == new_es.subrange(0, n as int)[a]);
                        assert(new_es[a] == phase1[a]);
                        assert(k@ != enc_val(pre.entries@[a].0));
                    } else {
                        let i = a - n;
                        assert(enc_val(new_es[n + i].0) == rest@[i].0@);
                        assert(rest@[i].0@ != rest@[q as int].0@);
                    }
                }
                lemma_entries_push(tmp0, tmp, new_es, new_terms@, v, l@, bytes@, loc);
            }
            new_terms.push((v, loc));
            proof {
                let old_es = new_es;
                new_es = new_es.push((v@, l@));
                assert(new_es.subrange(0, n as int) =~= old_es.subrange(0, n as int));
                assert(new_es[n + q] == (v@, l@));
                assert forall|a: int| 0 <= a < q + 1 implies enc_val((#[trigger] new_es[n + a]).0) == rest@[a].0@
                    && new_es[n + a].1.to_set() == rest@[a].1@.to_set() by {
                    if a < q {
                        assert(new_es[n + a] == old_es[n + a]);
                    }
                }
            }
            q = q + 1;
        }
        proof {
            let post_es = new_es;
            assert forall|v: Val| wf_val(v) implies #[trigger] disk_set_of(post_es, v) == pre.offsets(v) by {
                lemma_flush_outcome(pre, post_es, phase1, pending_of(work), rest@, v);
            }
            assert forall|v: Val| wf_val(v) implies (#[trigger] has_entry(post_es, v) <==> (has_entry(
                pre.entries@,
                v,
            ) || pre.pending().contains_key(enc_val(v)))) by {
                lemma_flush_entries(pre, post_es, phase1, pending_of(work), rest@, v);
            }
        }
        self.rec_file = tmp;
        self.term_map = new_terms;
        self.entries = Ghost(new_es);
        mm_clear(&mut self.mem_index);
        proof {
            assert forall|v: Val| wf_val(v) implies #[trigger] self.disk_list(v).to_set() == pre.offsets(v) by {
                lemma_disk_list_is(self, v);
            }
        }
        Ok(())
    }
}

proof fn lemma_key_fresh(pre: IndexFile, j: int)
    requires
        pre.wf(),
        0 <= j < pre.entries@.len(),
    ensures
        forall|q: int|
            0 <= q < j ==> enc_val(pre.entries@[j].0) != enc_val(#[trigger] pre.entries@[q].0),
{
    assert forall|q: int| 0 <= q < j implies enc_val(pre.entries@[j].0) != enc_val(
        #[trigger] pre.entries@[q].0,
    ) by {
        if enc_val(pre.entries@[j].0) == enc_val(pre.entries@[q].0) {
            lemma_enc_injective(pre.entries@[j].0, pre.entries@[q].0);
        }
    }
}

proof fn lemma_pending_step(
    work0: Map<Seq<u8>, Seq<u64>>,
    work1: Map<Seq<u8>, Seq<u64>>,
    pending: Map<Seq<u8>, Seq<u64>>,
    es: Seq<(Val, Seq<u64>)>,
    j: int,
)
    requires
        0 <= j < es.len(),
        pending_after(work0, pending, es, j),
        work1 == work0.remove(enc_val(es[j].0)),
    ensures
        pending_after(work1, pending, es, j + 1),
{
    assert forall|k: Seq<u8>| #[trigger] work1.contains_key(k) == (pending.contains_key(k) && forall|q: int|
        0 <= q < j + 1 ==> k != enc_val(#[trigger] es[q].0)) && (work1.contains_key(k) ==> work1[k]
        == pending[k]) by {
        assert(work0.contains_key(k) == (pending.contains_key(k) && forall|q: int|
            0 <= q < j ==> k != enc_val(#[trigger] es[q].0)));
        if k == enc_val(es[j].0) {
            assert(!work1.contains_key(k));
        }
    }
}

proof fn lemma_entries_push(
    tmp0: RecordFile,
    tmp: RecordFile,
    es: Seq<(Val, Seq<u64>)>,
    tm: Seq<(LogValue, u64)>,
    v: LogValue,
    offs: Seq<u64>,
    bytes: Seq<u8>,
    loc: u64,
)
    requires
        tmp0.wf(),
        tmp.wf(),
        entries_wf(tmp0, es, tm),
        tmp.header_len == tmp0.header_len,
        tmp.records@ == tmp0.records@.push(bytes),
        loc == tmp0.offset_of(tmp0.records@.len() as int),
        bytes == enc_entry(v@, offs),
        parse_entry(bytes) == Some((v@, offs)),
        v.wf(),
        wf_val(v@),
        strictly_ascending(offs),
        forall|a: int| 0 <= a < es.len() ==> (#[trigger] es[a]).0 != v@,
    ensures
        entries_wf(tmp, es.push((v@, offs)), tm.push((v, loc))),
{
    let es2 = es.push((v@, offs));
    let tm2 = tm.push((v, loc));
    assert forall|a: int| 0 <= a <= es.len() implies tmp.offset_of(a) == tmp0.offset_of(a) by {
        assert(tmp.records@.take(a) =~= tmp0.records@.take(a));
    }
    assert forall|a: int|
        0 <= a < es2.len() implies parse_entry(tmp.records@[a]) == Some(#[trigger] es2[a])
            && strictly_ascending(es2[a].1) && wf_val(es2[a].0) by {
        if a < es.len() {
            assert(tmp.records@[a] == tmp0.records@[a]);
        }
    }
    assert forall|a: int|
        0 <= a < tm2.len() implies (#[trigger] tm2[a]).0@ == es2[a].0 && tm2[a].0.wf() && tm2[a].1
            == tmp.offset_of(a) by {
        if a < tm.len() {
            assert(tm2[a] == tm[a]);
        }
    }
    assert forall|a: int, b: int| 0 <= a < b < es2.len() implies (#[trigger] es2[a]).0 != (
    #[trigger] es2[b]).0 by {
        if b == es.len() {
            assert(es2[a] == es[a]);
        }
    }
}

impl IndexFile {
    /// Flushes, writes the count and end into the image, and stores the
    /// term map right after the accounted end.
    #[verifier::spinoff_prover]
    pub fn close(&mut self) -> (r: Result<(), RecordError>)
        requires
            old(self).wf(),
        ensures
            final(self).wf(),
            final(self).index_name == old(self).index_name,
            match r {
                Ok(()) => {
                    &&& final(self).pending().dom() == Set::<Seq<u8>>::empty()
                    &&& closed_layout(*final(self))
                    &&& final(self).rec_file.data@ == final(self).rec_file.data@.subrange(
                        0,
                        final(self).rec_file.end_of_file as int,
                    ) + enc_terms(terms_view(final(self).term_map@))
                },
                Err(e) => e == RecordError::FlushFailed && *final(self) == *old(self),
            },
            r is Ok ==> forall|v: Val|
                wf_val(v) ==> #[trigger] final(self).disk_list(v).to_set() == old(self).offsets(v),
            r is Ok ==> forall|v: Val| wf_val(v) ==> #[trigger] final(self).offsets(v) == old(self).offsets(v),
            flush_fits(*old(self)) ==> r is Ok,
    {
        match self.flush() {
            Ok(()) => {},
            Err(e) => {
                return Err(e);
            },
        }
        let ghost flushed = *self;
        self.persist_terms();
        proof {
            lemma_close_offsets(*old(self), flushed, *self);
        }
        Ok(())
    }

    fn persist_terms(&mut self)
        requires
            old(self).wf(),
        ensures
            final(self).wf(),
            final(self).mem_index == old(self).mem_index,
            final(self).term_map@ == old(self).term_map@,
            final(self).entries == old(self).entries,
            final(self).index_name == old(self).index_name,
            final(self).rec_file.data@ == final(self).rec_file.data@.subrange(
                0,
                final(self).rec_file.end_of_file as int,
            ) + enc_terms(terms_view(final(self).term_map@)),
            final(self).rec_file.data@.subrange(12, 16) == le32(final(self).rec_file.record_count),
            final(self).rec_file.data@.subrange(16, 24) == le64(final(self).rec_file.end_of_file),
            final(self).rec_file.record_count == old(self).rec_file.record_count,
    {
        let ghost before = self.rec_file;
        self.rec_file.close();
        let ghost closed = self.rec_file;
        let blob = encode_terms(&self.term_map);
        self.rec_file.write_tail(blob.as_slice());
        proof {
            lemma_entries_wf_same_records(before, self.rec_file, self.entries@, self.term_map@);
            assert(self.rec_file.data@.subrange(0, 12) =~= before.data@.subrange(0, 12));
            assert(self.rec_file.data@.subrange(12, 16) =~= le32(before.record_count));
            assert(self.rec_file.data@.subrange(16, 24) =~= le64(before.end_of_file));
            assert(self.rec_file.data@.subrange(0, self.rec_file.end_of_file as int) + blob@
                =~= self.rec_file.data@);
        }
    }

    /// The image of the backing file.
    pub fn image(&self) -> (r: &Vec<u8>)
        ensures
            r@ == self.rec_file.data@,
    {
        &self.rec_file.data
    }
}

proof fn lemma_entries_wf_same_records(
    a: RecordFile,
    b: RecordFile,
    es: Seq<(Val, Seq<u64>)>,
    tm: Seq<(LogValue, u64)>,
)
    requires
        entries_wf(a, es, tm),
        a.records@ == b.records@,
        a.header_len == b.header_len,
    ensures
        entries_wf(b, es, tm),
{
    assert forall|j: int| 0 <= j < tm.len() implies b.offset_of(j) == a.offset_of(j) by {}
}

/// Adding one value at two different offsets keeps both offsets.
pub proof fn lemma_add_twice(a: IndexFile, b: IndexFile, c: IndexFile, v: Val, o1: u64, o2: u64)
    requires
        b.pending() == a.pending().insert(enc_val(v), a.mem_list(v).push(o1)),
        c.pending() == b.pending().insert(enc_val(v), b.mem_list(v).push(o2)),
    ensures
        c.offsets(v).contains(o1),
        c.offsets(v).contains(o2),
{
    let l = c.mem_list(v);
    assert(l == a.mem_list(v).push(o1).push(o2));
    assert(l[l.len() - 1] == o2);
    assert(l[l.len() - 2] == o1);
    assert(l.to_set().contains(o1));
    assert(l.to_set().contains(o2));
}

/// The count and end fields hold the file's own, and the term map follows
/// the accounted end.
pub open spec fn closed_layout(ix: IndexFile) -> bool {
    &&& ix.rec_file.data@.subrange(12, 16) == le32(ix.rec_file.record_count)
    &&& ix.rec_file.data@.subrange(16, 24) == le64(ix.rec_file.end_of_file)
    &&& ix.rec_file.data@ == ix.rec_file.data@.subrange(0, ix.rec_file.end_of_file as int) + enc_terms(
        terms_view(ix.term_map@),
    )
}

/// The image of a closed index opens, to the same records.
pub proof fn lemma_closed_index_valid(ix: IndexFile)
    requires
        ix.wf(),
        closed_layout(ix),
    ensures
        valid_index_image(ix.rec_file.data@),
        crate::record_file::open_spec(ix.rec_file.data@, index_header()) == Ok::<(Seq<Seq<u8>>, int), RecordError>(
            (ix.rec_file.records@, ix.rec_file.end_of_file as int),
        ),
{
    let f = ix.rec_file;
    crate::record_file::lemma_open_closed(f, index_header());
    let recs = f.records@;
    let es = ix.entries@;
    let tm = ix.term_map@;
    assert forall|j: int| 0 <= j < recs.len() implies (#[trigger] parse_entry(recs[j])) is Some
        && strictly_ascending(parse_entry(recs[j])->Some_0.1) && wf_val(parse_entry(recs[j])->Some_0.0) by {
        assert(parse_entry(recs[j]) == Some(es[j]));
    }
    assert forall|i: int, j: int| 0 <= i < j < recs.len() implies (#[trigger] parse_entry(recs[i]))->Some_0.0
        != (#[trigger] parse_entry(recs[j]))->Some_0.0 by {
        assert(parse_entry(recs[i]) == Some(es[i]));
        assert(parse_entry(recs[j]) == Some(es[j]));
    }
    let eof = f.end_of_file as int;
    let tail = f.data@.subrange(eof, f.data@.len() as int);
    assert(tail =~= enc_terms(terms_view(tm)));
    assert(terms_view(tm) =~= aligned_terms(recs)) by {
        assert forall|j: int| 0 <= j < tm.len() implies terms_view(tm)[j] == aligned_terms(recs)[j] by {
            assert(parse_entry(recs[j]) == Some(es[j]));
        }
    }
    assert forall|i: int| 0 <= i < terms_view(tm).len() implies wf_val(#[trigger] terms_view(tm)[i].0) by {
        assert(tm[i].0@ == es[i].0);
    }
    crate::index_codec::lemma_terms_round_trip(terms_view(tm));
}

/// An index opened from the image of a closed one holds the same offsets
/// for every value.
pub proof fn lemma_index_reopen(ix: IndexFile, re: IndexFile, v: Val)
    requires
        ix.wf(),
        re.wf(),
        ix.pending().dom() == Set::<Seq<u8>>::empty(),
        re.pending().dom() == Set::<Seq<u8>>::empty(),
        re.rec_file.records@ == ix.rec_file.records@,
    ensures
        re.offsets(v) == ix.offsets(v),
{
    assert(re.entries@ =~= ix.entries@) by {
        assert forall|j: int| 0 <= j < re.entries@.len() implies re.entries@[j] == ix.entries@[j] by {
            assert(parse_entry(re.rec_file.records@[j]) == Some(re.entries@[j]));
            assert(parse_entry(ix.rec_file.records@[j]) == Some(ix.entries@[j]));
        }
    }
    assert(!re.pending().contains_key(enc_val(v)));
    assert(!ix.pending().contains_key(enc_val(v)));
}

proof fn lemma_close_offsets(pre: IndexFile, flushed: IndexFile, fin: IndexFile)
    requires
        flushed.pending().dom() == Set::<Seq<u8>>::empty(),
        forall|v: Val| wf_val(v) ==> #[trigger] flushed.disk_list(v).to_set() == pre.offsets(v),
        fin.entries == flushed.entries,
        fin.mem_index == flushed.mem_index,
    ensures
        forall|v: Val| wf_val(v) ==> #[trigger] fin.disk_list(v).to_set() == pre.offsets(v),
        forall|v: Val| wf_val(v) ==> #[trigger] fin.offsets(v) == pre.offsets(v),
{
    assert forall|v: Val| wf_val(v) implies #[trigger] fin.disk_list(v).to_set() == pre.offsets(v) by {
        assert(fin.disk_list(v) == flushed.disk_list(v));
    }
    assert forall|v: Val| wf_val(v) implies #[trigger] fin.offsets(v) == pre.offsets(v) by {
        assert(fin.disk_list(v) == flushed.disk_list(v));
        lemma_offsets_without_pending(fin, v);
    }
}

/// With nothing pending, the offsets of a value are those on disk.
pub proof fn lemma_offsets_without_pending(ix: IndexFile, v: Val)
    requires
        ix.pending().dom() == Set::<Seq<u8>>::empty(),
    ensures
        ix.offsets(v) == ix.disk_list(v).to_set(),
{
    assert(!ix.pending().contains_key(enc_val(v)));
    assert(ix.mem_list(v).to_set() =~= Set::<u64>::empty());
    assert(ix.offsets(v) =~= ix.disk_list(v).to_set());
}

/// The offsets of the entry for `v` in `es`, as a set.
pub open spec fn disk_set_of(es: Seq<(Val, Seq<u64>)>, v: Val) -> Set<u64> {
    if exists|j: int| 0 <= j < es.len() && (#[trigger] es[j]).0 == v {
        es[choose|j: int| 0 <= j < es.len() && (#[trigger] es[j]).0 == v].1.to_set()
    } else {
        Set::empty()
    }
}

proof fn lemma_disk_list_is(f: &IndexFile, v: Val)
    ensures
        f.disk_list(v).to_set() == disk_set_of(f.entries@, v),
{
    if !(exists|j: int| 0 <= j < f.entries@.len() && (#[trigger] f.entries@[j]).0 == v) {
        assert(Seq::<u64>::empty().to_set() =~= Set::<u64>::empty());
    }
}

/// Some entry of `es` is for `v`.
pub open spec fn has_entry(es: Seq<(Val, Seq<u64>)>, v: Val) -> bool {
    exists|j: int| 0 <= j < es.len() && (#[trigger] es[j]).0 == v
}

proof fn lemma_flush_entries(
    pre: IndexFile,
    post: Seq<(Val, Seq<u64>)>,
    phase1: Seq<(Val, Seq<u64>)>,
    work: Map<Seq<u8>, Seq<u64>>,
    rest: Seq<(Vec<u8>, Vec<u64>)>,
    v: Val,
)
    requires
        pre.wf(),
        wf_val(v),
        post.len() == pre.entries@.len() + rest.len(),
        post.subrange(0, pre.entries@.len() as int) == phase1,
        forall|a: int| 0 <= a < post.len() ==> wf_val((#[trigger] post[a]).0),
        forall|a: int| 0 <= a < pre.entries@.len() ==> (#[trigger] phase1[a]).0 == pre.entries@[a].0,
        pending_after(work, pre.pending(), pre.entries@, pre.entries@.len() as int),
        forall|i: int| 0 <= i < rest.len() ==> work.contains_key((#[trigger] rest[i]).0@),
        forall|k: Seq<u8>|
            #[trigger] work.contains_key(k) ==> exists|i: int| 0 <= i < rest.len() && (#[trigger] rest[i]).0@ == k,
        forall|a: int|
            0 <= a < rest.len() ==> enc_val((#[trigger] post[pre.entries@.len() + a]).0) == rest[a].0@,
    ensures
        has_entry(post, v) <==> (has_entry(pre.entries@, v) || pre.pending().contains_key(enc_val(v))),
{
    let n = pre.entries@.len() as int;
    if has_entry(post, v) {
        let j = choose|j: int| 0 <= j < post.len() && (#[trigger] post[j]).0 == v;
        if j < n {
            assert(post[j] == phase1[j]);
            assert(pre.entries@[j].0 == v);
        } else {
            let a = j - n;
            assert(enc_val(post[n + a].0) == rest[a].0@);
            assert(work.contains_key(rest[a].0@));
        }
    }
    if has_entry(pre.entries@, v) {
        let j = choose|j: int| 0 <= j < n && (#[trigger] pre.entries@[j]).0 == v;
        assert(post[j] == phase1[j]);
        assert(post[j].0 == v);
    } else if pre.pending().contains_key(enc_val(v)) {
        let k = enc_val(v);
        assert forall|q: int| 0 <= q < n implies k != enc_val(#[trigger] pre.entries@[q].0) by {
            if k == enc_val(pre.entries@[q].0) {
                lemma_enc_injective(v, pre.entries@[q].0);
            }
        }
        assert(work.contains_key(k));
        let i = choose|i: int| 0 <= i < rest.len() && (#[trigger] rest[i]).0@ == k;
        assert(enc_val(post[n + i].0) == k);
        lemma_enc_injective(post[n + i].0, v);
        assert(post[n + i].0 == v);
    }
}

proof fn lemma_flush_outcome(
    pre: IndexFile,
    post: Seq<(Val, Seq<u64>)>,
    phase1: Seq<(Val, Seq<u64>)>,
    work: Map<Seq<u8>, Seq<u64>>,
    rest: Seq<(Vec<u8>, Vec<u64>)>,
    v: Val,
)
    requires
        pre.wf(),
        wf_val(v),
        post.len() == pre.entries@.len() + rest.len(),
        post.subrange(0, pre.entries@.len() as int) == phase1,
        forall|a: int, b: int| 0 <= a < b < post.len() ==> (#[trigger] post[a]).0 != (#[trigger] post[b]).0,
        forall|a: int| 0 <= a < post.len() ==> wf_val((#[trigger] post[a]).0),
        forall|a: int|
            0 <= a < pre.entries@.len() ==> (#[trigger] phase1[a]).0 == pre.entries@[a].0
                && phase1[a].1.to_set() == pre.entries@[a].1.to_set() + pre.mem_list(
                pre.entries@[a].0,
            ).to_set(),
        pending_after(work, pre.pending(), pre.entries@, pre.entries@.len() as int),
        forall|i: int|
            0 <= i < rest.len() ==> work.contains_key((#[trigger] rest[i]).0@) && work[rest[i].0@]
                == rest[i].1@,
        forall|k: Seq<u8>|
            #[trigger] work.contains_key(k) ==> exists|i: int| 0 <= i < rest.len() && (#[trigger] rest[i]).0@ == k,
        forall|a: int|
            0 <= a < rest.len() ==> enc_val((#[trigger] post[pre.entries@.len() + a]).0) == rest[a].0@
                && post[pre.entries@.len() + a].1.to_set() == rest[a].1@.to_set(),
    ensures
        disk_set_of(post, v) == pre.offsets(v),
{
    let n = pre.entries@.len() as int;
    if exists|j: int| 0 <= j < n && (#[trigger] pre.entries@[j]).0 == v {
        let j = choose|j: int| 0 <= j < n && (#[trigger] pre.entries@[j]).0 == v;
        lemma_disk_list_at(&pre, j);
        assert(post[j] == phase1[j]);
        assert(exists|a: int| 0 <= a < post.len() && (#[trigger] post[a]).0 == v);
        let a = choose|a: int| 0 <= a < post.len() && (#[trigger] post[a]).0 == v;
        if a != j {
            if a < j {
                assert(post[a].0 != post[j].0);
            } else {
                assert(post[j].0 != post[a].0);
            }
        }
    } else {
        lemma_disk_list_absent(&pre, v);
        assert(Seq::<u64>::empty().to_set() =~= Set::<u64>::empty());
        let k = enc_val(v);
        assert forall|q: int| 0 <= q < n implies k != enc_val(#[trigger] pre.entries@[q].0) by {
            if k == enc_val(pre.entries@[q].0) {
                lemma_enc_injective(v, pre.entries@[q].0);
            }
        }
        if pre.pending().contains_key(k) {
            assert(work.contains_key(k));
            let i = choose|i: int| 0 <= i < rest.len() && (#[trigger] rest[i]).0@ == k;
            let a = n + i;
            assert(enc_val(post[a].0) == k);
            lemma_enc_injective(post[a].0, v);
            assert(exists|b: int| 0 <= b < post.len() && (#[trigger] post[b]).0 == v);
            let b = choose|b: int| 0 <= b < post.len() && (#[trigger] post[b]).0 == v;
            if b != a {
                if b < a {
                    assert(post[b].0 != post[a].0);
                } else {
                    assert(post[a].0 != post[b].0);
                }
            }
            assert(pre.offsets(v) =~= rest[i].1@.to_set());
        } else {
            assert forall|b: int| 0 <= b < post.len() implies (#[trigger] post[b]).0 != v by {
                if b < n {
                    assert(post[b] == phase1[b]);
                } else {
                    let i = b - n;
                    if post[b].0 == v {
                        assert(enc_val(post[n + i].0) == rest[i].0@);
                        assert(work.contains_key(rest[i].0@));
                    }
                }
            }
            assert(pre.offsets(v) =~= Set::<u64>::empty());
        }
    }
}

} // verus!
