//! What the ingest side does to a submitted record before it is stored:
//! reserved names are refused, fields are put in name order, arrays in value
//! order, and two fields are added: `__ts`, the time of ingest, and `__id`, a
//! hash of the fields and the time.
use vstd::prelude::*;
use vstd::utf8::encode_utf8;

use std::hash::Hasher;
use twox_hash::XxHash64;

use crate::bytes::{le64, push_range, push_u64};
use crate::log_value::{cmp_val, f64_key, value_bytes, LogValue, Val};
use crate::record_codec::{record_view, Record};
use crate::record_error::RecordError;

verus! {

/// The seed of the record id hash.
pub const ID_SEED: u64 = 0xBEDBEEF;

/// What XxHash64 with `seed` gives for `b`.
pub uninterp spec fn xxh64_of(seed: u64, b: Seq<u8>) -> u64;

/// The standard base64 text of `b`, without padding.
pub uninterp spec fn base64_no_pad_of(b: Seq<u8>) -> Seq<char>;

/// Relies on `twox_hash::XxHash64` (`with_seed`, `write`, `finish`): the
/// hash of the bytes written, for the seed.
#[verifier::external_body]
fn xxh64(seed: u64, b: &[u8]) -> (r: u64)
    ensures
        r == xxh64_of(seed, b@),
{
    let mut h = XxHash64::with_seed(seed);
    h.write(b);
    h.finish()
}

/// Relies on `base64::encode_config` with `STANDARD_NO_PAD`: the base64 text
/// of the eight little-endian bytes of `x`, eleven characters.
#[verifier::external_body]
fn base64_u64(x: u64) -> (r: String)
    ensures
        r@ == base64_no_pad_of(le64(x)),
        r@.len() == 11,
{
    base64::encode_config(x.to_le_bytes(), base64::STANDARD_NO_PAD)
}

/// The order of two field names: that of their UTF-8 bytes.
pub open spec fn name_le(a: Seq<char>, b: Seq<char>) -> bool {
    crate::log_value::lex_bytes(encode_utf8(a), encode_utf8(b)) <= 0
}

/// Relies on `slice::sort_by` with the order of field names: the fields are
/// rearranged into name order.
#[verifier::external_body]
fn sort_fields(v: &mut Vec<(String, LogValue)>)
    ensures
        final(v)@.to_multiset() == old(v)@.to_multiset(),
        final(v)@.len() == old(v)@.len(),
        forall|i: int, j: int|
            0 <= i < j < final(v)@.len() ==> name_le((#[trigger] final(v)@[i]).0@, (#[trigger] final(v)@[j]).0@),
{
    v.sort_by(|a, b| compare_names(a, b))
}

/// Relies on `slice::sort_by` with the order of values: the values are
/// rearranged into ascending order.
#[verifier::external_body]
fn sort_values(v: &mut Vec<LogValue>)
    requires
        forall|i: int| 0 <= i < old(v)@.len() ==> (#[trigger] old(v)@[i]).wf(),
    ensures
        final(v)@.to_multiset() == old(v)@.to_multiset(),
        final(v)@.len() == old(v)@.len(),
        forall|i: int, j: int|
            0 <= i < j < final(v)@.len() ==> cmp_val((#[trigger] final(v)@[i])@, (#[trigger] final(v)@[j])@) <= 0,
{
    v.sort_by(|a, b| a.compare(b))
}

/// The order of two fields by name.
pub fn compare_names(a: &(String, LogValue), b: &(String, LogValue)) -> (r: core::cmp::Ordering)
    ensures
        (r == core::cmp::Ordering::Greater) == !name_le(a.0@, b.0@),
{
    let c = crate::log_value::lex_compare_bytes(a.0.as_str().as_bytes(), b.0.as_str().as_bytes());
    if c < 0 {
        core::cmp::Ordering::Less
    } else if c == 0 {
        core::cmp::Ordering::Equal
    } else {
        core::cmp::Ordering::Greater
    }
}

/// Whether a name starts with `__`.
pub open spec fn is_reserved(name: Seq<char>) -> bool {
    name.len() >= 2 && name[0] == '_' && name[1] == '_'
}

/// The bytes hashed into a record's id: each name and value, then `__ts`
/// and the time.
pub open spec fn id_input(fields: Seq<(Seq<char>, Val)>, ts: u64) -> Seq<u8> {
    fields_bytes(fields) + seq![95u8, 95u8, 116u8, 115u8] + le64(ts)
}

pub open spec fn fields_bytes(fields: Seq<(Seq<char>, Val)>) -> Seq<u8>
    decreases fields.len(),
{
    if fields.len() == 0 {
        seq![]
    } else {
        fields_bytes(fields.drop_last()) + encode_utf8(fields.last().0) + value_bytes(fields.last().1)
    }
}

/// The id of a record with `fields` stored at time `ts`.
pub open spec fn record_id(fields: Seq<(Seq<char>, Val)>, ts: u64) -> Seq<char> {
    base64_no_pad_of(le64(xxh64_of(ID_SEED, id_input(fields, ts))))
}

fn reserved(name: &String) -> (r: bool)
    ensures
        r == is_reserved(name@),
{
    let n = name.as_str().unicode_len();
    if n < 2 {
        return false;
    }
    name.as_str().get_char(0) == '_' && name.as_str().get_char(1) == '_'
}

/// The bytes hashed into the id of a record with `fields` stored at `ts`.
pub fn id_bytes(fields: &Record, ts: u64) -> (r: Vec<u8>)
    requires
        forall|i: int| 0 <= i < fields@.len() ==> (#[trigger] fields@[i]).1.wf(),
    ensures
        r@ == id_input(record_view(fields@), ts),
{
    let ghost fs = record_view(fields@);
    let mut out: Vec<u8> = Vec::new();
    let mut i: usize = 0;
    while i < fields.len()
        invariant
            forall|i: int| 0 <= i < fields@.len() ==> (#[trigger] fields@[i]).1.wf(),
            fs == record_view(fields@),
            0 <= i <= fields@.len(),
            out@ == fields_bytes(fs.subrange(0, i as int)),
        decreases fields@.len() - i,
    {
        let name = fields[i].0.as_str().as_bytes();
        push_range(&mut out, name, 0, name.len());
        assert(name@.subrange(0, name@.len() as int) =~= name@);
        assert(fields@[i as int].1.wf());
        let vb = fields[i].1.as_bytes();
        push_range(&mut out, vb.as_slice(), 0, vb.len());
        assert(vb@.subrange(0, vb@.len() as int) =~= vb@);
        proof {
            let next = fs.subrange(0, i + 1);
            assert(next.drop_last() =~= fs.subrange(0, i as int));
            assert(next.last() == (fields@[i as int].0@, fields@[i as int].1@));
        }
        i = i + 1;
        assert(out@ =~= fields_bytes(fs.subrange(0, i as int)));
    }
    assert(fs.subrange(0, fields@.len() as int) =~= fs);
    out.push(95u8);
    out.push(95u8);
    out.push(116u8);
    out.push(115u8);
    push_u64(&mut out, ts);
    assert(out@ =~= id_input(fs, ts));
    out
}

/// The id of a record with `fields` stored at `ts`.
pub fn make_id(fields: &Record, ts: u64) -> (r: String)
    requires
        forall|i: int| 0 <= i < fields@.len() ==> (#[trigger] fields@[i]).1.wf(),
    ensures
        r@ == record_id(record_view(fields@), ts),
{
    let b = id_bytes(fields, ts);
    let h = xxh64(ID_SEED, b.as_slice());
    base64_u64(h)
}

fn str_lit_ts() -> (r: String)
    ensures
        r@ == seq!['_', '_', 't', 's'],
{
    let r = String::from_str("__ts");
    proof {
        reveal_strlit("__ts");
    }
    r
}

fn str_lit_id() -> (r: String)
    ensures
        r@ == seq!['_', '_', 'i', 'd'],
{
    let r = String::from_str("__id");
    proof {
        reveal_strlit("__id");
    }
    r
}

proof fn lemma_perm_elements<T>(a: Seq<T>, b: Seq<T>)
    requires
        a.to_multiset() == b.to_multiset(),
    ensures
        forall|i: int| 0 <= i < b.len() ==> a.contains(#[trigger] b[i]),
{
    broadcast use vstd::seq_lib::group_to_multiset_ensures;

    assert forall|i: int| 0 <= i < b.len() implies a.contains(#[trigger] b[i]) by {
        assert(b.contains(b[i]));
        assert(b.to_multiset().count(b[i]) > 0);
    }
}

/// `o` is `i` with the elements of an array, if `i` is one, rearranged
/// into ascending order.
pub open spec fn sorted_from(o: LogValue, i: LogValue) -> bool {
    match i {
        LogValue::Array(x) => o matches LogValue::Array(y) && y@.to_multiset() == x@.to_multiset()
            && forall|a: int, b: int|
            0 <= a < b < y@.len() ==> cmp_val((#[trigger] y@[a])@, (#[trigger] y@[b])@) <= 0,
        _ => o == i,
    }
}

/// `out` holds the fields of `fields`, rearranged, each value with its
/// array elements sorted.
pub open spec fn normalized_from(out: Seq<(String, LogValue)>, fields: Seq<(String, LogValue)>) -> bool {
    exists|p: Seq<(String, LogValue)>|
        {
            &&& p.to_multiset() == fields.to_multiset()
            &&& p.len() == out.len()
            &&& forall|a: int|
                0 <= a < out.len() ==> (#[trigger] out[a]).0 == p[a].0 && sorted_from(out[a].1, p[a].1)
        }
}

/// A value with the elements of an array in ascending order.
fn sort_array(v: LogValue) -> (r: LogValue)
    requires
        v.wf(),
    ensures
        r.wf(),
        !(v is Array) ==> r@ == v@,
        v is Array <==> r is Array,
        r matches LogValue::Array(items) ==> forall|i: int, j: int|
            0 <= i < j < items@.len() ==> cmp_val((#[trigger] items@[i])@, (#[trigger] items@[j])@) <= 0,
        sorted_from(r, v),
{
    match v {
        LogValue::Array(items) => {
            let mut items = items;
            proof {
                assert forall|i: int| 0 <= i < items@.len() implies (#[trigger] items@[i]).wf() by {
                    assert(items@[i]@ == items@.map_values(|x: LogValue| x.scalar_view())[i]);
                }
            }
            let ghost before = items@;
            sort_values(&mut items);
            proof {
                lemma_perm_elements(before, items@);
                assert forall|i: int| 0 <= i < items@.len() implies !(#[trigger] items@[i] is Array)
                    && crate::log_value::wf_scalar(items@[i].scalar_view()) by {
                    assert(before.contains(items@[i]));
                    let k = choose|k: int| 0 <= k < before.len() && before[k] == items@[i];
                    assert(before.map_values(|x: LogValue| x.scalar_view())[k] == before[k].scalar_view());
                }
            }
            LogValue::Array(items)
        },
        other => other,
    }
}

/// Refuses reserved names, sorts the fields by name and each array's
/// elements.
pub fn normalize(fields: Record) -> (r: Result<Record, RecordError>)
    requires
        forall|i: int| 0 <= i < fields@.len() ==> (#[trigger] fields@[i]).1.wf(),
    ensures
        r is Err <==> exists|i: int| 0 <= i < fields@.len() && is_reserved((#[trigger] fields@[i]).0@),
        r matches Err(e) ==> e == RecordError::ReservedField,
        r matches Ok(out) ==> {
            &&& out@.len() == fields@.len()
            &&& forall|i: int| 0 <= i < out@.len() ==> (#[trigger] out@[i]).1.wf()
            &&& forall|i: int, j: int|
                0 <= i < j < out@.len() ==> name_le((#[trigger] out@[i]).0@, (#[trigger] out@[j]).0@)
            &&& normalized_from(out@, fields@)
        },
{
    let mut i: usize = 0;
    while i < fields.len()
        invariant
            0 <= i <= fields@.len(),
            forall|a: int| 0 <= a < i ==> !is_reserved((#[trigger] fields@[a]).0@),
        decreases fields@.len() - i,
    {
        if reserved(&fields[i].0) {
            return Err(RecordError::ReservedField);
        }
        i = i + 1;
    }
    let ghost before = fields@;
    let mut rest = fields;
    sort_fields(&mut rest);
    proof {
        lemma_perm_elements(before, rest@);
        assert forall|a: int| 0 <= a < rest@.len() implies (#[trigger] rest@[a]).1.wf() by {
            assert(before.contains(rest@[a]));
        }
    }
    let ghost sorted = rest@;
    let mut out: Record = Vec::new();
    let n = rest.len();
    let mut k: usize = 0;
    while k < n
        invariant
            n == sorted.len(),
            0 <= k <= n,
            rest@ == sorted.subrange(k as int, n as int),
            out@.len() == k,
            forall|a: int|
                0 <= a < k ==> (#[trigger] out@[a]).0 == sorted[a].0 && out@[a].1.wf() && sorted_from(
                    out@[a].1,
                    sorted[a].1,
                ),
            forall|a: int| 0 <= a < n ==> (#[trigger] sorted[a]).1.wf(),
        decreases n - k,
    {
        let (name, v) = rest.remove(0);
        assert((name, v) == sorted[k as int]);
        let v = sort_array(v);
        out.push((name, v));
        k = k + 1;
        assert(rest@ =~= sorted.subrange(k as int, n as int));
    }
    proof {
        assert forall|a: int, b: int| 0 <= a < b < out@.len() implies name_le(
            (#[trigger] out@[a]).0@,
            (#[trigger] out@[b]).0@,
        ) by {
            assert(name_le(sorted[a].0@, sorted[b].0@));
        }
        assert(normalized_from(out@, fields@)) by {
            assert(sorted.to_multiset() == before.to_multiset());
        }
    }
    Ok(out)
}

/// Prepares a submitted record for storage: `normalize`, then adds `__ts`
/// (the number whose double has the bits `ts_bits`, the time `ts` in
/// milliseconds) and `__id`, the id of the sorted fields and the time.
pub fn value2map(fields: Record, ts: u64, ts_bits: u64) -> (r: Result<Record, RecordError>)
    requires
        forall|i: int| 0 <= i < fields@.len() ==> (#[trigger] fields@[i]).1.wf(),
    ensures
        r is Err <==> exists|i: int| 0 <= i < fields@.len() && is_reserved((#[trigger] fields@[i]).0@),
        r matches Err(e) ==> e == RecordError::ReservedField,
        r matches Ok(out) ==> with_ts_and_id(out@, fields@.len() as int, ts, ts_bits),
        r matches Ok(out) ==> normalized_from(out@.subrange(0, fields@.len() as int), fields@),
{
    let mut out = normalize(fields)?;
    let ts_name = str_lit_ts();
    let id_name = str_lit_id();
    let id = make_id(&out, ts);
    let ghost sorted = out@;
    out.push((ts_name, LogValue::number_from_bits(ts_bits)));
    out.push((id_name, LogValue::String(id)));
    assert(out@.subrange(0, sorted.len() as int) =~= sorted);
    Ok(out)
}

/// `out` is `n` fields in name order followed by `__ts` and `__id`.
pub open spec fn with_ts_and_id(out: Seq<(String, LogValue)>, n: int, ts: u64, ts_bits: u64) -> bool {
    &&& out.len() == n + 2
    &&& forall|i: int, j: int| 0 <= i < j < n ==> name_le((#[trigger] out[i]).0@, (#[trigger] out[j]).0@)
    &&& out[n].0@ == seq!['_', '_', 't', 's']
    &&& out[n].1 == LogValue::Number(f64_key(ts_bits))
    &&& out[n + 1].0@ == seq!['_', '_', 'i', 'd']
    &&& out[n + 1].1 matches LogValue::String(id) && id@ == record_id(record_view(out.subrange(0, n)), ts)
}

} // verus!
