//! The binary encoding of values, records and index entries.
//!
//! A value starts with a tag byte: 0 null; 1 boolean, then 0 or 1; 2 number,
//! then its key (`u64`, LE); 3 string, then its UTF-8 length (`u32`, LE) and
//! bytes; 4 array, then its length (`u32`, LE) and its elements.
use vstd::prelude::*;
use vstd::utf8::{
    decode_utf8, decode_utf8_encode_utf8, encode_utf8, encode_utf8_decode_utf8,
    encode_utf8_valid_utf8, valid_utf8,
};

use crate::bytes::{
    copy_range, from_le32, from_le64, le32, le64, lemma_le32_round_trip, lemma_le64_round_trip,
    push_range, push_u32, push_u64, read_u32, read_u64,
};
use crate::log_value::{is_scalar, wf_scalar, wf_val, LogValue, Val};

verus! {

/// A string: its UTF-8 length, then its UTF-8 bytes.
pub open spec fn enc_str(s: Seq<char>) -> Seq<u8> {
    le32(encode_utf8(s).len() as u32) + encode_utf8(s)
}

pub open spec fn enc_scalar(v: Val) -> Seq<u8> {
    match v {
        Val::Null => seq![0u8],
        Val::Bool(b) => seq![1u8, if b { 1u8 } else { 0u8 }],
        Val::Number(k) => seq![2u8] + le64(k),
        Val::Str(s) => seq![3u8] + enc_str(s),
        Val::Array(_) => seq![],
    }
}

pub open spec fn enc_list(items: Seq<Val>) -> Seq<u8>
    decreases items.len(),
{
    if items.len() == 0 {
        seq![]
    } else {
        enc_scalar(items[0]) + enc_list(items.drop_first())
    }
}

/// The encoding of a value.
pub open spec fn enc_val(v: Val) -> Seq<u8> {
    match v {
        Val::Array(items) => seq![4u8] + le32(items.len() as u32) + enc_list(items),
        _ => enc_scalar(v),
    }
}

/// A string at the start of `s`, and how many bytes it takes.
pub open spec fn parse_str(s: Seq<u8>) -> Option<(Seq<char>, int)> {
    if s.len() < 4 {
        None
    } else {
        let n = from_le32(s.subrange(0, 4)) as int;
        if s.len() < 4 + n {
            None
        } else if valid_utf8(s.subrange(4, 4 + n)) {
            Some((decode_utf8(s.subrange(4, 4 + n)), 4 + n))
        } else {
            None
        }
    }
}

pub open spec fn parse_scalar(s: Seq<u8>) -> Option<(Val, int)> {
    if s.len() < 1 {
        None
    } else if s[0] == 0 {
        Some((Val::Null, 1))
    } else if s[0] == 1 {
        if s.len() < 2 || s[1] > 1 {
            None
        } else {
            Some((Val::Bool(s[1] == 1), 2))
        }
    } else if s[0] == 2 {
        if s.len() < 9 {
            None
        } else {
            Some((Val::Number(from_le64(s.subrange(1, 9))), 9))
        }
    } else if s[0] == 3 {
        match parse_str(s.drop_first()) {
            Some((t, n)) => Some((Val::Str(t), 1 + n)),
            None => None,
        }
    } else {
        None
    }
}

pub open spec fn parse_list(s: Seq<u8>, count: nat) -> Option<(Seq<Val>, int)>
    decreases count,
{
    if count == 0 {
        Some((seq![], 0))
    } else {
        match parse_scalar(s) {
            None => None,
            Some((v, n)) => match parse_list(s.subrange(n, s.len() as int), (count - 1) as nat) {
                None => None,
                Some((vs, m)) => Some((seq![v] + vs, n + m)),
            },
        }
    }
}

/// The value at the start of `s`, and how many bytes it takes.
pub open spec fn parse_val(s: Seq<u8>) -> Option<(Val, int)> {
    if s.len() >= 1 && s[0] == 4 {
        if s.len() < 5 {
            None
        } else {
            match parse_list(s.subrange(5, s.len() as int), from_le32(s.subrange(1, 5)) as nat) {
                Some((vs, m)) => Some((Val::Array(vs), 5 + m)),
                None => None,
            }
        }
    } else {
        parse_scalar(s)
    }
}

pub proof fn lemma_str_round_trip(x: Seq<char>, rest: Seq<u8>)
    requires
        encode_utf8(x).len() <= u32::MAX,
    ensures
        enc_str(x).len() == 4 + encode_utf8(x).len(),
        parse_str(enc_str(x) + rest) == Some((x, enc_str(x).len() as int)),
{
    let b = encode_utf8(x);
    let s = enc_str(x) + rest;
    lemma_le32_round_trip(b.len() as u32);
    assert(s.subrange(0, 4) =~= le32(b.len() as u32));
    assert(s.subrange(4, 4 + b.len() as int) =~= b);
    encode_utf8_valid_utf8(x);
    encode_utf8_decode_utf8(x);
}

pub proof fn lemma_scalar_round_trip(v: Val, rest: Seq<u8>)
    requires
        wf_scalar(v),
    ensures
        parse_scalar(enc_scalar(v) + rest) == Some((v, enc_scalar(v).len() as int)),
{
    let s = enc_scalar(v) + rest;
    match v {
        Val::Null => {},
        Val::Bool(b) => {},
        Val::Number(k) => {
            lemma_le64_round_trip(k);
            assert(s.subrange(1, 9) =~= le64(k));
        },
        Val::Str(x) => {
            lemma_str_round_trip(x, rest);
            assert(s.drop_first() =~= enc_str(x) + rest);
        },
        Val::Array(_) => {},
    }
}

pub proof fn lemma_list_round_trip(items: Seq<Val>, rest: Seq<u8>)
    requires
        forall|i: int| 0 <= i < items.len() ==> #[trigger] wf_scalar(items[i]),
    ensures
        parse_list(enc_list(items) + rest, items.len()) == Some((items, enc_list(items).len() as int)),
    decreases items.len(),
{
    if items.len() > 0 {
        let tail = items.drop_first();
        assert(wf_scalar(items[0]));
        assert forall|i: int| 0 <= i < tail.len() implies #[trigger] wf_scalar(tail[i]) by {
            assert(tail[i] == items[i + 1]);
        }
        let s = enc_list(items) + rest;
        assert(s =~= enc_scalar(items[0]) + (enc_list(tail) + rest));
        lemma_scalar_round_trip(items[0], enc_list(tail) + rest);
        let n = enc_scalar(items[0]).len() as int;
        assert(s.subrange(n, s.len() as int) =~= enc_list(tail) + rest);
        lemma_list_round_trip(tail, rest);
        assert(seq![items[0]] + tail =~= items);
    } else {
        assert(enc_list(items) + rest =~= rest);
    }
}

/// Decoding the encoding of a value gives the value back, whatever follows.
pub proof fn lemma_val_round_trip(v: Val, rest: Seq<u8>)
    requires
        wf_val(v),
    ensures
        parse_val(enc_val(v) + rest) == Some((v, enc_val(v).len() as int)),
{
    match v {
        Val::Array(items) => {
            let s = enc_val(v) + rest;
            lemma_le32_round_trip(items.len() as u32);
            assert(s.subrange(1, 5) =~= le32(items.len() as u32));
            assert(s.subrange(5, s.len() as int) =~= enc_list(items) + rest);
            assert forall|i: int| 0 <= i < items.len() implies #[trigger] wf_scalar(items[i]) by {}
            lemma_list_round_trip(items, rest);
        },
        _ => {
            lemma_scalar_round_trip(v, rest);
            assert(enc_scalar(v)[0] != 4u8);
        },
    }
}

/// Relies on `String::from_utf8`: it accepts exactly the valid UTF-8 byte
/// sequences, and the string holds the characters they encode.
#[verifier::external_body]
fn string_from_utf8(b: Vec<u8>) -> (r: Option<String>)
    ensures
        r is Some <==> valid_utf8(b@),
        r matches Some(s) ==> s@ == decode_utf8(b@),
{
    String::from_utf8(b).ok()
}

/// Appends the encoding of a string.
pub fn encode_str(s: &String, out: &mut Vec<u8>)
    requires
        encode_utf8(s@).len() <= u32::MAX,
    ensures
        final(out)@ == old(out)@ + enc_str(s@),
{
    let b = s.as_str().as_bytes();
    push_u32(out, b.len() as u32);
    push_range(out, b, 0, b.len());
    assert(b@.subrange(0, b@.len() as int) =~= b@);
    assert(out@ =~= old(out)@ + enc_str(s@));
}

/// Appends the encoding of a value.
pub fn encode_value(v: &LogValue, out: &mut Vec<u8>)
    requires
        v.wf(),
    ensures
        final(out)@ == old(out)@ + enc_val(v@),
{
    match v {
        LogValue::Array(a) => {
            out.push(4u8);
            push_u32(out, a.len() as u32);
            let ghost items = v@->Array_0;
            let ghost start = out@;
            let mut i: usize = 0;
            while i < a.len()
                invariant
                    v.wf(),
                    v matches LogValue::Array(aa) && aa == a,
                    items == a@.map_values(|x: LogValue| x.scalar_view()),
                    0 <= i <= a@.len(),
                    out@ == start + enc_list(items.subrange(0, i as int)),
                decreases a@.len() - i,
            {
                assert(items[i as int] == a@[i as int].scalar_view());
                encode_scalar(&a[i], out);
                proof {
                    lemma_enc_list_push(items.subrange(0, i as int), items[i as int]);
                    assert(items.subrange(0, i + 1) =~= items.subrange(0, i as int).push(
                        items[i as int],
                    ));
                }
                i = i + 1;
            }
            assert(items.subrange(0, a@.len() as int) =~= items);
            assert(out@ =~= old(out)@ + enc_val(v@));
        },
        _ => encode_scalar(v, out),
    }
}

proof fn lemma_enc_list_push(items: Seq<Val>, v: Val)
    ensures
        enc_list(items.push(v)) == enc_list(items) + enc_scalar(v),
    decreases items.len(),
{
    if items.len() == 0 {
        let one = items.push(v);
        assert(one.drop_first() =~= Seq::<Val>::empty());
        assert(one[0] == v);
        assert(enc_list(one.drop_first()) =~= Seq::<u8>::empty());
        assert(enc_list(one) =~= enc_scalar(v));
        assert(enc_list(items) =~= Seq::<u8>::empty());
    } else {
        assert(items.push(v).drop_first() =~= items.drop_first().push(v));
        lemma_enc_list_push(items.drop_first(), v);
        assert(enc_list(items.push(v)) =~= enc_list(items) + enc_scalar(v));
    }
}

fn encode_scalar(v: &LogValue, out: &mut Vec<u8>)
    requires
        !(v is Array),
        wf_scalar(v.scalar_view()),
    ensures
        final(out)@ == old(out)@ + enc_scalar(v.scalar_view()),
{
    match v {
        LogValue::Null => {
            out.push(0u8);
            assert(out@ =~= old(out)@ + enc_scalar(v.scalar_view()));
        },
        LogValue::Bool(b) => {
            out.push(1u8);
            out.push(
                if *b {
                    1u8
                } else {
                    0u8
                },
            );
            assert(out@ =~= old(out)@ + enc_scalar(v.scalar_view()));
        },
        LogValue::Number(k) => {
            out.push(2u8);
            push_u64(out, *k);
            assert(out@ =~= old(out)@ + enc_scalar(v.scalar_view()));
        },
        LogValue::String(s) => {
            out.push(3u8);
            encode_str(s, out);
            assert(out@ =~= old(out)@ + enc_scalar(v.scalar_view()));
        },
        LogValue::Array(_) => {},
    }
}

/// `o` with `vs` put in front of its values and `off` added to its length.
pub open spec fn prepend(vs: Seq<Val>, off: int, o: Option<(Seq<Val>, int)>) -> Option<(Seq<Val>, int)> {
    match o {
        None => None,
        Some((ws, m)) => Some((vs + ws, off + m)),
    }
}

/// Decodes the string at `pos`; returns it with the position after it.
pub fn decode_str(data: &[u8], pos: usize) -> (r: Option<(String, usize)>)
    requires
        pos <= data@.len(),
    ensures
        match r {
            Some((t, end)) => pos <= end <= data@.len() && parse_str(
                data@.subrange(pos as int, data@.len() as int),
            ) == Some((t@, end - pos)),
            None => parse_str(data@.subrange(pos as int, data@.len() as int)) is None,
        },
{
    let len = data.len();
    let ghost s = data@.subrange(pos as int, len as int);
    if len - pos < 4 {
        return None;
    }
    let n = read_u32(data, pos) as usize;
    assert(s.subrange(0, 4) =~= data@.subrange(pos as int, pos + 4));
    if n > len - pos - 4 {
        return None;
    }
    let b = copy_range(data, pos + 4, pos + 4 + n);
    assert(s.subrange(4, 4 + n as int) =~= b@);
    match string_from_utf8(b) {
        Some(t) => Some((t, pos + 4 + n)),
        None => None,
    }
}

/// Decodes the non-array value at `pos`; returns it with the position after it.
fn decode_scalar(data: &[u8], pos: usize) -> (r: Option<(LogValue, usize)>)
    requires
        pos <= data@.len(),
    ensures
        match r {
            Some((v, end)) => {
                &&& pos <= end <= data@.len()
                &&& !(v is Array)
                &&& wf_scalar(v.scalar_view())
                &&& parse_scalar(data@.subrange(pos as int, data@.len() as int)) == Some(
                    (v.scalar_view(), end - pos),
                )
            },
            None => parse_scalar(data@.subrange(pos as int, data@.len() as int)) is None,
        },
{
    let len = data.len();
    let ghost s = data@.subrange(pos as int, len as int);
    if pos == len {
        return None;
    }
    let tag = data[pos];
    if tag == 0 {
        Some((LogValue::Null, pos + 1))
    } else if tag == 1 {
        if len - pos < 2 || data[pos + 1] > 1 {
            return None;
        }
        Some((LogValue::Bool(data[pos + 1] == 1), pos + 2))
    } else if tag == 2 {
        if len - pos < 9 {
            return None;
        }
        let k = read_u64(data, pos + 1);
        assert(s.subrange(1, 9) =~= data@.subrange(pos + 1, pos + 9));
        Some((LogValue::Number(k), pos + 9))
    } else if tag == 3 {
        let r = decode_str(data, pos + 1);
        assert(s.drop_first() =~= data@.subrange(pos + 1, len as int));
        match r {
            Some((t, end)) => {
                proof {
                    let sub = s.drop_first();
                    let n = from_le32(sub.subrange(0, 4)) as int;
                    decode_utf8_encode_utf8(sub.subrange(4, 4 + n));
                }
                Some((LogValue::String(t), end))
            },
            None => None,
        }
    } else {
        None
    }
}

/// Decodes the value at `pos`; returns it with the position after it.
pub fn decode_value(data: &[u8], pos: usize) -> (r: Option<(LogValue, usize)>)
    requires
        pos <= data@.len(),
    ensures
        match r {
            Some((v, end)) => {
                &&& pos <= end <= data@.len()
                &&& v.wf()
                &&& parse_val(data@.subrange(pos as int, data@.len() as int)) == Some((v@, end - pos))
            },
            None => parse_val(data@.subrange(pos as int, data@.len() as int)) is None,
        },
{
    let len = data.len();
    let ghost s = data@.subrange(pos as int, len as int);
    if pos == len || data[pos] != 4 {
        let r = decode_scalar(data, pos);
        return match r {
            Some((v, end)) => {
                assert(v@ == v.scalar_view());
                Some((v, end))
            },
            None => None,
        };
    }
    if len - pos < 5 {
        return None;
    }
    let c = read_u32(data, pos + 1);
    assert(s.subrange(1, 5) =~= data@.subrange(pos + 1, pos + 5));
    let ghost s5 = data@.subrange(pos + 5, len as int);
    assert(s.subrange(5, s.len() as int) =~= s5);
    let mut out: Vec<LogValue> = Vec::new();
    let ghost mut vs: Seq<Val> = seq![];
    let mut p: usize = pos + 5;
    let mut k: u32 = 0;
    assert(data@.subrange(p as int, len as int) =~= s5);
    assert(prepend(vs, 0, parse_list(s5, c as nat)) == parse_list(s5, c as nat)) by {
        match parse_list(s5, c as nat) {
            Some((ws, m)) => {
                assert(vs + ws =~= ws);
            },
            None => {},
        }
    }
    while k < c
        invariant
            pos + 5 <= p <= len,
            len == data@.len(),
            s5 == data@.subrange(pos + 5, len as int),
            s == data@.subrange(pos as int, len as int),
            s.len() >= 5,
            s[0] == 4,
            from_le32(s.subrange(1, 5)) == c,
            s.subrange(5, s.len() as int) == s5,
            0 <= k <= c,
            out@.len() == k,
            vs.len() == k,
            forall|j: int|
                0 <= j < k ==> (#[trigger] out@[j]).scalar_view() == vs[j] && !(out@[j] is Array)
                    && wf_scalar(vs[j]) && is_scalar(vs[j]),
            parse_list(s5, c as nat) == prepend(
                vs,
                p - (pos + 5),
                parse_list(data@.subrange(p as int, len as int), (c - k) as nat),
            ),
        decreases c - k,
    {
        let ghost t = data@.subrange(p as int, len as int);
        let r = decode_scalar(data, p);
        match r {
            None => {
                assert(parse_list(t, (c - k) as nat) is None);
                return None;
            },
            Some((v, end)) => {
                proof {
                    let n = end - p;
                    assert(t.subrange(n, t.len() as int) =~= data@.subrange(end as int, len as int));
                    let rest = parse_list(data@.subrange(end as int, len as int), (c - k - 1) as nat);
                    assert(parse_list(t, (c - k) as nat) == prepend(seq![v.scalar_view()], n, rest));
                    match rest {
                        Some((ws, m)) => {
                            assert(vs + (seq![v.scalar_view()] + ws) =~= vs.push(v.scalar_view())
                                + ws);
                        },
                        None => {},
                    }
                    vs = vs.push(v.scalar_view());
                }
                out.push(v);
                p = end;
                k = k + 1;
            },
        }
    }
    proof {
        let t = data@.subrange(p as int, len as int);
        assert(parse_list(t, 0) == Some((Seq::<Val>::empty(), 0int)));
        assert(vs + Seq::<Val>::empty() =~= vs);
    }
    let v = LogValue::Array(out);
    assert(out@.map_values(|x: LogValue| x.scalar_view()) =~= vs);
    Some((v, p))
}

/// Encoding then decoding a value gives an equal value back.
pub proof fn lemma_value_decodes(v: Val)
    requires
        wf_val(v),
    ensures
        parse_val(enc_val(v)) == Some((v, enc_val(v).len() as int)),
{
    lemma_val_round_trip(v, seq![]);
    assert(enc_val(v) + Seq::<u8>::empty() =~= enc_val(v));
}

/// Two values with the same encoding are the same value.
pub proof fn lemma_enc_injective(a: Val, b: Val)
    requires
        wf_val(a),
        wf_val(b),
        enc_val(a) == enc_val(b),
    ensures
        a == b,
{
    lemma_value_decodes(a);
    lemma_value_decodes(b);
}

} // verus!
