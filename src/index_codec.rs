//! The binary encoding of index entries and of the persisted term map.
use vstd::prelude::*;

use crate::bytes::{
    from_le32, from_le64, le32, le64, lemma_le32_round_trip, lemma_le64_round_trip, push_u32, push_u64,
    read_u32, read_u64,
};
use crate::codec::{decode_value, enc_val, encode_value, lemma_val_round_trip, parse_val};
use crate::log_value::{wf_val, LogValue, Val};

verus! {

/// Offsets, eight little-endian bytes each.
pub open spec fn enc_u64s(xs: Seq<u64>) -> Seq<u8>
    decreases xs.len(),
{
    if xs.len() == 0 {
        seq![]
    } else {
        enc_u64s(xs.drop_last()) + le64(xs.last())
    }
}

/// `n` offsets that take all of `s`.
pub open spec fn parse_u64s(s: Seq<u8>, n: nat) -> Option<Seq<u64>> {
    if s.len() != 8 * n {
        None
    } else {
        Some(Seq::new(n, |i: int| from_le64(s.subrange(8 * i, 8 * i + 8))))
    }
}

/// An index entry: a value, the number of its offsets, then the offsets.
pub open spec fn enc_entry(v: Val, offs: Seq<u64>) -> Seq<u8> {
    enc_val(v) + le32(offs.len() as u32) + enc_u64s(offs)
}

/// The index entry that `s` holds, which must take all of `s`.
pub open spec fn parse_entry(s: Seq<u8>) -> Option<(Val, Seq<u64>)> {
    match parse_val(s) {
        None => None,
        Some((v, n)) => if s.len() < n + 4 {
            None
        } else {
            match parse_u64s(
                s.subrange(n + 4, s.len() as int),
                from_le32(s.subrange(n, n + 4)) as nat,
            ) {
                None => None,
                Some(offs) => Some((v, offs)),
            }
        },
    }
}

pub proof fn lemma_enc_u64s(xs: Seq<u64>)
    ensures
        enc_u64s(xs).len() == 8 * xs.len(),
        forall|i: int|
            0 <= i < xs.len() ==> #[trigger] enc_u64s(xs).subrange(8 * i, 8 * i + 8) == le64(xs[i]),
    decreases xs.len(),
{
    if xs.len() > 0 {
        let init = xs.drop_last();
        lemma_enc_u64s(init);
        lemma_le64_round_trip(xs.last());
        let e = enc_u64s(xs);
        assert forall|i: int| 0 <= i < xs.len() implies #[trigger] e.subrange(8 * i, 8 * i + 8) == le64(
            xs[i],
        ) by {
            if i < xs.len() - 1 {
                assert(e.subrange(8 * i, 8 * i + 8) =~= enc_u64s(init).subrange(8 * i, 8 * i + 8));
                assert(init[i] == xs[i]);
            } else {
                assert(e.subrange(8 * i, 8 * i + 8) =~= le64(xs.last()));
            }
        }
    }
}

/// Encoding then decoding an index entry gives it back.
pub proof fn lemma_entry_round_trip(v: Val, offs: Seq<u64>)
    requires
        wf_val(v),
        offs.len() <= u32::MAX,
    ensures
        parse_entry(enc_entry(v, offs)) == Some((v, offs)),
{
    let s = enc_entry(v, offs);
    lemma_val_round_trip(v, le32(offs.len() as u32) + enc_u64s(offs));
    assert(s =~= enc_val(v) + (le32(offs.len() as u32) + enc_u64s(offs)));
    let n = enc_val(v).len() as int;
    lemma_le32_round_trip(offs.len() as u32);
    assert(s.subrange(n, n + 4) =~= le32(offs.len() as u32));
    assert(s.subrange(n + 4, s.len() as int) =~= enc_u64s(offs));
    lemma_enc_u64s(offs);
    let parsed = Seq::new(offs.len(), |i: int| from_le64(enc_u64s(offs).subrange(8 * i, 8 * i + 8)));
    assert forall|i: int| 0 <= i < offs.len() implies parsed[i] == offs[i] by {
        assert(enc_u64s(offs).subrange(8 * i, 8 * i + 8) == le64(offs[i]));
        lemma_le64_round_trip(offs[i]);
    }
    assert(parsed =~= offs);
}

/// Encodes an index entry.
pub fn encode_entry(v: &LogValue, offs: &Vec<u64>) -> (out: Vec<u8>)
    requires
        v.wf(),
        offs@.len() <= u32::MAX,
    ensures
        out@ == enc_entry(v@, offs@),
{
    let mut out: Vec<u8> = Vec::new();
    encode_value(v, &mut out);
    push_u32(&mut out, offs.len() as u32);
    let ghost start = out@;
    let mut i: usize = 0;
    while i < offs.len()
        invariant
            0 <= i <= offs@.len(),
            out@ == start + enc_u64s(offs@.subrange(0, i as int)),
        decreases offs@.len() - i,
    {
        push_u64(&mut out, offs[i]);
        proof {
            let next = offs@.subrange(0, i + 1);
            assert(next.drop_last() =~= offs@.subrange(0, i as int));
        }
        i = i + 1;
        assert(out@ =~= start + enc_u64s(offs@.subrange(0, i as int)));
    }
    assert(offs@.subrange(0, offs@.len() as int) =~= offs@);
    out
}

/// Decodes an index entry that takes all of `data`.
pub fn decode_entry(data: &[u8]) -> (r: Option<(LogValue, Vec<u64>)>)
    ensures
        match r {
            Some((v, offs)) => v.wf() && parse_entry(data@) == Some((v@, offs@)),
            None => parse_entry(data@) is None,
        },
{
    let len = data.len();
    let ghost all = data@.subrange(0, len as int);
    assert(all =~= data@);
    let (v, p) = match decode_value(data, 0) {
        None => {
            return None;
        },
        Some(x) => x,
    };
    if len - p < 4 {
        return None;
    }
    let c = read_u32(data, p) as usize;
    if (len - p - 4) / 8 != c || (len - p - 4) % 8 != 0 {
        return None;
    }
    let ghost body = data@.subrange(p + 4, len as int);
    let mut offs: Vec<u64> = Vec::new();
    let mut i: usize = 0;
    while i < c
        invariant
            0 <= i <= c,
            len == data@.len(),
            p + 4 + 8 * c == len,
            body == data@.subrange(p + 4, len as int),
            offs@.len() == i,
            forall|j: int| 0 <= j < i ==> offs@[j] == from_le64(body.subrange(8 * j, 8 * j + 8)),
        decreases c - i,
    {
        let x = read_u64(data, p + 4 + 8 * i);
        assert(body.subrange(8 * i as int, 8 * i + 8) =~= data@.subrange(
            p + 4 + 8 * i,
            p + 4 + 8 * i + 8,
        ));
        offs.push(x);
        i = i + 1;
    }
    assert(offs@ =~= Seq::new(c as nat, |j: int| from_le64(body.subrange(8 * j, 8 * j + 8))));
    Some((v, offs))
}

/// The term map: each value with the offset of its entry.
pub open spec fn enc_term_list(ts: Seq<(Val, u64)>) -> Seq<u8>
    decreases ts.len(),
{
    if ts.len() == 0 {
        seq![]
    } else {
        enc_term_list(ts.drop_last()) + enc_val(ts.last().0) + le64(ts.last().1)
    }
}

/// The persisted term map: the number of terms, then each value and offset.
pub open spec fn enc_terms(ts: Seq<(Val, u64)>) -> Seq<u8> {
    le32(ts.len() as u32) + enc_term_list(ts)
}

pub open spec fn parse_term_list(s: Seq<u8>, count: nat) -> Option<(Seq<(Val, u64)>, int)>
    decreases count,
{
    if count == 0 {
        Some((seq![], 0))
    } else {
        match parse_val(s) {
            None => None,
            Some((v, n)) => if s.len() < n + 8 {
                None
            } else {
                match parse_term_list(s.subrange(n + 8, s.len() as int), (count - 1) as nat) {
                    None => None,
                    Some((ts, k)) => Some(
                        (seq![(v, from_le64(s.subrange(n, n + 8)))] + ts, n + 8 + k),
                    ),
                }
            },
        }
    }
}

/// The term map that `s` holds, which must take all of `s`.
pub open spec fn parse_terms(s: Seq<u8>) -> Option<Seq<(Val, u64)>> {
    if s.len() < 4 {
        None
    } else {
        match parse_term_list(s.subrange(4, s.len() as int), from_le32(s.subrange(0, 4)) as nat) {
            Some((ts, m)) => if 4 + m == s.len() {
                Some(ts)
            } else {
                None
            },
            None => None,
        }
    }
}

/// A term map that fits the encoding.
pub open spec fn terms_wf(ts: Seq<(LogValue, u64)>) -> bool {
    &&& ts.len() <= u32::MAX
    &&& forall|i: int| 0 <= i < ts.len() ==> (#[trigger] ts[i]).0.wf()
}

/// The value of a term map.
pub open spec fn terms_view(ts: Seq<(LogValue, u64)>) -> Seq<(Val, u64)> {
    ts.map_values(|t: (LogValue, u64)| (t.0@, t.1))
}

/// Encodes a term map.
pub fn encode_terms(terms: &Vec<(LogValue, u64)>) -> (out: Vec<u8>)
    requires
        terms_wf(terms@),
    ensures
        out@ == enc_terms(terms_view(terms@)),
{
    let mut out: Vec<u8> = Vec::new();
    push_u32(&mut out, terms.len() as u32);
    let ghost ts = terms_view(terms@);
    let mut i: usize = 0;
    while i < terms.len()
        invariant
            terms_wf(terms@),
            ts == terms_view(terms@),
            0 <= i <= terms@.len(),
            out@ == le32(terms@.len() as u32) + enc_term_list(ts.subrange(0, i as int)),
        decreases terms@.len() - i,
    {
        let t = &terms[i];
        assert(terms@[i as int].0.wf());
        encode_value(&t.0, &mut out);
        push_u64(&mut out, t.1);
        proof {
            let next = ts.subrange(0, i + 1);
            assert(next.drop_last() =~= ts.subrange(0, i as int));
            assert(next.last() == (terms@[i as int].0@, terms@[i as int].1));
        }
        i = i + 1;
        assert(out@ =~= le32(terms@.len() as u32) + enc_term_list(ts.subrange(0, i as int)));
    }
    assert(ts.subrange(0, terms@.len() as int) =~= ts);
    out
}

/// `o` with `ts` put in front of its terms and `off` added to its length.
pub open spec fn terms_prepend(ts: Seq<(Val, u64)>, off: int, o: Option<(Seq<(Val, u64)>, int)>) -> Option<
    (Seq<(Val, u64)>, int),
> {
    match o {
        None => None,
        Some((ws, m)) => Some((ts + ws, off + m)),
    }
}

proof fn lemma_term_step(t: Seq<u8>, n: int, v: Val, o: u64, count: nat)
    requires
        count > 0,
        parse_val(t) == Some((v, n)),
        t.len() >= n + 8,
        from_le64(t.subrange(n, n + 8)) == o,
    ensures
        parse_term_list(t, count) == terms_prepend(
            seq![(v, o)],
            n + 8,
            parse_term_list(t.subrange(n + 8, t.len() as int), (count - 1) as nat),
        ),
{
}

proof fn lemma_terms_prepend(
    a: Seq<(Val, u64)>,
    off: int,
    b: Seq<(Val, u64)>,
    off2: int,
    o: Option<(Seq<(Val, u64)>, int)>,
)
    ensures
        terms_prepend(a, off, terms_prepend(b, off2, o)) == terms_prepend(a + b, off + off2, o),
{
    if let Some((ws, m)) = o {
        assert(a + (b + ws) =~= (a + b) + ws);
    }
}

proof fn lemma_terms_view_push(ts: Seq<(LogValue, u64)>, v: LogValue, o: u64)
    ensures
        terms_view(ts) + seq![(v@, o)] == terms_view(ts.push((v, o))),
{
    assert(terms_view(ts) + seq![(v@, o)] =~= terms_view(ts.push((v, o))));
}

proof fn lemma_decode_term_step(
    data: Seq<u8>,
    pos: int,
    p: int,
    e: int,
    c: nat,
    k: nat,
    done: Seq<(Val, u64)>,
    v: Val,
    o: u64,
    s4: Seq<u8>,
)
    requires
        0 <= pos,
        pos + 4 <= p <= e,
        e + 8 <= data.len(),
        k < c,
        s4 == data.subrange(pos + 4, data.len() as int),
        parse_term_list(s4, c) == terms_prepend(
            done,
            p - (pos + 4),
            parse_term_list(data.subrange(p, data.len() as int), (c - k) as nat),
        ),
        parse_val(data.subrange(p, data.len() as int)) == Some((v, e - p)),
        o == from_le64(data.subrange(e, e + 8)),
    ensures
        parse_term_list(s4, c) == terms_prepend(
            done + seq![(v, o)],
            e + 8 - (pos + 4),
            parse_term_list(data.subrange(e + 8, data.len() as int), (c - k - 1) as nat),
        ),
{
    let t = data.subrange(p, data.len() as int);
    let n = e - p;
    assert(t.subrange(n, n + 8) =~= data.subrange(e, e + 8));
    assert(t.subrange(n + 8, t.len() as int) =~= data.subrange(e + 8, data.len() as int));
    lemma_term_step(t, n, v, o, (c - k) as nat);
    let rest = parse_term_list(data.subrange(e + 8, data.len() as int), (c - k - 1) as nat);
    lemma_terms_prepend(done, p - (pos + 4), seq![(v, o)], n + 8, rest);
}

/// Decodes the term map that takes all of `data[pos..]`.
pub fn decode_terms(data: &[u8], pos: usize) -> (r: Option<Vec<(LogValue, u64)>>)
    requires
        pos <= data@.len(),
    ensures
        match r {
            Some(ts) => {
                &&& parse_terms(data@.subrange(pos as int, data@.len() as int)) == Some(
                    terms_view(ts@),
                )
                &&& terms_wf(ts@)
            },
            None => parse_terms(data@.subrange(pos as int, data@.len() as int)) is None,
        },
{
    let len = data.len();
    let ghost s = data@.subrange(pos as int, len as int);
    if len - pos < 4 {
        return None;
    }
    let c = read_u32(data, pos);
    assert(s.subrange(0, 4) =~= data@.subrange(pos as int, pos + 4));
    let ghost s4 = data@.subrange(pos + 4, len as int);
    assert(s.subrange(4, s.len() as int) =~= s4);
    let mut out: Vec<(LogValue, u64)> = Vec::new();
    let mut p: usize = pos + 4;
    let mut k: u32 = 0;
    let ghost empty: Seq<(Val, u64)> = seq![];
    assert(data@.subrange(p as int, len as int) =~= s4);
    assert(terms_prepend(empty, 0, parse_term_list(s4, c as nat)) == parse_term_list(s4, c as nat)) by {
        match parse_term_list(s4, c as nat) {
            Some((ws, m)) => {
                assert(empty + ws =~= ws);
            },
            None => {},
        }
    }
    while k < c
        invariant
            k <= u32::MAX,
            pos + 4 <= p <= len,
            len == data@.len(),
            s == data@.subrange(pos as int, len as int),
            s.len() >= 4,
            c == from_le32(s.subrange(0, 4)),
            s.subrange(4, s.len() as int) == s4,
            s4 == data@.subrange(pos + 4, len as int),
            0 <= k <= c,
            out@.len() == k,
            terms_wf(out@),
            parse_term_list(s4, c as nat) == terms_prepend(
                terms_view(out@),
                p - (pos + 4),
                parse_term_list(data@.subrange(p as int, len as int), (c - k) as nat),
            ),
        decreases c - k,
    {
        let ghost t = data@.subrange(p as int, len as int);
        let (v, e) = match decode_value(data, p) {
            None => {
                return None;
            },
            Some(x) => x,
        };
        if len - e < 8 {
            return None;
        }
        let o = read_u64(data, e);
        proof {
            lemma_decode_term_step(data@, pos as int, p as int, e as int, c as nat, k as nat, terms_view(out@), v@, o, s4);
            lemma_terms_view_push(out@, v, o);
        }
        out.push((v, o));
        proof {
            assert forall|i: int| 0 <= i < out@.len() implies (#[trigger] out@[i]).0.wf() by {
                if i < out@.len() - 1 {
                    assert(out@[i] == out@.drop_last()[i]);
                }
            }
        }
        p = e + 8;
        k = k + 1;
    }
    proof {
        let t = data@.subrange(p as int, len as int);
        assert(parse_term_list(t, 0) == Some((Seq::<(Val, u64)>::empty(), 0int)));
        assert(terms_view(out@) + Seq::<(Val, u64)>::empty() =~= terms_view(out@));
    }
    if p != len {
        return None;
    }
    Some(out)
}

proof fn lemma_enc_term_list_front(ts: Seq<(Val, u64)>)
    requires
        ts.len() > 0,
    ensures
        enc_term_list(ts) == enc_val(ts[0].0) + le64(ts[0].1) + enc_term_list(ts.drop_first()),
    decreases ts.len(),
{
    if ts.len() == 1 {
        assert(ts.drop_last() =~= Seq::<(Val, u64)>::empty());
        assert(ts.drop_first() =~= Seq::<(Val, u64)>::empty());
        assert(enc_term_list(ts) =~= enc_val(ts[0].0) + le64(ts[0].1) + enc_term_list(ts.drop_first()));
    } else {
        lemma_enc_term_list_front(ts.drop_last());
        assert(ts.drop_last().drop_first() =~= ts.drop_first().drop_last());
        assert(ts.drop_first().last() == ts.last());
        assert(ts.drop_last()[0] == ts[0]);
        assert(enc_term_list(ts) =~= enc_val(ts[0].0) + le64(ts[0].1) + enc_term_list(ts.drop_first()));
    }
}

#[verifier::spinoff_prover]
#[verifier::rlimit(100)]
proof fn lemma_term_list_round_trip(ts: Seq<(Val, u64)>, rest: Seq<u8>)
    requires
        forall|i: int| 0 <= i < ts.len() ==> wf_val(#[trigger] ts[i].0),
    ensures
        parse_term_list(enc_term_list(ts) + rest, ts.len()) == Some((ts, enc_term_list(ts).len() as int)),
    decreases ts.len(),
{
    if ts.len() == 0 {
        assert(enc_term_list(ts) + rest =~= rest);
    } else {
        let tail = ts.drop_first();
        assert forall|i: int| 0 <= i < tail.len() implies wf_val(#[trigger] tail[i].0) by {
            assert(tail[i] == ts[i + 1]);
        }
        let v = ts[0].0;
        let o = ts[0].1;
        assert(wf_val(v));
        lemma_enc_term_list_front(ts);
        let a = enc_val(v);
        let c = enc_term_list(tail);
        let s = enc_term_list(ts) + rest;
        let n = a.len() as int;
        assert(s =~= a + (le64(o) + (c + rest)));
        assert(parse_val(s) == Some((v, n))) by {
            lemma_val_round_trip(v, le64(o) + (c + rest));
        }
        assert(from_le64(s.subrange(n, n + 8)) == o) by {
            lemma_le64_round_trip(o);
            assert(s.subrange(n, n + 8) =~= le64(o));
        }
        assert(s.subrange(n + 8, s.len() as int) =~= c + rest);
        let inner = parse_term_list(s.subrange(n + 8, s.len() as int), (ts.len() - 1) as nat);
        assert(inner == Some((tail, c.len() as int))) by {
            lemma_term_list_round_trip(tail, rest);
        }
        lemma_term_step(s, n, v, o, ts.len());
        assert(seq![(v, o)] + tail =~= ts);
    }
}

/// Encoding then decoding a term map gives it back.
pub proof fn lemma_terms_round_trip(ts: Seq<(Val, u64)>)
    requires
        ts.len() <= u32::MAX,
        forall|i: int| 0 <= i < ts.len() ==> wf_val(#[trigger] ts[i].0),
    ensures
        parse_terms(enc_terms(ts)) == Some(ts),
{
    let s = enc_terms(ts);
    lemma_le32_round_trip(ts.len() as u32);
    assert(s.subrange(0, 4) =~= le32(ts.len() as u32));
    assert(s.subrange(4, s.len() as int) =~= enc_term_list(ts) + Seq::<u8>::empty());
    lemma_term_list_round_trip(ts, seq![]);
}

} // verus!
