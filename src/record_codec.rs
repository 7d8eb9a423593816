//! The binary encoding of records: the number of fields, then each field's
//! name (as a string) and value.
use vstd::prelude::*;
use vstd::utf8::{decode_utf8_encode_utf8, encode_utf8};

use crate::bytes::{from_le32, le32, lemma_le32_round_trip, push_u32, read_u32};
use crate::codec::{
    decode_str, decode_value, enc_str, enc_val, encode_str, encode_value, lemma_str_round_trip,
    lemma_val_round_trip, parse_str, parse_val,
};
use crate::log_value::{wf_val, LogValue, Val};

verus! {

/// A record: field names with their values.
pub type Record = Vec<(String, LogValue)>;

/// The value of a record: names as characters, values as `Val`.
pub open spec fn record_view(r: Seq<(String, LogValue)>) -> Seq<(Seq<char>, Val)> {
    r.map_values(|f: (String, LogValue)| (f.0@, f.1@))
}

/// Every name and value fits the encoding.
pub open spec fn wf_record(r: Seq<(String, LogValue)>) -> bool {
    &&& r.len() <= u32::MAX
    &&& forall|i: int|
        0 <= i < r.len() ==> encode_utf8((#[trigger] r[i]).0@).len() <= u32::MAX && r[i].1.wf()
}

pub open spec fn wf_fields(fs: Seq<(Seq<char>, Val)>) -> bool {
    &&& fs.len() <= u32::MAX
    &&& forall|i: int|
        0 <= i < fs.len() ==> encode_utf8((#[trigger] fs[i]).0).len() <= u32::MAX && wf_val(fs[i].1)
}

pub open spec fn enc_fields(fs: Seq<(Seq<char>, Val)>) -> Seq<u8>
    decreases fs.len(),
{
    if fs.len() == 0 {
        seq![]
    } else {
        enc_fields(fs.drop_last()) + enc_str(fs.last().0) + enc_val(fs.last().1)
    }
}

/// The encoding of a record: the number of fields, then each name and value.
pub open spec fn enc_record(fs: Seq<(Seq<char>, Val)>) -> Seq<u8> {
    le32(fs.len() as u32) + enc_fields(fs)
}

pub open spec fn parse_fields(s: Seq<u8>, count: nat) -> Option<(Seq<(Seq<char>, Val)>, int)>
    decreases count,
{
    if count == 0 {
        Some((seq![], 0))
    } else {
        match parse_str(s) {
            None => None,
            Some((name, n)) => match parse_val(s.subrange(n, s.len() as int)) {
                None => None,
                Some((v, m)) => match parse_fields(
                    s.subrange(n + m, s.len() as int),
                    (count - 1) as nat,
                ) {
                    None => None,
                    Some((fs, k)) => Some((seq![(name, v)] + fs, n + m + k)),
                },
            },
        }
    }
}

/// The record that `s` holds, which must take all of `s`.
pub open spec fn parse_record(s: Seq<u8>) -> Option<Seq<(Seq<char>, Val)>> {
    if s.len() < 4 {
        None
    } else {
        match parse_fields(s.subrange(4, s.len() as int), from_le32(s.subrange(0, 4)) as nat) {
            Some((fs, m)) => if 4 + m == s.len() {
                Some(fs)
            } else {
                None
            },
            None => None,
        }
    }
}

proof fn lemma_enc_fields_front(fs: Seq<(Seq<char>, Val)>)
    requires
        fs.len() > 0,
    ensures
        enc_fields(fs) == enc_str(fs[0].0) + enc_val(fs[0].1) + enc_fields(fs.drop_first()),
    decreases fs.len(),
{
    if fs.len() == 1 {
        assert(fs.drop_last() =~= Seq::<(Seq<char>, Val)>::empty());
        assert(fs.drop_first() =~= Seq::<(Seq<char>, Val)>::empty());
        assert(enc_fields(fs) =~= enc_str(fs[0].0) + enc_val(fs[0].1) + enc_fields(fs.drop_first()));
    } else {
        lemma_enc_fields_front(fs.drop_last());
        assert(fs.drop_last().drop_first() =~= fs.drop_first().drop_last());
        assert(fs.drop_first().last() == fs.last());
        assert(fs.drop_last()[0] == fs[0]);
        assert(enc_fields(fs) =~= enc_str(fs[0].0) + enc_val(fs[0].1) + enc_fields(fs.drop_first()));
    }
}

proof fn lemma_fields_round_trip(fs: Seq<(Seq<char>, Val)>, rest: Seq<u8>)
    requires
        wf_fields(fs),
    ensures
        parse_fields(enc_fields(fs) + rest, fs.len()) == Some((fs, enc_fields(fs).len() as int)),
    decreases fs.len(),
{
    if fs.len() == 0 {
        assert(enc_fields(fs) + rest =~= rest);
    } else {
        let tail = fs.drop_first();
        assert(wf_fields(tail)) by {
            assert forall|i: int| 0 <= i < tail.len() implies encode_utf8((#[trigger] tail[i]).0).len()
                <= u32::MAX && wf_val(tail[i].1) by {
                assert(tail[i] == fs[i + 1]);
            }
        }
        let name = fs[0].0;
        let v = fs[0].1;
        assert(encode_utf8(name).len() <= u32::MAX && wf_val(v));
        lemma_enc_fields_front(fs);
        let a = enc_str(name);
        let b = enc_val(v);
        let c = enc_fields(tail);
        let s = enc_fields(fs) + rest;
        assert(s =~= a + (b + (c + rest)));
        let n = a.len() as int;
        let m = b.len() as int;
        lemma_str_round_trip(name, b + (c + rest));
        assert(parse_str(s) == Some((name, n)));
        assert(s.subrange(n, s.len() as int) =~= b + (c + rest));
        lemma_val_round_trip(v, c + rest);
        assert(parse_val(s.subrange(n, s.len() as int)) == Some((v, m)));
        assert(s.subrange(n + m, s.len() as int) =~= c + rest);
        lemma_fields_round_trip(tail, rest);
        assert(parse_fields(s.subrange(n + m, s.len() as int), (fs.len() - 1) as nat) == Some(
            (tail, c.len() as int),
        ));
        assert(seq![(name, v)] + tail =~= fs);
        assert(parse_fields(s, fs.len()) == Some((seq![(name, v)] + tail, n + m + c.len())));
    }
}

/// Encoding then decoding a record gives an equal record back.
pub proof fn lemma_record_round_trip(fs: Seq<(Seq<char>, Val)>)
    requires
        wf_fields(fs),
    ensures
        parse_record(enc_record(fs)) == Some(fs),
{
    let s = enc_record(fs);
    lemma_le32_round_trip(fs.len() as u32);
    assert(s.subrange(0, 4) =~= le32(fs.len() as u32));
    assert(s.subrange(4, s.len() as int) =~= enc_fields(fs) + Seq::<u8>::empty());
    lemma_fields_round_trip(fs, seq![]);
}

/// The fields of a well-formed record fit the encoding.
pub proof fn lemma_wf_record_fields(r: Seq<(String, LogValue)>)
    requires
        wf_record(r),
    ensures
        wf_fields(record_view(r)),
{
    assert forall|i: int| 0 <= i < record_view(r).len() implies encode_utf8(
        (#[trigger] record_view(r)[i]).0,
    ).len() <= u32::MAX && wf_val(record_view(r)[i].1) by {
        assert(r[i].1.wf());
    }
}

/// Encodes a record.
pub fn encode_record(r: &Vec<(String, LogValue)>) -> (out: Vec<u8>)
    requires
        wf_record(r@),
    ensures
        out@ == enc_record(record_view(r@)),
{
    let mut out: Vec<u8> = Vec::new();
    push_u32(&mut out, r.len() as u32);
    let ghost fs = record_view(r@);
    let mut i: usize = 0;
    while i < r.len()
        invariant
            wf_record(r@),
            fs == record_view(r@),
            0 <= i <= r@.len(),
            out@ == le32(r@.len() as u32) + enc_fields(fs.subrange(0, i as int)),
        decreases r@.len() - i,
    {
        let f = &r[i];
        assert(encode_utf8(r@[i as int].0@).len() <= u32::MAX && r@[i as int].1.wf());
        encode_str(&f.0, &mut out);
        encode_value(&f.1, &mut out);
        proof {
            let next = fs.subrange(0, i + 1);
            assert(next.drop_last() =~= fs.subrange(0, i as int));
            assert(next.last() == (r@[i as int].0@, r@[i as int].1@));
        }
        i = i + 1;
        assert(out@ =~= le32(r@.len() as u32) + enc_fields(fs.subrange(0, i as int)));
    }
    assert(fs.subrange(0, r@.len() as int) =~= fs);
    out
}

/// Decodes a record that takes all of `data`.
#[verifier::rlimit(40)]
pub fn decode_record(data: &[u8]) -> (r: Option<Vec<(String, LogValue)>>)
    ensures
        match r {
            Some(rec) => parse_record(data@) == Some(record_view(rec@)) && wf_record(rec@),
            None => parse_record(data@) is None,
        },
{
    let len = data.len();
    if len < 4 {
        return None;
    }
    let c = read_u32(data, 0);
    let ghost s4 = data@.subrange(4, len as int);
    let mut out: Vec<(String, LogValue)> = Vec::new();
    let mut p: usize = 4;
    let mut k: u32 = 0;
    assert(data@.subrange(4, len as int) =~= s4);
    let ghost empty: Seq<(Seq<char>, Val)> = seq![];
    assert(fields_prepend(empty, 0, parse_fields(s4, c as nat)) == parse_fields(s4, c as nat)) by {
        match parse_fields(s4, c as nat) {
            Some((ws, m)) => {
                assert(empty + ws =~= ws);
            },
            None => {},
        }
    }
    while k < c
        invariant
            4 <= p <= len,
            len == data@.len(),
            len >= 4,
            c == from_le32(data@.subrange(0, 4)),
            s4 == data@.subrange(4, len as int),
            0 <= k <= c,
            out@.len() == k,
            wf_record(out@),
            parse_fields(s4, c as nat) == fields_prepend(
                record_view(out@),
                p - 4,
                parse_fields(data@.subrange(p as int, len as int), (c - k) as nat),
            ),
        decreases c - k,
    {
        let ghost t = data@.subrange(p as int, len as int);
        let name = decode_str(data, p);
        match name {
            None => {
                return None;
            },
            Some((nm, e1)) => {
                assert(t.subrange(e1 - p, t.len() as int) =~= data@.subrange(e1 as int, len as int));
                proof {
                    let n = from_le32(t.subrange(0, 4)) as int;
                    decode_utf8_encode_utf8(t.subrange(4, 4 + n));
                }
                let val = decode_value(data, e1);
                match val {
                    None => {
                        return None;
                    },
                    Some((v, e2)) => {
                        proof {
                            let ghost u = data@.subrange(e1 as int, len as int);
                            assert(u.subrange(e2 - e1, u.len() as int) =~= data@.subrange(
                                e2 as int,
                                len as int,
                            ));
                            assert(t.subrange((e1 - p) + (e2 - e1), t.len() as int) =~= data@.subrange(
                                e2 as int,
                                len as int,
                            ));
                            let rest = parse_fields(
                                data@.subrange(e2 as int, len as int),
                                (c - k - 1) as nat,
                            );
                            match rest {
                                Some((ws, m)) => {
                                    assert(record_view(out@) + (seq![(nm@, v@)] + ws)
                                        =~= record_view(out@.push((nm, v))) + ws);
                                },
                                None => {},
                            }
                        }
                        out.push((nm, v));
                        proof {
                            assert forall|i: int| 0 <= i < out@.len() implies encode_utf8(
                                (#[trigger] out@[i]).0@,
                            ).len() <= u32::MAX && out@[i].1.wf() by {
                                if i < out@.len() - 1 {
                                    assert(out@[i] == out@.drop_last()[i]);
                                }
                            }
                        }
                        p = e2;
                        k = k + 1;
                    },
                }
            },
        }
    }
    proof {
        let t = data@.subrange(p as int, len as int);
        assert(parse_fields(t, 0) == Some((Seq::<(Seq<char>, Val)>::empty(), 0int)));
        assert(record_view(out@) + Seq::<(Seq<char>, Val)>::empty() =~= record_view(out@));
    }
    if p != len {
        return None;
    }
    Some(out)
}

/// `o` with `fs` put in front of its fields and `off` added to its length.
pub open spec fn fields_prepend(
    fs: Seq<(Seq<char>, Val)>,
    off: int,
    o: Option<(Seq<(Seq<char>, Val)>, int)>,
) -> Option<(Seq<(Seq<char>, Val)>, int)> {
    match o {
        None => None,
        Some((ws, m)) => Some((fs + ws, off + m)),
    }
}

} // verus!
