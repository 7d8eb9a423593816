//! The values stored in records: null, booleans, numbers, strings and arrays
//! of those.
use vstd::prelude::*;
use vstd::utf8::{encode_utf8, encode_utf8_decode_utf8};

use crate::bytes::{le64, push_range, push_u64};

verus! {

/// The mathematical value of a `LogValue`.
pub enum Val {
    Null,
    Bool(bool),
    /// The order key of a double; see `f64_key`.
    Number(u64),
    Str(Seq<char>),
    Array(Seq<Val>),
}

/// A field value: a primitive or an array of primitives.
///
/// A number is held as the order key of its double-precision value, so that
/// keys compare as the numbers do and equal numbers have equal keys.
#[derive(Debug, PartialEq, Eq, PartialOrd, Ord, Hash)]
pub enum LogValue {
    Null,
    Bool(bool),
    Number(u64),
    String(String),
    Array(Vec<LogValue>),
}

/// The order key of the double whose bits are `bits`: negative zero is taken
/// as zero, positive numbers get the top bit set, negative ones have all
/// bits flipped.
pub open spec fn f64_key(bits: u64) -> u64 {
    if bits == 0x8000_0000_0000_0000 {
        0x8000_0000_0000_0000
    } else if bits < 0x8000_0000_0000_0000 {
        (bits + 0x8000_0000_0000_0000) as u64
    } else {
        (u64::MAX - bits) as u64
    }
}

/// The bits of the double whose order key is `key`.
pub open spec fn f64_bits(key: u64) -> u64 {
    if key >= 0x8000_0000_0000_0000 {
        (key - 0x8000_0000_0000_0000) as u64
    } else {
        (u64::MAX - key) as u64
    }
}

/// The position of a variant in the order across variants.
pub open spec fn rank(v: Val) -> int {
    match v {
        Val::Null => 0,
        Val::Bool(_) => 1,
        Val::Number(_) => 2,
        Val::Str(_) => 3,
        Val::Array(_) => 4,
    }
}

pub open spec fn is_scalar(v: Val) -> bool {
    !(v is Array)
}

/// -1, 0 or 1 as `a` is below, equal to or above `b`.
pub open spec fn cmp_int(a: int, b: int) -> int {
    if a < b {
        -1
    } else if a == b {
        0
    } else {
        1
    }
}

/// Lexicographic order of byte strings.
pub open spec fn lex_bytes(a: Seq<u8>, b: Seq<u8>) -> int
    decreases a.len(),
{
    if a.len() == 0 && b.len() == 0 {
        0
    } else if a.len() == 0 {
        -1
    } else if b.len() == 0 {
        1
    } else if a[0] != b[0] {
        cmp_int(a[0] as int, b[0] as int)
    } else {
        lex_bytes(a.drop_first(), b.drop_first())
    }
}

pub open spec fn bool_int(b: bool) -> int {
    if b {
        1
    } else {
        0
    }
}

/// The order of two values of which neither is an array: by variant first,
/// then by content; strings compare by their UTF-8 bytes.
pub open spec fn cmp_scalar(a: Val, b: Val) -> int {
    if rank(a) != rank(b) {
        cmp_int(rank(a), rank(b))
    } else {
        match (a, b) {
            (Val::Bool(x), Val::Bool(y)) => cmp_int(bool_int(x), bool_int(y)),
            (Val::Number(x), Val::Number(y)) => cmp_int(x as int, y as int),
            (Val::Str(x), Val::Str(y)) => lex_bytes(encode_utf8(x), encode_utf8(y)),
            _ => 0,
        }
    }
}

/// Lexicographic order of sequences of scalars.
pub open spec fn lex_vals(a: Seq<Val>, b: Seq<Val>) -> int
    decreases a.len(),
{
    if a.len() == 0 && b.len() == 0 {
        0
    } else if a.len() == 0 {
        -1
    } else if b.len() == 0 {
        1
    } else if cmp_scalar(a[0], b[0]) != 0 {
        cmp_scalar(a[0], b[0])
    } else {
        lex_vals(a.drop_first(), b.drop_first())
    }
}

/// The total order of values: Null < Bool < Number < String < Array, and
/// within a variant the natural order (arrays element by element).
pub open spec fn cmp_val(a: Val, b: Val) -> int {
    match (a, b) {
        (Val::Array(x), Val::Array(y)) => lex_vals(x, y),
        _ => cmp_scalar(a, b),
    }
}

/// A value of the data model: string lengths fit the length prefixes, and
/// an array holds scalars only.
pub open spec fn wf_val(v: Val) -> bool {
    match v {
        Val::Array(items) => items.len() <= u32::MAX && forall|i: int|
            0 <= i < items.len() ==> is_scalar(#[trigger] items[i]) && wf_scalar(items[i]),
        _ => wf_scalar(v),
    }
}

/// A non-array whose string, if any, fits a length prefix.
pub open spec fn wf_scalar(v: Val) -> bool {
    match v {
        Val::Str(s) => encode_utf8(s).len() <= u32::MAX,
        Val::Array(_) => false,
        _ => true,
    }
}

impl LogValue {
    /// The value of a non-array.
    pub open spec fn scalar_view(&self) -> Val {
        match self {
            LogValue::Null => Val::Null,
            LogValue::Bool(b) => Val::Bool(*b),
            LogValue::Number(k) => Val::Number(*k),
            LogValue::String(s) => Val::Str(s@),
            LogValue::Array(_) => Val::Array(seq![]),
        }
    }
}

impl View for LogValue {
    type V = Val;

    open spec fn view(&self) -> Val {
        match self {
            LogValue::Array(a) => Val::Array(a@.map_values(|x: LogValue| x.scalar_view())),
            _ => self.scalar_view(),
        }
    }
}

impl LogValue {
    /// No array nests inside an array.
    pub open spec fn wf(&self) -> bool {
        &&& wf_val(self@)
        &&& (self matches LogValue::Array(a) ==> forall|i: int|
            0 <= i < a@.len() ==> !(#[trigger] a@[i] is Array))
    }

    /// The number whose double has the bits `bits`.
    pub fn number_from_bits(bits: u64) -> (r: LogValue)
        ensures
            r == LogValue::Number(f64_key(bits)),
            r.wf(),
    {
        if bits == 0x8000_0000_0000_0000 {
            LogValue::Number(0x8000_0000_0000_0000)
        } else if bits < 0x8000_0000_0000_0000 {
            LogValue::Number(bits + 0x8000_0000_0000_0000)
        } else {
            LogValue::Number(u64::MAX - bits)
        }
    }

    /// The bits of the double of a number.
    pub fn number_bits(&self) -> (r: Option<u64>)
        ensures
            match self {
                LogValue::Number(k) => r == Some(f64_bits(*k)),
                _ => r is None,
            },
    {
        match self {
            LogValue::Number(k) => {
                if *k >= 0x8000_0000_0000_0000 {
                    Some(*k - 0x8000_0000_0000_0000)
                } else {
                    Some(u64::MAX - *k)
                }
            },
            _ => None,
        }
    }
}

/// Keys and bits convert back and forth; only negative zero changes.
pub proof fn lemma_f64_key_round_trip(bits: u64)
    ensures
        bits != 0x8000_0000_0000_0000 ==> f64_bits(f64_key(bits)) == bits,
        f64_key(f64_bits(f64_key(bits))) == f64_key(bits),
{
}

proof fn lemma_lex_bytes_trans(a: Seq<u8>, b: Seq<u8>, c: Seq<u8>)
    requires
        lex_bytes(a, b) <= 0,
        lex_bytes(b, c) <= 0,
    ensures
        lex_bytes(a, c) <= 0,
    decreases a.len(),
{
    lemma_lex_bytes(a, b);
    lemma_lex_bytes(b, c);
    lemma_lex_bytes(a, c);
    if a.len() > 0 && b.len() > 0 && c.len() > 0 && a[0] == b[0] && b[0] == c[0] {
        lemma_lex_bytes_trans(a.drop_first(), b.drop_first(), c.drop_first());
    }
}

proof fn lemma_cmp_scalar_trans(a: Val, b: Val, c: Val)
    requires
        cmp_scalar(a, b) <= 0,
        cmp_scalar(b, c) <= 0,
    ensures
        cmp_scalar(a, c) <= 0,
{
    if let (Val::Str(x), Val::Str(y), Val::Str(z)) = (a, b, c) {
        lemma_lex_bytes_trans(encode_utf8(x), encode_utf8(y), encode_utf8(z));
    }
}

proof fn lemma_lex_vals_trans(a: Seq<Val>, b: Seq<Val>, c: Seq<Val>)
    requires
        forall|i: int| 0 <= i < a.len() ==> is_scalar(#[trigger] a[i]),
        forall|i: int| 0 <= i < b.len() ==> is_scalar(#[trigger] b[i]),
        forall|i: int| 0 <= i < c.len() ==> is_scalar(#[trigger] c[i]),
        lex_vals(a, b) <= 0,
        lex_vals(b, c) <= 0,
    ensures
        lex_vals(a, c) <= 0,
    decreases a.len(),
{
    if a.len() > 0 && b.len() > 0 && c.len() > 0 {
        lemma_cmp_scalar(a[0], b[0]);
        lemma_cmp_scalar(b[0], c[0]);
        lemma_cmp_scalar(a[0], c[0]);
        assert(is_scalar(a[0]) && is_scalar(b[0]) && is_scalar(c[0]));
        if cmp_scalar(a[0], b[0]) == 0 && cmp_scalar(b[0], c[0]) == 0 {
            assert forall|i: int| 0 <= i < a.drop_first().len() implies is_scalar(#[trigger] a.drop_first()[i]) by {
                assert(a.drop_first()[i] == a[i + 1]);
            }
            assert forall|i: int| 0 <= i < b.drop_first().len() implies is_scalar(#[trigger] b.drop_first()[i]) by {
                assert(b.drop_first()[i] == b[i + 1]);
            }
            assert forall|i: int| 0 <= i < c.drop_first().len() implies is_scalar(#[trigger] c.drop_first()[i]) by {
                assert(c.drop_first()[i] == c[i + 1]);
            }
            lemma_lex_vals_trans(a.drop_first(), b.drop_first(), c.drop_first());
        } else {
            lemma_cmp_scalar_trans(a[0], b[0], c[0]);
            if cmp_scalar(a[0], c[0]) == 0 {
                assert(a[0] == c[0]);
                if cmp_scalar(a[0], b[0]) != 0 {
                    assert(cmp_scalar(b[0], a[0]) == -cmp_scalar(a[0], b[0]));
                }
            }
        }
    }
}

/// The order of values is transitive.
pub proof fn lemma_cmp_transitive(a: Val, b: Val, c: Val)
    requires
        wf_val(a),
        wf_val(b),
        wf_val(c),
        cmp_val(a, b) <= 0,
        cmp_val(b, c) <= 0,
    ensures
        cmp_val(a, c) <= 0,
{
    match (a, b, c) {
        (Val::Array(x), Val::Array(y), Val::Array(z)) => {
            lemma_lex_vals_trans(x, y, z);
        },
        _ => {
            lemma_cmp_scalar_trans(a, b, c);
        },
    }
}

impl LogValue {
    /// A deep copy.
    pub fn copy(&self) -> (r: LogValue)
        ensures
            r@ == self@,
            r.scalar_view() == self.scalar_view(),
            r is Array <==> self is Array,
            self.wf() ==> r.wf(),
        decreases self,
    {
        match self {
            LogValue::Null => LogValue::Null,
            LogValue::Bool(b) => LogValue::Bool(*b),
            LogValue::Number(k) => LogValue::Number(*k),
            LogValue::String(s) => LogValue::String(s.clone()),
            LogValue::Array(a) => {
                let mut out: Vec<LogValue> = Vec::new();
                let mut i: usize = 0;
                while i < a.len()
                    invariant
                        0 <= i <= a@.len(),
                        out@.len() == i,
                        self matches LogValue::Array(aa) && aa == a,
                        forall|j: int|
                            0 <= j < i ==> (#[trigger] out@[j]).scalar_view() == a@[j].scalar_view()
                                && (out@[j] is Array <==> a@[j] is Array),
                    decreases a@.len() - i,
                {
                    let x = a[i].copy();
                    out.push(x);
                    i = i + 1;
                }
                let r = LogValue::Array(out);
                assert(out@.map_values(|x: LogValue| x.scalar_view()) =~= a@.map_values(
                    |x: LogValue| x.scalar_view(),
                ));
                r
            },
        }
    }
}

impl Clone for LogValue {
    fn clone(&self) -> Self {
        self.copy()
    }
}

/// The `Ordering` that -1, 0 or 1 stands for.
pub open spec fn ordering_of(c: int) -> core::cmp::Ordering {
    if c < 0 {
        core::cmp::Ordering::Less
    } else if c == 0 {
        core::cmp::Ordering::Equal
    } else {
        core::cmp::Ordering::Greater
    }
}

fn cmp_u64(a: u64, b: u64) -> (r: i8)
    ensures
        r as int == cmp_int(a as int, b as int),
{
    if a < b {
        -1
    } else if a == b {
        0
    } else {
        1
    }
}

pub(crate) fn lex_compare_bytes(a: &[u8], b: &[u8]) -> (r: i8)
    ensures
        r as int == lex_bytes(a@, b@),
{
    let mut i: usize = 0;
    assert(a@.skip(0) =~= a@);
    assert(b@.skip(0) =~= b@);
    while i < a.len() && i < b.len()
        invariant
            0 <= i <= a@.len(),
            i <= b@.len(),
            a@.subrange(0, i as int) == b@.subrange(0, i as int),
            lex_bytes(a@, b@) == lex_bytes(a@.skip(i as int), b@.skip(i as int)),
        decreases a@.len() - i,
    {
        if a[i] != b[i] {
            return if a[i] < b[i] {
                -1
            } else {
                1
            };
        }
        assert(a@.skip(i as int).drop_first() =~= a@.skip(i + 1));
        assert(b@.skip(i as int).drop_first() =~= b@.skip(i + 1));
        i = i + 1;
        assert(a@.subrange(0, i as int) =~= b@.subrange(0, i as int)) by {
            assert(a@.subrange(0, i as int) =~= a@.subrange(0, i - 1).push(a@[i - 1]));
            assert(b@.subrange(0, i as int) =~= b@.subrange(0, i - 1).push(b@[i - 1]));
        }
    }
    if i == a.len() && i == b.len() {
        0
    } else if i == a.len() {
        -1
    } else {
        1
    }
}

fn rank_of(v: &LogValue) -> (r: i8)
    ensures
        r as int == rank(v@),
{
    match v {
        LogValue::Null => 0,
        LogValue::Bool(_) => 1,
        LogValue::Number(_) => 2,
        LogValue::String(_) => 3,
        LogValue::Array(_) => 4,
    }
}

fn compare_scalar(a: &LogValue, b: &LogValue) -> (r: i8)
    requires
        !(a is Array),
        !(b is Array),
    ensures
        r as int == cmp_scalar(a@, b@),
{
    let ra = rank_of(a);
    let rb = rank_of(b);
    if ra != rb {
        return if ra < rb {
            -1
        } else {
            1
        };
    }
    match (a, b) {
        (LogValue::Bool(x), LogValue::Bool(y)) => {
            let xi: u64 = if *x {
                1
            } else {
                0
            };
            let yi: u64 = if *y {
                1
            } else {
                0
            };
            cmp_u64(xi, yi)
        },
        (LogValue::Number(x), LogValue::Number(y)) => cmp_u64(*x, *y),
        (LogValue::String(x), LogValue::String(y)) => lex_compare_bytes(x.as_str().as_bytes(), y.as_str().as_bytes()),
        _ => 0,
    }
}

impl LogValue {
    /// Compares two values in the order Null < Bool < Number < String <
    /// Array, each variant in its natural order.
    pub fn compare(&self, other: &LogValue) -> (r: core::cmp::Ordering)
        requires
            self.wf(),
            other.wf(),
        ensures
            r == ordering_of(cmp_val(self@, other@)),
    {
        let c: i8 = match (self, other) {
            (LogValue::Array(x), LogValue::Array(y)) => {
                let ghost xs = x@.map_values(|v: LogValue| v.scalar_view());
                let ghost ys = y@.map_values(|v: LogValue| v.scalar_view());
                let mut i: usize = 0;
                let mut res: i8 = 0;
                let mut done = false;
                assert(xs.skip(0) =~= xs);
                assert(ys.skip(0) =~= ys);
                while i < x.len() && i < y.len()
                    invariant_except_break
                        !done,
                    invariant
                        0 <= i <= x@.len(),
                        i <= y@.len(),
                        self.wf(),
                        other.wf(),
                        self matches LogValue::Array(xx) && xx == x,
                        other matches LogValue::Array(yy) && yy == y,
                        xs == x@.map_values(|v: LogValue| v.scalar_view()),
                        ys == y@.map_values(|v: LogValue| v.scalar_view()),
                        lex_vals(xs, ys) == lex_vals(xs.skip(i as int), ys.skip(i as int)),
                    ensures
                        !done ==> !(i < x@.len() && i < y@.len()),
                        done ==> res as int == lex_vals(xs, ys),
                    decreases x@.len() - i,
                {
                    assert(x@[i as int].scalar_view() == xs[i as int]);
                    assert(y@[i as int].scalar_view() == ys[i as int]);
                    let c = compare_scalar(&x[i], &y[i]);
                    assert(xs.skip(i as int)[0] == xs[i as int]);
                    assert(ys.skip(i as int)[0] == ys[i as int]);
                    if c != 0 {
                        res = c;
                        done = true;
                        break;
                    }
                    assert(xs.skip(i as int).drop_first() =~= xs.skip(i + 1));
                    assert(ys.skip(i as int).drop_first() =~= ys.skip(i + 1));
                    i = i + 1;
                }
                if done {
                    res
                } else if i == x.len() && i == y.len() {
                    0
                } else if i == x.len() {
                    -1
                } else {
                    1
                }
            },
            (LogValue::Array(_), _) => 1,
            (_, LogValue::Array(_)) => -1,
            _ => compare_scalar(self, other),
        };
        if c < 0 {
            core::cmp::Ordering::Less
        } else if c == 0 {
            core::cmp::Ordering::Equal
        } else {
            core::cmp::Ordering::Greater
        }
    }
}

proof fn lemma_lex_bytes(a: Seq<u8>, b: Seq<u8>)
    ensures
        -1 <= lex_bytes(a, b) <= 1,
        lex_bytes(a, b) == -lex_bytes(b, a),
        lex_bytes(a, b) == 0 <==> a == b,
    decreases a.len(),
{
    if a.len() == 0 || b.len() == 0 {
        if a.len() != b.len() {
            assert(a != b);
        } else {
            assert(a =~= b);
        }
    } else if a[0] != b[0] {
        assert(a != b);
    } else {
        lemma_lex_bytes(a.drop_first(), b.drop_first());
        assert(a =~= seq![a[0]] + a.drop_first());
        assert(b =~= seq![b[0]] + b.drop_first());
        if a == b {
            assert(a.drop_first() =~= b.drop_first());
        }
    }
}

proof fn lemma_cmp_scalar(a: Val, b: Val)
    ensures
        -1 <= cmp_scalar(a, b) <= 1,
        cmp_scalar(a, b) == -cmp_scalar(b, a),
        is_scalar(a) && is_scalar(b) ==> (cmp_scalar(a, b) == 0 <==> a == b),
{
    if let (Val::Str(x), Val::Str(y)) = (a, b) {
        lemma_lex_bytes(encode_utf8(x), encode_utf8(y));
        encode_utf8_decode_utf8(x);
        encode_utf8_decode_utf8(y);
    }
}

proof fn lemma_lex_vals(a: Seq<Val>, b: Seq<Val>)
    requires
        forall|i: int| 0 <= i < a.len() ==> is_scalar(#[trigger] a[i]),
        forall|i: int| 0 <= i < b.len() ==> is_scalar(#[trigger] b[i]),
    ensures
        -1 <= lex_vals(a, b) <= 1,
        lex_vals(a, b) == -lex_vals(b, a),
        lex_vals(a, b) == 0 <==> a == b,
    decreases a.len(),
{
    if a.len() == 0 || b.len() == 0 {
        if a.len() != b.len() {
            assert(a != b);
        } else {
            assert(a =~= b);
        }
    } else {
        lemma_cmp_scalar(a[0], b[0]);
        assert(is_scalar(a[0]) && is_scalar(b[0]));
        if cmp_scalar(a[0], b[0]) != 0 {
            assert(a != b);
        } else {
            assert forall|i: int| 0 <= i < a.drop_first().len() implies is_scalar(
                #[trigger] a.drop_first()[i],
            ) by {
                assert(a.drop_first()[i] == a[i + 1]);
            }
            assert forall|i: int| 0 <= i < b.drop_first().len() implies is_scalar(
                #[trigger] b.drop_first()[i],
            ) by {
                assert(b.drop_first()[i] == b[i + 1]);
            }
            lemma_lex_vals(a.drop_first(), b.drop_first());
            assert(a =~= seq![a[0]] + a.drop_first());
            assert(b =~= seq![b[0]] + b.drop_first());
            if a == b {
                assert(a.drop_first() =~= b.drop_first());
            }
        }
    }
}

/// The order of values is total: every value compares equal to itself, two
/// values compare equal exactly when they are the same value, and swapping
/// the operands reverses the outcome.
pub proof fn lemma_cmp_total(a: Val, b: Val)
    requires
        wf_val(a),
        wf_val(b),
    ensures
        cmp_val(a, a) == 0,
        -1 <= cmp_val(a, b) <= 1,
        cmp_val(a, b) == 0 <==> a == b,
        cmp_val(a, b) == -cmp_val(b, a),
{
    match (a, b) {
        (Val::Array(x), Val::Array(y)) => {
            lemma_lex_vals(x, y);
            lemma_lex_vals(x, x);
        },
        (Val::Array(x), _) => {
            lemma_lex_vals(x, x);
            lemma_cmp_scalar(a, b);
        },
        (_, _) => {
            lemma_cmp_scalar(a, b);
            lemma_cmp_scalar(a, a);
        },
    }
}

/// The bytes that stand for a non-array: nothing for null, one byte for a
/// boolean, the eight little-endian bytes of a number's double, the UTF-8
/// bytes of a string.
pub open spec fn scalar_bytes(v: Val) -> Seq<u8> {
    match v {
        Val::Null => seq![],
        Val::Bool(b) => seq![if b { 1u8 } else { 0u8 }],
        Val::Number(k) => le64(f64_bits(k)),
        Val::Str(s) => encode_utf8(s),
        Val::Array(_) => seq![],
    }
}

pub open spec fn concat_bytes(items: Seq<Val>) -> Seq<u8>
    decreases items.len(),
{
    if items.len() == 0 {
        seq![]
    } else {
        concat_bytes(items.drop_last()) + scalar_bytes(items.last())
    }
}

/// The bytes that stand for a value; an array's are those of its elements.
pub open spec fn value_bytes(v: Val) -> Seq<u8> {
    match v {
        Val::Array(items) => concat_bytes(items),
        _ => scalar_bytes(v),
    }
}

fn push_scalar_bytes(v: &LogValue, out: &mut Vec<u8>)
    requires
        !(v is Array),
    ensures
        final(out)@ == old(out)@ + scalar_bytes(v.scalar_view()),
{
    match v {
        LogValue::Null => {},
        LogValue::Bool(b) => {
            out.push(
                if *b {
                    1u8
                } else {
                    0u8
                },
            );
        },
        LogValue::Number(_) => {
            let bits = v.number_bits().unwrap();
            push_u64(out, bits);
        },
        LogValue::String(s) => {
            let b = s.as_str().as_bytes();
            push_range(out, b, 0, b.len());
            assert(b@.subrange(0, b@.len() as int) =~= b@);
        },
        LogValue::Array(_) => {},
    }
    assert(out@ =~= old(out)@ + scalar_bytes(v.scalar_view()));
}

impl LogValue {
    /// The bytes that stand for the value, as hashed into record ids.
    pub fn as_bytes(&self) -> (r: Vec<u8>)
        requires
            self.wf(),
        ensures
            r@ == value_bytes(self@),
    {
        let mut out: Vec<u8> = Vec::new();
        match self {
            LogValue::Array(a) => {
                let ghost items = self@->Array_0;
                let mut i: usize = 0;
                while i < a.len()
                    invariant
                        self.wf(),
                        self matches LogValue::Array(aa) && aa == a,
                        items == a@.map_values(|x: LogValue| x.scalar_view()),
                        0 <= i <= a@.len(),
                        out@ == concat_bytes(items.subrange(0, i as int)),
                    decreases a@.len() - i,
                {
                    push_scalar_bytes(&a[i], &mut out);
                    proof {
                        let next = items.subrange(0, i + 1);
                        assert(next.drop_last() =~= items.subrange(0, i as int));
                        assert(next.last() == a@[i as int].scalar_view());
                    }
                    i = i + 1;
                }
                assert(items.subrange(0, a@.len() as int) =~= items);
            },
            _ => {
                push_scalar_bytes(self, &mut out);
                assert(out@ =~= value_bytes(self@));
            },
        }
        out
    }
}

} // verus!
