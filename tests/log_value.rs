use std::cmp::Ordering;

use logstore::codec::{decode_value, encode_value};
use logstore::log_value::LogValue;
use logstore::record_codec::{decode_record, encode_record};

fn num(x: f64) -> LogValue {
    LogValue::number_from_bits(x.to_bits())
}

fn s(x: &str) -> LogValue {
    LogValue::String(String::from(x))
}

#[test]
fn numbers_order_as_doubles() {
    let xs = [-1e300, -2.5, -1.0, 0.0, 1.0e-9, 1.0, 2.0, 42.0, 1e300];
    for i in 0..xs.len() {
        for j in 0..xs.len() {
            let expected = xs[i].partial_cmp(&xs[j]).unwrap();
            assert_eq!(num(xs[i]).compare(&num(xs[j])), expected);
        }
    }
}

#[test]
fn negative_zero_equals_zero() {
    assert_eq!(num(-0.0), num(0.0));
    assert_eq!(num(-0.0).compare(&num(0.0)), Ordering::Equal);
}

#[test]
fn number_bits_round_trip() {
    for x in [0.0f64, 1.5, -7.25, 42.0, f64::MAX, f64::MIN_POSITIVE] {
        assert_eq!(num(x).number_bits(), Some(x.to_bits()));
    }
    assert_eq!(s("a").number_bits(), None);
}

#[test]
fn every_value_equals_itself() {
    let vals = vec![
        LogValue::Null,
        LogValue::Bool(false),
        LogValue::Bool(true),
        num(3.0),
        s(""),
        s("héllo"),
        LogValue::Array(vec![]),
        LogValue::Array(vec![num(1.0), s("x"), LogValue::Null]),
    ];
    for v in &vals {
        assert_eq!(v.compare(v), Ordering::Equal);
    }
}

#[test]
fn variants_order_null_bool_number_string_array() {
    let vals = vec![
        LogValue::Null,
        LogValue::Bool(true),
        num(-5.0),
        s(""),
        LogValue::Array(vec![]),
    ];
    for i in 0..vals.len() {
        for j in 0..vals.len() {
            assert_eq!(vals[i].compare(&vals[j]), i.cmp(&j));
            assert_eq!(vals[i].cmp(&vals[j]), i.cmp(&j));
        }
    }
}

#[test]
fn strings_and_arrays_order_lexicographically() {
    assert_eq!(s("abc").compare(&s("abd")), Ordering::Less);
    assert_eq!(s("ab").compare(&s("abc")), Ordering::Less);
    assert_eq!(s("b").compare(&s("abc")), Ordering::Greater);
    let a = LogValue::Array(vec![num(1.0), num(2.0)]);
    let b = LogValue::Array(vec![num(1.0), num(3.0)]);
    let c = LogValue::Array(vec![num(1.0)]);
    assert_eq!(a.compare(&b), Ordering::Less);
    assert_eq!(b.compare(&a), Ordering::Greater);
    assert_eq!(c.compare(&a), Ordering::Less);
    assert_eq!(LogValue::Bool(false).compare(&LogValue::Bool(true)), Ordering::Less);
}

#[test]
fn value_encoding_is_tagged() {
    let mut out = Vec::new();
    encode_value(&LogValue::Bool(true), &mut out);
    assert_eq!(out, vec![1, 1]);
    let mut out = Vec::new();
    encode_value(&s("hi"), &mut out);
    assert_eq!(out, vec![3, 2, 0, 0, 0, b'h', b'i']);
    let mut out = Vec::new();
    encode_value(&LogValue::Array(vec![LogValue::Null]), &mut out);
    assert_eq!(out, vec![4, 1, 0, 0, 0, 0]);
}

#[test]
fn values_round_trip() {
    let vals = vec![
        LogValue::Null,
        LogValue::Bool(false),
        num(-12.5),
        s("ünïcödé"),
        LogValue::Array(vec![s("a"), num(2.0), LogValue::Bool(true)]),
    ];
    for v in vals {
        let mut out = Vec::new();
        encode_value(&v, &mut out);
        let (back, end) = decode_value(&out, 0).unwrap();
        assert_eq!(back, v);
        assert_eq!(end, out.len());
    }
}

#[test]
fn bad_encodings_are_rejected() {
    assert!(decode_value(&[9], 0).is_none());
    assert!(decode_value(&[1, 2], 0).is_none());
    assert!(decode_value(&[3, 5, 0, 0, 0, b'a'], 0).is_none());
    assert!(decode_value(&[3, 1, 0, 0, 0, 0xFF], 0).is_none());
    assert!(decode_value(&[], 0).is_none());
}

#[test]
fn records_round_trip() {
    let rec = vec![
        (String::from("host"), s("localhost")),
        (String::from("count"), num(42.0)),
        (String::from("tags"), LogValue::Array(vec![s("a"), s("b")])),
        (String::from("ok"), LogValue::Bool(true)),
        (String::from("none"), LogValue::Null),
    ];
    let bytes = encode_record(&rec);
    assert_eq!(decode_record(&bytes), Some(rec));
    assert_eq!(decode_record(&encode_record(&vec![])), Some(vec![]));
}

#[test]
fn record_with_trailing_bytes_is_rejected() {
    let rec = vec![(String::from("a"), LogValue::Null)];
    let mut bytes = encode_record(&rec);
    bytes.push(0);
    assert_eq!(decode_record(&bytes), None);
}

#[test]
fn as_bytes_of_each_variant() {
    assert_eq!(LogValue::Null.as_bytes(), Vec::<u8>::new());
    assert_eq!(LogValue::Bool(true).as_bytes(), vec![1]);
    assert_eq!(num(1.0).as_bytes(), 1.0f64.to_le_bytes().to_vec());
    assert_eq!(s("ab").as_bytes(), b"ab".to_vec());
    assert_eq!(
        LogValue::Array(vec![s("a"), LogValue::Bool(false)]).as_bytes(),
        vec![b'a', 0]
    );
}
