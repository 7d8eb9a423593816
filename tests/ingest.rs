use std::hash::Hasher;

use logstore::ingest::{id_bytes, make_id, value2map, ID_SEED};
use logstore::log_value::LogValue;
use logstore::record_codec::Record;
use logstore::record_error::RecordError;

fn num(x: f64) -> LogValue {
    LogValue::number_from_bits(x.to_bits())
}

fn s(x: &str) -> LogValue {
    LogValue::String(String::from(x))
}

#[test]
fn log_file_add_illegal_field() {
    let msg: Record = vec![
        (String::from("__c"), s("test")),
        (String::from("b"), num(23.0)),
        (String::from("a"), LogValue::Bool(true)),
    ];
    assert_eq!(value2map(msg, 1, 1.0f64.to_bits()).err(), Some(RecordError::ReservedField));
}

#[test]
fn single_underscore_is_allowed() {
    let msg: Record = vec![(String::from("_c"), s("test"))];
    assert!(value2map(msg, 1, 1.0f64.to_bits()).is_ok());
}

#[test]
fn fields_and_arrays_are_sorted_and_stamped() {
    let msg: Record = vec![
        (String::from("zeta"), LogValue::Array(vec![num(3.0), s("b"), num(1.0), LogValue::Null])),
        (String::from("alpha"), s("x")),
    ];
    let out = value2map(msg, 1_500, 1500.0f64.to_bits()).unwrap();
    assert_eq!(out.len(), 4);
    assert_eq!(out[0], (String::from("alpha"), s("x")));
    assert_eq!(
        out[1],
        (String::from("zeta"), LogValue::Array(vec![LogValue::Null, num(1.0), num(3.0), s("b")]))
    );
    assert_eq!(out[2], (String::from("__ts"), num(1500.0)));
    assert_eq!(out[3].0, "__id");
    match &out[3].1 {
        LogValue::String(id) => assert_eq!(id.len(), 11),
        _ => panic!("id is not a string"),
    }
}

#[test]
fn id_is_the_hash_of_fields_and_time() {
    let fields: Record = vec![(String::from("host"), s("a")), (String::from("n"), num(2.0))];
    let bytes = id_bytes(&fields, 7);
    let mut expected = Vec::new();
    expected.extend_from_slice(b"host");
    expected.extend_from_slice(b"a");
    expected.extend_from_slice(b"n");
    expected.extend_from_slice(&2.0f64.to_le_bytes());
    expected.extend_from_slice(b"__ts");
    expected.extend_from_slice(&7u64.to_le_bytes());
    assert_eq!(bytes, expected);

    let mut h = twox_hash::XxHash64::with_seed(ID_SEED);
    h.write(&expected);
    let id = base64::encode_config(h.finish().to_le_bytes(), base64::STANDARD_NO_PAD);
    assert_eq!(make_id(&fields, 7), id);
    assert_ne!(make_id(&fields, 8), id);
}
