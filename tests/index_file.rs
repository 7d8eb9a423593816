use logstore::index_file::IndexFile;
use logstore::log_value::LogValue;
use logstore::record_error::RecordError;

fn num(x: f64) -> LogValue {
    LogValue::number_from_bits(x.to_bits())
}

fn s(x: &str) -> LogValue {
    LogValue::String(String::from(x))
}

#[test]
fn index_file_new_file_no_slash() {
    let ix = IndexFile::new(Vec::new(), String::from("id")).unwrap();
    assert_eq!(ix.index_name, "id");
    assert_eq!(&ix.image()[0..12], b"LOGINDEX\x01XXX");
}

#[test]
fn add_flush() {
    let mut index_file = IndexFile::new(Vec::new(), String::from("id")).unwrap();
    index_file.add(num(7.0), 24);
    index_file.add(s("test"), 16);
    index_file.flush().unwrap();
    assert_eq!(index_file.get(&num(7.0)).unwrap(), vec![24]);
    assert_eq!(index_file.get(&s("test")).unwrap(), vec![16]);
}

#[test]
fn double_flush() {
    let mut index_file = IndexFile::new(Vec::new(), String::from("id")).unwrap();
    index_file.add(num(7.0), 24);
    index_file.flush().unwrap();
    index_file.add(s("test"), 16);
    index_file.flush().unwrap();
    assert_eq!(index_file.rec_file.record_count, 2);
    assert_eq!(index_file.get(&num(7.0)).unwrap(), vec![24]);
    assert_eq!(index_file.get(&s("test")).unwrap(), vec![16]);
}

#[test]
fn get() {
    let mut index_file = IndexFile::new(Vec::new(), String::from("test")).unwrap();
    index_file.add(s("test"), 16);
    let ret = index_file.get(&s("test")).unwrap();
    assert_eq!(ret, [16]);
}

#[test]
fn flush_merges_memory_and_disk() {
    let mut ix = IndexFile::new(Vec::new(), String::from("host")).unwrap();
    for off in [100, 200, 300] {
        ix.add(s("a"), off);
    }
    ix.flush().unwrap();
    for off in [400, 500] {
        ix.add(s("a"), off);
    }
    assert_eq!(ix.get(&s("a")).unwrap(), vec![100, 200, 300, 400, 500]);
    ix.flush().unwrap();
    assert_eq!(ix.rec_file.record_count, 1);
    assert_eq!(ix.get(&s("a")).unwrap(), vec![100, 200, 300, 400, 500]);
}

#[test]
fn same_value_twice_keeps_both_offsets() {
    let mut ix = IndexFile::new(Vec::new(), String::from("f")).unwrap();
    ix.add(s("v"), 50);
    ix.add(s("v"), 10);
    ix.add(s("v"), 50);
    assert_eq!(ix.get(&s("v")).unwrap(), vec![10, 50]);
    ix.flush().unwrap();
    assert_eq!(ix.get(&s("v")).unwrap(), vec![10, 50]);
}

#[test]
fn unknown_value_gives_empty_list() {
    let mut ix = IndexFile::new(Vec::new(), String::from("f")).unwrap();
    ix.add(s("v"), 1);
    ix.flush().unwrap();
    assert_eq!(ix.get(&s("w")).unwrap(), Vec::<u64>::new());
    assert_eq!(ix.get(&LogValue::Null).unwrap(), Vec::<u64>::new());
}

#[test]
fn close_then_reopen_keeps_offsets() {
    let mut ix = IndexFile::new(Vec::new(), String::from("f")).unwrap();
    ix.add(s("x"), 8);
    ix.add(num(1.0), 9);
    ix.flush().unwrap();
    ix.add(s("x"), 30);
    ix.close().unwrap();
    let again = IndexFile::new(ix.image().clone(), String::from("f")).unwrap();
    assert_eq!(again.term_map.len(), 2);
    assert_eq!(again.get(&s("x")).unwrap(), vec![8, 30]);
    assert_eq!(again.get(&num(1.0)).unwrap(), vec![9]);
}

#[test]
fn mismatched_term_map_is_corrupt() {
    let mut ix = IndexFile::new(Vec::new(), String::from("f")).unwrap();
    ix.add(s("x"), 8);
    ix.close().unwrap();
    let mut image = ix.image().clone();
    let last = image.len() - 1;
    image[last] ^= 1; // the stored offset of the only term
    assert_eq!(IndexFile::new(image, String::from("f")).err(), Some(RecordError::Corrupt));
}
