use logstore::data_manager::DataManager;
use logstore::log_value::LogValue;
use logstore::record_codec::Record;

fn num(x: f64) -> LogValue {
    LogValue::number_from_bits(x.to_bits())
}

fn s(x: &str) -> LogValue {
    LogValue::String(String::from(x))
}

fn field(name: &str, v: LogValue) -> (String, LogValue) {
    (String::from(name), v)
}

/// Closes the store and opens its images again.
fn reopen(mut dm: DataManager) -> DataManager {
    dm.close().unwrap();
    let log = dm.log_image().clone();
    let mut images = Vec::new();
    for i in 0..dm.index_count() {
        let (name, image) = dm.index_image(i);
        images.push((name.clone(), image.clone()));
    }
    DataManager::new(log, images).unwrap()
}

fn sorted(mut v: Vec<Record>) -> Vec<Record> {
    v.sort();
    v
}

#[test]
fn insert_test() {
    let mut log: Record = vec![
        field("time", s("[11/Aug/2014:17:21:45 +0000]")),
        field("remoteIP", s("127.0.0.1")),
        field("host", s("localhost")),
        field("request", s("/index.html")),
        field("query", s("")),
        field("method", s("GET")),
        field("status", s("200")),
        field("userAgent", s("ApacheBench/2.3")),
        field("referer", s("-")),
    ];
    let mut dm = DataManager::new(Vec::new(), Vec::new()).unwrap();
    for i in 0..50 {
        log.retain(|f| f.0 != "count");
        log.push(field("count", num(i as f64)));
        dm.insert(&log).unwrap();
    }
    assert_eq!(dm.get("host", &s("localhost")).unwrap().len(), 50);
    assert_eq!(dm.get("count", &num(7.0)).unwrap().len(), 1);
}

#[test]
fn empty_directory_open() {
    let mut dm = DataManager::new(Vec::new(), Vec::new()).unwrap();
    assert_eq!(dm.get("host", &s("x")).unwrap(), Vec::<Record>::new());
    dm.close().unwrap();
}

#[test]
fn single_insert_single_get() {
    let mut dm = DataManager::new(Vec::new(), Vec::new()).unwrap();
    let rec: Record = vec![field("host", s("a")), field("method", s("GET"))];
    dm.insert(&rec).unwrap();
    assert_eq!(dm.get("host", &s("a")).unwrap(), vec![rec.clone()]);
    assert_eq!(dm.get("method", &s("GET")).unwrap(), vec![rec.clone()]);
    assert_eq!(dm.get("host", &s("b")).unwrap(), Vec::<Record>::new());
}

#[test]
fn flush_survives_restart() {
    let mut dm = DataManager::new(Vec::new(), Vec::new()).unwrap();
    for i in 0..100 {
        dm.insert(&vec![field("count", num(i as f64)), field("host", s("h"))]).unwrap();
    }
    dm.flush().unwrap();
    let dm = reopen(dm);
    assert_eq!(dm.get("host", &s("h")).unwrap().len(), 100);
    let hits = dm.get("count", &num(42.0)).unwrap();
    assert_eq!(hits.len(), 1);
    assert_eq!(hits[0][0], field("count", num(42.0)));
}

#[test]
fn crash_recovery_reads_log_and_flushed_index() {
    let mut dm = DataManager::new(Vec::new(), Vec::new()).unwrap();
    for i in 0..10 {
        dm.insert(&vec![field("n", num(i as f64)), field("kind", s("k"))]).unwrap();
    }
    dm.flush().unwrap();
    // no close: the log keeps its sentinel count; the indexes keep their flushed files
    let log = dm.log_image().clone();
    let mut images = Vec::new();
    for i in 0..dm.index_count() {
        let (name, image) = dm.index_image(i);
        images.push((name.clone(), image.clone()));
    }
    let dm2 = DataManager::new(log, images).unwrap();
    assert_eq!(dm2.log_file.rec_file.record_count, 10);
    assert_eq!(dm2.log_file.iterate().unwrap().len(), 10);
    assert_eq!(dm2.get("kind", &s("k")).unwrap().len(), 10);
    assert_eq!(dm2.get("n", &num(3.0)).unwrap().len(), 1);
}

#[test]
fn flush_merges_index_records() {
    let mut dm = DataManager::new(Vec::new(), Vec::new()).unwrap();
    for _ in 0..3 {
        dm.insert(&vec![field("host", s("a"))]).unwrap();
    }
    dm.flush().unwrap();
    for _ in 0..2 {
        dm.insert(&vec![field("host", s("a"))]).unwrap();
    }
    dm.flush().unwrap();
    let ix = &dm.indices[0];
    assert_eq!(ix.rec_file.record_count, 1);
    let offs = ix.get(&s("a")).unwrap();
    assert_eq!(offs.len(), 5);
    assert!(offs.windows(2).all(|w| w[0] < w[1]));
}

#[test]
fn unknown_field_gives_empty_without_index() {
    let mut dm = DataManager::new(Vec::new(), Vec::new()).unwrap();
    dm.insert(&vec![field("host", s("a"))]).unwrap();
    let before = dm.index_count();
    assert_eq!(dm.get("nonexistent", &s("a")).unwrap(), Vec::<Record>::new());
    assert_eq!(dm.index_count(), before);
}

#[test]
fn same_pair_twice_gives_two_records() {
    let mut dm = DataManager::new(Vec::new(), Vec::new()).unwrap();
    let r1: Record = vec![field("host", s("a")), field("n", num(1.0))];
    let r2: Record = vec![field("host", s("a")), field("n", num(2.0))];
    dm.insert(&r1).unwrap();
    dm.insert(&r2).unwrap();
    assert_eq!(sorted(dm.get("host", &s("a")).unwrap()), sorted(vec![r1, r2]));
}

#[test]
fn restart_keeps_every_get() {
    let mut dm = DataManager::new(Vec::new(), Vec::new()).unwrap();
    for i in 0..30 {
        let host = if i % 3 == 0 { "x" } else { "y" };
        dm.insert(&vec![field("host", s(host)), field("i", num(i as f64))]).unwrap();
        if i == 10 {
            dm.flush().unwrap();
        }
    }
    let x = sorted(dm.get("host", &s("x")).unwrap());
    let y = sorted(dm.get("host", &s("y")).unwrap());
    let dm = reopen(dm);
    assert_eq!(sorted(dm.get("host", &s("x")).unwrap()), x);
    assert_eq!(sorted(dm.get("host", &s("y")).unwrap()), y);
    assert_eq!(x.len(), 10);
    assert_eq!(y.len(), 20);
}

#[test]
fn duplicate_index_names_are_refused() {
    let mut dm = DataManager::new(Vec::new(), Vec::new()).unwrap();
    dm.insert(&vec![field("host", s("a"))]).unwrap();
    dm.close().unwrap();
    let (name, image) = dm.index_image(0);
    let images = vec![(name.clone(), image.clone()), (name.clone(), image.clone())];
    let r = DataManager::new(dm.log_image().clone(), images);
    assert_eq!(r.err(), Some(logstore::record_error::RecordError::Corrupt));
}

#[test]
fn index_image_with_wrong_header_is_refused() {
    let images = vec![(String::from("host"), b"NOTANINDEX!!\xff\xff\xff\xff\x18\0\0\0\0\0\0\0".to_vec())];
    let r = DataManager::new(Vec::new(), images);
    assert_eq!(r.err(), Some(logstore::record_error::RecordError::BadHeader));
}
