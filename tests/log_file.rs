use logstore::log_file::LogFile;
use logstore::log_value::LogValue;
use logstore::record_codec::Record;
use logstore::record_error::RecordError;
use logstore::record_file::BAD_COUNT;

fn num(x: f64) -> LogValue {
    LogValue::number_from_bits(x.to_bits())
}

fn sample(i: u32) -> Record {
    vec![
        (String::from("d"), num(23.0)),
        (String::from("c"), LogValue::Null),
        (String::from("b"), LogValue::Bool(true)),
        (String::from("a"), LogValue::String(format!("something {}", i))),
    ]
}

#[test]
fn log_file_new_file_no_slash() {
    let log = LogFile::new(Vec::new()).unwrap();
    assert_eq!(&log.image()[0..12], b"LOGSTORE\x01\x00\x00\x00");
}

#[test]
fn log_file_new_file_with_slash() {
    let mut log = LogFile::new(Vec::new()).unwrap();
    log.close();
    let again = LogFile::new(log.image().clone()).unwrap();
    assert_eq!(again.rec_file.record_count, 0);
}

#[test]
fn log_file_check_file() {
    let mut log = LogFile::new(Vec::new()).unwrap();
    log.add(&sample(0)).unwrap();
    log.add(&sample(1)).unwrap();
    let num_logs = log.rec_file.record_count;
    assert_eq!(num_logs, log.check().unwrap());
}

#[test]
fn log_file_add_valid_msg() {
    let mut msg_file = LogFile::new(Vec::new()).unwrap();
    let id = msg_file.add(&sample(0)).unwrap();
    assert_eq!(id, 24);
    assert_eq!(msg_file.get(id).unwrap(), sample(0));
}

#[test]
fn offsets_strictly_increase() {
    let mut log = LogFile::new(Vec::new()).unwrap();
    let mut last = None;
    for i in 0..20 {
        let off = log.add(&sample(i)).unwrap();
        if let Some(prev) = last {
            assert!(off > prev);
        }
        last = Some(off);
    }
}

#[test]
fn crash_recovery_restores_count() {
    let mut log = LogFile::new(Vec::new()).unwrap();
    for i in 0..10 {
        log.add(&sample(i)).unwrap();
    }
    // dropped without close: the stored count is still the sentinel
    let image = log.image().clone();
    assert_eq!(&image[12..16], &BAD_COUNT.to_le_bytes());
    let reopened = LogFile::new(image).unwrap();
    assert_eq!(reopened.rec_file.record_count, 10);
    let all = reopened.iterate().unwrap();
    assert_eq!(all.len(), 10);
    for (i, r) in all.iter().enumerate() {
        assert_eq!(*r, sample(i as u32));
    }
}

#[test]
fn close_reopen_iterates_in_order() {
    let mut log = LogFile::new(Vec::new()).unwrap();
    for i in 0..5 {
        log.add(&sample(i)).unwrap();
    }
    log.close();
    let reopened = LogFile::new(log.image().clone()).unwrap();
    let all = reopened.iterate().unwrap();
    assert_eq!(all, (0..5).map(sample).collect::<Vec<_>>());
}

#[test]
fn corrupt_record_refuses_recovery() {
    let mut log = LogFile::new(Vec::new()).unwrap();
    log.add(&sample(0)).unwrap();
    let mut image = log.image().clone();
    // a complete frame whose payload is not a record
    image.extend_from_slice(&[2, 0, 0, 0, 0xEE, 0xEE]);
    assert_eq!(LogFile::new(image).err(), Some(RecordError::Corrupt));
}

#[test]
fn get_errors() {
    let mut log = LogFile::new(Vec::new()).unwrap();
    let off = log.add(&sample(0)).unwrap();
    assert_eq!(log.get(off + 100_000).err(), Some(RecordError::ShortRead));
    // the header's count field read as a frame length runs past the end
    assert_eq!(log.get(12).err(), Some(RecordError::ShortRead));
    // a frame of the record file that is not a record
    let mut other = LogFile::new(Vec::new()).unwrap();
    other.rec_file.append(&[0xEE]);
    assert_eq!(other.get(24).err(), Some(RecordError::Decode));
}

#[test]
fn log_with_count_that_disagrees_is_corrupt() {
    let mut log = LogFile::new(Vec::new()).unwrap();
    log.add(&sample(0)).unwrap();
    log.close();
    let mut image = log.image().clone();
    image[12] = 5;
    assert_eq!(LogFile::new(image).err(), Some(RecordError::Corrupt));
}
