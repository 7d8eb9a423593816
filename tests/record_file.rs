use logstore::record_error::RecordError;
use logstore::record_file::{rec_to_string, RecordFile, BAD_COUNT};

fn fresh() -> RecordFile {
    RecordFile::new(Vec::new(), "ABCD".as_bytes()).unwrap()
}

#[test]
fn new() {
    let mut rec_file = fresh();
    assert_eq!(rec_file.end_of_file, 16);
    assert_eq!(rec_file.record_count, 0);
    assert_eq!(rec_file.stored_count(), BAD_COUNT);
    rec_file.data.extend_from_slice("TEST".as_bytes());
    assert_eq!(rec_file.data.len(), 20);
}

#[test]
fn append() {
    let mut rec_file = fresh();
    // bytes past the end are dropped by the next append
    rec_file.data.extend_from_slice("TEST".as_bytes());
    let rec = "THE_RECORD".as_bytes();

    let loc = rec_file.append(rec);
    assert_eq!(loc, rec_file.end_of_file - (4 + rec.len()) as u64);

    let loc2 = rec_file.append(rec);
    assert_eq!(loc2, rec_file.end_of_file - (4 + rec.len()) as u64);
    assert_eq!(rec_file.record_count, 2);
}

#[test]
fn read_at() {
    let mut rec_file = fresh();
    let rec = "THE_RECORD".as_bytes();
    rec_file.append(rec);
    let loc = rec_file.append(rec);
    let rec_read = rec_file.read_at(loc).unwrap();
    assert_eq!(rec, rec_read.as_slice());
}

#[test]
fn iterate() {
    let mut rec_file = fresh();
    rec_file.data.extend_from_slice("TEST".as_bytes());
    let rec = "THE_RECORD".as_bytes();

    let loc = rec_file.append(rec);
    assert_eq!(loc, rec_file.end_of_file - (4 + rec.len()) as u64);
    let loc2 = rec_file.append(rec);
    assert_eq!(loc2, rec_file.end_of_file - (4 + rec.len()) as u64);

    let all = rec_file.records();
    assert_eq!(all.len(), 2);
    for rec in all {
        assert_eq!("THE_RECORD".as_bytes(), rec.as_slice());
    }
}

#[test]
fn zero_byte_image_creates_empty_file() {
    let f = RecordFile::new(Vec::new(), b"HEADER_TWELV").unwrap();
    assert_eq!(f.record_count, 0);
    assert_eq!(f.end_of_file, 12 + 12);
    assert_eq!(f.records().len(), 0);
    let mut expected = b"HEADER_TWELV".to_vec();
    expected.extend_from_slice(&[0xFF, 0xFF, 0xFF, 0xFF, 24, 0, 0, 0, 0, 0, 0, 0]);
    assert_eq!(f.data, expected);
}

#[test]
fn frame_layout_is_length_then_bytes() {
    let mut f = fresh();
    let off = f.append(&[7, 8, 9]);
    assert_eq!(off, 16);
    assert_eq!(&f.data[16..23], &[3, 0, 0, 0, 7, 8, 9]);
}

#[test]
fn close_then_reopen_keeps_records_in_order() {
    let mut f = fresh();
    let recs: Vec<Vec<u8>> = vec![b"one".to_vec(), b"".to_vec(), b"three".to_vec()];
    for r in &recs {
        f.append(r);
    }
    f.close();
    assert_eq!(&f.data[4..8], &[3, 0, 0, 0]);
    let eof = f.end_of_file;
    let g = RecordFile::new(f.data.clone(), "ABCD".as_bytes()).unwrap();
    assert_eq!(g.record_count, 3);
    assert_eq!(g.end_of_file, eof);
    assert_eq!(g.records(), recs);
}

#[test]
fn recovery_counts_complete_frames() {
    let mut f = fresh();
    for r in [b"aa".to_vec(), b"bbb".to_vec(), b"c".to_vec()] {
        f.append(&r);
    }
    // not closed: the stored count is still the sentinel, the stored end the initial one
    let mut image = f.data.clone();
    // a torn frame at the end: its length says 10, only 2 bytes follow
    image.extend_from_slice(&[10, 0, 0, 0, 1, 2]);
    let g = RecordFile::new(image, "ABCD".as_bytes()).unwrap();
    assert_eq!(g.record_count, 3);
    assert_eq!(g.end_of_file, f.end_of_file);
    assert_eq!(g.records(), vec![b"aa".to_vec(), b"bbb".to_vec(), b"c".to_vec()]);
}

#[test]
fn bad_header_is_refused() {
    let f = fresh();
    let r = RecordFile::new(f.data.clone(), "ABCE".as_bytes());
    assert_eq!(r.err(), Some(RecordError::BadHeader));
}

#[test]
fn short_image_is_refused() {
    let r = RecordFile::new(b"ABCD\x00".to_vec(), "ABCD".as_bytes());
    assert_eq!(r.err(), Some(RecordError::ShortRead));
    let r = RecordFile::new(b"AB".to_vec(), "ABCD".as_bytes());
    assert_eq!(r.err(), Some(RecordError::ShortRead));
}

#[test]
fn closed_image_opens_with_stored_fields() {
    let mut f = fresh();
    f.append(b"xyz");
    f.close();
    let mut image = f.data.clone();
    image[4] = 2; // the stored count disagrees with the single frame
    let g = RecordFile::new(image, "ABCD".as_bytes()).unwrap();
    assert_eq!(g.record_count, 2);
    assert_eq!(g.end_of_file, f.end_of_file);
    assert!(!g.consistent);

    // header ABCD, count 3, end 16, no records at all
    let mut bare = b"ABCD".to_vec();
    bare.extend_from_slice(&[3, 0, 0, 0, 16, 0, 0, 0, 0, 0, 0, 0]);
    let h = RecordFile::new(bare, "ABCD".as_bytes()).unwrap();
    assert_eq!(h.record_count, 3);
    assert_eq!(h.end_of_file, 16);
}

#[test]
fn read_past_end_is_short() {
    let mut f = fresh();
    let off = f.append(b"hello");
    assert_eq!(f.read_at(off + 1000).err(), Some(RecordError::ShortRead));
    assert_eq!(f.read_at(off + 1).err(), Some(RecordError::ShortRead));
}

#[test]
fn rec_to_string_renders_size_and_bytes() {
    assert_eq!(rec_to_string(3, &[0x0A, 0xFF, 0x00]), "00000003 0A FF 00 ");
}
