//! The log: a record file whose records are encoded record maps.
use vstd::prelude::*;

use crate::bytes::{from_le32, lemma_le32_round_trip};
use crate::log_value::Val;
use crate::record_codec::{
    decode_record, enc_record, encode_record, lemma_record_round_trip, lemma_wf_record_fields,
    parse_record, record_view, wf_record, Record,
};
use crate::record_error::RecordError;
use crate::record_file::{
    frame, lemma_frame_len, open_spec, read_spec, RecordFile, BAD_COUNT,
};

verus! {

/// `LOGSTORE` followed by version 1 and three zero bytes.
pub open spec fn log_header() -> Seq<u8> {
    seq![76u8, 79u8, 71u8, 83u8, 84u8, 79u8, 82u8, 69u8, 1u8, 0u8, 0u8, 0u8]
}

fn make_log_header() -> (r: Vec<u8>)
    ensures
        r@ == log_header(),
{
    let mut r: Vec<u8> = Vec::new();
    r.push(76u8);
    r.push(79u8);
    r.push(71u8);
    r.push(83u8);
    r.push(84u8);
    r.push(79u8);
    r.push(82u8);
    r.push(69u8);
    r.push(1u8);
    r.push(0u8);
    r.push(0u8);
    r.push(0u8);
    assert(r@ =~= log_header());
    r
}

/// Whether an image was not cleanly closed: new, or holding the sentinel count.
pub open spec fn unclean(image: Seq<u8>) -> bool {
    image.len() == 0 || (image.len() >= 16 && from_le32(image.subrange(12, 16)) == BAD_COUNT)
}

/// Every record decodes as a record map.
pub open spec fn all_decode(recs: Seq<Seq<u8>>) -> bool {
    forall|i: int| 0 <= i < recs.len() ==> (#[trigger] parse_record(recs[i])) is Some
}

/// The log of record maps.
pub struct LogFile {
    pub rec_file: RecordFile,
}

/// Appending record `r` stays within the limits of the format: its
/// encoding fits a length prefix, the count stays below the sentinel, and
/// the image's length fits `usize`.
pub open spec fn add_fits(f: LogFile, r: Seq<(Seq<char>, Val)>) -> bool {
    &&& enc_record(r).len() <= u32::MAX
    &&& f.rec_file.record_count + 1 < BAD_COUNT
    &&& f.rec_file.end_of_file + 4 + enc_record(r).len() <= usize::MAX
}

/// `post` is `pre` with the encoding of `r` appended at offset `off`.
pub open spec fn appended(pre: LogFile, post: LogFile, r: Seq<(Seq<char>, Val)>, off: u64) -> bool {
    &&& post.wf()
    &&& off == pre.rec_file.end_of_file
    &&& post.rec_file.records@ == pre.rec_file.records@.push(enc_record(r))
    &&& post.rec_file.end_of_file == off + 4 + enc_record(r).len()
    &&& post.rec_file.data@ == pre.rec_file.data@.subrange(0, off as int) + frame(enc_record(r))
    &&& read_spec(post.rec_file.data@, off as int) == Some(enc_record(r))
    &&& parse_record(enc_record(r)) == Some(r)
}

impl LogFile {
    pub open spec fn wf(&self) -> bool {
        &&& self.rec_file.wf()
        &&& self.rec_file.header_len == 12
        &&& self.rec_file.data@.subrange(0, 12) == log_header()
    }

    /// Opens the log from the image of its file (empty for a new log). A log
    /// that was not cleanly closed is checked: every record must decode.
    pub fn new(image: Vec<u8>) -> (r: Result<LogFile, RecordError>)
        ensures
            match r {
                Ok(f) => {
                    &&& f.wf()
                    &&& open_spec(image@, log_header()) == Ok::<(Seq<Seq<u8>>, int), RecordError>(
                        (f.rec_file.records@, f.rec_file.end_of_file as int),
                    )
                    &&& unclean(image@) ==> all_decode(f.rec_file.records@)
                },
                Err(e) => {
                    ||| open_spec(image@, log_header()) == Err::<(Seq<Seq<u8>>, int), RecordError>(e)
                    ||| {
                        &&& e == RecordError::Corrupt
                        &&& unclean(image@)
                        &&& (open_spec(image@, log_header()) matches Ok((recs, _)) && !all_decode(recs))
                    }
                },
            },
    {
        let header = make_log_header();
        let ghost img = image@;
        let fresh = image.len() == 0;
        let rec_file = RecordFile::new(image, header.as_slice())?;
        if !rec_file.consistent {
            return Err(RecordError::Corrupt);
        }
        let mut ret = LogFile { rec_file };
        proof {
            if img.len() == 0 {
                assert(ret.rec_file.data@.subrange(0, 12) =~= log_header());
            }
            if img.len() > 0 {
                assert(img.subrange(12, 16) =~= ret.rec_file.data@.subrange(12, 16));
            }
        }
        if fresh || ret.rec_file.stored_count() == BAD_COUNT {
            proof {
                if img.len() == 0 {
                    lemma_le32_round_trip(BAD_COUNT);
                    assert(ret.rec_file.data@.subrange(12, 16) =~= crate::bytes::le32(BAD_COUNT));
                }
            }
            match ret.check() {
                Ok(_) => {},
                Err(e) => {
                    return Err(e);
                },
            }
        }
        Ok(ret)
    }

    /// Decodes every record and returns how many there are; fails with
    /// `Corrupt` if one does not decode.
    pub fn check(&mut self) -> (r: Result<u32, RecordError>)
        requires
            old(self).wf(),
        ensures
            *final(self) == *old(self),
            match r {
                Ok(n) => n == old(self).rec_file.record_count && all_decode(old(self).rec_file.records@),
                Err(e) => e == RecordError::Corrupt && !all_decode(old(self).rec_file.records@),
            },
    {
        let recs = self.rec_file.records();
        let mut count: u32 = 0;
        let mut i: usize = 0;
        while i < recs.len()
            invariant
                self.wf(),
                recs@.len() == self.rec_file.records@.len(),
                forall|j: int| 0 <= j < recs@.len() ==> (#[trigger] recs@[j])@ == self.rec_file.records@[j],
                0 <= i <= recs@.len(),
                count == i,
                forall|j: int| 0 <= j < i ==> (#[trigger] parse_record(self.rec_file.records@[j])) is Some,
            decreases recs@.len() - i,
        {
            let d = decode_record(recs[i].as_slice());
            if d.is_none() {
                return Err(RecordError::Corrupt);
            }
            count = count + 1;
            i = i + 1;
        }
        Ok(count)
    }

    /// Appends a record and returns its offset.
    pub fn add(&mut self, log: &Record) -> (r: Result<u64, RecordError>)
        requires
            old(self).wf(),
            wf_record(log@),
        ensures
            match r {
                Ok(off) => appended(*old(self), *final(self), record_view(log@), off),
                Err(e) => e == RecordError::Encode && *final(self) == *old(self),
            },
            add_fits(*old(self), record_view(log@)) ==> r is Ok,
    {
        let buff = encode_record(log);
        let n = buff.len();
        if n > 0xFFFF_FFFF || self.rec_file.record_count >= BAD_COUNT - 1 || n > usize::MAX - 4
            || self.rec_file.end_of_file > (usize::MAX - 4 - n) as u64 {
            return Err(RecordError::Encode);
        }
        let ghost pre = *self;
        let loc = self.rec_file.append(buff.as_slice());
        proof {
            lemma_frame_len(buff@);
            lemma_le32_round_trip(buff@.len() as u32);
            let d = self.rec_file.data@;
            assert(d.subrange(0, 12) =~= pre.rec_file.data@.subrange(0, 12));
            assert(d.subrange(loc as int, loc + 4) =~= crate::bytes::le32(buff@.len() as u32));
            assert(d.subrange(loc + 4, loc + 4 + buff@.len()) =~= buff@);
            lemma_wf_record_fields(log@);
            lemma_record_round_trip(record_view(log@));
        }
        Ok(loc)
    }

    /// Reads and decodes the record at `location`.
    pub fn get(&self, location: u64) -> (r: Result<Record, RecordError>)
        ensures
            match r {
                Ok(rec) => wf_record(rec@) && (read_spec(self.rec_file.data@, location as int) matches Some(b)
                    && parse_record(b) == Some(record_view(rec@))),
                Err(e) => {
                    ||| e == RecordError::ShortRead && read_spec(self.rec_file.data@, location as int)
                        is None
                    ||| e == RecordError::Decode && (read_spec(self.rec_file.data@, location as int)
                        matches Some(b) && parse_record(b) is None)
                },
            },
    {
        let bytes = self.rec_file.read_at(location)?;
        match decode_record(bytes.as_slice()) {
            Some(rec) => Ok(rec),
            None => Err(RecordError::Decode),
        }
    }

    /// The records of the log, in the order they were appended.
    pub fn iterate(&self) -> (r: Result<Vec<Record>, RecordError>)
        requires
            self.wf(),
        ensures
            match r {
                Ok(logs) => {
                    &&& logs@.len() == self.rec_file.records@.len()
                    &&& forall|i: int|
                        0 <= i < logs@.len() ==> parse_record(self.rec_file.records@[i]) == Some(
                            record_view((#[trigger] logs@[i])@),
                        )
                },
                Err(e) => e == RecordError::Decode && !all_decode(self.rec_file.records@),
            },
    {
        let recs = self.rec_file.records();
        let mut out: Vec<Record> = Vec::new();
        let mut i: usize = 0;
        while i < recs.len()
            invariant
                self.wf(),
                recs@.len() == self.rec_file.records@.len(),
                forall|j: int| 0 <= j < recs@.len() ==> (#[trigger] recs@[j])@ == self.rec_file.records@[j],
                0 <= i <= recs@.len(),
                out@.len() == i,
                forall|j: int|
                    0 <= j < i ==> parse_record(self.rec_file.records@[j]) == Some(
                        record_view((#[trigger] out@[j])@),
                    ),
            decreases recs@.len() - i,
        {
            match decode_record(recs[i].as_slice()) {
                Some(rec) => {
                    out.push(rec);
                },
                None => {
                    return Err(RecordError::Decode);
                },
            }
            i = i + 1;
        }
        Ok(out)
    }

    /// Writes the record count and end into the image.
    pub fn close(&mut self)
        requires
            old(self).wf(),
        ensures
            final(self).wf(),
            final(self).rec_file.data@ == old(self).rec_file.closed_image(),
            final(self).rec_file.records@ == old(self).rec_file.records@,
            final(self).rec_file.end_of_file == old(self).rec_file.end_of_file,
    {
        self.rec_file.close();
        assert(self.rec_file.data@.subrange(0, 12) =~= old(self).rec_file.data@.subrange(0, 12));
    }

    /// The image of the log file.
    pub fn image(&self) -> (r: &Vec<u8>)
        ensures
            r@ == self.rec_file.data@,
    {
        &self.rec_file.data
    }
}

/// Offsets handed out by successive appends are strictly increasing.
pub proof fn lemma_offsets_increase(
    a: LogFile,
    b: LogFile,
    c: LogFile,
    r1: Seq<(Seq<char>, Val)>,
    r2: Seq<(Seq<char>, Val)>,
    off1: u64,
    off2: u64,
)
    requires
        appended(a, b, r1, off1),
        appended(b, c, r2, off2),
    ensures
        off1 < off2,
{
}

/// A closed log opens again with the same records in the same order, and
/// without a recovery scan.
pub proof fn lemma_log_reopen(f: LogFile)
    requires
        f.wf(),
    ensures
        open_spec(f.rec_file.closed_image(), log_header()) == Ok::<(Seq<Seq<u8>>, int), RecordError>(
            (f.rec_file.records@, f.rec_file.end_of_file as int),
        ),
        !unclean(f.rec_file.closed_image()),
{
    crate::record_file::lemma_close_reopen(f.rec_file, log_header());
    let img = f.rec_file.closed_image();
    lemma_le32_round_trip(f.rec_file.record_count);
    assert(img.subrange(12, 16) =~= crate::bytes::le32(f.rec_file.record_count));
}

} // verus!
