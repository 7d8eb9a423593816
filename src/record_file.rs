//! A durable, append-only container of length-prefixed records.
//!
//! Layout of an image: the caller's header, the record count (`u32`, LE),
//! the end of the accounted content (`u64`, LE), then one frame per record:
//! its length (`u32`, LE) followed by its bytes.
use vstd::prelude::*;

use crate::bytes::{
    copy_range, from_le32, from_le64, le32, le64, lemma_from_le32_injective, lemma_le32_round_trip,
    lemma_le64_round_trip, push_range, push_u32, push_u64, read_u32, read_u64, write_u32_at,
    write_u64_at,
};
use crate::record_error::RecordError;
use crate::utils::{hex8, hex_spaced, push_char, push_hex, push_hex8};

pub use crate::utils::buf2string;

verus! {

/// The stored count of an image that was not cleanly closed.
pub const BAD_COUNT: u32 = 0xFFFF_FFFF;

/// One record with its length prefix.
pub open spec fn frame(rec: Seq<u8>) -> Seq<u8> {
    le32(rec.len() as u32) + rec
}

/// The frames of `recs`, one after the other.
pub open spec fn frames(recs: Seq<Seq<u8>>) -> Seq<u8>
    decreases recs.len(),
{
    if recs.len() == 0 {
        seq![]
    } else {
        frame(recs[0]) + frames(recs.drop_first())
    }
}

/// Every record is short enough for its length prefix.
pub open spec fn fits_u32(recs: Seq<Seq<u8>>) -> bool {
    forall|i: int| 0 <= i < recs.len() ==> #[trigger] recs[i].len() <= u32::MAX
}

/// The complete frames at the start of `s`, read greedily.
pub open spec fn parse_frames(s: Seq<u8>) -> Seq<Seq<u8>>
    decreases s.len(),
{
    if s.len() < 4 {
        seq![]
    } else {
        let n = from_le32(s.subrange(0, 4)) as int;
        if s.len() < 4 + n {
            seq![]
        } else {
            seq![s.subrange(4, 4 + n)] + parse_frames(s.subrange(4 + n, s.len() as int))
        }
    }
}

/// The image of a newly created file: header, sentinel count, and an end
/// right after the fixed fields.
pub open spec fn fresh_image(header: Seq<u8>) -> Seq<u8> {
    header + le32(BAD_COUNT) + le64((header.len() + 12) as u64)
}

/// What opening `image` with `header` yields: the records and the end of the
/// accounted content, or the error.
pub open spec fn open_spec(image: Seq<u8>, header: Seq<u8>) -> Result<(Seq<Seq<u8>>, int), RecordError> {
    let h = header.len() as int;
    if image.len() == 0 {
        Ok((seq![], h + 12))
    } else if image.len() < h {
        Err(RecordError::ShortRead)
    } else if image.subrange(0, h) != header {
        Err(RecordError::BadHeader)
    } else if image.len() < h + 12 {
        Err(RecordError::ShortRead)
    } else if from_le32(image.subrange(h, h + 4)) == BAD_COUNT {
        let recs = parse_frames(image.subrange(h + 12, image.len() as int));
        if recs.len() >= BAD_COUNT {
            Err(RecordError::Corrupt)
        } else {
            Ok((recs, h + 12 + frames(recs).len()))
        }
    } else {
        let eof = from_le64(image.subrange(h + 4, h + 12)) as int;
        if eof < h + 12 || eof > image.len() {
            Err(RecordError::Corrupt)
        } else {
            let recs = parse_frames(image.subrange(h + 12, eof));
            if h + 12 + frames(recs).len() != eof || recs.len() != from_le32(
                image.subrange(h, h + 4),
            ) {
                Err(RecordError::Corrupt)
            } else {
                Ok((recs, eof))
            }
        }
    }
}

/// A non-empty image with the header and a count other than the sentinel:
/// it opens with the count and end it stores.
pub open spec fn stored_clean(image: Seq<u8>, header: Seq<u8>) -> bool {
    let h = header.len() as int;
    &&& image.len() >= h + 12
    &&& image.subrange(0, h) == header
    &&& from_le32(image.subrange(h, h + 4)) != BAD_COUNT
}

/// The payload of the frame at `off`, if the image holds all of it.
pub open spec fn read_spec(data: Seq<u8>, off: int) -> Option<Seq<u8>> {
    if off + 4 > data.len() {
        None
    } else {
        let n = from_le32(data.subrange(off, off + 4)) as int;
        if off + 4 + n > data.len() {
            None
        } else {
            Some(data.subrange(off + 4, off + 4 + n))
        }
    }
}

pub proof fn lemma_frames_concat(a: Seq<Seq<u8>>, b: Seq<Seq<u8>>)
    ensures
        frames(a + b) == frames(a) + frames(b),
    decreases a.len(),
{
    if a.len() == 0 {
        assert(a + b =~= b);
        assert(frames(a) + frames(b) =~= frames(b));
    } else {
        assert((a + b).drop_first() =~= a.drop_first() + b);
        lemma_frames_concat(a.drop_first(), b);
        assert(frames(a + b) =~= frames(a) + frames(b));
    }
}

pub proof fn lemma_frames_push(a: Seq<Seq<u8>>, r: Seq<u8>)
    ensures
        frames(a.push(r)) == frames(a) + frame(r),
{
    lemma_frames_concat(a, seq![r]);
    assert(a.push(r) =~= a + seq![r]);
    let one = seq![r];
    assert(one.drop_first() =~= Seq::<Seq<u8>>::empty());
    assert(one[0] == r);
    assert(frames(one) == frame(r) + frames(one.drop_first()));
    assert(frames(one) =~= frame(r));
}

pub proof fn lemma_frame_len(r: Seq<u8>)
    ensures
        frame(r).len() == 4 + r.len(),
{
    lemma_le32_round_trip(r.len() as u32);
}

/// Parsing the frames of `recs` gives `recs` back, whatever follows them.
pub proof fn lemma_parse_frames(recs: Seq<Seq<u8>>, rest: Seq<u8>)
    requires
        fits_u32(recs),
    ensures
        parse_frames(frames(recs) + rest) == recs + parse_frames(rest),
    decreases recs.len(),
{
    if recs.len() == 0 {
        assert(frames(recs) + rest =~= rest);
        assert(recs + parse_frames(rest) =~= parse_frames(rest));
    } else {
        let r = recs[0];
        let tail = recs.drop_first();
        let s = frames(recs) + rest;
        let n = r.len() as int;
        assert(fits_u32(tail)) by {
            assert forall|i: int| 0 <= i < tail.len() implies #[trigger] tail[i].len() <= u32::MAX by {
                assert(tail[i] == recs[i + 1]);
            }
        }
        assert(recs[0].len() <= u32::MAX);
        lemma_le32_round_trip(n as u32);
        assert(s =~= le32(n as u32) + (r + (frames(tail) + rest)));
        assert(s.subrange(0, 4) =~= le32(n as u32));
        assert(s.subrange(4, 4 + n) =~= r);
        assert(s.subrange(4 + n, s.len() as int) =~= frames(tail) + rest);
        lemma_parse_frames(tail, rest);
        assert(parse_frames(s) =~= recs + parse_frames(rest));
    }
}

/// Parsing a whole sequence of frames gives exactly the records.
pub proof fn lemma_parse_frames_exact(recs: Seq<Seq<u8>>)
    requires
        fits_u32(recs),
    ensures
        parse_frames(frames(recs)) == recs,
{
    lemma_parse_frames(recs, seq![]);
    assert(frames(recs) + seq![] =~= frames(recs));
    assert(parse_frames(Seq::<u8>::empty()) =~= Seq::<Seq<u8>>::empty());
    assert(recs + Seq::<Seq<u8>>::empty() =~= recs);
}

/// The greedy parse reads frames that lie in `s`, one after the other.
pub proof fn lemma_parse_frames_prefix(s: Seq<u8>)
    ensures
        frames(parse_frames(s)).len() <= s.len(),
        frames(parse_frames(s)) == s.subrange(0, frames(parse_frames(s)).len() as int),
        fits_u32(parse_frames(s)),
    decreases s.len(),
{
    if s.len() >= 4 {
        let n = from_le32(s.subrange(0, 4)) as int;
        if s.len() >= 4 + n {
            let rest = s.subrange(4 + n, s.len() as int);
            lemma_parse_frames_prefix(rest);
            let r = s.subrange(4, 4 + n);
            let ps = parse_frames(s);
            assert(ps =~= seq![r] + parse_frames(rest));
            assert(ps.drop_first() =~= parse_frames(rest));
            lemma_from_le32_injective(s.subrange(0, 4));
            assert(frame(r) =~= s.subrange(0, 4 + n));
            let m = frames(parse_frames(rest)).len() as int;
            assert(frames(ps) =~= s.subrange(0, 4 + n + m));
            assert forall|i: int| 0 <= i < ps.len() implies #[trigger] ps[i].len() <= u32::MAX by {
                if i > 0 {
                    assert(ps[i] == parse_frames(rest)[i - 1]);
                }
            }
        }
    }
}

/// The frame of record `i` sits right after the frames of the records before it.
pub proof fn lemma_frame_at(recs: Seq<Seq<u8>>, i: int)
    requires
        fits_u32(recs),
        0 <= i < recs.len(),
    ensures
        ({
            let off = frames(recs.take(i)).len() as int;
            let all = frames(recs);
            &&& off + 4 + recs[i].len() <= all.len()
            &&& all.subrange(off, off + 4) == le32(recs[i].len() as u32)
            &&& all.subrange(off + 4, off + 4 + recs[i].len()) == recs[i]
            &&& frames(recs.take(i + 1)).len() == off + 4 + recs[i].len()
        }),
{
    let before = recs.take(i);
    let after = recs.skip(i);
    assert(recs =~= before + after);
    lemma_frames_concat(before, after);
    assert(after[0] == recs[i]);
    lemma_frame_len(recs[i]);
    let off = frames(before).len() as int;
    let all = frames(recs);
    assert(frames(after) == frame(recs[i]) + frames(after.drop_first()));
    assert(all.subrange(off, off + 4) =~= le32(recs[i].len() as u32));
    assert(all.subrange(off + 4, off + 4 + recs[i].len()) =~= recs[i]);
    assert(recs.take(i + 1) =~= before.push(recs[i]));
    lemma_frames_push(before, recs[i]);
}

/// A file image with its record count and end of accounted content.
pub struct RecordFile {
    /// The whole image, including any bytes past `end_of_file`.
    pub data: Vec<u8>,
    /// Records appended since the image was created.
    pub record_count: u32,
    /// Length of the caller's header.
    pub header_len: usize,
    /// The byte after the last complete record.
    pub end_of_file: u64,
    /// The payloads of the records, in order.
    pub records: Ghost<Seq<Seq<u8>>>,
    /// Whether the frames between the header and the end agree with the
    /// count; only then can records be read, appended or listed.
    pub consistent: bool,
}

/// Scans the frames of `data[from..to]`; returns how many are complete and
/// where the last complete one ends.
fn scan_frames(data: &Vec<u8>, from: usize, to: usize) -> (r: (u64, usize))
    requires
        from <= to <= data@.len(),
    ensures
        r.0 == parse_frames(data@.subrange(from as int, to as int)).len(),
        r.1 == from + frames(parse_frames(data@.subrange(from as int, to as int))).len(),
{
    let mut pos = from;
    let mut count: u64 = 0;
    let ghost mut recs: Seq<Seq<u8>> = seq![];
    let ghost all = data@.subrange(from as int, to as int);
    while to - pos >= 4
        invariant
            from <= pos <= to <= data@.len(),
            all == data@.subrange(from as int, to as int),
            count == recs.len(),
            count * 4 <= pos - from,
            fits_u32(recs),
            data@.subrange(from as int, pos as int) == frames(recs),
            parse_frames(all) == recs + parse_frames(data@.subrange(pos as int, to as int)),
        ensures
            from <= pos <= to,
            count == recs.len(),
            fits_u32(recs),
            data@.subrange(from as int, pos as int) == frames(recs),
            parse_frames(all) == recs + parse_frames(data@.subrange(pos as int, to as int)),
            parse_frames(data@.subrange(pos as int, to as int)) == Seq::<Seq<u8>>::empty(),
        decreases to - pos,
    {
        let n = read_u32(data.as_slice(), pos);
        let s = Ghost(data@.subrange(pos as int, to as int));
        assert(s@.subrange(0, 4) =~= data@.subrange(pos as int, pos + 4));
        if (n as usize) > to - pos - 4 {
            assert(parse_frames(s@) =~= Seq::<Seq<u8>>::empty());
            break;
        }
        let next = pos + 4 + n as usize;
        proof {
            let r = data@.subrange(pos + 4, next as int);
            assert(s@.subrange(4, 4 + n) =~= r);
            assert(s@.subrange(4 + n, s@.len() as int) =~= data@.subrange(next as int, to as int));
            assert(parse_frames(s@) =~= seq![r] + parse_frames(data@.subrange(next as int, to as int)));
            lemma_from_le32_injective(data@.subrange(pos as int, pos + 4));
            lemma_frames_push(recs, r);
            assert(data@.subrange(from as int, next as int) =~= data@.subrange(from as int, pos as int)
                + frame(r));
            assert(recs + parse_frames(s@) =~= recs.push(r) + parse_frames(
                data@.subrange(next as int, to as int),
            ));
            recs = recs.push(r);
            assert(fits_u32(recs)) by {
                assert forall|i: int| 0 <= i < recs.len() implies #[trigger] recs[i].len() <= u32::MAX by {
                    if i < recs.len() - 1 {
                        assert(recs[i] == recs.drop_last()[i]);
                    }
                }
            }
        }
        pos = next;
        count = count + 1;
    }
    assert(parse_frames(all) =~= recs);
    (count, pos)
}

impl RecordFile {
    /// Where the first record starts.
    pub open spec fn start(&self) -> int {
        self.header_len + 12
    }

    pub open spec fn wf(&self) -> bool {
        &&& self.consistent
        &&& self.start() <= self.end_of_file <= self.data@.len()
        &&& self.records@.len() == self.record_count
        &&& self.record_count < BAD_COUNT
        &&& fits_u32(self.records@)
        &&& self.data@.subrange(self.start(), self.end_of_file as int) == frames(self.records@)
    }

    /// The offset of the length prefix of record `i`.
    pub open spec fn offset_of(&self, i: int) -> int {
        self.start() + frames(self.records@.take(i)).len()
    }

    /// The image after `close`: the count and end fields rewritten.
    pub open spec fn closed_image(&self) -> Seq<u8> {
        let h = self.header_len as int;
        self.data@.subrange(0, h) + le32(self.record_count) + le64(self.end_of_file)
            + self.data@.subrange(h + 12, self.data@.len() as int)
    }

    /// Opens the image of an existing file, or creates one where `image` is
    /// empty. A file that was not cleanly closed has its records recovered by
    /// scanning every complete frame.
    pub fn new(image: Vec<u8>, header: &[u8]) -> (r: Result<RecordFile, RecordError>)
        requires
            header@.len() + 12 <= usize::MAX,
        ensures
            match r {
                Ok(f) => {
                    &&& f.header_len == header@.len()
                    &&& f.consistent <==> open_spec(image@, header@) is Ok
                    &&& f.consistent ==> f.wf() && open_spec(image@, header@) == Ok::<
                        (Seq<Seq<u8>>, int),
                        RecordError,
                    >((f.records@, f.end_of_file as int))
                    &&& !f.consistent ==> open_spec(image@, header@) == Err::<
                        (Seq<Seq<u8>>, int),
                        RecordError,
                    >(RecordError::Corrupt)
                    &&& stored_clean(image@, header@) ==> f.record_count == from_le32(
                        image@.subrange(header@.len() as int, header@.len() as int + 4),
                    ) && f.end_of_file == from_le64(
                        image@.subrange(header@.len() as int + 4, header@.len() as int + 12),
                    )
                    &&& f.data@ == if image@.len() == 0 {
                        fresh_image(header@)
                    } else {
                        image@
                    }
                },
                Err(e) => open_spec(image@, header@) == Err::<(Seq<Seq<u8>>, int), RecordError>(e)
                    && !stored_clean(image@, header@),
            },
    {
        let h = header.len();
        if image.len() == 0 {
            let mut data: Vec<u8> = Vec::new();
            push_range(&mut data, header, 0, h);
            push_u32(&mut data, BAD_COUNT);
            push_u64(&mut data, (h + 12) as u64);
            proof {
                lemma_le32_round_trip(BAD_COUNT);
                lemma_le64_round_trip((h + 12) as u64);
                assert(header@.subrange(0, h as int) =~= header@);
                assert(data@.subrange(h + 12, h + 12) =~= frames(Seq::<Seq<u8>>::empty()));
            }
            let ghost none: Seq<Seq<u8>> = seq![];
            return Ok(
                RecordFile {
                    data,
                    record_count: 0,
                    header_len: h,
                    end_of_file: (h + 12) as u64,
                    records: Ghost(none),
                    consistent: true,
                },
            );
        }
        if image.len() < h {
            return Err(RecordError::ShortRead);
        }
        let mut i: usize = 0;
        while i < h
            invariant
                h == header@.len(),
                h <= image@.len(),
                0 <= i <= h,
                image@.subrange(0, i as int) == header@.subrange(0, i as int),
            decreases h - i,
        {
            if image[i] != header[i] {
                assert(image@.subrange(0, h as int)[i as int] != header@[i as int]);
                return Err(RecordError::BadHeader);
            }
            i = i + 1;
            assert(image@.subrange(0, i as int) =~= header@.subrange(0, i as int));
        }
        assert(header@.subrange(0, h as int) =~= header@);
        if image.len() < h + 12 {
            return Err(RecordError::ShortRead);
        }
        let count = read_u32(image.as_slice(), h);
        let len = image.len();
        if count == BAD_COUNT {
            let (n, end) = scan_frames(&image, h + 12, len);
            proof {
                lemma_parse_frames_prefix(image@.subrange(h + 12, len as int));
            }
            if n >= BAD_COUNT as u64 {
                return Err(RecordError::Corrupt);
            }
            let ghost recs = parse_frames(image@.subrange(h + 12, len as int));
            assert(image@.subrange(h + 12, end as int) =~= image@.subrange(h + 12, len as int).subrange(
                0,
                frames(recs).len() as int,
            ));
            return Ok(
                RecordFile {
                    data: image,
                    record_count: n as u32,
                    header_len: h,
                    end_of_file: end as u64,
                    records: Ghost(recs),
                    consistent: true,
                },
            );
        }
        let eof = read_u64(image.as_slice(), h + 4);
        let ghost none: Seq<Seq<u8>> = seq![];
        if eof < (h + 12) as u64 || eof > len as u64 {
            return Ok(
                RecordFile {
                    data: image,
                    record_count: count,
                    header_len: h,
                    end_of_file: eof,
                    records: Ghost(none),
                    consistent: false,
                },
            );
        }
        let (n, end) = scan_frames(&image, h + 12, eof as usize);
        let ghost recs = parse_frames(image@.subrange(h + 12, eof as int));
        proof {
            lemma_parse_frames_prefix(image@.subrange(h + 12, eof as int));
        }
        if end != eof as usize || n != count as u64 {
            return Ok(
                RecordFile {
                    data: image,
                    record_count: count,
                    header_len: h,
                    end_of_file: eof,
                    records: Ghost(none),
                    consistent: false,
                },
            );
        }
        assert(image@.subrange(h + 12, eof as int) =~= image@.subrange(h + 12, eof as int).subrange(
            0,
            frames(recs).len() as int,
        ));
        Ok(
            RecordFile {
                data: image,
                record_count: count,
                header_len: h,
                end_of_file: eof,
                records: Ghost(recs),
                consistent: true,
            },
        )
    }

    /// Appends a record at the end of the accounted content and returns the
    /// offset of its length prefix. Bytes past the old end are dropped.
    pub fn append(&mut self, record: &[u8]) -> (off: u64)
        requires
            old(self).wf(),
            record@.len() <= u32::MAX,
            old(self).record_count + 1 < BAD_COUNT,
            old(self).end_of_file + 4 + record@.len() <= usize::MAX,
        ensures
            final(self).wf(),
            off == old(self).end_of_file,
            final(self).header_len == old(self).header_len,
            final(self).records@ == old(self).records@.push(record@),
            final(self).record_count == old(self).record_count + 1,
            final(self).end_of_file == old(self).end_of_file + 4 + record@.len(),
            final(self).data@ == old(self).data@.subrange(0, old(self).end_of_file as int) + frame(
                record@,
            ),
            old(self).offset_of(old(self).records@.len() as int) == off,
    {
        let off = self.end_of_file;
        let n = record.len();
        self.data.truncate(off as usize);
        push_u32(&mut self.data, n as u32);
        push_range(&mut self.data, record, 0, n);
        proof {
            assert(record@.subrange(0, n as int) =~= record@);
            let old_recs = old(self).records@;
            lemma_frames_push(old_recs, record@);
            lemma_frame_len(record@);
            assert(old_recs.take(old_recs.len() as int) =~= old_recs);
            assert(self.data@.subrange(self.start(), off + 4 + n) =~= old(self).data@.subrange(
                self.start(),
                off as int,
            ) + frame(record@));
        }
        self.record_count = self.record_count + 1;
        self.end_of_file = off + 4 + n as u64;
        self.records = Ghost(self.records@.push(record@));
        assert(fits_u32(self.records@)) by {
            assert forall|i: int| 0 <= i < self.records@.len() implies #[trigger] self.records@[i].len()
                <= u32::MAX by {
                if i < self.records@.len() - 1 {
                    assert(self.records@[i] == old(self).records@[i]);
                }
            }
        }
        off
    }

    /// Reads the payload of the frame at `file_offset`.
    pub fn read_at(&self, file_offset: u64) -> (r: Result<Vec<u8>, RecordError>)
        ensures
            match r {
                Ok(v) => read_spec(self.data@, file_offset as int) == Some(v@),
                Err(e) => e == RecordError::ShortRead && read_spec(self.data@, file_offset as int)
                    is None,
            },
    {
        let len = self.data.len();
        if file_offset > len as u64 || len - (file_offset as usize) < 4 {
            return Err(RecordError::ShortRead);
        }
        let off = file_offset as usize;
        let n = read_u32(self.data.as_slice(), off);
        if (n as usize) > len - off - 4 {
            return Err(RecordError::ShortRead);
        }
        Ok(copy_range(self.data.as_slice(), off + 4, off + 4 + n as usize))
    }

    /// The payloads of all records, in the order they were appended.
    pub fn records(&self) -> (r: Vec<Vec<u8>>)
        requires
            self.wf(),
        ensures
            r@.len() == self.records@.len(),
            forall|i: int| 0 <= i < r@.len() ==> (#[trigger] r@[i])@ == self.records@[i],
    {
        let len = self.data.len();
        let mut out: Vec<Vec<u8>> = Vec::new();
        let mut pos: usize = self.header_len + 12;
        let mut i: u32 = 0;
        while i < self.record_count
            invariant
                self.wf(),
                len == self.data@.len(),
                0 <= i <= self.record_count,
                out@.len() == i,
                pos == self.offset_of(i as int),
                forall|j: int| 0 <= j < i ==> (#[trigger] out@[j])@ == self.records@[j],
            decreases self.record_count - i,
        {
            let ghost recs = self.records@;
            proof {
                lemma_frame_at(recs, i as int);
                let off = frames(recs.take(i as int)).len() as int;
                let all = self.data@.subrange(self.start(), self.end_of_file as int);
                assert(self.data@.subrange(pos as int, pos + 4) =~= all.subrange(off, off + 4));
                lemma_le32_round_trip(recs[i as int].len() as u32);
                assert(self.data@.subrange(pos + 4, pos + 4 + recs[i as int].len()) =~= all.subrange(
                    off + 4,
                    off + 4 + recs[i as int].len(),
                ));
            }
            let n = read_u32(self.data.as_slice(), pos);
            let rec = copy_range(self.data.as_slice(), pos + 4, pos + 4 + n as usize);
            out.push(rec);
            pos = pos + 4 + n as usize;
            i = i + 1;
        }
        out
    }

    /// The count stored in the image, which is the sentinel until the file
    /// is closed.
    pub fn stored_count(&self) -> (r: u32)
        requires
            self.wf(),
        ensures
            r == from_le32(self.data@.subrange(self.header_len as int, self.header_len + 4)),
    {
        read_u32(self.data.as_slice(), self.header_len)
    }

    /// Replaces whatever follows the accounted end with `tail`.
    pub fn write_tail(&mut self, tail: &[u8])
        requires
            old(self).wf(),
        ensures
            final(self).wf(),
            final(self).data@ == old(self).data@.subrange(0, old(self).end_of_file as int) + tail@,
            final(self).records@ == old(self).records@,
            final(self).record_count == old(self).record_count,
            final(self).end_of_file == old(self).end_of_file,
            final(self).header_len == old(self).header_len,
    {
        self.data.truncate(self.end_of_file as usize);
        push_range(&mut self.data, tail, 0, tail.len());
        proof {
            assert(tail@.subrange(0, tail@.len() as int) =~= tail@);
            assert(self.data@.subrange(self.start(), self.end_of_file as int) =~= old(self).data@.subrange(
                self.start(),
                self.end_of_file as int,
            ));
        }
    }

    /// Writes the record count and end of content into the image.
    pub fn close(&mut self)
        requires
            old(self).wf(),
        ensures
            final(self).wf(),
            final(self).data@ == old(self).closed_image(),
            final(self).records@ == old(self).records@,
            final(self).record_count == old(self).record_count,
            final(self).end_of_file == old(self).end_of_file,
            final(self).header_len == old(self).header_len,
    {
        let _len = self.data.len();
        let h = self.header_len;
        let count = self.record_count;
        let eof = self.end_of_file;
        write_u32_at(&mut self.data, h, count);
        write_u64_at(&mut self.data, h + 4, eof);
        proof {
            lemma_le32_round_trip(count);
            lemma_le64_round_trip(eof);
            assert(self.data@ =~= old(self).closed_image());
            assert(self.data@.subrange(self.start(), eof as int) =~= old(self).data@.subrange(
                self.start(),
                eof as int,
            ));
        }
    }
}

/// Closing a file and opening its image again with the same header gives
/// back the same records, in the order they were appended, and the same end.
pub proof fn lemma_close_reopen(f: RecordFile, header: Seq<u8>)
    requires
        f.wf(),
        header.len() == f.header_len,
        f.data@.subrange(0, header.len() as int) == header,
    ensures
        open_spec(f.closed_image(), header) == Ok::<(Seq<Seq<u8>>, int), RecordError>(
            (f.records@, f.end_of_file as int),
        ),
{
    let h = header.len() as int;
    let image = f.closed_image();
    lemma_le32_round_trip(f.record_count);
    lemma_le64_round_trip(f.end_of_file);
    assert(image.subrange(0, h) =~= header);
    assert(image.subrange(h, h + 4) =~= le32(f.record_count));
    assert(image.subrange(h + 4, h + 12) =~= le64(f.end_of_file));
    assert(image.subrange(h + 12, f.end_of_file as int) =~= f.data@.subrange(
        h + 12,
        f.end_of_file as int,
    ));
    lemma_parse_frames_exact(f.records@);
}

/// An image whose count and end fields hold the file's own opens to the
/// file's records and end, whatever follows the end.
pub proof fn lemma_open_closed(f: RecordFile, header: Seq<u8>)
    requires
        f.wf(),
        header.len() == f.header_len,
        f.data@.subrange(0, header.len() as int) == header,
        f.data@.subrange(header.len() as int, header.len() as int + 4) == le32(f.record_count),
        f.data@.subrange(header.len() as int + 4, header.len() as int + 12) == le64(f.end_of_file),
    ensures
        open_spec(f.data@, header) == Ok::<(Seq<Seq<u8>>, int), RecordError>(
            (f.records@, f.end_of_file as int),
        ),
{
    lemma_le32_round_trip(f.record_count);
    lemma_le64_round_trip(f.end_of_file);
    lemma_parse_frames_exact(f.records@);
}

/// The frame at the offset of record `i` reads back as that record.
pub proof fn lemma_read_record(f: RecordFile, i: int)
    requires
        f.wf(),
        0 <= i < f.records@.len(),
    ensures
        read_spec(f.data@, f.offset_of(i)) == Some(f.records@[i]),
        f.offset_of(i) + 4 + f.records@[i].len() == f.offset_of(i + 1),
        f.offset_of(i + 1) <= f.end_of_file,
{
    let recs = f.records@;
    lemma_frame_at(recs, i);
    let off = frames(recs.take(i)).len() as int;
    let all = f.data@.subrange(f.start(), f.end_of_file as int);
    let pos = f.offset_of(i);
    assert(f.data@.subrange(pos, pos + 4) =~= all.subrange(off, off + 4));
    lemma_le32_round_trip(recs[i].len() as u32);
    assert(f.data@.subrange(pos + 4, pos + 4 + recs[i].len()) =~= all.subrange(
        off + 4,
        off + 4 + recs[i].len(),
    ));
}

/// A record for diagnostics: its size as eight hex digits, a space, then
/// its bytes in hex.
pub fn rec_to_string(size: u32, rec: &[u8]) -> (r: String)
    ensures
        r@ == hex8(size) + seq![' '] + hex_spaced(rec@),
{
    let mut dbg_buf = String::new();
    push_hex8(&mut dbg_buf, size);
    push_char(&mut dbg_buf, ' ');
    push_hex(&mut dbg_buf, rec);
    assert(dbg_buf@ =~= hex8(size) + seq![' '] + hex_spaced(rec@));
    dbg_buf
}

} // verus!
