//! Framing of the messages exchanged between nodes: each message is its
//! length (`u32`, LE) followed by its encoded bytes.
use vstd::prelude::*;

use core::marker::PhantomData;

use crate::bytes::{copy_range, from_le32, le32, push_range, push_u32, read_u32};
use crate::log_value::LogValue;
use crate::record_codec::Record;

verus! {

/// A request to a storage node.
#[derive(Debug, PartialEq)]
pub enum RequestMessage {
    Insert(Record),
    Get(String, LogValue),
}

/// A storage node's answer.
#[derive(Debug, PartialEq)]
pub enum ResponseMessage {
    /// The answer to an insert.
    Inserted,
    /// The answer to a get.
    Logs(Vec<Record>),
}

/// A codec that receives `R` and sends `S`, one length-prefixed frame each.
pub struct LengthPrefixedMessage<R, S> {
    _recv: PhantomData<R>,
    _send: PhantomData<S>,
}

/// The codec of a storage node.
pub type ServerCodec = LengthPrefixedMessage<RequestMessage, ResponseMessage>;

/// The codec of a client of a storage node.
pub type ClientCodec = LengthPrefixedMessage<ResponseMessage, RequestMessage>;

/// Whether `buf` starts with a whole frame.
pub open spec fn has_frame(buf: Seq<u8>) -> bool {
    buf.len() >= 4 && buf.len() >= 4 + from_le32(buf.subrange(0, 4))
}

/// The length of the frame at the start of `buf`, prefix included.
pub open spec fn frame_len(buf: Seq<u8>) -> int {
    4 + from_le32(buf.subrange(0, 4))
}

impl<R, S> LengthPrefixedMessage<R, S> {
    pub fn new() -> LengthPrefixedMessage<R, S> {
        LengthPrefixedMessage { _recv: PhantomData, _send: PhantomData }
    }

    /// Takes the first frame off `buf` and returns its payload; leaves
    /// `buf` as it is while the frame is incomplete.
    pub fn decode_frame(&mut self, buf: &mut Vec<u8>) -> (r: Option<Vec<u8>>)
        ensures
            match r {
                Some(p) => {
                    &&& has_frame(old(buf)@)
                    &&& p@ == old(buf)@.subrange(4, frame_len(old(buf)@))
                    &&& final(buf)@ == old(buf)@.subrange(frame_len(old(buf)@), old(buf)@.len() as int)
                },
                None => !has_frame(old(buf)@) && final(buf)@ == old(buf)@,
            },
    {
        let len = buf.len();
        if len < 4 {
            return None;
        }
        let n = read_u32(buf.as_slice(), 0) as usize;
        if len - 4 < n {
            return None;
        }
        let payload = copy_range(buf.as_slice(), 4, 4 + n);
        let rest = copy_range(buf.as_slice(), 4 + n, len);
        *buf = rest;
        Some(payload)
    }

    /// Appends the frame of `payload` to `buf`.
    pub fn encode_frame(&mut self, payload: &[u8], buf: &mut Vec<u8>)
        requires
            payload@.len() <= u32::MAX,
        ensures
            final(buf)@ == old(buf)@ + le32(payload@.len() as u32) + payload@,
    {
        push_u32(buf, payload.len() as u32);
        push_range(buf, payload, 0, payload.len());
        assert(payload@.subrange(0, payload@.len() as int) =~= payload@);
    }
}

} // verus!
