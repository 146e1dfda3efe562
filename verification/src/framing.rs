//! Length-prefixed framing of text messages: one byte with the length of the
//! UTF-8 encoding, then the encoding itself.
use vstd::prelude::*;
use vstd::utf8::{decode_utf8, encode_utf8, encode_utf8_decode_utf8, encode_utf8_valid_utf8, valid_utf8};

verus! {

/// A text message read from a stream.
#[derive(Debug, Clone)]
pub struct Message {
    pub msg: String,
}

/// Why a frame could not be written or read.
#[derive(Debug, Clone, Copy, PartialEq, Eq, Structural)]
pub enum FrameError {
    /// The UTF-8 encoding of the message is longer than 255 bytes.
    MessageTooLong,
    /// The bytes of a frame are not valid UTF-8.
    InvalidUtf8,
}

/// The frame of a text: its UTF-8 length in one byte, then its UTF-8 bytes.
pub open spec fn frame_of(text: Seq<char>) -> Seq<u8> {
    seq![encode_utf8(text).len() as u8] + encode_utf8(text)
}

/// The largest length a frame can announce.
pub const MAX_FRAME_LEN: usize = 255;

/// `String::from_utf8`: the text that `bytes` encode, or `None` when they are not
/// valid UTF-8.
#[verifier::external_body]
fn string_from_utf8(bytes: Vec<u8>) -> (r: Option<String>)
    ensures
        match r {
            Some(s) => valid_utf8(bytes@) && s@ == decode_utf8(bytes@),
            None => !valid_utf8(bytes@),
        },
{
    String::from_utf8(bytes).ok()
}

/// The frame that carries `msg`; refused when its UTF-8 encoding is longer than 255 bytes.
pub fn encode_frame(msg: &str) -> (r: Result<Vec<u8>, FrameError>)
    ensures
        match r {
            Ok(v) => encode_utf8(msg@).len() <= 255 && v@ == frame_of(msg@),
            Err(e) => encode_utf8(msg@).len() > 255 && e == FrameError::MessageTooLong,
        },
{
    let bytes = msg.as_bytes();
    if bytes.len() > MAX_FRAME_LEN {
        return Err(FrameError::MessageTooLong);
    }
    let mut v: Vec<u8> = Vec::new();
    v.push(bytes.len() as u8);
    let mut i: usize = 0;
    while i < bytes.len()
        invariant
            i <= bytes@.len(),
            bytes@ == encode_utf8(msg@),
            bytes@.len() <= 255,
            v@ == seq![bytes@.len() as u8] + bytes@.take(i as int),
        decreases bytes@.len() - i,
    {
        v.push(bytes[i]);
        i = i + 1;
        assert(v@ =~= seq![bytes@.len() as u8] + bytes@.take(i as int));
    }
    assert(bytes@.take(i as int) =~= bytes@);
    Ok(v)
}

/// The text carried by the `payload` of a frame; refused when it is not valid UTF-8.
pub fn decode_payload(payload: Vec<u8>) -> (r: Result<String, FrameError>)
    ensures
        match r {
            Ok(s) => valid_utf8(payload@) && s@ == decode_utf8(payload@),
            Err(e) => !valid_utf8(payload@) && e == FrameError::InvalidUtf8,
        },
{
    match string_from_utf8(payload) {
        Some(s) => Ok(s),
        None => Err(FrameError::InvalidUtf8),
    }
}

/// The length announced by the first byte of a frame.
pub fn payload_len(header: u8) -> (r: usize)
    ensures
        r == header as usize,
{
    header as usize
}

/// What the start of a byte buffer holds.
#[derive(Debug)]
pub enum FrameRead {
    /// Not yet a whole frame.
    Incomplete,
    /// A whole frame with its message, and the number of bytes it takes.
    Frame(Message, usize),
    /// A whole frame whose payload is not valid UTF-8, and the number of bytes it takes.
    Invalid(usize),
}

/// Reads the frame at the start of `buf`.
pub fn read_frame(buf: &Vec<u8>) -> (r: FrameRead)
    ensures
        buf@.len() == 0 || buf@.len() < 1 + buf@[0] <==> r is Incomplete,
        r matches FrameRead::Frame(m, n) ==> n == 1 + buf@[0] && n <= buf@.len() && valid_utf8(
            buf@.subrange(1, n as int),
        ) && m.msg@ == decode_utf8(buf@.subrange(1, n as int)),
        r matches FrameRead::Invalid(n) ==> n == 1 + buf@[0] && n <= buf@.len() && !valid_utf8(
            buf@.subrange(1, n as int),
        ),
{
    if buf.len() == 0 {
        return FrameRead::Incomplete;
    }
    let n = payload_len(buf[0]);
    if buf.len() < 1 + n {
        return FrameRead::Incomplete;
    }
    let mut payload: Vec<u8> = Vec::new();
    let mut i: usize = 1;
    while i < 1 + n
        invariant
            n <= 255,
            1 <= i <= 1 + n <= buf@.len(),
            payload@ == buf@.subrange(1, i as int),
        decreases 1 + n - i,
    {
        payload.push(buf[i]);
        i = i + 1;
        assert(payload@ =~= buf@.subrange(1, i as int));
    }
    match decode_payload(payload) {
        Ok(msg) => FrameRead::Frame(Message { msg }, 1 + n),
        Err(_) => FrameRead::Invalid(1 + n),
    }
}

/// What went wrong when reading from a stream.
#[derive(Debug, Clone, Copy, PartialEq, Eq, Structural)]
pub enum ReadErrorKind {
    /// The stream ended before the bytes asked for.
    UnexpectedEof,
    /// No bytes are there yet on a non-blocking stream.
    WouldBlock,
    /// Any other failure.
    Other,
}

/// Which part of a frame was being read.
#[derive(Debug, Clone, Copy, PartialEq, Eq, Structural)]
pub enum ReadStage {
    /// The length byte.
    Length,
    /// The bytes of the message.
    Payload,
}

/// Whether a read error means that no message is there yet (rather than a
/// failure): a stream that would block, or that ends before a length byte.
pub fn read_error_means_no_message(stage: ReadStage, kind: ReadErrorKind) -> (r: bool)
    ensures
        r == (kind == ReadErrorKind::WouldBlock || (stage == ReadStage::Length && kind
            == ReadErrorKind::UnexpectedEof)),
{
    match kind {
        ReadErrorKind::WouldBlock => true,
        ReadErrorKind::UnexpectedEof => match stage {
            ReadStage::Length => true,
            ReadStage::Payload => false,
        },
        ReadErrorKind::Other => false,
    }
}

/// A frame, followed by anything, is read back as the text it carries and
/// takes exactly its own bytes.
pub proof fn lemma_frame_roundtrip(text: Seq<char>, rest: Seq<u8>)
    requires
        encode_utf8(text).len() <= 255,
    ensures
        ({
            let buf = frame_of(text) + rest;
            &&& buf.len() >= 1 + buf[0]
            &&& buf[0] as int == encode_utf8(text).len()
            &&& buf.subrange(1, 1 + buf[0]) == encode_utf8(text)
            &&& valid_utf8(buf.subrange(1, 1 + buf[0]))
            &&& decode_utf8(buf.subrange(1, 1 + buf[0])) == text
        }),
{
    let buf = frame_of(text) + rest;
    let e = encode_utf8(text);
    assert(buf.subrange(1, 1 + e.len() as int) =~= e);
    encode_utf8_valid_utf8(text);
    encode_utf8_decode_utf8(text);
}

} // verus!
