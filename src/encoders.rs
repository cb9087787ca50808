//! Hiding a text message: after the terminal chunk, or in a chunk of its own
//! inserted before it.
use vstd::prelude::*;
use vstd::string::StringSliceAdditionalSpecFns;
use vstd::utf8::encode_utf8;

use crate::error::FormatError;
use crate::png::{end_record, locate_end_chunk, locate_stream_end, record_end};
use crate::wire::{append_range, append_slice, be32_bytes, crc32, push_be32};

verus! {

/// An encoder's result with the buffer as a plain byte sequence.
pub open spec fn bytes_result(r: Result<Vec<u8>, FormatError>) -> Result<Seq<u8>, FormatError> {
    match r {
        Ok(v) => Ok(v@),
        Err(e) => Err(e),
    }
}

/// A way of hiding a text message in a PNG buffer. The input buffer is left
/// as it is; the result is a new buffer, or an error and no buffer.
pub trait Encoder {
    /// The buffer that hiding `message` in `bytes` gives, or the error.
    spec fn encoding(&self, message: Seq<char>, bytes: Seq<u8>) -> Result<Seq<u8>, FormatError>;

    fn encode(&self, message: &str, bytes: &Vec<u8>) -> (r: Result<Vec<u8>, FormatError>)
        ensures
            bytes_result(r) == self.encoding(message@, bytes@),
    ;
}

/// The stream of `b` up to the end of its `IEND` chunk, followed by the
/// UTF-8 bytes of `message`. Whatever followed `IEND` before is replaced.
pub open spec fn eof_hidden(b: Seq<u8>, message: Seq<char>) -> Result<Seq<u8>, FormatError> {
    match end_record(b) {
        Ok(at) => Ok(b.take(record_end(b, at)) + encode_utf8(message)),
        Err(e) => Err(e),
    }
}

/// Hides a message in the bytes after the `IEND` chunk.
pub struct EndOfFileEncoder;

impl EndOfFileEncoder {
    pub fn new() -> Self {
        EndOfFileEncoder
    }
}

impl Encoder for EndOfFileEncoder {
    open spec fn encoding(&self, message: Seq<char>, bytes: Seq<u8>) -> Result<
        Seq<u8>,
        FormatError,
    > {
        eof_hidden(bytes, message)
    }

    fn encode(&self, message: &str, bytes: &Vec<u8>) -> (r: Result<Vec<u8>, FormatError>) {
        let end = match locate_stream_end(bytes) {
            Ok(end) => end,
            Err(e) => return Err(e),
        };
        proof {
            crate::png::lemma_ended_record(bytes@, 8, end_record(bytes@)->Ok_0);
        }
        let mut out: Vec<u8> = Vec::new();
        append_range(&mut out, bytes, 0, end);
        append_slice(&mut out, message.as_bytes());
        assert(bytes@.subrange(0, end as int) =~= bytes@.take(end as int));
        Ok(out)
    }
}

/// The type tag of the message chunk: ancillary, private, reserved bit
/// clear, not safe to copy.
pub open spec fn message_tag() -> Seq<u8> {
    seq![115u8, 109u8, 83u8, 71u8]
}

/// The complete chunk that carries `data`: length, tag, data and the CRC of
/// tag and data.
#[verifier::opaque]
pub open spec fn message_chunk(data: Seq<u8>) -> Seq<u8> {
    be32_bytes(data.len() as u32) + message_tag() + data + be32_bytes(
        crc32(message_tag() + data),
    )
}

/// `b` with a message chunk holding the UTF-8 bytes of `message` inserted
/// right before its `IEND` chunk.
pub open spec fn chunk_hidden(b: Seq<u8>, message: Seq<char>) -> Result<Seq<u8>, FormatError> {
    match end_record(b) {
        Ok(at) => if encode_utf8(message).len() > u32::MAX {
            Err(FormatError::DataTooLong)
        } else {
            Ok(b.take(at) + message_chunk(encode_utf8(message)) + b.skip(at))
        },
        Err(e) => Err(e),
    }
}

/// Hides a message in a chunk of its own, inserted before `IEND`.
pub struct CustomChunkEncoder;

impl CustomChunkEncoder {
    pub fn new() -> Self {
        CustomChunkEncoder
    }
}

/// Builds the message chunk for `data`.
pub fn build_message_chunk(data: &[u8]) -> (r: Vec<u8>)
    requires
        data@.len() <= u32::MAX,
    ensures
        r@ == message_chunk(data@),
{
    let mut body: Vec<u8> = Vec::new();
    body.push(115);
    body.push(109);
    body.push(83);
    body.push(71);
    append_slice(&mut body, data);
    assert(body@ =~= message_tag() + data@);
    let crc = crate::wire::crc32_of_range(&body, 0, body.len());
    assert(body@.subrange(0, body@.len() as int) =~= body@);
    let mut out: Vec<u8> = Vec::new();
    push_be32(&mut out, data.len() as u32);
    append_range(&mut out, &body, 0, body.len());
    push_be32(&mut out, crc);
    reveal(message_chunk);
    assert(out@ =~= message_chunk(data@));
    out
}

impl Encoder for CustomChunkEncoder {
    open spec fn encoding(&self, message: Seq<char>, bytes: Seq<u8>) -> Result<
        Seq<u8>,
        FormatError,
    > {
        chunk_hidden(bytes, message)
    }

    fn encode(&self, message: &str, bytes: &Vec<u8>) -> (r: Result<Vec<u8>, FormatError>) {
        let at = match locate_end_chunk(bytes) {
            Ok(at) => at,
            Err(e) => return Err(e),
        };
        proof {
            crate::png::lemma_ended_record(bytes@, 8, at as int);
        }
        let data = message.as_bytes();
        if data.len() > 0xFFFF_FFFF {
            return Err(FormatError::DataTooLong);
        }
        let chunk = build_message_chunk(data);
        let n = bytes.len();
        let mut out: Vec<u8> = Vec::new();
        append_range(&mut out, bytes, 0, at);
        append_range(&mut out, &chunk, 0, chunk.len());
        append_range(&mut out, bytes, at, n);
        assert(out@ =~= bytes@.take(at as int) + message_chunk(encode_utf8(message@)) + bytes@.skip(
            at as int,
        ));
        Ok(out)
    }
}

} // verus!
