//! Finding a hidden text message again.
use vstd::prelude::*;
use vstd::utf8::{decode_utf8, valid_utf8};

use crate::chunks::{copy_range, iend_tag, text_from_bytes};
use crate::encoders::message_tag;
use crate::error::FormatError;
use crate::png::{
    chunk_starts, data_at, end_record, is_tag_for, lemma_ended_record, locate_end_chunk,
    locate_stream_end, read_record, record_end, scan_stop, tag_at, ScanStop,
};

verus! {

/// A decoder's result with the text as a plain character sequence.
pub open spec fn text_result(r: Result<Option<String>, FormatError>) -> Result<
    Option<Seq<char>>,
    FormatError,
> {
    match r {
        Ok(Some(s)) => Ok(Some(s@)),
        Ok(None) => Ok(None),
        Err(e) => Err(e),
    }
}

/// `bytes` read as UTF-8 text, or `InvalidText`.
pub open spec fn utf8_text(bytes: Seq<u8>) -> Result<Option<Seq<char>>, FormatError> {
    if valid_utf8(bytes) {
        Ok(Some(decode_utf8(bytes)))
    } else {
        Err(FormatError::InvalidText)
    }
}

/// A way of finding a message hidden in a PNG buffer. Finding none is no
/// error.
pub trait Decoder {
    /// The message found in `bytes`, or the error.
    spec fn decoding(&self, bytes: Seq<u8>) -> Result<Option<Seq<char>>, FormatError>;

    fn decode(&self, bytes: &Vec<u8>) -> (r: Result<Option<String>, FormatError>)
        ensures
            text_result(r) == self.decoding(bytes@),
    ;
}

/// The text after the `IEND` chunk of `b`; none if nothing follows it.
pub open spec fn eof_revealed(b: Seq<u8>) -> Result<Option<Seq<char>>, FormatError> {
    match end_record(b) {
        Ok(at) => if record_end(b, at) == b.len() {
            Ok(None)
        } else {
            utf8_text(b.skip(record_end(b, at)))
        },
        Err(e) => Err(e),
    }
}

/// Reads a message from the bytes after the `IEND` chunk.
pub struct EndOfFileDecoder;

impl EndOfFileDecoder {
    pub fn new() -> Self {
        EndOfFileDecoder
    }
}

impl Decoder for EndOfFileDecoder {
    open spec fn decoding(&self, bytes: Seq<u8>) -> Result<Option<Seq<char>>, FormatError> {
        eof_revealed(bytes)
    }

    fn decode(&self, bytes: &Vec<u8>) -> (r: Result<Option<String>, FormatError>) {
        let end = match locate_stream_end(bytes) {
            Ok(end) => end,
            Err(e) => return Err(e),
        };
        proof {
            lemma_ended_record(bytes@, 8, end_record(bytes@)->Ok_0);
        }
        let n = bytes.len();
        if end == n {
            return Ok(None);
        }
        let rest = copy_range(bytes, end, n);
        assert(rest@ =~= bytes@.skip(end as int));
        match text_from_bytes(rest) {
            Ok(s) => Ok(Some(s)),
            Err(e) => Err(e),
        }
    }
}

/// The first of the records at `starts` whose tag is `tag`.
pub open spec fn first_tagged(b: Seq<u8>, starts: Seq<int>, tag: Seq<u8>) -> Option<int>
    decreases starts.len(),
{
    if starts.len() == 0 {
        None
    } else if tag_at(b, starts[0]) == tag {
        Some(starts[0])
    } else {
        first_tagged(b, starts.drop_first(), tag)
    }
}

/// The text of the first message chunk of `b`; none if there is no such
/// chunk before `IEND`.
pub open spec fn chunk_revealed(b: Seq<u8>) -> Result<Option<Seq<char>>, FormatError> {
    match end_record(b) {
        Ok(_) => match first_tagged(b, chunk_starts(b, 8), message_tag()) {
            Some(at) => utf8_text(data_at(b, at)),
            None => Ok(None),
        },
        Err(e) => Err(e),
    }
}

/// Reads a message from the first message chunk.
pub struct CustomChunkDecoder;

impl CustomChunkDecoder {
    pub fn new() -> Self {
        CustomChunkDecoder
    }
}

impl Decoder for CustomChunkDecoder {
    open spec fn decoding(&self, bytes: Seq<u8>) -> Result<Option<Seq<char>>, FormatError> {
        chunk_revealed(bytes)
    }

    fn decode(&self, bytes: &Vec<u8>) -> (r: Result<Option<String>, FormatError>) {
        let last = match locate_end_chunk(bytes) {
            Ok(at) => at,
            Err(e) => return Err(e),
        };
        let ghost b = bytes@;
        proof {
            lemma_ended_record(b, 8, last as int);
        }
        let n = bytes.len();
        let mut i: usize = 8;
        loop
            invariant
                n == b.len(),
                b == bytes@,
                8 <= i <= last < n,
                end_record(b) == Ok::<int, FormatError>(last as int),
                scan_stop(b, i as int) == ScanStop::Ended(last as int),
                first_tagged(b, chunk_starts(b, 8), message_tag()) == first_tagged(
                    b,
                    chunk_starts(b, i as int),
                    message_tag(),
                ),
            decreases n - i,
        {
            proof {
                lemma_ended_record(b, i as int, last as int);
            }
            let info = match read_record(bytes, i) {
                Ok(info) => info,
                Err(e) => return Err(e),
            };
            if is_tag_for(&info.type_bytes, Ghost(message_tag()), 115, 109, 83, 71) {
                let data = copy_range(bytes, i + 8, i + 8 + info.data_length as usize);
                return match text_from_bytes(data) {
                    Ok(s) => Ok(Some(s)),
                    Err(e) => Err(e),
                };
            }
            if is_tag_for(&info.type_bytes, Ghost(iend_tag()), 73, 69, 78, 68) {
                assert(chunk_starts(b, i as int).drop_first() =~= seq![]);
                assert(iend_tag()[0] != message_tag()[0]);
                assert(first_tagged(b, seq![], message_tag()) is None);
                return Ok(None);
            }
            let next = i + 12 + info.data_length as usize;
            proof {
                assert(chunk_starts(b, i as int).drop_first() =~= chunk_starts(b, next as int));
                lemma_ended_record(b, next as int, last as int);
            }
            i = next;
        }
    }
}

} // verus!
