//! Errors of the PNG reader and of the message codecs.
use vstd::prelude::*;

verus! {

/// The ways in which a buffer can fail to be a usable PNG chunk stream.
#[derive(Debug, Clone, Copy, PartialEq, Eq, Structural)]
pub enum FormatError {
    /// The buffer does not start with the eight PNG signature bytes.
    BadSignature,
    /// A chunk header or a chunk body reaches past the end of the buffer.
    Truncated,
    /// A chunk type tag is not made of four ASCII letters.
    BadChunkType,
    /// An `IHDR` chunk whose data is not exactly 13 bytes long.
    MalformedHeader,
    /// A `PLTE` chunk whose data length is not a multiple of 3.
    MalformedPalette,
    /// An `IEND` chunk that carries data.
    MalformedEnd,
    /// Text that is not valid UTF-8.
    InvalidText,
    /// The stream has no `IEND` chunk.
    MissingEnd,
    /// Data too long for the 32-bit length field of one chunk.
    DataTooLong,
}

} // verus!
