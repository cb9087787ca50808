//! Scanning a PNG buffer: the signature, the record-by-record cursor, and
//! a whole-stream parse that keeps what it read before an error.
use vstd::prelude::*;

use crate::chunks::{
    decode_record, iend_tag, idat_tag, ihdr_tag, plte_tag, text_tag, ChunkBasicInfo, ChunkTypes,
    ChunkView, InfoView, IDAT, IEND, IHDR, PLTE, tEXt, Unknown,
};
use crate::error::FormatError;
use crate::wire::{be32_at, crc32, crc32_of_range, read_be32};

verus! {

/// The eight bytes that open every PNG file.
pub open spec fn png_signature() -> Seq<u8> {
    seq![137u8, 80u8, 78u8, 71u8, 13u8, 10u8, 26u8, 10u8]
}

pub open spec fn has_signature(b: Seq<u8>) -> bool {
    b.len() >= 8 && b.subrange(0, 8) == png_signature()
}

/// An ASCII letter, upper or lower case.
pub open spec fn is_tag_letter(x: u8) -> bool {
    (65 <= x <= 90) || (97 <= x <= 122)
}

/// The type tag of the record that starts at `at`.
pub open spec fn tag_at(b: Seq<u8>, at: int) -> Seq<u8> {
    b.subrange(at + 4, at + 8)
}

/// The declared data length of the record that starts at `at`.
pub open spec fn length_at(b: Seq<u8>, at: int) -> int {
    be32_at(b, at)
}

/// The offset just past the record that starts at `at`: 4 bytes of length,
/// 4 of type, the data and 4 of CRC.
pub open spec fn record_end(b: Seq<u8>, at: int) -> int {
    at + 12 + length_at(b, at)
}

/// The data of the record that starts at `at`.
pub open spec fn data_at(b: Seq<u8>, at: int) -> Seq<u8> {
    b.subrange(at + 8, at + 8 + length_at(b, at))
}

/// The basic information of the record that starts at `at`; its CRC is taken
/// over the type tag and the data.
pub open spec fn info_at(b: Seq<u8>, at: int) -> InfoView {
    InfoView {
        tag: tag_at(b, at),
        length: length_at(b, at) as u32,
        stored_crc: be32_at(b, at + 8 + length_at(b, at)) as u32,
        computed_crc: crc32(b.subrange(at + 4, at + 8 + length_at(b, at))),
    }
}

/// The chunk that the record starting at `at` decodes to.
#[verifier::opaque]
pub open spec fn chunk_at(b: Seq<u8>, at: int) -> ChunkView {
    decode_record(info_at(b, at), data_at(b, at))
}

/// Why no record can be read at `at`, if there is a reason.
pub open spec fn step_error(b: Seq<u8>, at: int) -> Option<FormatError> {
    if b.len() < at + 8 {
        Some(FormatError::Truncated)
    } else if !(is_tag_letter(b[at + 4]) && is_tag_letter(b[at + 5]) && is_tag_letter(b[at + 6])
        && is_tag_letter(b[at + 7])) {
        Some(FormatError::BadChunkType)
    } else if b.len() < record_end(b, at) {
        Some(FormatError::Truncated)
    } else {
        None
    }
}

/// How a scan of the chunk sequence stops.
pub enum ScanStop {
    /// At an `IEND` record; the offset is where that record starts.
    Ended(int),
    /// At the end of the buffer, on a record boundary, with no `IEND` seen.
    Exhausted,
    /// At a record that cannot be read.
    Failed(FormatError),
}

/// The offsets of the records that a scan from `at` reads, up to and
/// including the first `IEND`.
pub open spec fn chunk_starts(b: Seq<u8>, at: int) -> Seq<int>
    decreases b.len() - at,
{
    if at < 0 || at >= b.len() || step_error(b, at) is Some {
        seq![]
    } else if tag_at(b, at) == iend_tag() {
        seq![at]
    } else {
        seq![at] + chunk_starts(b, record_end(b, at))
    }
}

/// How a scan from `at` stops.
pub open spec fn scan_stop(b: Seq<u8>, at: int) -> ScanStop
    decreases b.len() - at,
{
    if at < 0 || at >= b.len() {
        ScanStop::Exhausted
    } else if step_error(b, at) is Some {
        ScanStop::Failed(step_error(b, at)->0)
    } else if tag_at(b, at) == iend_tag() {
        ScanStop::Ended(at)
    } else {
        scan_stop(b, record_end(b, at))
    }
}

/// The chunks of the stream in `b`, in order, read from just after the
/// signature.
pub open spec fn chunks_of(b: Seq<u8>) -> Seq<ChunkView> {
    chunk_starts(b, 8).map_values(|at: int| chunk_at(b, at))
}

/// The error that ends the stream in `b`, if it does not end with `IEND`.
pub open spec fn stream_error(b: Seq<u8>) -> Option<FormatError> {
    match scan_stop(b, 8) {
        ScanStop::Ended(_) => None,
        ScanStop::Exhausted => Some(FormatError::MissingEnd),
        ScanStop::Failed(e) => Some(e),
    }
}

/// Checks that `bytes` opens with the PNG signature.
pub fn check_if_png(bytes: &Vec<u8>) -> (r: Result<(), FormatError>)
    ensures
        r is Ok <==> has_signature(bytes@),
        r matches Err(e) ==> e == FormatError::BadSignature,
{
    if bytes.len() < 8 {
        return Err(FormatError::BadSignature);
    }
    let ok = bytes[0] == 137 && bytes[1] == 80 && bytes[2] == 78 && bytes[3] == 71 && bytes[4]
        == 13 && bytes[5] == 10 && bytes[6] == 26 && bytes[7] == 10;
    if ok {
        assert(bytes@.subrange(0, 8) =~= png_signature());
        Ok(())
    } else {
        assert(!has_signature(bytes@)) by {
            if has_signature(bytes@) {
                assert(bytes@.subrange(0, 8)[0] == png_signature()[0]);
                assert(bytes@.subrange(0, 8)[1] == png_signature()[1]);
                assert(bytes@.subrange(0, 8)[2] == png_signature()[2]);
                assert(bytes@.subrange(0, 8)[3] == png_signature()[3]);
                assert(bytes@.subrange(0, 8)[4] == png_signature()[4]);
                assert(bytes@.subrange(0, 8)[5] == png_signature()[5]);
                assert(bytes@.subrange(0, 8)[6] == png_signature()[6]);
                assert(bytes@.subrange(0, 8)[7] == png_signature()[7]);
            }
        }
        Err(FormatError::BadSignature)
    }
}

fn is_letter(x: u8) -> (r: bool)
    ensures
        r == is_tag_letter(x),
{
    (65 <= x && x <= 90) || (97 <= x && x <= 122)
}

pub(crate) fn is_tag_for(t: &[u8; 4], want: Ghost<Seq<u8>>, a: u8, b: u8, c: u8, d: u8) -> (r: bool)
    requires
        want@ == seq![a, b, c, d],
    ensures
        r == (t@ == want@),
{
    let r = t[0] == a && t[1] == b && t[2] == c && t[3] == d;
    if r {
        assert(t@ =~= want@);
    } else {
        assert(t@ != want@) by {
            if t@ == want@ {
                assert(t@[0] == want@[0] && t@[1] == want@[1] && t@[2] == want@[2] && t@[3]
                    == want@[3]);
            }
        }
    }
    r
}

/// Reads the record header at `at`: its length, type tag and CRCs.
pub fn read_record(bytes: &Vec<u8>, at: usize) -> (r: Result<ChunkBasicInfo, FormatError>)
    requires
        at < bytes@.len(),
    ensures
        r is Ok <==> step_error(bytes@, at as int) is None,
        r matches Ok(info) ==> info@ == info_at(bytes@, at as int),
        r matches Err(e) ==> step_error(bytes@, at as int) == Some(e),
{
    let n = bytes.len();
    if n - at < 8 {
        return Err(FormatError::Truncated);
    }
    let t0 = bytes[at + 4];
    let t1 = bytes[at + 5];
    let t2 = bytes[at + 6];
    let t3 = bytes[at + 7];
    if !(is_letter(t0) && is_letter(t1) && is_letter(t2) && is_letter(t3)) {
        return Err(FormatError::BadChunkType);
    }
    let length = read_be32(bytes, at);
    if n - at < 12 || length as usize > n - at - 12 {
        return Err(FormatError::Truncated);
    }
    let data_end = at + 8 + length as usize;
    let crc = read_be32(bytes, data_end);
    let computed_crc = crc32_of_range(bytes, at + 4, data_end);
    let type_bytes: [u8; 4] = [t0, t1, t2, t3];
    assert(type_bytes@ =~= tag_at(bytes@, at as int));
    Ok(ChunkBasicInfo { type_bytes, data_length: length, crc, computed_crc })
}

/// Decodes the record at `at`, whose header `info` has been read.
pub fn decode_chunk(bytes: &Vec<u8>, at: usize, info: ChunkBasicInfo) -> (r: ChunkTypes)
    requires
        at < bytes@.len(),
        step_error(bytes@, at as int) is None,
        info@ == info_at(bytes@, at as int),
    ensures
        r@ == chunk_at(bytes@, at as int),
{
    let ghost b = bytes@;
    proof {
        reveal(decode_record);
        reveal(chunk_at);
    }
    let t = info.type_bytes;
    assert(crate::chunks::data_from(b, at as int, info) == data_at(b, at as int));
    if is_tag_for(&t, Ghost(ihdr_tag()), 73, 72, 68, 82) {
        match IHDR::new(at, bytes, info) {
            Ok(h) => ChunkTypes::Header(h),
            Err(e) => ChunkTypes::Other(Unknown::new(info, at, bytes, Some(e))),
        }
    } else if is_tag_for(&t, Ghost(plte_tag()), 80, 76, 84, 69) {
        match PLTE::new(info, at, bytes) {
            Ok(p) => ChunkTypes::Palette(p),
            Err(e) => ChunkTypes::Other(Unknown::new(info, at, bytes, Some(e))),
        }
    } else if is_tag_for(&t, Ghost(idat_tag()), 73, 68, 65, 84) {
        ChunkTypes::ImageData(IDAT::new(info, at, bytes))
    } else if is_tag_for(&t, Ghost(iend_tag()), 73, 69, 78, 68) {
        assert(info.data_length == 0 ==> data_at(b, at as int) =~= Seq::<u8>::empty());
        match IEND::new(info) {
            Ok(e) => ChunkTypes::End(e),
            Err(e) => ChunkTypes::Other(Unknown::new(info, at, bytes, Some(e))),
        }
    } else if is_tag_for(&t, Ghost(text_tag()), 116, 69, 88, 116) {
        match tEXt::new(at, info, bytes) {
            Ok(x) => ChunkTypes::Text(x),
            Err(e) => ChunkTypes::Other(Unknown::new(info, at, bytes, Some(e))),
        }
    } else {
        ChunkTypes::Other(Unknown::new(info, at, bytes, None))
    }
}

/// A forward-only cursor over the chunks of a PNG buffer. It reads one
/// record per call of `next`, and stops after `IEND`, at the end of the
/// buffer, or at the first record it cannot read.
pub struct ChunkIterator<'a> {
    bytes: &'a Vec<u8>,
    i: usize,
    finished: bool,
    ended: bool,
    stop: Ghost<ScanStop>,
}

impl<'a> ChunkIterator<'a> {
    /// The buffer being scanned.
    pub closed spec fn buffer(&self) -> Seq<u8> {
        self.bytes@
    }

    /// The offsets of the records that are still to be read.
    pub closed spec fn remaining(&self) -> Seq<int> {
        if self.finished {
            seq![]
        } else {
            chunk_starts(self.bytes@, self.i as int)
        }
    }

    /// How the whole scan stops.
    pub closed spec fn outcome(&self) -> ScanStop {
        self.stop@
    }

    /// Whether the cursor has handed out all it will.
    pub closed spec fn is_finished(&self) -> bool {
        self.finished
    }

    pub closed spec fn wf(&self) -> bool {
        &&& self.i <= self.bytes@.len()
        &&& !self.finished ==> scan_stop(self.bytes@, self.i as int) == self.stop@
        &&& !self.finished ==> !self.ended
        &&& self.finished ==> (self.ended <==> self.stop@ is Ended)
    }

    /// A cursor at the first record, after checking the signature.
    pub fn new(bytes: &'a Vec<u8>) -> (r: Result<ChunkIterator<'a>, FormatError>)
        ensures
            r is Ok <==> has_signature(bytes@),
            r matches Err(e) ==> e == FormatError::BadSignature,
            r matches Ok(it) ==> {
                &&& it.wf()
                &&& it.buffer() == bytes@
                &&& it.remaining() == chunk_starts(bytes@, 8)
                &&& it.outcome() == scan_stop(bytes@, 8)
                &&& !it.is_finished()
            },
    {
        match check_if_png(bytes) {
            Ok(()) => Ok(ChunkIterator {
                bytes,
                i: 8,
                finished: false,
                ended: false,
                stop: Ghost(scan_stop(bytes@, 8)),
            }),
            Err(e) => Err(e),
        }
    }

    /// Whether the scan stopped at an `IEND` chunk.
    pub fn reached_end(&self) -> (r: bool)
        requires
            self.wf(),
        ensures
            r == (self.is_finished() && self.outcome() is Ended),
    {
        self.ended
    }

    /// The next chunk; or the error that stops the scan, once; or nothing.
    pub fn next(&mut self) -> (r: Option<Result<ChunkTypes, FormatError>>)
        requires
            old(self).wf(),
        ensures
            final(self).wf(),
            final(self).buffer() == old(self).buffer(),
            final(self).outcome() == old(self).outcome(),
            match r {
                Some(Ok(c)) => {
                    &&& old(self).remaining().len() > 0
                    &&& c@ == chunk_at(old(self).buffer(), old(self).remaining()[0])
                    &&& final(self).remaining() == old(self).remaining().drop_first()
                    &&& final(self).is_finished() ==> final(self).outcome() is Ended
                },
                Some(Err(e)) => {
                    &&& old(self).remaining().len() == 0
                    &&& !old(self).is_finished()
                    &&& old(self).outcome() == ScanStop::Failed(e)
                    &&& final(self).is_finished()
                },
                None => {
                    &&& old(self).remaining().len() == 0
                    &&& final(self).is_finished()
                    &&& !old(self).is_finished() ==> !(old(self).outcome() is Failed)
                    &&& final(self).remaining().len() == 0
                },
            },
    {
        if self.finished {
            return None;
        }
        let n = self.bytes.len();
        if self.i >= n {
            self.finished = true;
            return None;
        }
        match read_record(self.bytes, self.i) {
            Err(e) => {
                self.finished = true;
                Some(Err(e))
            },
            Ok(info) => {
                let at = self.i;
                let chunk = decode_chunk(self.bytes, at, info);
                let next = at + 12 + info.data_length as usize;
                assert(next == record_end(self.bytes@, at as int));
                if is_tag_for(&info.type_bytes, Ghost(iend_tag()), 73, 69, 78, 68) {
                    self.finished = true;
                    self.ended = true;
                    assert(chunk_starts(self.bytes@, at as int).drop_first() =~= seq![]);
                } else {
                    self.i = next;
                    assert(chunk_starts(self.bytes@, at as int).drop_first() =~= chunk_starts(
                        self.bytes@,
                        next as int,
                    ));
                }
                Some(Ok(chunk))
            },
        }
    }
}

/// The views of a sequence of decoded chunks.
pub open spec fn views_of(cs: Seq<ChunkTypes>) -> Seq<ChunkView> {
    cs.map_values(|c: ChunkTypes| c@)
}

/// A scanned stream: the chunks read, and the error that stopped the scan
/// before an `IEND` chunk, if one did.
#[derive(Debug, PartialEq, Eq)]
pub struct ParsedStream {
    pub chunks: Vec<ChunkTypes>,
    pub error: Option<FormatError>,
}

/// Scans the whole buffer. A bad signature yields nothing; any other error
/// comes with the chunks read before it.
pub fn parse_png(bytes: &Vec<u8>) -> (r: Result<ParsedStream, FormatError>)
    ensures
        r is Ok <==> has_signature(bytes@),
        r matches Err(e) ==> e == FormatError::BadSignature,
        r matches Ok(p) ==> views_of(p.chunks@) == chunks_of(bytes@) && p.error == stream_error(
            bytes@,
        ),
{
    let mut it = match ChunkIterator::new(bytes) {
        Ok(it) => it,
        Err(e) => return Err(e),
    };
    let ghost b = bytes@;
    let ghost seen: Seq<int> = seq![];
    let mut chunks: Vec<ChunkTypes> = Vec::new();
    let mut error: Option<FormatError> = None;
    loop
        invariant_except_break
            it.is_finished() ==> it.outcome() is Ended,
            error is None,
        invariant
            it.wf(),
            it.buffer() == b,
            b == bytes@,
            it.outcome() == scan_stop(b, 8),
            chunk_starts(b, 8) == seen + it.remaining(),
            views_of(chunks@) == seen.map_values(|at: int| chunk_at(b, at)),
        ensures
            chunk_starts(b, 8) == seen,
            views_of(chunks@) == seen.map_values(|at: int| chunk_at(b, at)),
            error == stream_error(b),
        decreases it.remaining().len(),
    {
        let ghost before = it.remaining();
        match it.next() {
            Some(Ok(c)) => {
                let ghost at = before[0];
                let ghost cv = c@;
                let ghost prev = chunks@;
                chunks.push(c);
                proof {
                    assert(seen + before =~= seen.push(at) + it.remaining());
                    assert(views_of(chunks@) =~= views_of(prev).push(cv));
                    seen = seen.push(at);
                    assert(views_of(chunks@) =~= seen.map_values(|at: int| chunk_at(b, at)));
                }
            },
            Some(Err(e)) => {
                error = Some(e);
                assert(seen + it.remaining() =~= seen);
                break ;
            },
            None => {
                if !it.reached_end() {
                    error = Some(FormatError::MissingEnd);
                }
                assert(seen + it.remaining() =~= seen);
                break ;
            },
        }
    }
    Ok(ParsedStream { chunks, error })
}

/// Where the `IEND` record of the stream in `b` starts, or why there is
/// none: the signature is wrong, a record cannot be read, or the records end
/// without one.
pub open spec fn end_record(b: Seq<u8>) -> Result<int, FormatError> {
    if !has_signature(b) {
        Err(FormatError::BadSignature)
    } else {
        match scan_stop(b, 8) {
            ScanStop::Ended(at) => Ok(at),
            ScanStop::Exhausted => Err(FormatError::MissingEnd),
            ScanStop::Failed(e) => Err(e),
        }
    }
}

/// Finds where the `IEND` record starts, walking the record headers from
/// the signature on.
pub fn locate_end_chunk(bytes: &Vec<u8>) -> (r: Result<usize, FormatError>)
    ensures
        match r {
            Ok(at) => end_record(bytes@) == Ok::<int, FormatError>(at as int),
            Err(e) => end_record(bytes@) == Err::<int, FormatError>(e),
        },
{
    match check_if_png(bytes) {
        Ok(()) => {},
        Err(e) => return Err(e),
    }
    let n = bytes.len();
    let mut i: usize = 8;
    loop
        invariant
            n == bytes@.len(),
            has_signature(bytes@),
            8 <= i <= n,
            scan_stop(bytes@, i as int) == scan_stop(bytes@, 8),
        decreases n - i,
    {
        if i >= n {
            return Err(FormatError::MissingEnd);
        }
        match read_record(bytes, i) {
            Err(e) => return Err(e),
            Ok(info) => {
                if is_tag_for(&info.type_bytes, Ghost(iend_tag()), 73, 69, 78, 68) {
                    return Ok(i);
                }
                i = i + 12 + info.data_length as usize;
            },
        }
    }
}

/// A scan that ends at an `IEND` record ends at a whole record within the
/// buffer, at or after where it started.
pub proof fn lemma_ended_record(b: Seq<u8>, at: int, s: int)
    requires
        0 <= at,
        scan_stop(b, at) == ScanStop::Ended(s),
    ensures
        at <= s < b.len(),
        step_error(b, s) is None,
        tag_at(b, s) == iend_tag(),
        record_end(b, s) <= b.len(),
        chunk_starts(b, at).len() > 0,
        chunk_starts(b, at).last() == s,
    decreases b.len() - at,
{
    if tag_at(b, at) != iend_tag() {
        lemma_ended_record(b, record_end(b, at), s);
    }
}

/// Finds the offset just past the `IEND` record: where the chunk stream ends.
pub fn locate_stream_end(bytes: &Vec<u8>) -> (r: Result<usize, FormatError>)
    ensures
        match r {
            Ok(o) => end_record(bytes@) is Ok && o == record_end(bytes@, end_record(bytes@)->Ok_0),
            Err(e) => end_record(bytes@) == Err::<int, FormatError>(e),
        },
{
    match locate_end_chunk(bytes) {
        Ok(at) => {
            proof {
                lemma_ended_record(bytes@, 8, at as int);
            }
            let info = read_record(bytes, at);
            assert(record_end(bytes@, at as int) <= bytes.len());
            match info {
                Ok(info) => Ok(at + 12 + info.data_length as usize),
                Err(e) => Err(e),
            }
        },
        Err(e) => Err(e),
    }
}

/// A record decodes the same wherever its bytes stand.
pub proof fn lemma_same_record(b: Seq<u8>, a: int, b2: Seq<u8>, a2: int)
    requires
        0 <= a,
        0 <= a2,
        a < b.len(),
        step_error(b, a) is None,
        a2 + (record_end(b, a) - a) <= b2.len(),
        b2.subrange(a2, a2 + (record_end(b, a) - a)) == b.subrange(a, record_end(b, a)),
    ensures
        a2 < b2.len(),
        step_error(b2, a2) is None,
        tag_at(b2, a2) == tag_at(b, a),
        length_at(b2, a2) == length_at(b, a),
        record_end(b2, a2) - a2 == record_end(b, a) - a,
        chunk_at(b2, a2) == chunk_at(b, a),
        data_at(b2, a2) == data_at(b, a),
{
    let r = record_end(b, a) - a;
    assert forall|t2: int| a2 <= t2 < a2 + r implies #[trigger] b2[t2] == b[t2 - a2 + a] by {
        assert(b2.subrange(a2, a2 + r)[t2 - a2] == b.subrange(a, record_end(b, a))[t2 - a2]);
    }
    let len = length_at(b, a);
    assert(length_at(b2, a2) == len);
    assert(tag_at(b2, a2) =~= tag_at(b, a));
    assert(data_at(b2, a2) =~= data_at(b, a));
    assert(b2.subrange(a2 + 4, a2 + 8 + len) =~= b.subrange(a + 4, a + 8 + len));
    assert(b2[a2 + 8 + len] == b[a + 8 + len]);
    assert(b2[a2 + 8 + len + 1] == b[a + 8 + len + 1]);
    assert(b2[a2 + 8 + len + 2] == b[a + 8 + len + 2]);
    assert(b2[a2 + 8 + len + 3] == b[a + 8 + len + 3]);
    assert(info_at(b2, a2) == info_at(b, a));
    reveal(chunk_at);
}

/// Every record a scan from `at` reads starts at or after `at`, within the
/// buffer.
pub proof fn lemma_starts_from(b: Seq<u8>, at: int)
    requires
        0 <= at,
    ensures
        forall|k: int|
            0 <= k < chunk_starts(b, at).len() ==> at <= #[trigger] chunk_starts(b, at)[k]
                < b.len(),
    decreases b.len() - at,
{
    if !(at >= b.len() || step_error(b, at) is Some) && tag_at(b, at) != iend_tag() {
        let next = record_end(b, at);
        lemma_starts_from(b, next);
        let st = chunk_starts(b, at);
        assert(st == seq![at] + chunk_starts(b, next));
        assert forall|k: int| 0 <= k < st.len() implies at <= #[trigger] st[k] < b.len() by {
            if k > 0 {
                assert(st[k] == chunk_starts(b, next)[k - 1]);
            }
        }
    }
}

/// A scan that reads record `k` from `at` on reads the same records before
/// it in any buffer that agrees with `b` from `at` up to record `k`.
pub proof fn lemma_scan_prefix(b: Seq<u8>, b2: Seq<u8>, at: int, k: int)
    requires
        0 <= at,
        0 <= k < chunk_starts(b, at).len(),
        chunk_starts(b, at)[k] <= b2.len(),
        forall|t: int| at <= t < chunk_starts(b, at)[k] ==> b2[t] == b[t],
    ensures
        chunk_starts(b2, at) == chunk_starts(b, at).take(k) + chunk_starts(
            b2,
            chunk_starts(b, at)[k],
        ),
        scan_stop(b2, at) == scan_stop(b2, chunk_starts(b, at)[k]),
        forall|i: int|
            0 <= i < k ==> chunk_at(b2, #[trigger] chunk_starts(b, at)[i]) == chunk_at(
                b,
                chunk_starts(b, at)[i],
            ) && tag_at(b2, chunk_starts(b, at)[i]) == tag_at(b, chunk_starts(b, at)[i]),
    decreases k,
{
    let st = chunk_starts(b, at);
    if k == 0 {
        assert(st[0] == at);
        assert(st.take(0) + chunk_starts(b2, at) =~= chunk_starts(b2, at));
    } else {
        let next = record_end(b, at);
        assert(tag_at(b, at) != iend_tag());
        assert(st.drop_first() == chunk_starts(b, next));
        lemma_starts_from(b, next);
        assert(st[k] == chunk_starts(b, next)[k - 1]);
        assert(next <= st[k]);
        assert(b2.subrange(at, next) =~= b.subrange(at, next));
        lemma_same_record(b, at, b2, at);
        lemma_scan_prefix(b, b2, next, k - 1);
        assert(chunk_starts(b2, at) == seq![at] + chunk_starts(b2, next));
        assert(st.take(k) =~= seq![at] + chunk_starts(b, next).take(k - 1));
        assert(chunk_starts(b2, at) =~= st.take(k) + chunk_starts(b2, st[k]));
        assert forall|i: int| 0 <= i < k implies chunk_at(b2, #[trigger] st[i]) == chunk_at(
            b,
            st[i],
        ) && tag_at(b2, st[i]) == tag_at(b, st[i]) by {
            if i > 0 {
                assert(st[i] == chunk_starts(b, next)[i - 1]);
            }
        }
    }
}

/// A decoded chunk keeps the basic information of its record.
pub proof fn lemma_chunk_at_info(b: Seq<u8>, at: int)
    ensures
        chunk_at(b, at).info() == info_at(b, at),
{
    reveal(chunk_at);
    reveal(decode_record);
}

/// Two buffers of one length that agree from `at` on scan alike from there.
pub proof fn lemma_scan_same_from(b: Seq<u8>, b2: Seq<u8>, at: int)
    requires
        0 <= at,
        b2.len() == b.len(),
        forall|t: int| at <= t < b.len() ==> b2[t] == b[t],
    ensures
        chunk_starts(b2, at) == chunk_starts(b, at),
        scan_stop(b2, at) == scan_stop(b, at),
        forall|i: int|
            0 <= i < chunk_starts(b, at).len() ==> chunk_at(b2, #[trigger] chunk_starts(b, at)[i])
                == chunk_at(b, chunk_starts(b, at)[i]),
    decreases b.len() - at,
{
    if at < b.len() {
        if b.len() >= at + 8 {
            assert(b2[at] == b[at] && b2[at + 1] == b[at + 1] && b2[at + 2] == b[at + 2] && b2[at
                + 3] == b[at + 3]);
            assert(b2[at + 4] == b[at + 4] && b2[at + 5] == b[at + 5] && b2[at + 6] == b[at + 6]
                && b2[at + 7] == b[at + 7]);
            assert(step_error(b2, at) == step_error(b, at));
        }
        if step_error(b, at) is None {
            let e = record_end(b, at);
            assert(b2.subrange(at, e) =~= b.subrange(at, e));
            lemma_same_record(b, at, b2, at);
            if tag_at(b, at) != iend_tag() {
                lemma_scan_same_from(b, b2, e);
                let st = chunk_starts(b, at);
                assert forall|i: int| 0 <= i < st.len() implies chunk_at(b2, #[trigger] st[i])
                    == chunk_at(b, st[i]) by {
                    if i > 0 {
                        assert(st[i] == chunk_starts(b, e)[i - 1]);
                    }
                }
            }
        }
    }
}

} // verus!
