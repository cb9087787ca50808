//! Properties that relate the reader, the writer and the codecs.
use vstd::prelude::*;
use vstd::utf8::{encode_utf8, encode_utf8_decode_utf8, encode_utf8_valid_utf8};

use crate::chunks::{
    decode_record, idat_tag, iend_tag, ihdr_tag, plte_tag, text_tag, ChunkView, InfoView,
};
use crate::decoders::{chunk_revealed, eof_revealed, first_tagged, utf8_text};
use crate::encoders::{chunk_hidden, eof_hidden, message_chunk, message_tag};
use crate::png::{
    chunk_at, chunk_starts, chunks_of, data_at, end_record, has_signature, length_at,
    info_at, lemma_chunk_at_info, lemma_ended_record, lemma_same_record, lemma_scan_prefix,
    lemma_scan_same_from, record_end, scan_stop, step_error, stream_error, tag_at, ScanStop,
};
use crate::writer::{chunk_bytes, lemma_chunk_record, serialize_chunks, stream_bytes, well_formed};
use crate::wire::{
    be32_bytes, crc32, lemma_be32_bytes_len, lemma_be32_round_trip, lemma_crc32_detects_one_byte,
};

verus! {

/// Text that is encoded as UTF-8 and decoded again comes back unchanged, and
/// only empty text encodes to no bytes.
proof fn lemma_utf8_text_round_trip(m: Seq<char>)
    ensures
        utf8_text(encode_utf8(m)) == Ok::<Option<Seq<char>>, crate::error::FormatError>(Some(m)),
        encode_utf8(m).len() == 0 <==> m.len() == 0,
{
    encode_utf8_valid_utf8(m);
    encode_utf8_decode_utf8(m);
    if encode_utf8(m).len() == 0 {
        assert(encode_utf8(m) =~= Seq::<u8>::empty());
    }
}

/// A buffer that agrees with `b` up to the end of its `IEND` chunk holds the
/// same chunk stream.
proof fn lemma_same_stream(b: Seq<u8>, h: Seq<u8>)
    requires
        end_record(b) is Ok,
        record_end(b, end_record(b)->Ok_0) <= h.len(),
        h.take(record_end(b, end_record(b)->Ok_0)) == b.take(record_end(b, end_record(b)->Ok_0)),
    ensures
        end_record(h) == end_record(b),
        record_end(h, end_record(b)->Ok_0) == record_end(b, end_record(b)->Ok_0),
        chunk_starts(h, 8) == chunk_starts(b, 8),
        chunks_of(h) == chunks_of(b),
{
    let s = end_record(b)->Ok_0;
    let e = record_end(b, s);
    lemma_ended_record(b, 8, s);
    let st = chunk_starts(b, 8);
    let k = st.len() - 1;
    assert forall|t: int| 0 <= t < e implies h[t] == b[t] by {
        assert(h.take(e)[t] == b.take(e)[t]);
    }
    assert(h.subrange(0, 8) =~= b.subrange(0, 8));
    lemma_scan_prefix(b, h, 8, k);
    assert(h.subrange(s, e) =~= b.subrange(s, e));
    lemma_same_record(b, s, h, s);
    assert(chunk_starts(h, s) == seq![s]);
    assert(st.take(k) + seq![s] =~= st);
    assert(chunks_of(h) =~= chunks_of(b)) by {
        assert forall|i: int| 0 <= i < st.len() implies chunk_at(h, st[i]) == chunk_at(b, st[i]) by {
        }
    }
}

/// Hiding a message after the stream end leaves the chunk stream as it was:
/// the new buffer holds the same chunks, in the same order, and its stream
/// ends where the old one did.
pub proof fn eof_hide_keeps_chunks(b: Seq<u8>, m: Seq<char>)
    requires
        end_record(b) is Ok,
    ensures
        eof_hidden(b, m) is Ok,
        chunks_of(eof_hidden(b, m)->Ok_0) == chunks_of(b),
        end_record(eof_hidden(b, m)->Ok_0) == end_record(b),
{
    let s = end_record(b)->Ok_0;
    let e = record_end(b, s);
    lemma_ended_record(b, 8, s);
    let h = b.take(e) + encode_utf8(m);
    assert(h.take(e) =~= b.take(e));
    lemma_same_stream(b, h);
}

/// Revealing what was hidden after the stream end gives the message back; an
/// empty message reads as no message at all.
pub proof fn eof_reveal_after_hide(b: Seq<u8>, m: Seq<char>)
    requires
        end_record(b) is Ok,
    ensures
        eof_hidden(b, m) is Ok,
        eof_revealed(eof_hidden(b, m)->Ok_0) == if m.len() == 0 {
            Ok::<Option<Seq<char>>, crate::error::FormatError>(None)
        } else {
            Ok(Some(m))
        },
{
    let s = end_record(b)->Ok_0;
    let e = record_end(b, s);
    lemma_ended_record(b, 8, s);
    let h = b.take(e) + encode_utf8(m);
    assert(h.take(e) =~= b.take(e));
    lemma_same_stream(b, h);
    lemma_utf8_text_round_trip(m);
    assert(h.skip(e) =~= encode_utf8(m));
}

/// The chunk that carries `data` as a hidden message, as the reader sees it:
/// an unrecognised chunk with a correct CRC.
pub open spec fn message_chunk_view(data: Seq<u8>) -> ChunkView {
    ChunkView::Other {
        info: InfoView {
            tag: message_tag(),
            length: data.len() as u32,
            stored_crc: crc32(message_tag() + data),
            computed_crc: crc32(message_tag() + data),
        },
        data,
        defect: None,
    }
}

/// The decoder keeps a message chunk as an unrecognised chunk.
proof fn lemma_decode_message(data: Seq<u8>)
    requires
        data.len() <= u32::MAX,
    ensures
        decode_record(message_chunk_view(data).info(), data) == message_chunk_view(data),
{
    reveal(decode_record);
    assert(message_tag()[0] != ihdr_tag()[0] && message_tag()[0] != plte_tag()[0]
        && message_tag()[0] != idat_tag()[0] && message_tag()[0] != iend_tag()[0]
        && message_tag()[0] != text_tag()[0]);
}

/// The bytes of a message chunk form one record that reads back as the
/// message chunk.
proof fn lemma_message_record(data: Seq<u8>)
    requires
        data.len() <= u32::MAX,
    ensures
        ({
            let mc = message_chunk(data);
            &&& mc.len() == data.len() + 12
            &&& step_error(mc, 0) is None
            &&& tag_at(mc, 0) == message_tag()
            &&& record_end(mc, 0) == mc.len()
            &&& chunk_at(mc, 0) == message_chunk_view(data)
            &&& data_at(mc, 0) == data
        }),
{
    reveal(message_chunk);
    let mc = message_chunk(data);
    let n = data.len() as int;
    let len = data.len() as u32;
    let crc = crc32(message_tag() + data);
    lemma_be32_bytes_len(len);
    lemma_be32_bytes_len(crc);
    let rest = message_tag() + data + be32_bytes(crc);
    assert(mc =~= Seq::<u8>::empty() + be32_bytes(len) + rest);
    lemma_be32_round_trip(len, Seq::<u8>::empty(), rest);
    let pre2 = be32_bytes(len) + message_tag() + data;
    assert(mc =~= pre2 + be32_bytes(crc) + Seq::<u8>::empty());
    lemma_be32_round_trip(crc, pre2, Seq::<u8>::empty());
    assert(length_at(mc, 0) == n);
    assert(tag_at(mc, 0) =~= message_tag());
    assert(data_at(mc, 0) =~= data);
    assert(mc.subrange(4, 8 + n) =~= message_tag() + data);
    lemma_decode_message(data);
    reveal(chunk_at);
}

/// `first_tagged` skips records whose tags differ.
proof fn lemma_first_tagged_skip(b: Seq<u8>, p: Seq<int>, q: Seq<int>, tag: Seq<u8>)
    requires
        forall|i: int| 0 <= i < p.len() ==> tag_at(b, #[trigger] p[i]) != tag,
    ensures
        first_tagged(b, p + q, tag) == first_tagged(b, q, tag),
    decreases p.len(),
{
    if p.len() > 0 {
        assert((p + q).drop_first() =~= p.drop_first() + q);
        assert forall|i: int| 0 <= i < p.drop_first().len() implies tag_at(
            b,
            #[trigger] p.drop_first()[i],
        ) != tag by {
            assert(p.drop_first()[i] == p[i + 1]);
        }
        lemma_first_tagged_skip(b, p.drop_first(), q, tag);
    }
}

/// When no record carries `tag`, none of them does.
proof fn lemma_first_tagged_none(b: Seq<u8>, q: Seq<int>, tag: Seq<u8>)
    requires
        first_tagged(b, q, tag) is None,
    ensures
        forall|i: int| 0 <= i < q.len() ==> tag_at(b, #[trigger] q[i]) != tag,
    decreases q.len(),
{
    if q.len() > 0 {
        lemma_first_tagged_none(b, q.drop_first(), tag);
        assert forall|i: int| 0 <= i < q.len() implies tag_at(b, #[trigger] q[i]) != tag by {
            if i > 0 {
                assert(q[i] == q.drop_first()[i - 1]);
            }
        }
    }
}

/// The message tag is not the `IEND` tag.
proof fn lemma_message_tag_not_end()
    ensures
        message_tag() != iend_tag(),
{
    assert(message_tag()[0] != iend_tag()[0]);
}

/// A record followed by an `IEND` record ends the scan there.
proof fn lemma_two_records(h: Seq<u8>, s: int, s2: int)
    requires
        0 <= s < h.len(),
        step_error(h, s) is None,
        tag_at(h, s) != iend_tag(),
        record_end(h, s) == s2,
        s2 < h.len(),
        step_error(h, s2) is None,
        tag_at(h, s2) == iend_tag(),
    ensures
        chunk_starts(h, s) == seq![s, s2],
        scan_stop(h, s) == ScanStop::Ended(s2),
{
    assert(chunk_starts(h, s2) == seq![s2]);
    assert(scan_stop(h, s2) == ScanStop::Ended(s2));
    assert(chunk_starts(h, s) =~= seq![s, s2]);
}

/// In `h`, which is `b` with the message chunk for `data` inserted before
/// its `IEND` record, the scan reads the message chunk, then `IEND`.
proof fn lemma_inserted_tail(b: Seq<u8>, h: Seq<u8>, data: Seq<u8>)
    requires
        end_record(b) is Ok,
        data.len() <= u32::MAX,
        h.len() == b.len() + message_chunk(data).len(),
        h.subrange(0, end_record(b)->Ok_0) == b.subrange(0, end_record(b)->Ok_0),
        h.subrange(end_record(b)->Ok_0, end_record(b)->Ok_0 + message_chunk(data).len())
            == message_chunk(data),
        h.subrange(end_record(b)->Ok_0 + message_chunk(data).len(), h.len() as int)
            == b.subrange(end_record(b)->Ok_0, b.len() as int),
    ensures
        ({
            let s = end_record(b)->Ok_0;
            let s2 = s + message_chunk(data).len();
            &&& chunk_starts(h, s) == seq![s, s2]
            &&& scan_stop(h, s) == ScanStop::Ended(s2)
            &&& chunk_at(h, s) == message_chunk_view(data)
            &&& tag_at(h, s) == message_tag()
            &&& data_at(h, s) == data
            &&& chunk_at(h, s2) == chunk_at(b, s)
        }),
{
    let s = end_record(b)->Ok_0;
    let e = record_end(b, s);
    lemma_ended_record(b, 8, s);
    let mc = message_chunk(data);
    lemma_message_record(data);
    let s2 = s + mc.len();
    assert(mc.subrange(0, mc.len() as int) =~= mc);
    lemma_same_record(mc, 0, h, s);
    assert(h.subrange(s2, s2 + (e - s)) =~= b.subrange(s, e)) by {
        assert forall|t: int| 0 <= t < e - s implies h.subrange(s2, s2 + (e - s))[t] == b.subrange(
            s,
            e,
        )[t] by {
            assert(h.subrange(s2, h.len() as int)[t] == b.subrange(s, b.len() as int)[t]);
        }
    }
    lemma_same_record(b, s, h, s2);
    lemma_message_tag_not_end();
    lemma_two_records(h, s, s2);
}

/// In `h`, which agrees with `b` before its `IEND` record, the scan reads
/// the same records up to there.
proof fn lemma_inserted_head(b: Seq<u8>, h: Seq<u8>)
    requires
        end_record(b) is Ok,
        end_record(b)->Ok_0 <= h.len(),
        h.subrange(0, end_record(b)->Ok_0) == b.subrange(0, end_record(b)->Ok_0),
    ensures
        ({
            let s = end_record(b)->Ok_0;
            let st = chunk_starts(b, 8);
            &&& has_signature(h)
            &&& chunk_starts(h, 8) == st.take(st.len() - 1) + chunk_starts(h, s)
            &&& scan_stop(h, 8) == scan_stop(h, s)
            &&& forall|i: int|
                0 <= i < st.len() - 1 ==> chunk_at(h, #[trigger] st[i]) == chunk_at(b, st[i])
                    && tag_at(h, st[i]) == tag_at(b, st[i])
        }),
{
    let s = end_record(b)->Ok_0;
    lemma_ended_record(b, 8, s);
    let st = chunk_starts(b, 8);
    let k = st.len() - 1;
    assert forall|t: int| 0 <= t < s implies h[t] == b[t] by {
        assert(h.subrange(0, s)[t] == b.subrange(0, s)[t]);
    }
    assert(h.subrange(0, 8) =~= b.subrange(0, 8));
    assert(st[k] == s);
    lemma_scan_prefix(b, h, 8, k);
}

/// The scan of `h`, which is `b` with the message chunk for `data` inserted
/// before its `IEND` record.
proof fn lemma_inserted_scan(b: Seq<u8>, h: Seq<u8>, data: Seq<u8>)
    requires
        end_record(b) is Ok,
        data.len() <= u32::MAX,
        h.len() == b.len() + message_chunk(data).len(),
        h.subrange(0, end_record(b)->Ok_0) == b.subrange(0, end_record(b)->Ok_0),
        h.subrange(end_record(b)->Ok_0, end_record(b)->Ok_0 + message_chunk(data).len())
            == message_chunk(data),
        h.subrange(end_record(b)->Ok_0 + message_chunk(data).len(), h.len() as int)
            == b.subrange(end_record(b)->Ok_0, b.len() as int),
    ensures
        ({
            let s = end_record(b)->Ok_0;
            let st = chunk_starts(b, 8);
            let s2 = s + message_chunk(data).len();
            &&& end_record(h) == Ok::<int, crate::error::FormatError>(s2)
            &&& chunk_starts(h, 8) == st.take(st.len() - 1) + seq![s, s2]
            &&& forall|i: int|
                0 <= i < st.len() - 1 ==> chunk_at(h, #[trigger] st[i]) == chunk_at(b, st[i])
                    && tag_at(h, st[i]) == tag_at(b, st[i])
            &&& chunk_at(h, s) == message_chunk_view(data)
            &&& tag_at(h, s) == message_tag()
            &&& data_at(h, s) == data
            &&& chunk_at(h, s2) == chunk_at(b, s)
        }),
{
    lemma_inserted_tail(b, h, data);
    lemma_inserted_head(b, h);
}

/// The scan of a buffer with a message chunk inserted before `IEND`, as the
/// embedding encoder builds it.
proof fn lemma_chunk_hidden_scan(b: Seq<u8>, m: Seq<char>)
    requires
        end_record(b) is Ok,
        encode_utf8(m).len() <= u32::MAX,
    ensures
        chunk_hidden(b, m) is Ok,
        chunk_hidden(b, m)->Ok_0 == b.take(end_record(b)->Ok_0) + message_chunk(encode_utf8(m))
            + b.skip(end_record(b)->Ok_0),
        ({
            let h = chunk_hidden(b, m)->Ok_0;
            let s = end_record(b)->Ok_0;
            let st = chunk_starts(b, 8);
            let s2 = s + message_chunk(encode_utf8(m)).len();
            &&& end_record(h) == Ok::<int, crate::error::FormatError>(s2)
            &&& chunk_starts(h, 8) == st.take(st.len() - 1) + seq![s, s2]
            &&& forall|i: int|
                0 <= i < st.len() - 1 ==> chunk_at(h, #[trigger] st[i]) == chunk_at(b, st[i])
                    && tag_at(h, st[i]) == tag_at(b, st[i])
            &&& chunk_at(h, s) == message_chunk_view(encode_utf8(m))
            &&& tag_at(h, s) == message_tag()
            &&& data_at(h, s) == encode_utf8(m)
            &&& chunk_at(h, s2) == chunk_at(b, s)
        }),
{
    let s = end_record(b)->Ok_0;
    lemma_ended_record(b, 8, s);
    let data = encode_utf8(m);
    let mc = message_chunk(data);
    let h = b.take(s) + mc + b.skip(s);
    let s2 = s + mc.len();
    assert(h.subrange(0, s) =~= b.subrange(0, s));
    assert(h.subrange(s, s2) =~= mc);
    assert(h.subrange(s2, h.len() as int) =~= b.subrange(s, b.len() as int));
    lemma_inserted_scan(b, h, data);
}

/// Embedding a message keeps every chunk of the stream, unchanged and in
/// order, and adds exactly one: the message chunk, right before `IEND`.
#[verifier::rlimit(60)]
pub proof fn chunk_hide_keeps_chunks(b: Seq<u8>, m: Seq<char>)
    requires
        end_record(b) is Ok,
        encode_utf8(m).len() <= u32::MAX,
    ensures
        chunk_hidden(b, m) is Ok,
        chunks_of(chunk_hidden(b, m)->Ok_0) == chunks_of(b).insert(
            chunks_of(b).len() - 1,
            message_chunk_view(encode_utf8(m)),
        ),
{
    lemma_chunk_hidden_scan(b, m);
    let h = chunk_hidden(b, m)->Ok_0;
    let s = end_record(b)->Ok_0;
    lemma_ended_record(b, 8, s);
    let st = chunk_starts(b, 8);
    let k = st.len() - 1;
    let cs = chunks_of(b);
    let hs = chunks_of(h);
    let want = cs.insert(k, message_chunk_view(encode_utf8(m)));
    assert(hs.len() == want.len());
    assert forall|i: int| 0 <= i < hs.len() implies hs[i] == want[i] by {
        if i < k {
            assert(chunk_starts(h, 8)[i] == st[i]);
        } else if i == k {
            assert(chunk_starts(h, 8)[i] == s);
        } else {
            assert(st[k] == s);
        }
    }
    assert(hs =~= want);
}

/// Revealing an embedded message gives it back, as long as the buffer held
/// no message chunk before.
#[verifier::rlimit(60)]
pub proof fn chunk_reveal_after_hide(b: Seq<u8>, m: Seq<char>)
    requires
        end_record(b) is Ok,
        encode_utf8(m).len() <= u32::MAX,
        first_tagged(b, chunk_starts(b, 8), message_tag()) is None,
    ensures
        chunk_hidden(b, m) is Ok,
        chunk_revealed(chunk_hidden(b, m)->Ok_0) == Ok::<
            Option<Seq<char>>,
            crate::error::FormatError,
        >(Some(m)),
{
    lemma_chunk_hidden_scan(b, m);
    let h = chunk_hidden(b, m)->Ok_0;
    let s = end_record(b)->Ok_0;
    lemma_ended_record(b, 8, s);
    let st = chunk_starts(b, 8);
    let k = st.len() - 1;
    let s2 = s + message_chunk(encode_utf8(m)).len();
    lemma_first_tagged_none(b, st, message_tag());
    assert forall|i: int| 0 <= i < st.take(k).len() implies tag_at(
        h,
        #[trigger] st.take(k)[i],
    ) != message_tag() by {
        assert(st.take(k)[i] == st[i]);
    }
    lemma_first_tagged_skip(h, st.take(k), seq![s, s2], message_tag());
    lemma_utf8_text_round_trip(m);
}

/// Changing one data byte of a chunk, and nothing else, shows on that chunk
/// alone: the stream reads the same records and stops the same way, every
/// other chunk decodes as before, and the changed chunk keeps its stored CRC
/// while the CRC computed over its bytes changes. A chunk whose CRC matched
/// before no longer matches.
#[verifier::rlimit(60)]
pub proof fn crc_flags_changed_byte(b: Seq<u8>, k: int, j: int, v: u8)
    requires
        0 <= k < chunk_starts(b, 8).len(),
        chunk_starts(b, 8)[k] + 8 <= j < chunk_starts(b, 8)[k] + 8 + length_at(
            b,
            chunk_starts(b, 8)[k],
        ),
        v != b[j],
    ensures
        chunk_starts(b.update(j, v), 8) == chunk_starts(b, 8),
        stream_error(b.update(j, v)) == stream_error(b),
        forall|i: int|
            0 <= i < chunks_of(b).len() && i != k ==> #[trigger] chunks_of(b.update(j, v))[i]
                == chunks_of(b)[i],
        chunks_of(b.update(j, v))[k].info().stored_crc == chunks_of(b)[k].info().stored_crc,
        chunks_of(b.update(j, v))[k].info().computed_crc != chunks_of(b)[k].info().computed_crc,
{
    let b2 = b.update(j, v);
    let st = chunk_starts(b, 8);
    let s = st[k];
    let len = length_at(b, s);
    let e = record_end(b, s);
    crate::png::lemma_starts_from(b, 8);
    lemma_scan_prefix(b, b, 8, k);
    assert(st.take(k) + chunk_starts(b, s) == st);
    assert(chunk_starts(b, s).len() > 0) by {
        assert(st.len() == k + chunk_starts(b, s).len());
    }
    assert(step_error(b, s) is None && 0 <= s < b.len());
    assert forall|t: int| 8 <= t < s implies b2[t] == b[t] by {}
    lemma_scan_prefix(b, b2, 8, k);
    // The record header and the stored CRC are untouched.
    assert(b2[s] == b[s] && b2[s + 1] == b[s + 1] && b2[s + 2] == b[s + 2] && b2[s + 3] == b[s
        + 3]);
    assert(b2[s + 4] == b[s + 4] && b2[s + 5] == b[s + 5] && b2[s + 6] == b[s + 6] && b2[s + 7]
        == b[s + 7]);
    assert(length_at(b2, s) == len);
    assert(step_error(b2, s) is None);
    assert(tag_at(b2, s) =~= tag_at(b, s));
    assert(b2[s + 8 + len] == b[s + 8 + len] && b2[s + 9 + len] == b[s + 9 + len] && b2[s + 10
        + len] == b[s + 10 + len] && b2[s + 11 + len] == b[s + 11 + len]);
    assert(info_at(b2, s).stored_crc == info_at(b, s).stored_crc);
    // The records after it are untouched.
    assert forall|t: int| e <= t < b.len() implies b2[t] == b[t] by {}
    lemma_scan_same_from(b, b2, e);
    if tag_at(b, s) == iend_tag() {
        assert(chunk_starts(b2, s) == chunk_starts(b, s));
    } else {
        assert(chunk_starts(b2, s) == seq![s] + chunk_starts(b2, e));
        assert(chunk_starts(b2, s) == chunk_starts(b, s));
        assert(scan_stop(b2, s) == scan_stop(b, s));
    }
    assert(chunk_starts(b2, 8) == st);
    assert(scan_stop(b2, 8) == scan_stop(b, 8)) by {
        lemma_scan_prefix(b, b, 8, k);
    }
    assert(b2.subrange(0, 8) =~= b.subrange(0, 8));
    // The computed CRC sees the changed byte.
    let w = b.subrange(s + 4, s + 8 + len);
    let i0 = j - (s + 4);
    let p = w.take(i0);
    let q = w.skip(i0 + 1);
    assert(w =~= p.push(w[i0]) + q);
    assert(b2.subrange(s + 4, s + 8 + len) =~= p.push(v) + q);
    lemma_crc32_detects_one_byte(p, w[i0], v, q);
    lemma_chunk_at_info(b, s);
    lemma_chunk_at_info(b2, s);
    assert forall|i: int| 0 <= i < chunks_of(b).len() && i != k implies #[trigger] chunks_of(
        b2,
    )[i] == chunks_of(b)[i] by {
        if i > k {
            assert(st[i] == chunk_starts(b, s)[i - k]);
            if tag_at(b, s) != iend_tag() {
                assert(chunk_starts(b, s)[i - k] == chunk_starts(b, e)[i - k - 1]);
            }
        }
    }
}

/// Scanning the records of `cs`, written after any bytes `pre`, reads the
/// chunks of `cs` back and stops at the last one.
#[verifier::rlimit(40)]
proof fn lemma_scan_written(pre: Seq<u8>, cs: Seq<ChunkView>)
    requires
        cs.len() >= 1,
        forall|i: int| 0 <= i < cs.len() ==> well_formed(#[trigger] cs[i]),
        forall|i: int| 0 <= i < cs.len() - 1 ==> (#[trigger] cs[i]).info().tag != iend_tag(),
        cs.last().info().tag == iend_tag(),
    ensures
        ({
            let b = pre + serialize_chunks(cs);
            let p = pre.len() as int;
            &&& chunk_starts(b, p).len() == cs.len()
            &&& forall|i: int|
                0 <= i < cs.len() ==> chunk_at(b, #[trigger] chunk_starts(b, p)[i]) == cs[i]
            &&& scan_stop(b, p) is Ended
        }),
    decreases cs.len(),
{
    let b = pre + serialize_chunks(cs);
    let p = pre.len() as int;
    let c0 = cs[0];
    let cb = chunk_bytes(c0);
    let rest = cs.drop_first();
    assert(serialize_chunks(cs) == cb + serialize_chunks(rest));
    let pre2 = pre + cb;
    assert(b =~= pre2 + serialize_chunks(rest));
    lemma_chunk_record(c0);
    assert(b.subrange(p, p + cb.len()) =~= cb.subrange(0, cb.len() as int));
    lemma_same_record(cb, 0, b, p);
    let next_at = p + cb.len();
    if cs.len() == 1 {
        assert(chunk_starts(b, p) == seq![p]);
    } else {
        assert(cs[0].info().tag != iend_tag());
        assert forall|i: int| 0 <= i < rest.len() implies well_formed(#[trigger] rest[i]) by {
            assert(rest[i] == cs[i + 1]);
        }
        assert forall|i: int| 0 <= i < rest.len() - 1 implies (#[trigger] rest[i]).info().tag
            != iend_tag() by {
            assert(rest[i] == cs[i + 1]);
        }
        lemma_scan_written(pre2, rest);
        assert(chunk_starts(b, p) == seq![p] + chunk_starts(b, next_at));
        assert forall|i: int| 0 <= i < cs.len() implies chunk_at(
            b,
            #[trigger] chunk_starts(b, p)[i],
        ) == cs[i] by {
            if i > 0 {
                assert(chunk_starts(b, p)[i] == chunk_starts(b, next_at)[i - 1]);
                assert(cs[i] == rest[i - 1]);
            }
        }
    }
}

/// Writing a sequence of chunks that begins with a header and ends with the
/// one terminal chunk, and reading the bytes back, gives the same chunks,
/// in order, every one with a matching CRC, and no error.
pub proof fn parse_after_write(cs: Seq<ChunkView>)
    requires
        cs.len() >= 1,
        cs[0] is Header,
        cs.last() is End,
        forall|i: int| 0 <= i < cs.len() ==> well_formed(#[trigger] cs[i]),
        forall|i: int| 0 <= i < cs.len() - 1 ==> (#[trigger] cs[i]).info().tag != iend_tag(),
    ensures
        chunks_of(stream_bytes(cs)) == cs,
        stream_error(stream_bytes(cs)) is None,
        forall|i: int|
            0 <= i < cs.len() ==> (#[trigger] chunks_of(stream_bytes(cs))[i]).info().stored_crc
                == chunks_of(stream_bytes(cs))[i].info().computed_crc,
{
    let b = stream_bytes(cs);
    assert(well_formed(cs.last()));
    lemma_scan_written(crate::png::png_signature(), cs);
    assert(chunks_of(b) =~= cs);
}

/// Cutting a stream short inside one of its records leaves a buffer whose
/// scan returns every chunk before that record, unchanged, and stops with
/// `Truncated`.
pub proof fn truncation_keeps_earlier_chunks(b: Seq<u8>, k: int, cut: int)
    requires
        end_record(b) is Ok,
        0 <= k < chunk_starts(b, 8).len(),
        chunk_starts(b, 8)[k] < cut < record_end(b, chunk_starts(b, 8)[k]),
    ensures
        chunks_of(b.take(cut)) == chunks_of(b).take(k),
        stream_error(b.take(cut)) == Some(crate::error::FormatError::Truncated),
{
    let bt = b.take(cut);
    let st = chunk_starts(b, 8);
    let s = st[k];
    crate::png::lemma_starts_from(b, 8);
    lemma_ended_record(b, 8, end_record(b)->Ok_0);
    lemma_scan_prefix(b, b, 8, k);
    assert(st.take(k) + chunk_starts(b, s) == st);
    assert(chunk_starts(b, s).len() > 0) by {
        assert(st.len() == k + chunk_starts(b, s).len());
    }
    assert(step_error(b, s) is None);
    assert forall|t: int| 8 <= t < s implies bt[t] == b[t] by {}
    lemma_scan_prefix(b, bt, 8, k);
    assert(bt.subrange(0, 8) =~= b.subrange(0, 8));
    if cut >= s + 8 {
        assert(bt[s] == b[s] && bt[s + 1] == b[s + 1] && bt[s + 2] == b[s + 2] && bt[s + 3] == b[s
            + 3]);
        assert(bt[s + 4] == b[s + 4] && bt[s + 5] == b[s + 5] && bt[s + 6] == b[s + 6] && bt[s + 7]
            == b[s + 7]);
        assert(record_end(bt, s) == record_end(b, s));
    }
    assert(step_error(bt, s) == Some(crate::error::FormatError::Truncated));
    assert(chunk_starts(bt, s) == Seq::<int>::empty());
    assert(chunk_starts(bt, 8) =~= st.take(k));
    assert(chunks_of(bt) =~= chunks_of(b).take(k));
}

} // verus!
