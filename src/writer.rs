//! Writing chunks back out as a PNG stream, each with a freshly computed CRC.
use vstd::prelude::*;
use vstd::string::StringSliceAdditionalSpecFns;
use vstd::utf8::{encode_utf8, encode_utf8_decode_utf8, encode_utf8_valid_utf8, valid_utf8};

use crate::chunks::{
    colors_of, decode_record, iend_tag, idat_tag, ihdr_tag, plte_tag, text_tag, ChunkTypes,
    ChunkView, Color,
};
use crate::error::FormatError;
use crate::png::{
    chunk_at, data_at, info_at, is_tag_letter, length_at, png_signature, record_end, step_error,
    tag_at, views_of,
};
use crate::wire::{
    append_range, append_slice, be32_bytes, crc32, crc32_of_range, lemma_be32_bytes_len,
    lemma_be32_round_trip, push_be32,
};

verus! {

/// The bytes of a palette, three per entry.
pub open spec fn flatten_colors(cs: Seq<Color>) -> Seq<u8>
    decreases cs.len(),
{
    if cs.len() == 0 {
        seq![]
    } else {
        flatten_colors(cs.drop_last()) + seq![cs.last().red, cs.last().green, cs.last().blue]
    }
}

/// The data bytes that a chunk is written with.
pub open spec fn payload_of(c: ChunkView) -> Seq<u8> {
    match c {
        ChunkView::Header {
            width,
            height,
            bit_depth,
            color_type,
            compression_method,
            filter_method,
            interlace_method,
            ..
        } => be32_bytes(width) + be32_bytes(height) + seq![
            bit_depth,
            color_type,
            compression_method,
            filter_method,
            interlace_method,
        ],
        ChunkView::Palette { colors, .. } => flatten_colors(colors),
        ChunkView::ImageData { data, .. } => data,
        ChunkView::End { .. } => seq![],
        ChunkView::Text { text, .. } => encode_utf8(text),
        ChunkView::Other { data, .. } => data,
    }
}

/// The complete record of a chunk: data length, type tag, data, and the CRC
/// of tag and data, computed afresh.
#[verifier::opaque]
pub open spec fn chunk_bytes(c: ChunkView) -> Seq<u8> {
    let tag = c.info().tag;
    let data = payload_of(c);
    be32_bytes(data.len() as u32) + tag + data + be32_bytes(crc32(tag + data))
}

/// The records of `cs`, one after the other.
pub open spec fn serialize_chunks(cs: Seq<ChunkView>) -> Seq<u8>
    decreases cs.len(),
{
    if cs.len() == 0 {
        seq![]
    } else {
        chunk_bytes(cs[0]) + serialize_chunks(cs.drop_first())
    }
}

/// A PNG stream holding the chunks `cs`.
pub open spec fn stream_bytes(cs: Seq<ChunkView>) -> Seq<u8> {
    png_signature() + serialize_chunks(cs)
}

/// Whether a chunk's data fits the 32-bit length field.
pub open spec fn fits_record(c: ChunkView) -> bool {
    payload_of(c).len() <= u32::MAX
}

/// Whether `defect` is the reason the reader keeps a chunk with type tag
/// `tag` and data `data` as an unrecognised chunk.
pub open spec fn kept_as_other(tag: Seq<u8>, data: Seq<u8>, defect: Option<FormatError>) -> bool {
    if tag == ihdr_tag() {
        data.len() != 13 && defect == Some(FormatError::MalformedHeader)
    } else if tag == plte_tag() {
        data.len() % 3 != 0 && defect == Some(FormatError::MalformedPalette)
    } else if tag == idat_tag() {
        false
    } else if tag == iend_tag() {
        data.len() != 0 && defect == Some(FormatError::MalformedEnd)
    } else if tag == text_tag() {
        !valid_utf8(data) && defect == Some(FormatError::InvalidText)
    } else {
        defect is None
    }
}

/// A chunk value that a stream can hold as it stands: a type tag of four
/// letters that fits its kind, data that fits the length field, and a
/// length and CRCs that are those of its tag and data.
pub open spec fn well_formed(c: ChunkView) -> bool {
    let info = c.info();
    let data = payload_of(c);
    &&& info.tag.len() == 4
    &&& is_tag_letter(info.tag[0]) && is_tag_letter(info.tag[1]) && is_tag_letter(info.tag[2])
        && is_tag_letter(info.tag[3])
    &&& data.len() <= u32::MAX
    &&& info.length == data.len()
    &&& info.stored_crc == crc32(info.tag + data)
    &&& info.computed_crc == info.stored_crc
    &&& match c {
        ChunkView::Header { .. } => info.tag == ihdr_tag(),
        ChunkView::Palette { .. } => info.tag == plte_tag(),
        ChunkView::ImageData { .. } => info.tag == idat_tag(),
        ChunkView::End { .. } => info.tag == iend_tag(),
        ChunkView::Text { .. } => info.tag == text_tag(),
        ChunkView::Other { data, defect, .. } => kept_as_other(info.tag, data, defect),
    }
}

/// Appends the data bytes of `c`.
fn write_payload(out: &mut Vec<u8>, c: &ChunkTypes)
    ensures
        final(out)@ == old(out)@ + payload_of(c@),
{
    match c {
        ChunkTypes::Header(h) => {
            push_be32(out, h.width);
            push_be32(out, h.height);
            out.push(h.bit_depth);
            out.push(h.color_type);
            out.push(h.compression_method);
            out.push(h.filter_method);
            out.push(h.interlace_method);
            assert(final(out)@ =~= old(out)@ + payload_of(c@));
        },
        ChunkTypes::Palette(p) => {
            let n = p.palette.len();
            let mut j: usize = 0;
            while j < n
                invariant
                    n == p.palette@.len(),
                    j <= n,
                    out@ =~= old(out)@ + flatten_colors(p.palette@.take(j as int)),
                decreases n - j,
            {
                let col = p.palette[j];
                out.push(col.red);
                out.push(col.green);
                out.push(col.blue);
                assert(p.palette@.take(j + 1).drop_last() =~= p.palette@.take(j as int));
                j = j + 1;
            }
            assert(p.palette@.take(n as int) =~= p.palette@);
        },
        ChunkTypes::ImageData(d) => {
            append_slice(out, d.image_data.as_slice());
        },
        ChunkTypes::End(_) => {
            assert(final(out)@ =~= old(out)@ + payload_of(c@));
        },
        ChunkTypes::Text(t) => {
            append_slice(out, t.text.as_str().as_bytes());
        },
        ChunkTypes::Other(u) => {
            append_slice(out, u.data.as_slice());
        },
    }
}

/// Appends the record of `c`, with its CRC computed afresh; or, when its
/// data does not fit the length field, fails and appends nothing.
pub fn write_chunk(out: &mut Vec<u8>, c: &ChunkTypes) -> (r: Result<(), FormatError>)
    ensures
        r is Ok <==> fits_record(c@),
        r is Ok ==> final(out)@ == old(out)@ + chunk_bytes(c@),
        r matches Err(e) ==> e == FormatError::DataTooLong && final(out)@ == old(out)@,
{
    let info = match c {
        ChunkTypes::Header(x) => x.info,
        ChunkTypes::Palette(x) => x.info,
        ChunkTypes::ImageData(x) => x.info,
        ChunkTypes::End(x) => x.info,
        ChunkTypes::Text(x) => x.info,
        ChunkTypes::Other(x) => x.info,
    };
    let mut body: Vec<u8> = Vec::new();
    body.push(info.type_bytes[0]);
    body.push(info.type_bytes[1]);
    body.push(info.type_bytes[2]);
    body.push(info.type_bytes[3]);
    assert(body@ =~= c@.info().tag);
    write_payload(&mut body, c);
    let body_len = body.len();
    let data_len = body_len - 4;
    if data_len > 0xFFFF_FFFF {
        return Err(FormatError::DataTooLong);
    }
    let crc = crc32_of_range(&body, 0, body_len);
    assert(body@.subrange(0, body_len as int) =~= body@);
    push_be32(out, data_len as u32);
    append_range(out, &body, 0, body_len);
    push_be32(out, crc);
    reveal(chunk_bytes);
    assert(final(out)@ =~= old(out)@ + chunk_bytes(c@));
    Ok(())
}

/// Writes a PNG stream: the signature, then the record of each chunk in
/// order, each with a freshly computed CRC. Fails when the data of some
/// chunk does not fit the length field.
pub fn write_png(chunks: &Vec<ChunkTypes>) -> (r: Result<Vec<u8>, FormatError>)
    ensures
        r is Ok <==> forall|i: int| 0 <= i < chunks@.len() ==> fits_record(#[trigger] chunks@[i]@),
        r matches Ok(v) ==> v@ == stream_bytes(views_of(chunks@)),
        r matches Err(e) ==> e == FormatError::DataTooLong,
{
    let mut out: Vec<u8> = Vec::new();
    out.push(137);
    out.push(80);
    out.push(78);
    out.push(71);
    out.push(13);
    out.push(10);
    out.push(26);
    out.push(10);
    assert(out@ =~= png_signature());
    assert(views_of(chunks@).skip(0) =~= views_of(chunks@));
    let n = chunks.len();
    let mut i: usize = 0;
    while i < n
        invariant
            n == chunks@.len(),
            i <= n,
            forall|j: int| 0 <= j < i ==> fits_record(#[trigger] chunks@[j]@),
            out@ + serialize_chunks(views_of(chunks@).skip(i as int)) == stream_bytes(
                views_of(chunks@),
            ),
        decreases n - i,
    {
        let ghost rest = views_of(chunks@).skip(i as int);
        assert(rest.drop_first() =~= views_of(chunks@).skip(i + 1));
        assert(rest[0] == chunks@[i as int]@);
        match write_chunk(&mut out, &chunks[i]) {
            Ok(()) => {},
            Err(e) => return Err(e),
        }
        assert(out@ + serialize_chunks(views_of(chunks@).skip(i + 1)) =~= stream_bytes(
            views_of(chunks@),
        ));
        i = i + 1;
    }
    assert(views_of(chunks@).skip(n as int) =~= Seq::<ChunkView>::empty());
    assert(out@ =~= out@ + serialize_chunks(Seq::<ChunkView>::empty()));
    Ok(out)
}

/// Where each channel of each entry stands in the palette bytes.
proof fn lemma_flatten_colors(cs: Seq<Color>)
    ensures
        flatten_colors(cs).len() == 3 * cs.len(),
        forall|k: int|
            0 <= k < cs.len() ==> flatten_colors(cs)[3 * k] == (#[trigger] cs[k]).red
                && flatten_colors(cs)[3 * k + 1] == cs[k].green && flatten_colors(cs)[3 * k + 2]
                == cs[k].blue,
    decreases cs.len(),
{
    if cs.len() > 0 {
        let init = cs.drop_last();
        lemma_flatten_colors(init);
        assert forall|k: int| 0 <= k < cs.len() implies flatten_colors(cs)[3 * k] == (
        #[trigger] cs[k]).red && flatten_colors(cs)[3 * k + 1] == cs[k].green && flatten_colors(
            cs,
        )[3 * k + 2] == cs[k].blue by {
            if k < cs.len() - 1 {
                assert(cs[k] == init[k]);
            }
        }
    }
}

/// A well-formed chunk decodes from its own tag and data as itself.
proof fn lemma_decode_own_payload(c: ChunkView)
    requires
        well_formed(c),
    ensures
        decode_record(c.info(), payload_of(c)) == c,
{
    reveal(decode_record);
    let data = payload_of(c);
    match c {
        ChunkView::Header { width, height, .. } => {
            lemma_be32_bytes_len(width);
            lemma_be32_bytes_len(height);
            let tail = seq![
                data[8],
                data[9],
                data[10],
                data[11],
                data[12],
            ];
            assert(data =~= Seq::<u8>::empty() + be32_bytes(width) + (be32_bytes(height) + tail));
            lemma_be32_round_trip(width, Seq::<u8>::empty(), be32_bytes(height) + tail);
            assert(data =~= be32_bytes(width) + be32_bytes(height) + tail);
            lemma_be32_round_trip(height, be32_bytes(width), tail);
        },
        ChunkView::Palette { colors, .. } => {
            lemma_flatten_colors(colors);
            assert(data.len() / 3 == colors.len());
            assert(colors_of(data) =~= colors);
        },
        ChunkView::Text { text, .. } => {
            encode_utf8_valid_utf8(text);
            encode_utf8_decode_utf8(text);
        },
        ChunkView::End { .. } => {
            assert(data.len() == 0);
        },
        _ => {},
    }
}

/// The record written for a well-formed chunk reads back as that chunk.
pub proof fn lemma_chunk_record(c: ChunkView)
    requires
        well_formed(c),
    ensures
        ({
            let cb = chunk_bytes(c);
            &&& step_error(cb, 0) is None
            &&& tag_at(cb, 0) == c.info().tag
            &&& record_end(cb, 0) == cb.len()
            &&& chunk_at(cb, 0) == c
        }),
{
    reveal(chunk_bytes);
    let cb = chunk_bytes(c);
    let tag = c.info().tag;
    let data = payload_of(c);
    let n = data.len() as int;
    let len = data.len() as u32;
    let crc = crc32(tag + data);
    lemma_be32_bytes_len(len);
    lemma_be32_bytes_len(crc);
    let rest = tag + data + be32_bytes(crc);
    assert(cb =~= Seq::<u8>::empty() + be32_bytes(len) + rest);
    lemma_be32_round_trip(len, Seq::<u8>::empty(), rest);
    let pre2 = be32_bytes(len) + tag + data;
    assert(cb =~= pre2 + be32_bytes(crc) + Seq::<u8>::empty());
    lemma_be32_round_trip(crc, pre2, Seq::<u8>::empty());
    assert(length_at(cb, 0) == n);
    assert(tag_at(cb, 0) =~= tag);
    assert(cb[4] == tag[0] && cb[5] == tag[1] && cb[6] == tag[2] && cb[7] == tag[3]);
    assert(data_at(cb, 0) =~= data);
    assert(cb.subrange(4, 8 + n) =~= tag + data);
    assert(info_at(cb, 0) == c.info());
    lemma_decode_own_payload(c);
    reveal(chunk_at);
}

} // verus!
