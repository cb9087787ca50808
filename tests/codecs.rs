use png_core::chunks::ChunkTypes;
use png_core::decoders::{CustomChunkDecoder, Decoder, EndOfFileDecoder};
use png_core::encoders::{build_message_chunk, CustomChunkEncoder, Encoder, EndOfFileEncoder};
use png_core::error::FormatError;
use png_core::png::parse_png;
use png_core::wire::crc32_of_range;

const SIGNATURE: [u8; 8] = [137, 80, 78, 71, 13, 10, 26, 10];

fn record(tag: &[u8; 4], data: &[u8]) -> Vec<u8> {
    let mut body = tag.to_vec();
    body.extend_from_slice(data);
    let crc = crc32_of_range(&body, 0, body.len());
    let mut out = (data.len() as u32).to_be_bytes().to_vec();
    out.extend(body);
    out.extend_from_slice(&crc.to_be_bytes());
    out
}

fn minimal_png() -> Vec<u8> {
    let mut b = SIGNATURE.to_vec();
    b.extend(record(b"IHDR", &[0, 0, 0, 1, 0, 0, 0, 1, 8, 0, 0, 0, 0]));
    b.extend(record(b"IEND", &[]));
    b
}

fn richer_png() -> Vec<u8> {
    let mut b = SIGNATURE.to_vec();
    b.extend(record(b"IHDR", &[0, 0, 0, 2, 0, 0, 0, 3, 8, 2, 0, 0, 0]));
    b.extend(record(b"tEXt", b"Author\x00someone"));
    b.extend(record(b"IDAT", &[1, 2, 3, 4, 5]));
    b.extend(record(b"IEND", &[]));
    b
}

#[test]
fn end_of_file_hide_then_reveal_hi() {
    let b = minimal_png();
    let hidden = EndOfFileEncoder::new().encode("hi", &b).unwrap();
    assert_eq!(hidden.len(), b.len() + 2);
    assert_eq!(&hidden[..b.len()], &b[..]);
    assert_eq!(EndOfFileDecoder::new().decode(&hidden), Ok(Some(String::from("hi"))));
}

#[test]
fn end_of_file_empty_message_reads_as_none() {
    let b = minimal_png();
    let hidden = EndOfFileEncoder::new().encode("", &b).unwrap();
    assert_eq!(hidden, b);
    assert_eq!(EndOfFileDecoder::new().decode(&hidden), Ok(None));
}

#[test]
fn end_of_file_multibyte_message() {
    let b = richer_png();
    let msg = "żółw 🐢 ok";
    let hidden = EndOfFileEncoder::new().encode(msg, &b).unwrap();
    assert_eq!(EndOfFileDecoder::new().decode(&hidden), Ok(Some(String::from(msg))));
}

#[test]
fn end_of_file_hide_keeps_every_chunk() {
    let b = richer_png();
    let hidden = EndOfFileEncoder::new().encode("secret", &b).unwrap();
    assert_eq!(parse_png(&hidden), parse_png(&b));
}

#[test]
fn end_of_file_hide_replaces_an_earlier_message() {
    let b = minimal_png();
    let first = EndOfFileEncoder::new().encode("first message", &b).unwrap();
    let second = EndOfFileEncoder::new().encode("2nd", &first).unwrap();
    assert_eq!(second.len(), b.len() + 3);
    assert_eq!(EndOfFileDecoder::new().decode(&second), Ok(Some(String::from("2nd"))));
}

#[test]
fn end_of_file_reveal_rejects_invalid_utf8() {
    let mut b = minimal_png();
    b.extend_from_slice(&[0x68, 0xC3]);
    assert_eq!(EndOfFileDecoder::new().decode(&b), Err(FormatError::InvalidText));
}

#[test]
fn end_of_file_codec_needs_an_end_chunk() {
    let mut b = SIGNATURE.to_vec();
    b.extend(record(b"IHDR", &[0, 0, 0, 1, 0, 0, 0, 1, 8, 0, 0, 0, 0]));
    assert_eq!(EndOfFileEncoder::new().encode("x", &b), Err(FormatError::MissingEnd));
    assert_eq!(EndOfFileDecoder::new().decode(&b), Err(FormatError::MissingEnd));
    let mut t = minimal_png();
    t.truncate(t.len() - 5);
    assert_eq!(EndOfFileEncoder::new().encode("x", &t), Err(FormatError::Truncated));
    assert_eq!(
        EndOfFileDecoder::new().decode(&vec![1, 2, 3]),
        Err(FormatError::BadSignature)
    );
}

#[test]
fn chunk_hide_inserts_fourteen_bytes_before_end() {
    let b = minimal_png();
    let hidden = CustomChunkEncoder::new().encode("hi", &b).unwrap();
    assert_eq!(hidden.len(), b.len() + 14);
    let end_at = 8 + 25;
    assert_eq!(&hidden[..end_at], &b[..end_at]);
    assert_eq!(&hidden[end_at..end_at + 10], &[0, 0, 0, 2, b's', b'm', b'S', b'G', b'h', b'i']);
    assert_eq!(&hidden[end_at + 14..], &b[end_at..]);
    let p = parse_png(&hidden).unwrap();
    assert_eq!(p.error, None);
    assert_eq!(p.chunks.len(), 3);
    assert!(matches!(p.chunks[0], ChunkTypes::Header(_)));
    match &p.chunks[1] {
        ChunkTypes::Other(u) => {
            assert_eq!(&u.info.type_bytes, b"smSG");
            assert_eq!(u.data, b"hi".to_vec());
            assert_eq!(u.defect, None);
            assert!(u.info.crc_matches());
        }
        other => panic!("unexpected {:?}", other),
    }
    assert!(matches!(p.chunks[2], ChunkTypes::End(_)));
}

#[test]
fn chunk_hide_then_reveal_hi() {
    let b = minimal_png();
    let hidden = CustomChunkEncoder::new().encode("hi", &b).unwrap();
    assert_eq!(CustomChunkDecoder::new().decode(&hidden), Ok(Some(String::from("hi"))));
}

#[test]
fn chunk_hide_empty_and_multibyte_messages() {
    let b = richer_png();
    let hidden = CustomChunkEncoder::new().encode("", &b).unwrap();
    assert_eq!(hidden.len(), b.len() + 12);
    assert_eq!(CustomChunkDecoder::new().decode(&hidden), Ok(Some(String::new())));
    let msg = "日本語のメッセージ";
    let hidden = CustomChunkEncoder::new().encode(msg, &b).unwrap();
    assert_eq!(CustomChunkDecoder::new().decode(&hidden), Ok(Some(String::from(msg))));
}

#[test]
fn chunk_hide_keeps_every_chunk_in_order() {
    let b = richer_png();
    let before = parse_png(&b).unwrap();
    let hidden = CustomChunkEncoder::new().encode("note", &b).unwrap();
    let after = parse_png(&hidden).unwrap();
    assert_eq!(after.error, None);
    assert_eq!(after.chunks.len(), before.chunks.len() + 1);
    let n = before.chunks.len();
    assert_eq!(after.chunks[..n - 1], before.chunks[..n - 1]);
    assert_eq!(after.chunks[n], before.chunks[n - 1]);
}

#[test]
fn chunk_reveal_without_message_chunk_is_none() {
    assert_eq!(CustomChunkDecoder::new().decode(&richer_png()), Ok(None));
}

#[test]
fn chunk_reveal_takes_the_first_message_chunk() {
    let b = minimal_png();
    let once = CustomChunkEncoder::new().encode("first", &b).unwrap();
    let twice = CustomChunkEncoder::new().encode("second", &once).unwrap();
    assert_eq!(CustomChunkDecoder::new().decode(&twice), Ok(Some(String::from("first"))));
}

#[test]
fn chunk_reveal_rejects_invalid_utf8() {
    let mut b = SIGNATURE.to_vec();
    b.extend(record(b"IHDR", &[0, 0, 0, 1, 0, 0, 0, 1, 8, 0, 0, 0, 0]));
    b.extend(record(b"smSG", &[0xF0, 0x28]));
    b.extend(record(b"IEND", &[]));
    assert_eq!(CustomChunkDecoder::new().decode(&b), Err(FormatError::InvalidText));
}

#[test]
fn chunk_codec_reports_stream_errors() {
    let mut b = SIGNATURE.to_vec();
    b.extend(record(b"IHDR", &[0, 0, 0, 1, 0, 0, 0, 1, 8, 0, 0, 0, 0]));
    assert_eq!(CustomChunkEncoder::new().encode("x", &b), Err(FormatError::MissingEnd));
    assert_eq!(CustomChunkDecoder::new().decode(&b), Err(FormatError::MissingEnd));
    let mut bad = minimal_png();
    bad[0] = 0;
    assert_eq!(CustomChunkEncoder::new().encode("x", &bad), Err(FormatError::BadSignature));
}

#[test]
fn message_chunk_has_a_real_crc() {
    let chunk = build_message_chunk(b"hi");
    assert_eq!(chunk.len(), 14);
    let crc = crc32_of_range(&chunk, 4, 10);
    assert_ne!(crc, 0);
    assert_eq!(&chunk[10..], &crc.to_be_bytes());
}
