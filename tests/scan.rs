use png_core::chunks::{Chunk, ChunkTypes, Color};
use png_core::error::FormatError;
use png_core::png::{check_if_png, locate_end_chunk, locate_stream_end, parse_png, ChunkIterator};
use png_core::wire::crc32_of_range;
use png_core::writer::write_png;

const SIGNATURE: [u8; 8] = [137, 80, 78, 71, 13, 10, 26, 10];

fn crc_of(tag: &[u8; 4], data: &[u8]) -> u32 {
    let mut body = tag.to_vec();
    body.extend_from_slice(data);
    crc32_of_range(&body, 0, body.len())
}

fn record(tag: &[u8; 4], data: &[u8]) -> Vec<u8> {
    let mut out = (data.len() as u32).to_be_bytes().to_vec();
    out.extend_from_slice(tag);
    out.extend_from_slice(data);
    out.extend_from_slice(&crc_of(tag, data).to_be_bytes());
    out
}

fn ihdr_1x1() -> Vec<u8> {
    record(b"IHDR", &[0, 0, 0, 1, 0, 0, 0, 1, 8, 0, 0, 0, 0])
}

fn minimal_png() -> Vec<u8> {
    let mut b = SIGNATURE.to_vec();
    b.extend(ihdr_1x1());
    b.extend(record(b"IEND", &[]));
    b
}

#[test]
fn known_crc_values() {
    assert_eq!(crc_of(b"IEND", &[]), 0xAE42_6082);
    assert_eq!(crc_of(b"IHDR", &[0, 0, 0, 1, 0, 0, 0, 1, 8, 0, 0, 0, 0]), 0x3A7E_9B55);
    let v = b"123456789".to_vec();
    assert_eq!(crc32_of_range(&v, 0, v.len()), 0xCBF4_3926);
}

#[test]
fn minimal_stream_decodes_to_header_and_end() {
    let b = minimal_png();
    let p = parse_png(&b).unwrap();
    assert_eq!(p.error, None);
    assert_eq!(p.chunks.len(), 2);
    match &p.chunks[0] {
        ChunkTypes::Header(h) => {
            assert_eq!(h.width, 1);
            assert_eq!(h.height, 1);
            assert_eq!(h.bit_depth, 8);
            assert_eq!(h.color_type, 0);
            assert_eq!(h.compression_method, 0);
            assert_eq!(h.filter_method, 0);
            assert_eq!(h.interlace_method, 0);
            assert_eq!(&h.info.type_bytes, b"IHDR");
            assert_eq!(h.info.data_length, 13);
            assert_eq!(h.info.crc, 0x3A7E_9B55);
            assert!(h.info.crc_matches());
        }
        other => panic!("expected a header, got {:?}", other),
    }
    match &p.chunks[1] {
        ChunkTypes::End(e) => {
            assert_eq!(e.info.data_length, 0);
            assert!(e.info.crc_matches());
        }
        other => panic!("expected the end chunk, got {:?}", other),
    }
}

#[test]
fn truncated_in_next_header_keeps_header() {
    let mut b = SIGNATURE.to_vec();
    b.extend(ihdr_1x1());
    b.extend_from_slice(&[0, 0, 0, 10]);
    let p = parse_png(&b).unwrap();
    assert_eq!(p.chunks.len(), 1);
    assert!(matches!(p.chunks[0], ChunkTypes::Header(_)));
    assert_eq!(p.error, Some(FormatError::Truncated));
}

#[test]
fn truncated_in_chunk_body() {
    let mut b = SIGNATURE.to_vec();
    b.extend(ihdr_1x1());
    let idat = record(b"IDAT", &[1, 2, 3, 4, 5, 6]);
    b.extend_from_slice(&idat[..idat.len() - 3]);
    let p = parse_png(&b).unwrap();
    assert_eq!(p.chunks.len(), 1);
    assert_eq!(p.error, Some(FormatError::Truncated));
}

#[test]
fn huge_declared_length_is_truncated() {
    let mut b = SIGNATURE.to_vec();
    b.extend_from_slice(&[0xFF, 0xFF, 0xFF, 0xFF]);
    b.extend_from_slice(b"IDAT");
    b.extend_from_slice(&[0, 0, 0, 0]);
    let p = parse_png(&b).unwrap();
    assert!(p.chunks.is_empty());
    assert_eq!(p.error, Some(FormatError::Truncated));
}

#[test]
fn bad_signature_is_rejected() {
    assert_eq!(parse_png(&vec![137, 80, 78]), Err(FormatError::BadSignature));
    let mut b = minimal_png();
    b[1] = 81;
    assert_eq!(parse_png(&b), Err(FormatError::BadSignature));
    assert_eq!(check_if_png(&b), Err(FormatError::BadSignature));
    assert_eq!(check_if_png(&minimal_png()), Ok(()));
    assert!(ChunkIterator::new(&b).is_err());
}

#[test]
fn bad_chunk_type_stops_the_scan() {
    let mut b = SIGNATURE.to_vec();
    b.extend(ihdr_1x1());
    b.extend(record(b"ID1T", &[1]));
    b.extend(record(b"IEND", &[]));
    let p = parse_png(&b).unwrap();
    assert_eq!(p.chunks.len(), 1);
    assert_eq!(p.error, Some(FormatError::BadChunkType));
}

#[test]
fn stream_ending_on_boundary_without_end_is_missing_end() {
    let mut b = SIGNATURE.to_vec();
    b.extend(ihdr_1x1());
    let p = parse_png(&b).unwrap();
    assert_eq!(p.chunks.len(), 1);
    assert_eq!(p.error, Some(FormatError::MissingEnd));
    assert_eq!(locate_stream_end(&b), Err(FormatError::MissingEnd));
    let only_signature = SIGNATURE.to_vec();
    let p = parse_png(&only_signature).unwrap();
    assert!(p.chunks.is_empty());
    assert_eq!(p.error, Some(FormatError::MissingEnd));
}

#[test]
fn flipped_data_byte_is_flagged_on_that_chunk_only() {
    let mut b = SIGNATURE.to_vec();
    b.extend(ihdr_1x1());
    b.extend(record(b"IDAT", &[9, 8, 7, 6]));
    b.extend(record(b"IEND", &[]));
    let idat_data = 8 + 25 + 8;
    b[idat_data + 1] ^= 0x10;
    let p = parse_png(&b).unwrap();
    assert_eq!(p.error, None);
    assert_eq!(p.chunks.len(), 3);
    match &p.chunks[0] {
        ChunkTypes::Header(h) => assert!(h.info.crc_matches()),
        other => panic!("unexpected {:?}", other),
    }
    match &p.chunks[1] {
        ChunkTypes::ImageData(d) => {
            assert!(!d.info.crc_matches());
            assert_eq!(d.image_data, vec![9, 24, 7, 6]);
        }
        other => panic!("unexpected {:?}", other),
    }
    match &p.chunks[2] {
        ChunkTypes::End(e) => assert!(e.info.crc_matches()),
        other => panic!("unexpected {:?}", other),
    }
}

#[test]
fn malformed_known_chunks_are_kept_as_other() {
    let mut b = SIGNATURE.to_vec();
    b.extend(record(b"IHDR", &[0; 12]));
    b.extend(record(b"PLTE", &[1, 2, 3, 4]));
    b.extend(record(b"tEXt", &[0x66, 0xFF, 0x6F]));
    b.extend(record(b"IEND", &[7]));
    let p = parse_png(&b).unwrap();
    assert_eq!(p.error, None);
    assert_eq!(p.chunks.len(), 4);
    let defects: Vec<Option<FormatError>> = p
        .chunks
        .iter()
        .map(|c| match c {
            ChunkTypes::Other(u) => u.defect,
            other => panic!("unexpected {:?}", other),
        })
        .collect();
    assert_eq!(
        defects,
        vec![
            Some(FormatError::MalformedHeader),
            Some(FormatError::MalformedPalette),
            Some(FormatError::InvalidText),
            Some(FormatError::MalformedEnd),
        ]
    );
    match &p.chunks[1] {
        ChunkTypes::Other(u) => assert_eq!(u.data, vec![1, 2, 3, 4]),
        _ => unreachable!(),
    }
}

#[test]
fn palette_text_and_image_data_are_decoded() {
    let mut b = SIGNATURE.to_vec();
    b.extend(ihdr_1x1());
    b.extend(record(b"PLTE", &[1, 2, 3, 250, 251, 252]));
    b.extend(record(b"tEXt", "Title\u{0}héllo".as_bytes()));
    b.extend(record(b"IDAT", &[0x78, 0x9C, 0x01]));
    b.extend(record(b"zzZz", &[5, 5]));
    b.extend(record(b"IEND", &[]));
    let p = parse_png(&b).unwrap();
    assert_eq!(p.error, None);
    assert_eq!(p.chunks.len(), 6);
    match &p.chunks[1] {
        ChunkTypes::Palette(pl) => assert_eq!(
            pl.palette,
            vec![
                Color { red: 1, green: 2, blue: 3 },
                Color { red: 250, green: 251, blue: 252 }
            ]
        ),
        other => panic!("unexpected {:?}", other),
    }
    match &p.chunks[2] {
        ChunkTypes::Text(t) => assert_eq!(t.text, "Title\u{0}héllo"),
        other => panic!("unexpected {:?}", other),
    }
    match &p.chunks[3] {
        ChunkTypes::ImageData(d) => assert_eq!(d.image_data, vec![0x78, 0x9C, 0x01]),
        other => panic!("unexpected {:?}", other),
    }
    match &p.chunks[4] {
        ChunkTypes::Other(u) => {
            assert_eq!(&u.info.type_bytes, b"zzZz");
            assert_eq!(u.data, vec![5, 5]);
            assert_eq!(u.defect, None);
        }
        other => panic!("unexpected {:?}", other),
    }
}

#[test]
fn empty_palette_is_allowed() {
    let mut b = SIGNATURE.to_vec();
    b.extend(record(b"PLTE", &[]));
    b.extend(record(b"IEND", &[]));
    let p = parse_png(&b).unwrap();
    match &p.chunks[0] {
        ChunkTypes::Palette(pl) => assert!(pl.palette.is_empty()),
        other => panic!("unexpected {:?}", other),
    }
}

#[test]
fn scan_stops_after_end() {
    let mut b = minimal_png();
    b.extend_from_slice(b"trailing bytes that are no chunk");
    let p = parse_png(&b).unwrap();
    assert_eq!(p.error, None);
    assert_eq!(p.chunks.len(), 2);
    assert_eq!(locate_end_chunk(&b), Ok(8 + 25));
    assert_eq!(locate_stream_end(&b), Ok(8 + 25 + 12));
}

#[test]
fn iterator_hands_out_chunks_then_stops() {
    let b = minimal_png();
    let mut it = ChunkIterator::new(&b).unwrap();
    assert!(matches!(it.next(), Some(Ok(ChunkTypes::Header(_)))));
    assert!(!it.reached_end());
    assert!(matches!(it.next(), Some(Ok(ChunkTypes::End(_)))));
    assert!(it.reached_end());
    assert!(it.next().is_none());
    assert!(it.next().is_none());
}

#[test]
fn iterator_reports_an_error_once() {
    let mut b = SIGNATURE.to_vec();
    b.extend(ihdr_1x1());
    b.extend_from_slice(&[0, 0]);
    let mut it = ChunkIterator::new(&b).unwrap();
    assert!(matches!(it.next(), Some(Ok(ChunkTypes::Header(_)))));
    assert_eq!(it.next(), Some(Err(FormatError::Truncated)));
    assert!(it.next().is_none());
    assert!(!it.reached_end());
}

#[test]
fn written_chunks_read_back_unchanged() {
    let mut b = SIGNATURE.to_vec();
    b.extend(ihdr_1x1());
    b.extend(record(b"PLTE", &[1, 2, 3]));
    b.extend(record(b"tEXt", "ключ".as_bytes()));
    b.extend(record(b"IDAT", &[1, 2, 3, 4]));
    b.extend(record(b"abCd", &[]));
    b.extend(record(b"IEND", &[]));
    let p = parse_png(&b).unwrap();
    let written = write_png(&p.chunks).unwrap();
    assert_eq!(written, b);
    let again = parse_png(&written).unwrap();
    assert_eq!(again, p);
}

#[test]
fn writing_recomputes_crcs() {
    let mut b = minimal_png();
    let last = b.len() - 1;
    b[last] ^= 0xFF;
    let p = parse_png(&b).unwrap();
    match &p.chunks[1] {
        ChunkTypes::End(e) => assert!(!e.info.crc_matches()),
        other => panic!("unexpected {:?}", other),
    }
    assert_eq!(write_png(&p.chunks), Ok(minimal_png()));
}

#[test]
fn every_cut_inside_a_record_keeps_the_chunks_before_it() {
    let mut b = SIGNATURE.to_vec();
    b.extend(ihdr_1x1());
    b.extend(record(b"IDAT", &[1, 2, 3, 4, 5]));
    b.extend(record(b"IEND", &[]));
    let idat_start = 8 + 25;
    let idat_end = idat_start + 17;
    for cut in idat_start + 1..idat_end {
        let p = parse_png(&b[..cut].to_vec()).unwrap();
        assert_eq!(p.chunks.len(), 1, "cut at {}", cut);
        assert!(matches!(p.chunks[0], ChunkTypes::Header(_)));
        assert_eq!(p.error, Some(FormatError::Truncated), "cut at {}", cut);
    }
}

#[test]
fn basic_info_is_reachable_through_the_chunk_trait() {
    let p = parse_png(&minimal_png()).unwrap();
    let tags: Vec<[u8; 4]> = p.chunks.iter().map(|c| c.get_basic_info().type_bytes).collect();
    assert_eq!(tags, vec![*b"IHDR", *b"IEND"]);
    assert_eq!(p.chunks[0].get_basic_info().data_length, 13);
    assert_eq!(Color::default(), Color { red: 0, green: 0, blue: 0 });
}
