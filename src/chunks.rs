//! The chunk model: the kinds of chunk, their plain-value views, and how a
//! record's type tag and data decode to one of them.
use vstd::prelude::*;
use vstd::utf8::{decode_utf8, valid_utf8};

use crate::error::FormatError;
use crate::wire::be32_at;

verus! {

/// One palette entry.
#[derive(Clone, Copy, Debug, PartialEq, Eq, Structural)]
pub struct Color {
    pub red: u8,
    pub green: u8,
    pub blue: u8,
}

impl Default for Color {
    fn default() -> (r: Self)
        ensures
            r == (Color { red: 0, green: 0, blue: 0 }),
    {
        Color { red: 0, green: 0, blue: 0 }
    }
}

/// What every chunk records about itself: its type tag, declared data
/// length, the CRC stored after it and the CRC that its bytes really have.
#[derive(Clone, Copy, Debug, PartialEq, Eq)]
pub struct ChunkBasicInfo {
    pub type_bytes: [u8; 4],
    pub data_length: u32,
    pub crc: u32,
    pub computed_crc: u32,
}

/// A chunk's basic information as plain values.
pub struct InfoView {
    pub tag: Seq<u8>,
    pub length: u32,
    pub stored_crc: u32,
    pub computed_crc: u32,
}

impl View for ChunkBasicInfo {
    type V = InfoView;

    open spec fn view(&self) -> InfoView {
        InfoView {
            tag: self.type_bytes@,
            length: self.data_length,
            stored_crc: self.crc,
            computed_crc: self.computed_crc,
        }
    }
}

impl ChunkBasicInfo {
    /// Whether the stored CRC is the CRC of the chunk's type and data.
    pub fn crc_matches(&self) -> (r: bool)
        ensures
            r == (self.crc == self.computed_crc),
    {
        self.crc == self.computed_crc
    }
}

/// A decoded chunk as plain values.
pub enum ChunkView {
    Header {
        info: InfoView,
        width: u32,
        height: u32,
        bit_depth: u8,
        color_type: u8,
        compression_method: u8,
        filter_method: u8,
        interlace_method: u8,
    },
    Palette { info: InfoView, colors: Seq<Color> },
    ImageData { info: InfoView, data: Seq<u8> },
    End { info: InfoView },
    Text { info: InfoView, text: Seq<char> },
    Other { info: InfoView, data: Seq<u8>, defect: Option<FormatError> },
}

impl ChunkView {
    pub open spec fn info(self) -> InfoView {
        match self {
            ChunkView::Header { info, .. } => info,
            ChunkView::Palette { info, .. } => info,
            ChunkView::ImageData { info, .. } => info,
            ChunkView::End { info } => info,
            ChunkView::Text { info, .. } => info,
            ChunkView::Other { info, .. } => info,
        }
    }
}

pub open spec fn ihdr_tag() -> Seq<u8> {
    seq![73u8, 72u8, 68u8, 82u8]
}

pub open spec fn plte_tag() -> Seq<u8> {
    seq![80u8, 76u8, 84u8, 69u8]
}

pub open spec fn idat_tag() -> Seq<u8> {
    seq![73u8, 68u8, 65u8, 84u8]
}

pub open spec fn iend_tag() -> Seq<u8> {
    seq![73u8, 69u8, 78u8, 68u8]
}

pub open spec fn text_tag() -> Seq<u8> {
    seq![116u8, 69u8, 88u8, 116u8]
}

/// The palette entries that `data` lists, three bytes each.
pub open spec fn colors_of(data: Seq<u8>) -> Seq<Color> {
    Seq::new(
        data.len() / 3,
        |k: int| Color { red: data[3 * k], green: data[3 * k + 1], blue: data[3 * k + 2] },
    )
}

/// The chunk that a record with basic information `info` and data `data`
/// decodes to. A record of a known type whose data has the wrong shape is
/// kept as `Other`, with the reason.
#[verifier::opaque]
pub open spec fn decode_record(info: InfoView, data: Seq<u8>) -> ChunkView {
    if info.tag == ihdr_tag() {
        if data.len() == 13 {
            ChunkView::Header {
                info,
                width: be32_at(data, 0) as u32,
                height: be32_at(data, 4) as u32,
                bit_depth: data[8],
                color_type: data[9],
                compression_method: data[10],
                filter_method: data[11],
                interlace_method: data[12],
            }
        } else {
            ChunkView::Other { info, data, defect: Some(FormatError::MalformedHeader) }
        }
    } else if info.tag == plte_tag() {
        if data.len() % 3 == 0 {
            ChunkView::Palette { info, colors: colors_of(data) }
        } else {
            ChunkView::Other { info, data, defect: Some(FormatError::MalformedPalette) }
        }
    } else if info.tag == idat_tag() {
        ChunkView::ImageData { info, data }
    } else if info.tag == iend_tag() {
        if data.len() == 0 {
            ChunkView::End { info }
        } else {
            ChunkView::Other { info, data, defect: Some(FormatError::MalformedEnd) }
        }
    } else if info.tag == text_tag() {
        if valid_utf8(data) {
            ChunkView::Text { info, text: decode_utf8(data) }
        } else {
            ChunkView::Other { info, data, defect: Some(FormatError::InvalidText) }
        }
    } else {
        ChunkView::Other { info, data, defect: None }
    }
}

/// The data bytes of the chunk whose record starts at `i`.
pub open spec fn data_from(bytes: Seq<u8>, i: int, info: ChunkBasicInfo) -> Seq<u8> {
    bytes.subrange(i + 8, i + 8 + info.data_length)
}

/// The precondition of every constructor: the record of `info.data_length`
/// data bytes starting at `i`, with its CRC, lies within `bytes`.
pub open spec fn record_fits(bytes: Seq<u8>, i: int, info: ChunkBasicInfo) -> bool {
    0 <= i && i + 12 + info.data_length <= bytes.len()
}

/// Copies `b[start..end]`.
pub fn copy_range(b: &Vec<u8>, start: usize, end: usize) -> (r: Vec<u8>)
    requires
        start <= end <= b@.len(),
    ensures
        r@ == b@.subrange(start as int, end as int),
{
    let mut r: Vec<u8> = Vec::with_capacity(end - start);
    let mut k: usize = start;
    while k < end
        invariant
            start <= k <= end <= b@.len(),
            r@ =~= b@.subrange(start as int, k as int),
        decreases end - k,
    {
        r.push(b[k]);
        k = k + 1;
    }
    r
}

/// The image header.
#[derive(Debug, PartialEq, Eq)]
pub struct IHDR {
    pub info: ChunkBasicInfo,
    pub width: u32,
    pub height: u32,
    pub bit_depth: u8,
    pub color_type: u8,
    pub compression_method: u8,
    pub filter_method: u8,
    pub interlace_method: u8,
}

impl View for IHDR {
    type V = ChunkView;

    open spec fn view(&self) -> ChunkView {
        ChunkView::Header {
            info: self.info@,
            width: self.width,
            height: self.height,
            bit_depth: self.bit_depth,
            color_type: self.color_type,
            compression_method: self.compression_method,
            filter_method: self.filter_method,
            interlace_method: self.interlace_method,
        }
    }
}

impl IHDR {
    /// Reads the header fields of the record at `i`, whose data must be
    /// exactly 13 bytes.
    pub fn new(i: usize, bytes: &Vec<u8>, info: ChunkBasicInfo) -> (r: Result<IHDR, FormatError>)
        requires
            record_fits(bytes@, i as int, info),
            info.type_bytes@ == ihdr_tag(),
        ensures
            r is Ok <==> info.data_length == 13,
            r matches Ok(h) ==> h@ == decode_record(info@, data_from(bytes@, i as int, info)),
            r matches Err(e) ==> e == FormatError::MalformedHeader,
    {
        reveal(decode_record);
        if info.data_length != 13 {
            return Err(FormatError::MalformedHeader);
        }
        assert(i + 25 <= bytes.len());
        let start = i + 8;
        let ghost data = data_from(bytes@, i as int, info);
        let width = crate::wire::read_be32(bytes, start);
        let height = crate::wire::read_be32(bytes, start + 4);
        assert(be32_at(data, 0) == be32_at(bytes@, start as int));
        assert(be32_at(data, 4) == be32_at(bytes@, start + 4));
        Ok(IHDR {
            info,
            width,
            height,
            bit_depth: bytes[start + 8],
            color_type: bytes[start + 9],
            compression_method: bytes[start + 10],
            filter_method: bytes[start + 11],
            interlace_method: bytes[start + 12],
        })
    }
}

/// The palette.
#[derive(Debug, PartialEq, Eq)]
pub struct PLTE {
    pub info: ChunkBasicInfo,
    pub palette: Vec<Color>,
}

impl View for PLTE {
    type V = ChunkView;

    open spec fn view(&self) -> ChunkView {
        ChunkView::Palette { info: self.info@, colors: self.palette@ }
    }
}

impl PLTE {
    /// Reads the palette entries of the record at `i`, whose data length
    /// must be a multiple of 3.
    pub fn new(info: ChunkBasicInfo, i: usize, bytes: &Vec<u8>) -> (r: Result<PLTE, FormatError>)
        requires
            record_fits(bytes@, i as int, info),
            info.type_bytes@ == plte_tag(),
        ensures
            r is Ok <==> info.data_length % 3 == 0,
            r matches Ok(p) ==> p@ == decode_record(info@, data_from(bytes@, i as int, info)),
            r matches Err(e) ==> e == FormatError::MalformedPalette,
    {
        reveal(decode_record);
        if info.data_length % 3 != 0 {
            return Err(FormatError::MalformedPalette);
        }
        assert(i + 12 + info.data_length <= bytes.len());
        let ghost data = data_from(bytes@, i as int, info);
        let base = i + 8;
        let count = info.data_length as usize / 3;
        let mut palette: Vec<Color> = Vec::with_capacity(count);
        let mut j: usize = 0;
        while j < count
            invariant
                i + 12 + info.data_length <= bytes.len(),
                base == i + 8,
                count == info.data_length / 3,
                info.data_length % 3 == 0,
                record_fits(bytes@, i as int, info),
                data == data_from(bytes@, i as int, info),
                j <= count,
                palette@ =~= colors_of(data).take(j as int),
            decreases count - j,
        {
            let at = base + 3 * j;
            let color = Color { red: bytes[at], green: bytes[at + 1], blue: bytes[at + 2] };
            palette.push(color);
            j = j + 1;
        }
        assert(colors_of(data).take(count as int) =~= colors_of(data));
        Ok(PLTE { info, palette })
    }
}

/// Compressed image data, kept as it stands.
#[derive(Debug, PartialEq, Eq)]
pub struct IDAT {
    pub info: ChunkBasicInfo,
    pub image_data: Vec<u8>,
}

impl View for IDAT {
    type V = ChunkView;

    open spec fn view(&self) -> ChunkView {
        ChunkView::ImageData { info: self.info@, data: self.image_data@ }
    }
}

impl IDAT {
    /// Copies the data of the record at `i`.
    pub fn new(info: ChunkBasicInfo, i: usize, bytes: &Vec<u8>) -> (r: IDAT)
        requires
            record_fits(bytes@, i as int, info),
            info.type_bytes@ == idat_tag(),
        ensures
            r@ == decode_record(info@, data_from(bytes@, i as int, info)),
    {
        reveal(decode_record);
        assert(i + 12 + info.data_length <= bytes.len());
        let image_data = copy_range(bytes, i + 8, i + 8 + info.data_length as usize);
        IDAT { info, image_data }
    }
}

/// The terminal chunk.
#[derive(Debug, PartialEq, Eq)]
pub struct IEND {
    pub info: ChunkBasicInfo,
}

impl View for IEND {
    type V = ChunkView;

    open spec fn view(&self) -> ChunkView {
        ChunkView::End { info: self.info@ }
    }
}

impl IEND {
    /// The terminal chunk; its data must be empty.
    pub fn new(info: ChunkBasicInfo) -> (r: Result<IEND, FormatError>)
        requires
            info.type_bytes@ == iend_tag(),
        ensures
            r is Ok <==> info.data_length == 0,
            r matches Ok(e) ==> e@ == decode_record(info@, Seq::empty()),
            r matches Err(e) ==> e == FormatError::MalformedEnd,
    {
        reveal(decode_record);
        if info.data_length != 0 {
            return Err(FormatError::MalformedEnd);
        }
        Ok(IEND { info })
    }
}

/// Relies on std's `String::from_utf8`: it succeeds exactly when the bytes
/// are well-formed UTF-8, and then holds the characters that they encode.
#[verifier::external_body]
fn string_from_utf8(bytes: Vec<u8>) -> (r: Option<String>)
    ensures
        r is Some <==> valid_utf8(bytes@),
        r matches Some(s) ==> s@ == decode_utf8(bytes@),
{
    match String::from_utf8(bytes) {
        Ok(s) => Some(s),
        Err(_) => None,
    }
}

/// Decodes `bytes` as UTF-8 text, or fails with `InvalidText`.
pub fn text_from_bytes(bytes: Vec<u8>) -> (r: Result<String, FormatError>)
    ensures
        r is Ok <==> valid_utf8(bytes@),
        r matches Ok(s) ==> s@ == decode_utf8(bytes@),
        r matches Err(e) ==> e == FormatError::InvalidText,
{
    match string_from_utf8(bytes) {
        Some(s) => Ok(s),
        None => Err(FormatError::InvalidText),
    }
}

/// A text chunk.
#[derive(Debug, PartialEq, Eq)]
pub struct tEXt {
    pub info: ChunkBasicInfo,
    pub text: String,
}

impl View for tEXt {
    type V = ChunkView;

    open spec fn view(&self) -> ChunkView {
        ChunkView::Text { info: self.info@, text: self.text@ }
    }
}

impl tEXt {
    /// Reads the text of the record at `i`, which must be valid UTF-8.
    pub fn new(i: usize, info: ChunkBasicInfo, bytes: &Vec<u8>) -> (r: Result<tEXt, FormatError>)
        requires
            record_fits(bytes@, i as int, info),
            info.type_bytes@ == text_tag(),
        ensures
            r is Ok <==> valid_utf8(data_from(bytes@, i as int, info)),
            r matches Ok(t) ==> t@ == decode_record(info@, data_from(bytes@, i as int, info)),
            r matches Err(e) ==> e == FormatError::InvalidText,
    {
        reveal(decode_record);
        assert(i + 12 + info.data_length <= bytes.len());
        let data = copy_range(bytes, i + 8, i + 8 + info.data_length as usize);
        match text_from_bytes(data) {
            Ok(text) => Ok(tEXt { info, text }),
            Err(e) => Err(e),
        }
    }
}

/// Any other chunk, kept byte for byte. `defect` says why a chunk of a known
/// type was kept this way.
#[derive(Debug, PartialEq, Eq)]
pub struct Unknown {
    pub info: ChunkBasicInfo,
    pub data: Vec<u8>,
    pub defect: Option<FormatError>,
}

impl View for Unknown {
    type V = ChunkView;

    open spec fn view(&self) -> ChunkView {
        ChunkView::Other { info: self.info@, data: self.data@, defect: self.defect }
    }
}

impl Unknown {
    /// Copies the data of the record at `i`.
    pub fn new(info: ChunkBasicInfo, i: usize, bytes: &Vec<u8>, defect: Option<FormatError>) -> (r:
        Unknown)
        requires
            record_fits(bytes@, i as int, info),
        ensures
            r@ == (ChunkView::Other {
                info: info@,
                data: data_from(bytes@, i as int, info),
                defect,
            }),
    {
        assert(i + 12 + info.data_length <= bytes.len());
        let data = copy_range(bytes, i + 8, i + 8 + info.data_length as usize);
        Unknown { info, data, defect }
    }
}

/// What every kind of chunk offers.
pub trait Chunk: View<V = ChunkView> {
    fn get_basic_info(&self) -> (r: &ChunkBasicInfo)
        ensures
            r@ == self@.info(),
    ;
}

impl Chunk for IHDR {
    fn get_basic_info(&self) -> (r: &ChunkBasicInfo) {
        &self.info
    }
}

impl Chunk for PLTE {
    fn get_basic_info(&self) -> (r: &ChunkBasicInfo) {
        &self.info
    }
}

impl Chunk for IDAT {
    fn get_basic_info(&self) -> (r: &ChunkBasicInfo) {
        &self.info
    }
}

impl Chunk for IEND {
    fn get_basic_info(&self) -> (r: &ChunkBasicInfo) {
        &self.info
    }
}

impl Chunk for tEXt {
    fn get_basic_info(&self) -> (r: &ChunkBasicInfo) {
        &self.info
    }
}

impl Chunk for Unknown {
    fn get_basic_info(&self) -> (r: &ChunkBasicInfo) {
        &self.info
    }
}

/// A decoded chunk of any kind.
#[derive(Debug, PartialEq, Eq)]
pub enum ChunkTypes {
    Header(IHDR),
    Palette(PLTE),
    ImageData(IDAT),
    End(IEND),
    Text(tEXt),
    Other(Unknown),
}

impl View for ChunkTypes {
    type V = ChunkView;

    open spec fn view(&self) -> ChunkView {
        match self {
            ChunkTypes::Header(c) => c@,
            ChunkTypes::Palette(c) => c@,
            ChunkTypes::ImageData(c) => c@,
            ChunkTypes::End(c) => c@,
            ChunkTypes::Text(c) => c@,
            ChunkTypes::Other(c) => c@,
        }
    }
}

impl Chunk for ChunkTypes {
    fn get_basic_info(&self) -> (r: &ChunkBasicInfo) {
        match self {
            ChunkTypes::Header(c) => c.get_basic_info(),
            ChunkTypes::Palette(c) => c.get_basic_info(),
            ChunkTypes::ImageData(c) => c.get_basic_info(),
            ChunkTypes::End(c) => c.get_basic_info(),
            ChunkTypes::Text(c) => c.get_basic_info(),
            ChunkTypes::Other(c) => c.get_basic_info(),
        }
    }
}

} // verus!
