//! The fixed parts of a PNG stream: signature, chunk headers, the image header
//! chunk, and the sizes that follow from it.

use crate::error::PngError;
use crate::scanlines::Layout;
use vstd::prelude::*;

verus! {

/// The eight bytes that every PNG stream starts with.
pub const PNG_MAGIC: [u8; 8] = [137, 80, 78, 71, 13, 10, 26, 10];

/// The length of the image header.
pub const IHDR_LEN: usize = 13;

/// The four bytes from `at` on as a big-endian number.
pub open spec fn be_u32(bytes: Seq<u8>, at: int) -> u32 {
    (bytes[at] * 0x1000000 + bytes[at + 1] * 0x10000 + bytes[at + 2] * 0x100 + bytes[at + 3]) as u32
}

pub fn read_be_u32(bytes: &[u8], at: usize) -> (value: u32)
    requires
        at + 4 <= bytes@.len(),
    ensures
        value == be_u32(bytes@, at as int),
{
    bytes[at] as u32 * 0x1000000 + bytes[at + 1] as u32 * 0x10000 + bytes[at + 2] as u32 * 0x100
        + bytes[at + 3] as u32
}

/// The chunk types that matter, as the bytes of their names.
pub open spec fn ihdr_type() -> Seq<u8> {
    seq![73, 72, 68, 82]
}

pub open spec fn plte_type() -> Seq<u8> {
    seq![80, 76, 84, 69]
}

pub open spec fn trns_type() -> Seq<u8> {
    seq![116, 82, 78, 83]
}

pub open spec fn idat_type() -> Seq<u8> {
    seq![73, 68, 65, 84]
}

pub open spec fn iend_type() -> Seq<u8> {
    seq![73, 69, 78, 68]
}

/// What a chunk is to the decoder.
#[derive(Clone, Copy, Debug, PartialEq, Eq, Structural)]
pub enum ChunkKind {
    Ihdr,
    Plte,
    Trns,
    Idat,
    Iend,
    Other,
}

/// What the chunk type `name` is to the decoder.
pub open spec fn chunk_kind(name: Seq<u8>) -> ChunkKind {
    if name == ihdr_type() {
        ChunkKind::Ihdr
    } else if name == plte_type() {
        ChunkKind::Plte
    } else if name == trns_type() {
        ChunkKind::Trns
    } else if name == idat_type() {
        ChunkKind::Idat
    } else if name == iend_type() {
        ChunkKind::Iend
    } else {
        ChunkKind::Other
    }
}

fn same_bytes(a: &[u8], b: &[u8]) -> (same: bool)
    ensures
        same == (a@ == b@),
{
    if a.len() != b.len() {
        return false;
    }
    let mut i: usize = 0;
    while i < a.len()
        invariant
            i <= a@.len(),
            a@.len() == b@.len(),
            forall|k: int| 0 <= k < i ==> a@[k] == b@[k],
        decreases a@.len() - i,
    {
        if a[i] != b[i] {
            return false;
        }
        i += 1;
    }
    assert(a@ =~= b@);
    true
}

/// Whether `magic` is the signature of a PNG stream.
pub fn is_png_magic(magic: &[u8]) -> (yes: bool)
    ensures
        yes == (magic@ == PNG_MAGIC@),
{
    same_bytes(magic, PNG_MAGIC.as_slice())
}

/// What the chunk type `name` is to the decoder.
pub fn kind_of(name: &[u8]) -> (kind: ChunkKind)
    ensures
        kind == chunk_kind(name@),
{
    let ihdr: [u8; 4] = [73u8, 72u8, 68u8, 82u8];
    let plte: [u8; 4] = [80u8, 76u8, 84u8, 69u8];
    let trns: [u8; 4] = [116u8, 82u8, 78u8, 83u8];
    let idat: [u8; 4] = [73u8, 68u8, 65u8, 84u8];
    let iend: [u8; 4] = [73u8, 69u8, 78u8, 68u8];
    assert(ihdr@ =~= ihdr_type());
    assert(plte@ =~= plte_type());
    assert(trns@ =~= trns_type());
    assert(idat@ =~= idat_type());
    assert(iend@ =~= iend_type());
    if same_bytes(name, ihdr.as_slice()) {
        ChunkKind::Ihdr
    } else if same_bytes(name, plte.as_slice()) {
        ChunkKind::Plte
    } else if same_bytes(name, trns.as_slice()) {
        ChunkKind::Trns
    } else if same_bytes(name, idat.as_slice()) {
        ChunkKind::Idat
    } else if same_bytes(name, iend.as_slice()) {
        ChunkKind::Iend
    } else {
        ChunkKind::Other
    }
}

/// Whether a chunk's stored checksum is `sum`.
pub fn crc_matches(stored: &[u8], sum: u32) -> (yes: bool)
    requires
        stored@.len() == 4,
    ensures
        yes == (sum == be_u32(stored@, 0)),
{
    sum == read_be_u32(stored, 0)
}

/// What the image header says of the image.
#[derive(Clone, Copy, Debug, PartialEq, Eq, Structural)]
pub struct Header {
    pub width: u32,
    pub height: u32,
    pub bit_depth: u8,
    pub color_type: u8,
}

/// The samples of a pixel: one for greyscale and for a palette index, three
/// for RGB, and one more where there is an alpha channel.
pub open spec fn channels_of(color_type: u8) -> Option<nat> {
    if color_type == 0 || color_type == 3 {
        Some(1)
    } else if color_type == 2 {
        Some(3)
    } else if color_type == 4 {
        Some(2)
    } else if color_type == 6 {
        Some(4)
    } else {
        None
    }
}

/// The samples of a pixel, where the colour type is one that PNG has.
pub fn channels(color_type: u8) -> (count: Option<usize>)
    ensures
        match count {
            Some(n) => channels_of(color_type) == Some(n as nat),
            None => channels_of(color_type) == None::<nat>,
        },
{
    match color_type {
        0 => Some(1),
        2 => Some(3),
        3 => Some(1),
        4 => Some(2),
        6 => Some(4),
        _ => None,
    }
}

/// The header in the image header chunk `ihdr`, whose checksum is `sum` and is
/// stored as `stored`.
pub open spec fn header_in(ihdr: Seq<u8>, stored: Seq<u8>, sum: u32) -> Result<Header, PngError> {
    if sum != be_u32(stored, 0) {
        Err(PngError::IhdrCorrupt)
    } else if ihdr[12] != 0 {
        Err(PngError::Interlaced)
    } else if channels_of(ihdr[9]) is None {
        Err(PngError::UnknownColorType)
    } else {
        Ok(
            Header {
                width: be_u32(ihdr, 0),
                height: be_u32(ihdr, 4),
                bit_depth: ihdr[8],
                color_type: ihdr[9],
            },
        )
    }
}

/// Reads the image header chunk `ihdr`, whose checksum is `sum` and is stored
/// as `stored`.
pub fn parse_ihdr(ihdr: &[u8], stored: &[u8], sum: u32) -> (header: Result<Header, PngError>)
    requires
        ihdr@.len() == IHDR_LEN,
        stored@.len() == 4,
    ensures
        header == header_in(ihdr@, stored@, sum),
{
    if !crc_matches(stored, sum) {
        return Err(PngError::IhdrCorrupt);
    }
    if ihdr[12] != 0 {
        return Err(PngError::Interlaced);
    }
    if channels(ihdr[9]).is_none() {
        return Err(PngError::UnknownColorType);
    }
    Ok(
        Header {
            width: read_be_u32(ihdr, 0),
            height: read_be_u32(ihdr, 4),
            bit_depth: ihdr[8],
            color_type: ihdr[9],
        },
    )
}

impl Header {
    /// The bits of a pixel.
    pub open spec fn bits_per_pixel(self) -> nat {
        channels_of(self.color_type)->0 * self.bit_depth as nat
    }

    /// The distance of a byte to its left neighbour: the whole bytes of a
    /// pixel, and at least one.
    pub open spec fn bytes_per_pixel(self) -> nat {
        if self.bits_per_pixel() < 8 {
            1
        } else {
            self.bits_per_pixel() / 8
        }
    }

    /// The bytes of a scanline without its filter byte.
    pub open spec fn bytes_per_scanline(self) -> nat {
        (self.width * self.bits_per_pixel() + 7) as nat / 8
    }

    /// The bytes of a row as it is handed out.
    pub open spec fn output_stride(self, has_transparency: bool) -> nat {
        if self.color_type == 3 {
            if has_transparency {
                self.width as nat * 4
            } else {
                self.width as nat * 3
            }
        } else {
            self.bytes_per_scanline()
        }
    }

    /// The colour type is one that PNG has, and the sizes of a row are within
    /// the machine's range.
    pub open spec fn measurable(self, has_transparency: bool) -> bool {
        &&& channels_of(self.color_type) is Some
        &&& self.width * self.bits_per_pixel() + 7 <= usize::MAX
        &&& self.output_stride(has_transparency) <= usize::MAX
    }

    /// The layout of the image's scanlines, where it has one.
    pub fn layout(&self, has_transparency: bool) -> (layout: Option<Layout>)
        ensures
            layout is Some == self.measurable(has_transparency),
            layout matches Some(l) ==> {
                &&& l.color_type == self.color_type
                &&& l.bit_depth == self.bit_depth
                &&& l.bytes_per_pixel == self.bytes_per_pixel()
                &&& l.bytes_per_scanline == self.bytes_per_scanline()
                &&& l.output_stride == self.output_stride(has_transparency)
                &&& l.wf()
            },
    {
        let channels: usize = match channels(self.color_type) {
            Some(n) => n,
            None => {
                return None;
            },
        };
        assert(channels * self.bit_depth <= 4 * 255) by (nonlinear_arith)
            requires
                0 <= channels <= 4,
                0 <= self.bit_depth <= 255,
        ;
        let bits_per_pixel: usize = channels * (self.bit_depth as usize);
        let bytes_per_pixel: usize = if bits_per_pixel / 8 > 1 {
            bits_per_pixel / 8
        } else {
            1
        };
        assert(self.width * bits_per_pixel <= 0xffff_ffff * 1020) by (nonlinear_arith)
            requires
                self.width <= 0xffff_ffff,
                0 <= bits_per_pixel <= 1020,
        ;
        let scanline_bits: u64 = self.width as u64 * (bits_per_pixel as u64) + 7;
        if scanline_bits > usize::MAX as u64 {
            return None;
        }
        let bytes_per_scanline: usize = (scanline_bits / 8) as usize;
        let output_stride: usize = if self.color_type == 3 {
            let pixel_stride: u64 = if has_transparency {
                4
            } else {
                3
            };
            let stride: u64 = self.width as u64 * pixel_stride;
            if stride > usize::MAX as u64 {
                return None;
            }
            stride as usize
        } else {
            bytes_per_scanline
        };
        Some(
            Layout {
                color_type: self.color_type,
                bit_depth: self.bit_depth,
                bytes_per_pixel,
                bytes_per_scanline,
                output_stride,
            },
        )
    }
}

/// The whole palette entries in the data of a palette chunk.
pub open spec fn palette_entries(data: Seq<u8>) -> Seq<[u8; 3]> {
    Seq::new(data.len() / 3, |i: int| [data[3 * i], data[3 * i + 1], data[3 * i + 2]])
}

/// Adds the whole palette entries in `data` to `palette`.
pub fn add_palette_entries(palette: &mut Vec<[u8; 3]>, data: &[u8])
    ensures
        final(palette)@ == old(palette)@ + palette_entries(data@),
{
    let count: usize = data.len() / 3;
    let ghost before = palette@;
    let mut i: usize = 0;
    assert(before + palette_entries(data@).take(0) =~= before);
    while i < count
        invariant
            i <= count,
            count == data@.len() / 3,
            data@.len() <= usize::MAX,
            palette@ == before + palette_entries(data@).take(i as int),
        decreases count - i,
    {
        palette.push([data[3 * i], data[3 * i + 1], data[3 * i + 2]]);
        i += 1;
        assert(palette@ =~= before + palette_entries(data@).take(i as int));
    }
    assert(palette_entries(data@).take(count as int) =~= palette_entries(data@));
}

} // verus!
