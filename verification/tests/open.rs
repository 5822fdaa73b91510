use pngstreamdec::checksum::chunk_crc;
use pngstreamdec::decoder::{ImageInfo, PngDecoder};
use pngstreamdec::error::PngError;
use pngstreamdec::header::{
    channels, crc_matches, is_png_magic, kind_of, parse_ihdr, read_be_u32, ChunkKind, Header,
    PNG_MAGIC,
};
use pngstreamdec::open::OpenStep;
use pngstreamdec::scanlines::Layout;
use pngstreamdec::stream::Reply;

/// A stream that is read from memory, `step` bytes at a time.
struct Source {
    bytes: Vec<u8>,
    at: usize,
    step: usize,
}

impl Source {
    fn new(bytes: Vec<u8>) -> Source {
        Source { bytes, at: 0, step: usize::MAX }
    }

    fn read_exact(&mut self, len: usize) -> Reply {
        if self.bytes.len() - self.at < len {
            self.at = self.bytes.len();
            return Reply::Failed;
        }
        self.at += len;
        Reply::Bytes(self.bytes[self.at - len..self.at].to_vec())
    }
}

/// Opens a stream.
fn open(source: &mut Source) -> Result<PngDecoder, PngError> {
    let mut opening = PngDecoder::new();
    loop {
        let reply = source.read_exact(opening.wanted());
        match opening.resume(reply) {
            OpenStep::Need(next) => opening = next,
            OpenStep::Opened(decoder) => return Ok(decoder),
            OpenStep::Failed(error) => return Err(error),
            OpenStep::TooLarge => panic!("too large"),
        }
    }
}

/// The big-endian bytes of a chunk with its right checksum.
fn chunk(name: &[u8; 4], data: &[u8]) -> Vec<u8> {
    let mut crc = flate2::Crc::new();
    crc.update(name);
    crc.update(data);
    let mut out = (data.len() as u32).to_be_bytes().to_vec();
    out.extend_from_slice(name);
    out.extend_from_slice(data);
    out.extend_from_slice(&crc.sum().to_be_bytes());
    out
}

/// The signature and the image header of a stream.
fn front(width: u32, height: u32, bit_depth: u8, color_type: u8) -> Vec<u8> {
    let mut ihdr = width.to_be_bytes().to_vec();
    ihdr.extend_from_slice(&height.to_be_bytes());
    ihdr.extend_from_slice(&[bit_depth, color_type, 0, 0, 0]);
    let mut out = PNG_MAGIC.to_vec();
    out.extend_from_slice(&chunk(b"IHDR", &ihdr));
    out
}

fn refused(bytes: Vec<u8>) -> PngError {
    match open(&mut Source::new(bytes)) {
        Ok(_) => panic!("opened"),
        Err(error) => error,
    }
}

/// A chunk with a checksum that is wrong.
fn spoiled_chunk(name: &[u8; 4], data: &[u8]) -> Vec<u8> {
    let mut out = chunk(name, data);
    let last = out.len() - 1;
    out[last] ^= 1;
    out
}

#[test]
fn checksum_of_a_chunk() {
    assert_eq!(chunk_crc(b"IEND", &[]), 0xae42_6082);
    assert_eq!(chunk_crc(b"1234", b"56789"), 0xcbf4_3926);
}

#[test]
fn numbers_are_big_endian() {
    assert_eq!(read_be_u32(&[9, 1, 2, 3, 4], 1), 0x0102_0304);
    assert_eq!(read_be_u32(&u32::MAX.to_be_bytes(), 0), u32::MAX);
    assert!(crc_matches(&[0xae, 0x42, 0x60, 0x82], 0xae42_6082));
    assert!(!crc_matches(&[0xae, 0x42, 0x60, 0x83], 0xae42_6082));
}

#[test]
fn signature_is_recognised() {
    assert!(is_png_magic(&[137, 80, 78, 71, 13, 10, 26, 10]));
    assert!(!is_png_magic(&[137, 80, 78, 71, 13, 10, 26, 11]));
}

#[test]
fn chunk_types_are_told_apart() {
    assert!(kind_of(b"IHDR") == ChunkKind::Ihdr);
    assert!(kind_of(b"PLTE") == ChunkKind::Plte);
    assert!(kind_of(b"tRNS") == ChunkKind::Trns);
    assert!(kind_of(b"IDAT") == ChunkKind::Idat);
    assert!(kind_of(b"IEND") == ChunkKind::Iend);
    assert!(kind_of(b"tEXt") == ChunkKind::Other);
    assert!(kind_of(b"iDAT") == ChunkKind::Other);
}

#[test]
fn colour_types_have_channels() {
    assert_eq!(channels(0), Some(1));
    assert_eq!(channels(2), Some(3));
    assert_eq!(channels(3), Some(1));
    assert_eq!(channels(4), Some(2));
    assert_eq!(channels(6), Some(4));
    assert_eq!(channels(1), None);
    assert_eq!(channels(7), None);
}

#[test]
fn header_is_parsed() {
    let ihdr = [0, 0, 1, 0, 0, 0, 0, 2, 16, 6, 0, 0, 0];
    let sum = chunk_crc(b"IHDR", &ihdr);
    assert_eq!(
        parse_ihdr(&ihdr, &sum.to_be_bytes(), sum),
        Ok(Header { width: 256, height: 2, bit_depth: 16, color_type: 6 })
    );
    assert_eq!(parse_ihdr(&ihdr, &[0; 4], sum), Err(PngError::IhdrCorrupt));
}

#[test]
fn layouts_of_rows() {
    let rgba = Header { width: 10, height: 1, bit_depth: 16, color_type: 6 };
    assert_eq!(
        rgba.layout(false),
        Some(Layout {
            color_type: 6,
            bit_depth: 16,
            bytes_per_pixel: 8,
            bytes_per_scanline: 80,
            output_stride: 80
        })
    );
    let bits = Header { width: 9, height: 1, bit_depth: 1, color_type: 0 };
    assert_eq!(
        bits.layout(true),
        Some(Layout {
            color_type: 0,
            bit_depth: 1,
            bytes_per_pixel: 1,
            bytes_per_scanline: 2,
            output_stride: 2
        })
    );
    let indexed = Header { width: 9, height: 1, bit_depth: 4, color_type: 3 };
    assert_eq!(
        indexed.layout(false),
        Some(Layout {
            color_type: 3,
            bit_depth: 4,
            bytes_per_pixel: 1,
            bytes_per_scanline: 5,
            output_stride: 27
        })
    );
    assert_eq!(indexed.layout(true).unwrap().output_stride, 36);
    let unknown = Header { width: 9, height: 1, bit_depth: 8, color_type: 5 };
    assert_eq!(unknown.layout(false), None);
}

#[test]
fn image_is_opened() {
    let mut stream = front(3, 2, 8, 3);
    stream.extend_from_slice(&chunk(b"tEXt", b"anything"));
    stream.extend_from_slice(&chunk(b"PLTE", &[1, 2, 3, 4, 5, 6]));
    stream.extend_from_slice(&chunk(b"tRNS", &[9]));
    stream.extend_from_slice(&chunk(b"IDAT", &[1, 2, 3]));
    let mut source = Source::new(stream);
    let decoder = open(&mut source).unwrap();
    assert_eq!(
        decoder.info(),
        ImageInfo { width: 3, height: 2, bit_depth: 8, color_type: 3, bytes_per_scanline: 12 }
    );
    assert_eq!((decoder.width, decoder.height), (3, 2));
    assert_eq!((decoder.bit_depth, decoder.color_type), (8, 3));
    assert_eq!((decoder.bytes_per_scanline, decoder.output_stride), (3, 12));
    assert!(decoder.is_idle());
    assert_eq!(decoder.current_y(), 0);
    // The stream stands at the data of the first image data chunk.
    assert_eq!(source.bytes.len() - source.at, 7);
}

#[test]
fn signature_is_demanded() {
    assert_eq!(refused(Vec::new()), PngError::MagicUnreadable);
    assert_eq!(refused(vec![137, 80, 78]), PngError::MagicUnreadable);
    assert_eq!(refused(vec![0; 100]), PngError::NotPng);
}

#[test]
fn image_header_is_demanded() {
    assert_eq!(refused(PNG_MAGIC.to_vec()), PngError::EndOfFile);
    let mut stream = PNG_MAGIC.to_vec();
    stream.extend_from_slice(&chunk(b"IDAT", &[0; 13]));
    assert_eq!(refused(stream), PngError::IhdrMissing);
    let mut stream = PNG_MAGIC.to_vec();
    stream.extend_from_slice(&chunk(b"IHDR", &[0; 12]));
    assert_eq!(refused(stream), PngError::IhdrMissing);
}

#[test]
fn broken_off_image_header_is_refused() {
    let whole = front(1, 1, 8, 0);
    assert_eq!(refused(whole[..20].to_vec()), PngError::IhdrUnreadable);
    assert_eq!(refused(whole[..31].to_vec()), PngError::IhdrCrcUnreadable);
    assert_eq!(refused(whole), PngError::EndOfFile);
}

#[test]
fn corrupt_image_header_is_refused() {
    let mut stream = front(1, 1, 8, 0);
    stream[20] ^= 1;
    assert_eq!(refused(stream), PngError::IhdrCorrupt);
}

#[test]
fn interlacing_is_refused() {
    let mut ihdr = [0u8, 0, 0, 1, 0, 0, 0, 1, 8, 9, 0, 0, 1];
    let mut stream = PNG_MAGIC.to_vec();
    stream.extend_from_slice(&chunk(b"IHDR", &ihdr));
    assert_eq!(refused(stream), PngError::Interlaced);
    ihdr[12] = 0;
    let mut stream = PNG_MAGIC.to_vec();
    stream.extend_from_slice(&chunk(b"IHDR", &ihdr));
    assert_eq!(refused(stream), PngError::UnknownColorType);
}

#[test]
fn broken_off_palette_is_refused() {
    let start = front(1, 1, 8, 3);
    let mut stream = start.clone();
    stream.extend_from_slice(&chunk(b"PLTE", &[1, 2, 3])[..10]);
    assert_eq!(refused(stream), PngError::PlteUnreadable);
    let mut stream = start.clone();
    stream.extend_from_slice(&chunk(b"PLTE", &[1, 2, 3])[..13]);
    assert_eq!(refused(stream), PngError::PlteCrcUnreadable);
    let mut stream = start;
    stream.extend_from_slice(&spoiled_chunk(b"PLTE", &[1, 2, 3]));
    assert_eq!(refused(stream), PngError::PlteCorrupt);
}

#[test]
fn broken_off_transparency_is_refused() {
    let start = front(1, 1, 8, 3);
    let mut stream = start.clone();
    stream.extend_from_slice(&chunk(b"tRNS", &[1, 2, 3])[..10]);
    assert_eq!(refused(stream), PngError::TrnsUnreadable);
    let mut stream = start;
    stream.extend_from_slice(&chunk(b"tRNS", &[1, 2, 3])[..13]);
    assert_eq!(refused(stream), PngError::TrnsCrcUnreadable);
}

#[test]
fn corrupt_transparency_is_passed_over() {
    let mut stream = front(2, 1, 8, 3);
    stream.extend_from_slice(&spoiled_chunk(b"tRNS", &[1, 2, 3]));
    stream.extend_from_slice(&chunk(b"IDAT", &[1]));
    assert_eq!(open(&mut Source::new(stream)).unwrap().output_stride, 6);
}

#[test]
fn corrupt_transparency_keeps_the_one_before() {
    let mut stream = front(2, 1, 8, 3);
    stream.extend_from_slice(&chunk(b"tRNS", &[1]));
    stream.extend_from_slice(&spoiled_chunk(b"tRNS", &[]));
    stream.extend_from_slice(&chunk(b"IDAT", &[1]));
    assert_eq!(open(&mut Source::new(stream)).unwrap().output_stride, 8);
}

#[test]
fn other_chunks_are_passed_over_corrupt_or_not() {
    let mut stream = front(2, 1, 8, 0);
    stream.extend_from_slice(&spoiled_chunk(b"gAMA", &[1, 2, 3, 4]));
    stream.extend_from_slice(&chunk(b"IEND", &[]));
    stream.extend_from_slice(&chunk(b"IDAT", &[1]));
    assert_eq!(open(&mut Source::new(stream)).unwrap().output_stride, 2);
    // One that breaks off is passed over too; then the stream is at its end.
    let mut stream = front(2, 1, 8, 0);
    stream.extend_from_slice(&chunk(b"gAMA", &[1, 2, 3, 4])[..10]);
    assert_eq!(refused(stream), PngError::EndOfFile);
}

#[test]
fn chunk_headers_are_read() {
    let reply = Reply::Bytes(vec![0, 0, 1, 2, 73, 69, 78, 68]);
    assert_eq!(PngDecoder::read_chunk_header(&reply), Ok((258, *b"IEND")));
    assert_eq!(PngDecoder::read_chunk_header(&Reply::Failed), Err(PngError::EndOfFile));
}
