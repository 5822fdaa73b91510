use pngstreamdec::decoder::{close_png, decode_scanlines, Action, Halt, PngDecoder};
use pngstreamdec::error::PngError;
use pngstreamdec::header::PNG_MAGIC;
use pngstreamdec::inflate::{inflate_piece, new_inflater, InflateEnd};
use pngstreamdec::open::OpenStep;
use pngstreamdec::pam::write_rgba;
use pngstreamdec::ppm::write_rgb;
use pngstreamdec::stream::Reply;
use std::io::Write;

/// A stream that is read from memory, `step` bytes at a time.
struct Source {
    bytes: Vec<u8>,
    at: usize,
    step: usize,
}

impl Source {
    fn new(bytes: Vec<u8>) -> Source {
        Source { bytes, at: 0, step: usize::MAX }
    }

    fn read_exact(&mut self, len: usize) -> Reply {
        if self.bytes.len() - self.at < len {
            self.at = self.bytes.len();
            return Reply::Failed;
        }
        self.at += len;
        Reply::Bytes(self.bytes[self.at - len..self.at].to_vec())
    }
}

/// Opens a stream.
fn open(source: &mut Source) -> Result<PngDecoder, PngError> {
    let mut opening = PngDecoder::new();
    loop {
        let reply = source.read_exact(opening.wanted());
        match opening.resume(reply) {
            OpenStep::Need(next) => opening = next,
            OpenStep::Opened(decoder) => return Ok(decoder),
            OpenStep::Failed(error) => return Err(error),
            OpenStep::TooLarge => panic!("too large"),
        }
    }
}

/// The big-endian bytes of a chunk with its right checksum.
fn chunk(name: &[u8; 4], data: &[u8]) -> Vec<u8> {
    let mut crc = flate2::Crc::new();
    crc.update(name);
    crc.update(data);
    let mut out = (data.len() as u32).to_be_bytes().to_vec();
    out.extend_from_slice(name);
    out.extend_from_slice(data);
    out.extend_from_slice(&crc.sum().to_be_bytes());
    out
}

/// The signature and the image header of a stream.
fn front(width: u32, height: u32, bit_depth: u8, color_type: u8) -> Vec<u8> {
    let mut ihdr = width.to_be_bytes().to_vec();
    ihdr.extend_from_slice(&height.to_be_bytes());
    ihdr.extend_from_slice(&[bit_depth, color_type, 0, 0, 0]);
    let mut out = PNG_MAGIC.to_vec();
    out.extend_from_slice(&chunk(b"IHDR", &ihdr));
    out
}

impl Source {
    fn read(&mut self, len: usize) -> Reply {
        let len = len.min(self.step).min(self.bytes.len() - self.at);
        self.at += len;
        Reply::Bytes(self.bytes[self.at - len..self.at].to_vec())
    }
}

/// Decodes a batch: its rows, or nothing at the end of the image.
fn batch(decoder: &mut PngDecoder, source: &mut Source, rows: u32) -> Result<Option<Vec<u8>>, Halt> {
    let mut action = decode_scanlines(decoder, rows);
    loop {
        action = match action {
            Action::ReadExact(len) => decoder.resume(source.read_exact(len)),
            Action::Read(len) => decoder.resume(source.read(len)),
            Action::Done => break,
            Action::Halt(why) => return Err(why),
        };
    }
    let result = decoder.result();
    assert_eq!(result.size, result.data.map_or(0, |data| data.len()));
    Ok(result.data.map(|data| data.to_vec()))
}

/// Decodes a whole image in batches of `rows` rows.
fn decode_all(bytes: Vec<u8>, rows: u32, step: usize) -> Vec<u8> {
    let mut source = Source::new(bytes);
    source.step = step;
    let mut decoder = open(&mut source).unwrap();
    let mut out = Vec::new();
    while let Some(data) = batch(&mut decoder, &mut source, rows).unwrap() {
        assert!(data.len() > 0 && data.len() <= rows as usize * decoder.output_stride);
        out.extend_from_slice(&data);
    }
    assert_eq!(decoder.current_y(), decoder.height);
    out
}

fn deflate(raw: &[u8]) -> Vec<u8> {
    let mut encoder = flate2::write::ZlibEncoder::new(Vec::new(), flate2::Compression::default());
    encoder.write_all(raw).unwrap();
    encoder.finish().unwrap()
}

fn paeth(left: u8, up: u8, corner: u8) -> u8 {
    let p = left as i32 + up as i32 - corner as i32;
    let (pa, pb, pc) = (
        (p - left as i32).abs(),
        (p - up as i32).abs(),
        (p - corner as i32).abs(),
    );
    if pa <= pb && pa <= pc {
        left
    } else if pb <= pc {
        up
    } else {
        corner
    }
}

/// The scanlines of an image, row `i` with filter `filters[i]`.
fn scanlines(image: &[Vec<u8>], filters: &[u8], bpp: usize) -> Vec<u8> {
    let mut out = Vec::new();
    for (i, row) in image.iter().enumerate() {
        out.push(filters[i]);
        for (j, byte) in row.iter().enumerate() {
            let up = if i > 0 { image[i - 1][j] } else { 0 };
            let left = if j >= bpp { row[j - bpp] } else { 0 };
            let corner = if i > 0 && j >= bpp { image[i - 1][j - bpp] } else { 0 };
            let predicted = match filters[i] {
                0 => 0,
                1 => left,
                2 => up,
                3 => ((left as u16 + up as u16) / 2) as u8,
                _ => paeth(left, up, corner),
            };
            out.push(byte.wrapping_sub(predicted));
        }
    }
    out
}

/// Rows with bytes that vary.
fn picture(height: usize, width: usize) -> Vec<Vec<u8>> {
    (0..height)
        .map(|y| (0..width).map(|x| ((x * 7 + y * 31) ^ (x * y)) as u8).collect())
        .collect()
}

fn image(front: Vec<u8>, data: &[u8]) -> Vec<u8> {
    let mut out = front;
    out.extend_from_slice(&chunk(b"IDAT", data));
    out.extend_from_slice(&chunk(b"IEND", &[]));
    out
}

#[test]
fn rows_come_out_as_they_went_in() {
    let rows = picture(11, 15);
    let filters = [0, 1, 2, 3, 4, 4, 3, 2, 1, 0, 4];
    let stream = image(front(5, 11, 8, 2), &deflate(&scanlines(&rows, &filters, 3)));
    for count in [1, 2, 3, 10, 11, 500] {
        for step in [1, 7, 8192] {
            assert_eq!(decode_all(stream.clone(), count, step), rows.concat());
        }
    }
}

#[test]
fn deep_samples_with_alpha() {
    let rows = picture(6, 24);
    let stream = image(front(3, 6, 16, 6), &deflate(&scanlines(&rows, &[4, 3, 1, 4, 2, 0], 8)));
    assert_eq!(decode_all(stream, 4, 100), rows.concat());
}

#[test]
fn single_bits_stay_packed() {
    let rows = vec![vec![0b1010_1010, 0b1000_0000], vec![0b0101_0101, 0]];
    let stream = image(front(9, 2, 1, 0), &deflate(&scanlines(&rows, &[1, 2], 1)));
    assert_eq!(decode_all(stream, 1, 8192), rows.concat());
}

#[test]
fn large_image_over_many_pieces() {
    let rows = picture(300, 900);
    let filters: Vec<u8> = (0..300).map(|i| (i % 5) as u8).collect();
    let stream = image(front(300, 300, 8, 2), &deflate(&scanlines(&rows, &filters, 3)));
    assert_eq!(decode_all(stream.clone(), 300, usize::MAX), rows.concat());
    assert_eq!(decode_all(stream, 17, 1000), rows.concat());
}

#[test]
fn indexed_rows_are_expanded() {
    let mut start = front(4, 2, 8, 3);
    start.extend_from_slice(&chunk(b"PLTE", &[1, 2, 3, 4, 5, 6]));
    let rows = vec![vec![0, 1, 1, 0], vec![1, 9, 0, 1]];
    let data = deflate(&scanlines(&rows, &[1, 4], 1));
    let expected: Vec<u8> = vec![
        1, 2, 3, 4, 5, 6, 4, 5, 6, 1, 2, 3, 4, 5, 6, 0, 0, 0, 1, 2, 3, 4, 5, 6,
    ];
    assert_eq!(decode_all(image(start.clone(), &data), 1, 8192), expected);
    assert_eq!(decode_all(image(start.clone(), &data), 2, 3), expected);
    start.extend_from_slice(&chunk(b"tRNS", &[77]));
    let expected: Vec<u8> = vec![
        1, 2, 3, 77, 4, 5, 6, 255, 4, 5, 6, 255, 1, 2, 3, 77, 4, 5, 6, 255, 0, 0, 0, 255, 1, 2, 3,
        77, 4, 5, 6, 255,
    ];
    assert_eq!(decode_all(image(start.clone(), &data), 1, 8192), expected);
    assert_eq!(decode_all(image(start, &data), 2, 8192), expected);
}

#[test]
fn packed_indexed_rows_are_expanded() {
    let mut start = front(8, 1, 1, 3);
    start.extend_from_slice(&chunk(b"PLTE", &[0, 0, 0, 9, 9, 9]));
    let data = deflate(&[0, 0b0000_0011]);
    let mut expected = vec![9u8; 6];
    expected.extend_from_slice(&[0; 18]);
    assert_eq!(decode_all(image(start, &data), 1, 8192), expected);
}

/// A zlib stream that holds `raw` as it is, in one block behind seven bytes.
fn store(raw: &[u8]) -> Vec<u8> {
    let mut encoder = flate2::write::ZlibEncoder::new(Vec::new(), flate2::Compression::none());
    encoder.write_all(raw).unwrap();
    encoder.finish().unwrap()
}

/// An image of nine rows whose image data is cut in two, with a text in between.
fn split_image(data: &[u8], cut: usize) -> Vec<u8> {
    let mut stream = front(8, 9, 8, 0);
    stream.extend_from_slice(&chunk(b"IDAT", &data[..cut]));
    stream.extend_from_slice(&chunk(b"tEXt", b"in between"));
    stream.extend_from_slice(&chunk(b"IDAT", &data[cut..]));
    stream.extend_from_slice(&chunk(b"IEND", &[]));
    stream
}

#[test]
fn image_data_may_be_split_over_chunks() {
    let rows = picture(9, 8);
    let data = store(&scanlines(&rows, &[4; 9], 1));
    for cut in 8..data.len() {
        assert_eq!(decode_all(split_image(&data, cut), 9, 8192), rows.concat());
        assert_eq!(decode_all(split_image(&data, cut), 2, 5), rows.concat());
    }
}

#[test]
fn checksum_is_not_looked_for_before_anything_is_inflated() {
    let rows = picture(9, 8);
    let data = store(&scanlines(&rows, &[4; 9], 1));
    let mut source = Source::new(split_image(&data, 1));
    let mut decoder = open(&mut source).unwrap();
    // The checksum is taken for the length of a chunk, which breaks off.
    assert_eq!(batch(&mut decoder, &mut source, 9), Ok(Some(Vec::new())));
}

#[test]
fn nothing_comes_after_the_end() {
    let rows = picture(2, 3);
    let stream = image(front(3, 2, 8, 0), &deflate(&scanlines(&rows, &[0, 0], 1)));
    let mut source = Source::new(stream);
    let mut decoder = open(&mut source).unwrap();
    assert_eq!(batch(&mut decoder, &mut source, 5), Ok(Some(rows.concat())));
    for count in [5, 0, u32::MAX] {
        assert_eq!(batch(&mut decoder, &mut source, count), Ok(None));
        assert_eq!(decoder.current_y(), 2);
    }
}

#[test]
fn empty_batch_is_empty() {
    let rows = picture(2, 3);
    let stream = image(front(3, 2, 8, 0), &deflate(&scanlines(&rows, &[0, 0], 1)));
    let mut source = Source::new(stream);
    let mut decoder = open(&mut source).unwrap();
    assert_eq!(batch(&mut decoder, &mut source, 0), Ok(Some(Vec::new())));
    assert_eq!(batch(&mut decoder, &mut source, 2), Ok(Some(rows.concat())));
}

#[test]
fn corrupt_data_is_blank_from_then_on() {
    let rows = picture(4, 2000);
    // Stored without compression, so that rows can be had before the end.
    let data = store(&scanlines(&rows, &[0; 4], 1));
    let mut stream = front(2000, 4, 8, 0);
    let mut first = chunk(b"IDAT", &data[..5000]);
    let last = first.len() - 1;
    first[last] ^= 0x80;
    stream.extend_from_slice(&first);
    stream.extend_from_slice(&chunk(b"IDAT", &data[5000..]));
    stream.extend_from_slice(&chunk(b"IEND", &[]));
    let mut source = Source::new(stream);
    let mut decoder = open(&mut source).unwrap();
    assert_eq!(batch(&mut decoder, &mut source, 1), Ok(Some(rows[0].clone())));
    // The wrong checksum is met on the way to the third row, and takes the
    // whole batch with it.
    assert_eq!(batch(&mut decoder, &mut source, 2), Ok(Some(vec![0; 4000])));
    let at = source.at;
    assert_eq!(batch(&mut decoder, &mut source, 9), Ok(Some(vec![0; 2000])));
    assert_eq!(source.at, at);
    assert_eq!(batch(&mut decoder, &mut source, 9), Ok(None));
}

#[test]
fn stream_that_breaks_off_is_blank() {
    let rows = picture(3, 50);
    let whole = image(front(50, 3, 8, 0), &deflate(&scanlines(&rows, &[0; 3], 1)));
    let mut source = Source::new(whole[..60].to_vec());
    let mut decoder = open(&mut source).unwrap();
    assert_eq!(batch(&mut decoder, &mut source, 3), Ok(Some(vec![0; 150])));
}

#[test]
fn data_that_does_not_inflate_is_blank() {
    let mut source = Source::new(image(front(5, 2, 8, 2), &[0xff; 40]));
    let mut decoder = open(&mut source).unwrap();
    assert_eq!(batch(&mut decoder, &mut source, 1), Ok(Some(vec![0; 15])));
    assert_eq!(batch(&mut decoder, &mut source, 7), Ok(Some(vec![0; 15])));
    assert_eq!(batch(&mut decoder, &mut source, 7), Ok(None));
}

#[test]
fn image_that_ends_early_gives_the_rows_there_are() {
    let rows = picture(2, 4);
    let stream = image(front(4, 5, 8, 0), &deflate(&scanlines(&rows, &[0, 1], 1)));
    let mut source = Source::new(stream);
    let mut decoder = open(&mut source).unwrap();
    assert_eq!(batch(&mut decoder, &mut source, 5), Ok(Some(rows.concat())));
    assert_eq!(decoder.current_y(), 2);
    // Beyond the end there is no image data to be had.
    assert_eq!(batch(&mut decoder, &mut source, 5), Ok(Some(vec![0; 12])));
    assert_eq!(batch(&mut decoder, &mut source, 5), Ok(None));
}

#[test]
fn broken_off_chunk_ends_the_data() {
    let rows = picture(2, 4);
    let mut stream = front(4, 5, 8, 0);
    stream.extend_from_slice(&chunk(b"IDAT", &deflate(&scanlines(&rows, &[0, 1], 1))));
    stream.extend_from_slice(&chunk(b"tEXt", b"breaks off")[..12]);
    let mut source = Source::new(stream);
    let mut decoder = open(&mut source).unwrap();
    assert_eq!(batch(&mut decoder, &mut source, 5), Ok(Some(rows.concat())));
    let mut stream = front(4, 5, 8, 0);
    stream.extend_from_slice(&chunk(b"IDAT", &deflate(&scanlines(&rows, &[0, 1], 1))));
    stream.extend_from_slice(&chunk(b"tEXt", b"text")[..14]);
    let mut source = Source::new(stream);
    let mut decoder = open(&mut source).unwrap();
    assert_eq!(batch(&mut decoder, &mut source, 5), Ok(Some(rows.concat())));
}

#[test]
fn empty_chunk_ends_a_batch() {
    let rows = picture(2, 4);
    let data = deflate(&scanlines(&rows, &[0, 1], 1));
    let mut stream = front(4, 2, 8, 0);
    stream.extend_from_slice(&chunk(b"IDAT", &data[..data.len() - 4]));
    stream.extend_from_slice(&chunk(b"IDAT", &[]));
    let mut source = Source::new(stream);
    let mut decoder = open(&mut source).unwrap();
    let got = batch(&mut decoder, &mut source, 2).unwrap().unwrap();
    assert_eq!(got, rows.concat()[..got.len()].to_vec());
}

#[test]
fn missing_checksum_is_corruption() {
    let rows = picture(2, 4);
    let data = deflate(&scanlines(&rows, &[0, 1], 1));
    let mut stream = front(4, 5, 8, 0);
    let whole = chunk(b"IDAT", &data);
    stream.extend_from_slice(&whole[..whole.len() - 2]);
    let mut source = Source::new(stream);
    let mut decoder = open(&mut source).unwrap();
    assert_eq!(batch(&mut decoder, &mut source, 5), Ok(Some(vec![0; 20])));
    // A stream without a further chunk is no better.
    let mut stream = front(4, 5, 8, 0);
    stream.extend_from_slice(&whole);
    let mut source = Source::new(stream);
    let mut decoder = open(&mut source).unwrap();
    assert_eq!(batch(&mut decoder, &mut source, 5), Ok(Some(vec![0; 20])));
}

#[test]
fn failed_read_is_corruption() {
    let rows = picture(2, 4);
    let stream = image(front(4, 2, 8, 0), &deflate(&scanlines(&rows, &[0, 1], 1)));
    let mut source = Source::new(stream);
    let mut decoder = open(&mut source).unwrap();
    assert!(matches!(decode_scanlines(&mut decoder, 1), Action::Read(_)));
    assert_eq!(decoder.resume(Reply::Failed), Action::Done);
    assert_eq!(decoder.result().data, Some(&[0u8; 4][..]));
}

#[test]
fn data_behind_the_compressed_stream_halts() {
    let rows = picture(2, 4);
    let mut data = deflate(&scanlines(&rows, &[0, 1], 1));
    data.extend_from_slice(&[1, 2, 3]);
    let mut source = Source::new(image(front(4, 2, 8, 0), &data));
    let mut decoder = open(&mut source).unwrap();
    assert_eq!(batch(&mut decoder, &mut source, 2), Err(Halt::Stalled));
    assert!(!decoder.is_idle());
}

#[test]
fn indexed_rows_that_do_not_fill_their_bytes_halt() {
    let mut start = front(3, 1, 1, 3);
    start.extend_from_slice(&chunk(b"PLTE", &[0, 0, 0, 9, 9, 9]));
    let mut source = Source::new(image(start, &deflate(&[0, 5])));
    let mut decoder = open(&mut source).unwrap();
    assert_eq!(batch(&mut decoder, &mut source, 1), Err(Halt::BadLayout));
}

#[test]
fn indexed_rows_without_depth_halt() {
    let mut source = Source::new(image(front(3, 1, 0, 3), &deflate(&[0])));
    let mut decoder = open(&mut source).unwrap();
    assert_eq!(batch(&mut decoder, &mut source, 1), Err(Halt::BadLayout));
}

/// A decoder that waits for image data.
fn waiting() -> PngDecoder {
    let rows = picture(2, 4);
    let stream = image(front(4, 2, 8, 0), &deflate(&scanlines(&rows, &[0, 1], 1)));
    let mut decoder = open(&mut Source::new(stream)).unwrap();
    assert!(matches!(decode_scanlines(&mut decoder, 2), Action::Read(_)));
    decoder
}

#[test]
fn ends_of_inflating_lead_on() {
    assert!(matches!(waiting().settle(InflateEnd::Taken), Action::Read(_)));
    assert_eq!(waiting().settle(InflateEnd::Stalled), Action::Halt(Halt::Stalled));
    assert_eq!(waiting().settle(InflateEnd::Exhausted), Action::Halt(Halt::TooLarge));
    let mut decoder = waiting();
    assert_eq!(decoder.settle(InflateEnd::Corrupt), Action::Done);
    assert_eq!(decoder.result().data, Some(&[0u8; 8][..]));
}

#[test]
fn unknown_filters_leave_bytes_standing() {
    // The second scanline names no filter: its place keeps what stood there,
    // and the row kept for the third is still the first.
    let mut source = Source::new(image(
        front(3, 3, 8, 0),
        &deflate(&[0, 1, 2, 3, 9, 4, 5, 6, 2, 1, 1, 1]),
    ));
    let mut decoder = open(&mut source).unwrap();
    assert_eq!(
        batch(&mut decoder, &mut source, 3),
        Ok(Some(vec![1, 2, 3, 3, 9, 4, 2, 3, 4]))
    );
}

#[test]
fn pieces_inflate_one_after_the_other() {
    let text = b"what is deflated comes back, what is deflated comes back".repeat(400);
    let data = deflate(&text);
    for cut in [1, 2, 3, data.len() / 2, data.len()] {
        let mut inflater = new_inflater();
        let mut out = b"front".to_vec();
        assert_eq!(inflate_piece(&mut inflater, &data[..cut], &mut out), InflateEnd::Taken);
        assert_eq!(inflate_piece(&mut inflater, &data[cut..], &mut out), InflateEnd::Taken);
        assert_eq!(&out[..5], b"front");
        assert_eq!(&out[5..], &text[..out.len() - 5]);
        assert_eq!(inflater.total_in(), data.len() as u64);
        assert_eq!(inflater.total_out(), (out.len() - 5) as u64);
    }
}

#[test]
fn unsound_pieces_do_not_inflate() {
    let mut inflater = new_inflater();
    let mut out = Vec::new();
    assert_eq!(inflate_piece(&mut inflater, &[1, 2, 3, 4], &mut out), InflateEnd::Corrupt);
    let mut inflater = new_inflater();
    let mut data = deflate(b"some bytes");
    data.push(7);
    assert_eq!(inflate_piece(&mut inflater, &data, &mut out), InflateEnd::Stalled);
    assert_eq!(out, b"some bytes".to_vec());
}

#[test]
fn pixels_do_not_depend_on_the_batches() {
    let rows = picture(7, 16);
    let stream = image(front(4, 7, 16, 4), &deflate(&scanlines(&rows, &[3; 7], 4)));
    let mut whole_rgb = Vec::new();
    write_rgb(&mut whole_rgb, &rows.concat(), 16, 4);
    let mut whole_rgba = Vec::new();
    write_rgba(&mut whole_rgba, &rows.concat(), 16, 4);
    assert_eq!(&whole_rgb[..6], &[rows[0][0], rows[0][1], rows[0][0], rows[0][1], rows[0][0], rows[0][1]]);
    for count in [1, 3, 7] {
        let mut source = Source::new(stream.clone());
        let mut decoder = open(&mut source).unwrap();
        let (mut rgb, mut rgba) = (Vec::new(), Vec::new());
        while let Some(data) = batch(&mut decoder, &mut source, count).unwrap() {
            write_rgb(&mut rgb, &data, 16, 4);
            write_rgba(&mut rgba, &data, 16, 4);
        }
        assert_eq!(rgb, whole_rgb);
        assert_eq!(rgba, whole_rgba);
    }
}

#[test]
fn every_depth_without_a_palette_is_handed_out() {
    for (bit_depth, color_type, width, bpp) in
        [(1u8, 0u8, 2usize, 1usize), (2, 0, 3, 1), (4, 0, 5, 1), (8, 4, 20, 2), (16, 2, 60, 6)]
    {
        let rows = picture(3, width);
        let stream =
            image(front(10, 3, bit_depth, color_type), &deflate(&scanlines(&rows, &[4; 3], bpp)));
        assert_eq!(decode_all(stream, 2, 8192), rows.concat());
    }
}

#[test]
fn cuts_do_not_matter() {
    let mut indexed = front(6, 9, 8, 3);
    indexed.extend_from_slice(&chunk(b"PLTE", &[1, 2, 3, 4, 5, 6, 7, 8, 9]));
    indexed.extend_from_slice(&chunk(b"tRNS", &[3]));
    let indices: Vec<Vec<u8>> =
        (0..9).map(|y| (0..6).map(|x| ((x + y) % 3) as u8).collect()).collect();
    let rows = picture(9, 18);
    for stream in [
        image(indexed, &deflate(&scanlines(&indices, &[0, 1, 2, 3, 4, 4, 3, 2, 1], 1))),
        image(front(6, 9, 8, 2), &deflate(&scanlines(&rows, &[4, 3, 2, 1, 0, 1, 2, 3, 4], 3))),
    ] {
        let whole = decode_all(stream.clone(), 9, 8192);
        for requests in [vec![1, 2, 3, 3], vec![8, 8], vec![4, 0, 0, 5], vec![0, 9], vec![3, 3, 3]] {
            let mut source = Source::new(stream.clone());
            let mut decoder = open(&mut source).unwrap();
            let mut out = Vec::new();
            for rows in requests {
                let before = source.at;
                let data = batch(&mut decoder, &mut source, rows).unwrap().unwrap();
                if rows == 0 {
                    assert!(data.is_empty());
                    assert_eq!(source.at, before);
                }
                out.extend_from_slice(&data);
            }
            assert_eq!(out, whole);
        }
    }
}

#[test]
fn no_rows_are_had_of_a_corrupt_image_either() {
    let mut source = Source::new(image(front(5, 3, 8, 2), &[0xff; 40]));
    let mut decoder = open(&mut source).unwrap();
    assert_eq!(batch(&mut decoder, &mut source, 1), Ok(Some(vec![0; 15])));
    assert_eq!(batch(&mut decoder, &mut source, 0), Ok(Some(Vec::new())));
    assert_eq!(batch(&mut decoder, &mut source, 9), Ok(Some(vec![0; 30])));
}

#[test]
fn closing_tells_whether_there_was_a_decoder() {
    assert!(close_png(Some(waiting())));
    assert!(!close_png(None));
}
