//! What the decoder makes of PNG streams, against the format's own definition.

use crate::checksum;
use crate::chunk_laws;
use crate::chunk_laws::{DataChunk, Passed};
use crate::cut_laws;
use crate::decode_laws;
use crate::decoder::{Action, DecoderView};
use crate::encoding;
use crate::error::PngError;
use crate::filter;
use crate::header;
use crate::header::{ChunkKind, Header};
use crate::open::{OpenNext, OpeningView};
use crate::open_laws;
use crate::palette;
use crate::png;
use crate::scanlines;
use vstd::arithmetic::div_mod;
use vstd::arithmetic::power2;
use vstd::prelude::*;

verus! {

/// Law: for every colour type and depth that PNG has, a pixel has the samples
/// that PNG gives it, the left neighbour of a byte is the bytes of a pixel back,
/// and rows have the bytes that hold their bits. Rows of palette colours are
/// handed out with three bytes to a pixel, and four with transparency.
pub proof fn law_sizes(header: Header, has_transparency: bool)
    requires
        png::allowed(header.color_type, header.bit_depth),
    ensures
        header::channels_of(header.color_type) == Some(png::samples(header.color_type)),
        header.bits_per_pixel() == png::samples(header.color_type) * header.bit_depth,
        header.bytes_per_pixel() == png::distance(header.color_type, header.bit_depth),
        png::samples(header.color_type) * header.bit_depth >= 8 ==> 8 * header.bytes_per_pixel()
            == png::samples(header.color_type) * header.bit_depth,
        png::samples(header.color_type) * header.bit_depth < 8 ==> header.bytes_per_pixel() == 1,
        header.bytes_per_scanline() == png::row_len(
            header.width as nat,
            header.color_type,
            header.bit_depth,
        ),
        header.output_stride(has_transparency) == if header.color_type != 3 {
            png::row_len(header.width as nat, header.color_type, header.bit_depth)
        } else if has_transparency {
            4 * header.width as nat
        } else {
            3 * header.width as nat
        },
{
    let n = png::samples(header.color_type);
    let d = header.bit_depth as nat;
    let w = header.width as nat;
    assert(n * d == d * n) by (nonlinear_arith);
    if d == 16 {
        assert(w * (n * d) == 8 * (2 * n * w)) by (nonlinear_arith)
            requires
                d == 16,
        ;
        if n == 1 {
            assert(n * d == 16);
        } else if n == 2 {
            assert(n * d == 32);
        } else if n == 3 {
            assert(n * d == 48);
        } else {
            assert(n * d == 64);
        }
    } else if d == 8 {
        assert(w * (n * d) == 8 * (n * w)) by (nonlinear_arith)
            requires
                d == 8,
        ;
        if n == 1 {
            assert(n * d == 8);
        } else if n == 2 {
            assert(n * d == 16);
        } else if n == 3 {
            assert(n * d == 24);
        } else {
            assert(n * d == 32);
        }
    } else {
        assert(n == 1);
        assert(n * d == d);
        if d == 4 {
            assert(w * (n * d) == 4 * w) by (nonlinear_arith)
                requires
                    n * d == 4,
            ;
        } else if d == 2 {
            assert(w * (n * d) == 2 * w) by (nonlinear_arith)
                requires
                    n * d == 2,
            ;
        } else {
            assert(w * (n * d) == w) by (nonlinear_arith)
                requires
                    n * d == 1,
            ;
        }
    }
}

/// Law: whatever its depth, a pixel has the samples of its colour type, a row has
/// the fewest bytes that hold its bits, and the left neighbour of a byte is the
/// whole bytes of a pixel back, and at least one. Only the five colour types of
/// PNG have sizes, and only where these are within the machine's range.
pub proof fn law_sizes_of_any_depth(header: Header, has_transparency: bool)
    ensures
        header::channels_of(header.color_type) is Some <==> header.color_type == 0
            || header.color_type == 2 || header.color_type == 3 || header.color_type == 4
            || header.color_type == 6,
        header::channels_of(header.color_type) is Some ==> {
            let bits = png::samples(header.color_type) * header.bit_depth as nat;
            let row = header.width as nat * bits;
            let stride = if header.color_type != 3 {
                header.bytes_per_scanline() as int
            } else if has_transparency {
                4 * header.width
            } else {
                3 * header.width
            };
            &&& row <= 8 * header.bytes_per_scanline() < row + 8
            &&& header.bytes_per_pixel() >= 1
            &&& 8 * header.bytes_per_pixel() <= bits || (bits < 8 && header.bytes_per_pixel() == 1)
            &&& bits < 8 * header.bytes_per_pixel() + 8
            &&& header.output_stride(has_transparency) == stride
            &&& header.measurable(has_transparency) <==> row + 7 <= usize::MAX && stride
                <= usize::MAX
        },
        header::channels_of(header.color_type) is None ==> !header.measurable(has_transparency),
{
    let n = png::samples(header.color_type);
    let d = header.bit_depth as nat;
    assert(header::channels_of(header.color_type) is Some ==> header.bits_per_pixel() == n * d);
    assert(0 <= header.width * (n * d)) by (nonlinear_arith);
}

/// Law: a filtered row is restored, whatever the filter, the distance of pixels
/// and the row above.
pub proof fn law_filters_undone(filter: u8, distance: nat, row: Seq<u8>, above: Seq<u8>)
    requires
        filter <= 4,
        0 < distance,
        above.len() == row.len(),
    ensures
        filter::restored(filter, distance, png::filtered(filter, distance, row, above), above)
            == row,
{
    lemma_filtered(filter, distance, row, above);
    filter::law_restoring_undoes_filtering(filter, distance, row, above);
}

/// Both accounts of a filtered row agree.
proof fn lemma_filtered(filter: u8, distance: nat, row: Seq<u8>, above: Seq<u8>)
    requires
        filter <= 4,
        0 < distance,
        above.len() == row.len(),
    ensures
        filter::filtered(filter, distance, row, above) == png::filtered(
            filter,
            distance,
            row,
            above,
        ),
{
    let ours = filter::filtered(filter, distance, row, above);
    let theirs = png::filtered(filter, distance, row, above);
    assert forall|i: int| 0 <= i < row.len() implies ours[i] == theirs[i] by {
        let left: u8 = if distance <= i {
            row[i - distance]
        } else {
            0
        };
        let corner: u8 = if distance <= i {
            above[i - distance]
        } else {
            0
        };
        assert(filter::prediction(filter, left, above[i], corner) == png::taken_off(
            filter,
            distance,
            row,
            above,
            i,
        ));
    }
    assert(ours =~= theirs);
}

/// Law: restoring a row by each of the filters, byte by byte: `None` keeps the
/// bytes, `Sub` adds the byte a pixel to the left, `Up` the byte above, `Average`
/// half of their sum, and `Paeth` that of left, above and above left which is
/// nearest to left plus above minus above left.
pub proof fn law_filters_by_byte(
    filter: u8,
    distance: nat,
    line: Seq<u8>,
    above: Seq<u8>,
    i: int,
)
    requires
        filter <= 4,
        0 < distance,
        above.len() == line.len(),
        0 <= i < line.len(),
    ensures
        ({
            let row = filter::restored(filter, distance, line, above);
            let left = if i < distance {
                0
            } else {
                row[i - distance] as int
            };
            let up = above[i] as int;
            let corner = if i < distance {
                0
            } else {
                above[i - distance] as int
            };
            &&& row.len() == line.len()
            &&& filter == 0 ==> row[i] == line[i]
            &&& filter == 1 ==> row[i] == (line[i] + left) % 256
            &&& filter == 2 ==> row[i] == (line[i] + up) % 256
            &&& filter == 3 ==> row[i] == (line[i] + (left + up) / 2) % 256
            &&& filter == 4 ==> row[i] == (line[i] + png::nearest(left, up, corner)) % 256
        }),
{
    let row = filter::restored(filter, distance, line, above);
    if distance <= i {
        assert(row[i - distance] == filter::restored_byte(
            filter,
            distance,
            line,
            above,
            (i - distance) as nat,
        ));
    }
}

/// Law: the predictor of `Paeth` is one of the three neighbours, none of them is
/// nearer to left plus above minus above left, and of several it is the first.
pub proof fn law_nearest(left: u8, up: u8, corner: u8)
    ensures
        ({
            let aim = left + up - corner;
            let pick = filter::paeth(left, up, corner);
            &&& pick == left || pick == up || pick == corner
            &&& png::gap(aim, pick as int) <= png::gap(aim, left as int)
            &&& png::gap(aim, pick as int) <= png::gap(aim, up as int)
            &&& png::gap(aim, pick as int) <= png::gap(aim, corner as int)
            &&& png::gap(aim, left as int) == png::gap(aim, pick as int) ==> pick == left
            &&& png::gap(aim, up as int) == png::gap(aim, pick as int) ==> pick == left || pick
                == up
        }),
{
}

/// Both accounts of the scanlines of an image agree.
proof fn lemma_scanlines(
    image: Seq<Seq<u8>>,
    filters: Seq<u8>,
    distance: nat,
    width: nat,
    count: nat,
)
    requires
        0 < distance,
        count <= image.len(),
        count <= filters.len(),
        forall|i: int| 0 <= i < image.len() ==> (#[trigger] image[i]).len() == width,
        forall|i: int| 0 <= i < filters.len() ==> #[trigger] filters[i] <= 4,
    ensures
        encoding::encoded(image, filters, distance, width, count) == png::scanlines(
            image,
            filters,
            distance,
            count,
        ),
    decreases count,
{
    if count > 0 {
        let i = count - 1;
        lemma_scanlines(image, filters, distance, width, i as nat);
        assert(image[i].len() == width && image[0].len() == width);
        if i > 0 {
            assert(image[i - 1].len() == width);
        }
        assert(filters[i] <= 4);
        assert(encoding::image_above(image, width, i) =~= png::above(image, i));
        lemma_filtered(filters[i], distance, image[i], png::above(image, i));
    }
}

/// The palette index number `k` of a byte that holds indices of `depth` bits; the
/// first is in the least significant bits.
pub open spec fn index_in(byte: u8, depth: u8, k: int) -> int {
    if depth == 8 {
        byte as int
    } else if depth == 4 {
        if k == 0 {
            byte as int % 16
        } else {
            byte as int / 16
        }
    } else if depth == 2 {
        if k == 0 {
            byte as int % 4
        } else if k == 1 {
            byte as int / 4 % 4
        } else if k == 2 {
            byte as int / 16 % 4
        } else {
            byte as int / 64
        }
    } else {
        if k == 0 {
            byte as int % 2
        } else if k == 1 {
            byte as int / 2 % 2
        } else if k == 2 {
            byte as int / 4 % 2
        } else if k == 3 {
            byte as int / 8 % 2
        } else if k == 4 {
            byte as int / 16 % 2
        } else if k == 5 {
            byte as int / 32 % 2
        } else if k == 6 {
            byte as int / 64 % 2
        } else {
            byte as int / 128
        }
    }
}

/// How many indices of `depth` bits a byte holds.
pub open spec fn in_a_byte(depth: u8) -> int {
    if depth == 8 {
        1
    } else if depth == 4 {
        2
    } else if depth == 2 {
        4
    } else {
        8
    }
}

/// Law: the indices of a byte are its bits, `depth` at a time.
pub proof fn law_indices(byte: u8, depth: u8, k: int)
    requires
        depth == 1 || depth == 2 || depth == 4 || depth == 8,
        0 <= k < in_a_byte(depth),
    ensures
        palette::pixels_per_byte(depth) == in_a_byte(depth),
        palette::packed_index(byte, depth, k) == index_in(byte, depth, k),
{
    power2::lemma2_to64();
    let shift = (k * depth) as nat;
    let b = byte as nat;
    assert(palette::pixels_per_byte(depth) == in_a_byte(depth));
    if depth == 8 {
        assert(k == 0 && shift == 0);
        assert(b / power2::pow2(0) == b);
        assert(b % power2::pow2(8) == b);
    } else if depth == 4 {
        if k == 0 {
            assert(shift == 0);
            assert(b / power2::pow2(0) == b);
        } else {
            assert(shift == 4);
            assert(b / power2::pow2(4) == b / 16);
        }
        assert(power2::pow2(4) == 16);
    } else if depth == 2 {
        if k == 0 {
            assert(shift == 0);
            assert(b / power2::pow2(0) == b);
        } else if k == 1 {
            assert(shift == 2);
            assert(b / power2::pow2(2) == b / 4);
        } else if k == 2 {
            assert(shift == 4);
            assert(b / power2::pow2(4) == b / 16);
        } else {
            assert(shift == 6);
            assert(b / power2::pow2(6) == b / 64);
        }
        assert(power2::pow2(2) == 4);
    } else {
        assert(shift == k);
        assert(power2::pow2(1) == 2);
        if k == 0 {
            assert(b / power2::pow2(0) == b);
        } else if k == 1 {
            assert(b / power2::pow2(1) == b / 2);
        } else if k == 2 {
            assert(b / power2::pow2(2) == b / 4);
        } else if k == 3 {
            assert(b / power2::pow2(3) == b / 8);
        } else if k == 4 {
            assert(b / power2::pow2(4) == b / 16);
        } else if k == 5 {
            assert(b / power2::pow2(5) == b / 32);
        } else if k == 6 {
            assert(b / power2::pow2(6) == b / 64);
        } else {
            assert(b / power2::pow2(7) == b / 128);
        }
    }
}

/// The bytes of the pixel with a palette index: the three of its colour, black
/// where the palette has no such entry, and with transparency its alpha, opaque
/// where the transparency has no such entry.
pub open spec fn pixel_is(
    bytes: Seq<u8>,
    at: int,
    colours: Seq<[u8; 3]>,
    transparency: Seq<u8>,
    index: int,
) -> bool {
    &&& index < colours.len() ==> bytes[at] == colours[index][0] && bytes[at + 1]
        == colours[index][1] && bytes[at + 2] == colours[index][2]
    &&& index >= colours.len() ==> bytes[at] == 0 && bytes[at + 1] == 0 && bytes[at + 2] == 0
    &&& 0 < transparency.len() && index < transparency.len() ==> bytes[at + 3]
        == transparency[index]
    &&& 0 < transparency.len() <= index ==> bytes[at + 3] == 255
}

/// Law: pixel `x` of an expanded row is the colour of its index, for every palette,
/// every transparency and every depth.
pub proof fn law_palette_colours(
    colours: Seq<[u8; 3]>,
    transparency: Seq<u8>,
    depth: u8,
    row: Seq<u8>,
    x: int,
)
    requires
        depth == 1 || depth == 2 || depth == 4 || depth == 8,
        0 <= x < row.len() * in_a_byte(depth),
    ensures
        ({
            let size = if transparency.len() > 0 {
                4int
            } else {
                3
            };
            let expanded = palette::expanded_row(colours, transparency, depth, row);
            &&& expanded.len() == row.len() * in_a_byte(depth) * size
            &&& 0 <= size * x
            &&& size * x + size <= expanded.len()
            &&& 0 <= x / in_a_byte(depth) < row.len()
            &&& pixel_is(
                expanded,
                size * x,
                colours,
                transparency,
                index_in(row[x / in_a_byte(depth)], depth, x % in_a_byte(depth)),
            )
        }),
{
    let size: int = if transparency.len() > 0 {
        4
    } else {
        3
    };
    let per = in_a_byte(depth);
    let count = row.len() * per;
    let expanded = palette::expanded_row(colours, transparency, depth, row);
    let byte = row[x / per];
    let k = x % per;
    assert(0 <= x / per < row.len() && 0 <= k < per);
    law_indices(byte, depth, k);
    assert(size * x + size <= count * size) by (nonlinear_arith)
        requires
            x + 1 <= count,
            0 < size,
    ;
    assert(expanded.len() == count * size) by {
        assert(0 <= count * size) by (nonlinear_arith)
            requires
                0 <= count,
                0 < size,
        ;
    }
    let index = palette::packed_index(byte, depth, k);
    assert forall|c: int| 0 <= c < size implies #[trigger] expanded[size * x + c]
        == palette::channel(colours, transparency, index, c) by {
        div_mod::lemma_fundamental_div_mod_converse(size * x + c, size, x, c);
    }
    assert(expanded[size * x + 0] == palette::channel(colours, transparency, index, 0));
    assert(expanded[size * x + 1] == palette::channel(colours, transparency, index, 1));
    assert(expanded[size * x + 2] == palette::channel(colours, transparency, index, 2));
    if size == 4 {
        assert(expanded[size * x + 3] == palette::channel(colours, transparency, index, 3));
    }
}

/// The signature of a PNG stream.
pub open spec fn signature() -> Seq<u8> {
    seq![137u8, 80, 78, 71, 13, 10, 26, 10]
}

/// The names of chunks.
pub open spec fn ihdr() -> Seq<u8> {
    seq![73u8, 72, 68, 82]
}

pub open spec fn plte() -> Seq<u8> {
    seq![80u8, 76, 84, 69]
}

pub open spec fn trns() -> Seq<u8> {
    seq![116u8, 82, 78, 83]
}

pub open spec fn idat() -> Seq<u8> {
    seq![73u8, 68, 65, 84]
}

/// The number in four bytes of a stream.
pub open spec fn number_at(stream: Seq<u8>, at: int) -> int {
    stream[at] * 16777216 + stream[at + 1] * 65536 + stream[at + 2] * 256 + stream[at + 3]
}

/// The names that the decoder goes by are those of PNG.
proof fn lemma_names()
    ensures
        header::PNG_MAGIC@ == signature(),
        header::ihdr_type() == ihdr(),
        header::plte_type() == plte(),
        header::trns_type() == trns(),
        header::idat_type() == idat(),
        header::iend_type() == seq![73u8, 69, 78, 68],
        ihdr() != plte() && ihdr() != trns() && ihdr() != idat(),
        plte() != trns() && plte() != idat() && trns() != idat(),
{
    assert(header::PNG_MAGIC@ =~= signature());
    assert(ihdr()[0] != plte()[0] && ihdr()[0] != trns()[0] && ihdr()[1] != idat()[1]);
    assert(plte()[0] != trns()[0] && plte()[0] != idat()[0] && trns()[0] != idat()[0]);
}

/// Law: chunk types are told apart by their four letters.
pub proof fn law_chunk_types(name: Seq<u8>)
    ensures
        header::chunk_kind(name) == ChunkKind::Ihdr <==> name == ihdr(),
        header::chunk_kind(name) == ChunkKind::Plte <==> name == plte(),
        header::chunk_kind(name) == ChunkKind::Trns <==> name == trns(),
        header::chunk_kind(name) == ChunkKind::Idat <==> name == idat(),
        header::chunk_kind(name) == ChunkKind::Iend <==> name == seq![73u8, 69, 78, 68],
{
    lemma_names();
    let iend = seq![73u8, 69, 78, 68];
    assert(iend[1] != ihdr()[1] && iend[0] != plte()[0] && iend[0] != trns()[0] && iend[1]
        != idat()[1]);
}

/// Law: a palette chunk holds an entry in each three bytes, red, green and blue.
pub proof fn law_palette_entries(data: Seq<u8>, i: int)
    requires
        0 <= i < data.len() / 3,
    ensures
        header::palette_entries(data).len() == data.len() / 3,
        header::palette_entries(data)[i][0] == data[3 * i],
        header::palette_entries(data)[i][1] == data[3 * i + 1],
        header::palette_entries(data)[i][2] == data[3 * i + 2],
{
}

/// An opening that comes to a decoder has kept its header, and has found an image
/// data chunk.
proof fn lemma_chunks_opened_keep(
    header: Header,
    colours: Seq<[u8; 3]>,
    transparency: Seq<u8>,
    chunks: Seq<u8>,
)
    ensures
        open_laws::chunks_opened(header, colours, transparency, chunks).0 matches OpenNext::Opened(
            v,
        ) ==> v.header == header && v.current_y == 0 && !v.corrupted && chunks.len() >= 8,
    decreases chunks.len(),
{
    if chunks.len() >= 8 {
        let len = header::be_u32(chunks, 0) as int;
        let name = chunks.subrange(4, 8);
        let body = chunks.skip(8);
        if body.len() >= len + 4 {
            let data = body.take(len);
            let rest = body.skip(len + 4);
            lemma_chunks_opened_keep(
                header,
                colours + header::palette_entries(data),
                transparency,
                rest,
            );
            lemma_chunks_opened_keep(header, colours, data, rest);
            lemma_chunks_opened_keep(header, colours, transparency, rest);
        }
    }
}

/// Law: a stream that is opened starts with the signature and an image header
/// chunk of 13 bytes with the right checksum, is not interlaced, and has one of
/// the five colour types; the decoder has the width, height, depth and colour type
/// that stand there.
pub proof fn law_opened_streams(stream: Seq<u8>)
    ensures
        open_laws::opened_over(OpeningView::start(), stream).0 matches OpenNext::Opened(v) ==> {
            let color_type = stream[25];
            &&& stream.len() >= 41
            &&& stream.take(8) == signature()
            &&& number_at(stream, 8) == 13
            &&& stream.subrange(12, 16) == ihdr()
            &&& number_at(stream, 29) == checksum::crc32(stream.subrange(12, 29))
            &&& stream[28] == 0
            &&& color_type == 0 || color_type == 2 || color_type == 3 || color_type == 4
                || color_type == 6
            &&& v.header.width == number_at(stream, 16)
            &&& v.header.height == number_at(stream, 20)
            &&& v.header.bit_depth == stream[24]
            &&& v.header.color_type == color_type
            &&& v.current_y == 0
            &&& !v.corrupted
        },
{
    lemma_names();
    open_laws::law_opening(stream);
    if stream.len() >= 33 {
        let data = stream.subrange(16, 29);
        assert(stream.subrange(12, 29) =~= stream.subrange(12, 16) + data);
        let stored = stream.subrange(29, 33);
        if let Ok(header) = header::header_in(
            data,
            stored,
            checksum::crc32(header::ihdr_type() + data),
        ) {
            lemma_chunks_opened_keep(header, Seq::empty(), Seq::empty(), stream.skip(33));
        }
    }
}

/// A stream that starts with the signature and the image header `data` with its
/// right checksum.
pub open spec fn started(data: Seq<u8>, rest: Seq<u8>) -> Seq<u8> {
    signature() + png::chunk(ihdr(), data) + rest
}

proof fn lemma_started(data: Seq<u8>, rest: Seq<u8>)
    requires
        data.len() == 13,
    ensures
        ({
            let stream = started(data, rest);
            let sum = checksum::crc32(ihdr() + data);
            &&& stream.len() == 33 + rest.len()
            &&& stream.take(8) == signature()
            &&& stream.subrange(12, 16) == ihdr()
            &&& header::be_u32(stream, 8) == 13
            &&& stream.subrange(16, 29) == data
            &&& header::be_u32(stream.subrange(29, 33), 0) == sum
            &&& stream.skip(33) == rest
        }),
{
    let stream = started(data, rest);
    let sum = checksum::crc32(ihdr() + data);
    assert(stream.take(8) =~= signature());
    assert(stream.subrange(8, 12) =~= png::four_bytes(13));
    assert(png::four_bytes(13) =~= seq![0u8, 0, 0, 13]);
    assert(stream[8] == stream.subrange(8, 12)[0] && stream[9] == stream.subrange(8, 12)[1]
        && stream[10] == stream.subrange(8, 12)[2] && stream[11] == stream.subrange(8, 12)[3]);
    assert(stream.subrange(12, 16) =~= ihdr());
    assert(stream.subrange(16, 29) =~= data);
    assert(stream.subrange(29, 33) =~= png::four_bytes(sum as nat));
    chunk_laws::lemma_four_bytes(sum);
    assert(stream.skip(33) =~= rest);
}

/// Law: an interlaced image is refused, whatever its width, height, depth and
/// colour type, and whatever follows.
pub proof fn law_interlaced_refused(data: Seq<u8>, rest: Seq<u8>)
    requires
        data.len() == 13,
        data[12] != 0,
    ensures
        open_laws::opened_over(OpeningView::start(), started(data, rest)).0 == OpenNext::Failed(
            PngError::Interlaced,
        ),
{
    lemma_names();
    lemma_started(data, rest);
    open_laws::law_opening(started(data, rest));
}

/// Law: an image of a colour type that PNG does not have is refused.
pub proof fn law_unknown_colour_type_refused(data: Seq<u8>, rest: Seq<u8>)
    requires
        data.len() == 13,
        data[12] == 0,
        data[9] != 0 && data[9] != 2 && data[9] != 3 && data[9] != 4 && data[9] != 6,
    ensures
        open_laws::opened_over(OpeningView::start(), started(data, rest)).0 == OpenNext::Failed(
            PngError::UnknownColorType,
        ),
{
    lemma_names();
    lemma_started(data, rest);
    open_laws::law_opening(started(data, rest));
}

/// Law: a stream with another signature is refused, and one that breaks off in
/// its signature.
pub proof fn law_other_streams_refused(stream: Seq<u8>)
    requires
        stream.len() >= 8 ==> stream.take(8) != signature(),
    ensures
        open_laws::opened_over(OpeningView::start(), stream).0 == OpenNext::Failed(
            if stream.len() < 8 {
                PngError::MagicUnreadable
            } else {
                PngError::NotPng
            },
        ),
{
    lemma_names();
    open_laws::law_opening(stream);
}

/// Law: a stream whose first chunk is not an image header of 13 bytes is refused;
/// one that breaks off in it is refused by the part that is missing; and one whose
/// image header has a wrong checksum is refused whatever it says.
pub proof fn law_image_header_demanded(stream: Seq<u8>)
    requires
        stream.len() >= 8,
        stream.take(8) == signature(),
    ensures
        ({
            let end = open_laws::opened_over(OpeningView::start(), stream).0;
            &&& stream.len() < 16 ==> end == OpenNext::Failed(PngError::EndOfFile)
            &&& stream.len() >= 16 && (stream.subrange(12, 16) != ihdr() || number_at(stream, 8)
                != 13) ==> end == OpenNext::Failed(PngError::IhdrMissing)
            &&& stream.len() >= 16 && stream.subrange(12, 16) == ihdr() && number_at(stream, 8)
                == 13 ==> {
                &&& stream.len() < 29 ==> end == OpenNext::Failed(PngError::IhdrUnreadable)
                &&& 29 <= stream.len() < 33 ==> end == OpenNext::Failed(
                    PngError::IhdrCrcUnreadable,
                )
                &&& 33 <= stream.len() && number_at(stream, 29) != checksum::crc32(
                    ihdr() + stream.subrange(16, 29),
                ) ==> end == OpenNext::Failed(PngError::IhdrCorrupt)
            }
        }),
{
    lemma_names();
    open_laws::law_opening(stream);
    if stream.len() >= 33 {
        let stored = stream.subrange(29, 33);
        assert(stored[0] == stream[29] && stored[1] == stream[30] && stored[2] == stream[31]
            && stored[3] == stream[32]);
    }
}

/// The colours of the palette chunks among `chunks`, one after another.
pub open spec fn colours_of(chunks: Seq<Passed>) -> Seq<[u8; 3]>
    decreases chunks.len(),
{
    if chunks.len() == 0 {
        Seq::empty()
    } else {
        let last = chunks.last();
        let before = colours_of(chunks.drop_last());
        if last.name == plte() {
            before + Seq::new(
                last.data.len() / 3,
                |i: int| [last.data[3 * i], last.data[3 * i + 1], last.data[3 * i + 2]],
            )
        } else {
            before
        }
    }
}

/// The data of the last transparency chunk among `chunks` that has its right
/// checksum.
pub open spec fn transparency_of(chunks: Seq<Passed>) -> Seq<u8>
    decreases chunks.len(),
{
    if chunks.len() == 0 {
        Seq::empty()
    } else {
        let last = chunks.last();
        if last.name == trns() && last.stored == png::four_bytes(
            checksum::crc32(trns() + last.data) as nat,
        ) {
            last.data
        } else {
            transparency_of(chunks.drop_last())
        }
    }
}

/// Chunks that can stand in front of the image data: none of them is image data,
/// and palettes have their right checksums.
pub open spec fn leading(chunks: Seq<Passed>) -> bool {
    forall|i: int| 0 <= i < chunks.len() ==> leading_chunk(#[trigger] chunks[i])
}

/// A chunk that can stand in front of the image data.
pub open spec fn leading_chunk(one: Passed) -> bool {
    &&& one.name.len() == 4
    &&& one.name != idat()
    &&& one.data.len() <= u32::MAX
    &&& one.stored.len() == 4
    &&& one.name == plte() ==> one.stored == png::four_bytes(
        checksum::crc32(plte() + one.data) as nat,
    )
}

/// The bytes of chunks.
pub open spec fn chunks_bytes(chunks: Seq<Passed>) -> Seq<u8>
    decreases chunks.len(),
{
    if chunks.len() == 0 {
        Seq::empty()
    } else {
        let last = chunks.last();
        chunks_bytes(chunks.drop_last()) + (png::four_bytes(last.data.len()) + last.name
            + last.data + last.stored)
    }
}

/// A chunk at the front of a stream is taken apart again.
proof fn lemma_parts(one: Passed, rest: Seq<u8>)
    requires
        one.name.len() == 4,
        one.data.len() <= u32::MAX,
        one.stored.len() == 4,
    ensures
        ({
            let stream = png::four_bytes(one.data.len()) + one.name + one.data + one.stored + rest;
            let len = one.data.len() as int;
            &&& stream.len() == 12 + len + rest.len()
            &&& header::be_u32(stream, 0) == len
            &&& stream.subrange(4, 8) == one.name
            &&& stream.skip(8).take(len) == one.data
            &&& stream.skip(8).subrange(len, len + 4) == one.stored
            &&& stream.skip(8).skip(len + 4) == rest
        }),
{
    let stream = png::four_bytes(one.data.len()) + one.name + one.data + one.stored + rest;
    let len = one.data.len() as int;
    chunk_laws::lemma_four_bytes(one.data.len() as u32);
    assert(stream =~= png::four_bytes(one.data.len()) + (one.name + one.data + one.stored + rest));
    assert(stream.subrange(4, 8) =~= one.name);
    assert(stream.skip(8).take(len) =~= one.data);
    assert(stream.skip(8).subrange(len, len + 4) =~= one.stored);
    assert(stream.skip(8).skip(len + 4) =~= rest);
}

/// Four bytes are those of the number in them.
proof fn lemma_number_kept(stored: Seq<u8>, n: u32)
    requires
        stored.len() == 4,
    ensures
        header::be_u32(stored, 0) == n <==> stored == png::four_bytes(n as nat),
{
    chunk_laws::lemma_four_bytes(n);
    if header::be_u32(stored, 0) == n {
        let b = png::four_bytes(n as nat);
        assert(stored[0] * 0x1000000 + stored[1] * 0x10000 + stored[2] * 0x100 + stored[3] == n);
        assert(stored =~= b);
    }
}

/// Walking over leading chunks gathers palette and transparency.
proof fn lemma_leading(header: Header, chunks: Seq<Passed>, rest: Seq<u8>)
    requires
        leading(chunks),
    ensures
        open_laws::chunks_opened(header, Seq::empty(), Seq::empty(), chunks_bytes(chunks) + rest)
            == open_laws::chunks_opened(
            header,
            colours_of(chunks),
            transparency_of(chunks),
            rest,
        ),
    decreases chunks.len(),
{
    if chunks.len() == 0 {
        assert(chunks_bytes(chunks) + rest =~= rest);
    } else {
        let last = chunks.last();
        let front = chunks.drop_last();
        assert(leading_chunk(chunks[chunks.len() - 1]));
        assert(leading(front)) by {
            assert forall|i: int| 0 <= i < front.len() implies leading_chunk(
                #[trigger] front[i],
            ) by {
                assert(leading_chunk(chunks[i]));
            }
        }
        let bytes = png::four_bytes(last.data.len()) + last.name + last.data + last.stored;
        assert(chunks_bytes(chunks) + rest =~= chunks_bytes(front) + (bytes + rest));
        lemma_leading(header, front, bytes + rest);
        lemma_parts(last, rest);
        lemma_names();
        law_chunk_types(last.name);
        let colours = colours_of(front);
        if last.name == plte() {
            lemma_number_kept(last.stored, checksum::crc32(plte() + last.data));
            let entries = Seq::new(
                last.data.len() / 3,
                |i: int| [last.data[3 * i], last.data[3 * i + 1], last.data[3 * i + 2]],
            );
            assert(header::palette_entries(last.data) =~= entries);
        } else if last.name == trns() {
            lemma_number_kept(last.stored, checksum::crc32(trns() + last.data));
        }
    }
}

/// The data of the image header chunk of an image that is not interlaced.
pub open spec fn header_data(header: Header, compression: u8, filter: u8) -> Seq<u8> {
    png::four_bytes(header.width as nat) + png::four_bytes(header.height as nat) + seq![
        header.bit_depth,
        header.color_type,
        compression,
        filter,
        0,
    ]
}

/// Law: opening a stream, byte by byte: behind the signature and a sound image
/// header come any chunks but image data, and then the first image data chunk. The
/// decoder has the width, height, depth and colour type of the header, the colours
/// of the palette chunks, and the transparency of the last sound transparency
/// chunk; other chunks make no difference, sound or not. It stands at the data of
/// the image data chunk, all of which is still to be read.
pub proof fn law_stream_opened(
    header: Header,
    compression: u8,
    filter: u8,
    chunks: Seq<Passed>,
    len: u32,
    rest: Seq<u8>,
)
    requires
        header.color_type == 0 || header.color_type == 2 || header.color_type == 3
            || header.color_type == 4 || header.color_type == 6,
        leading(chunks),
        header.measurable(transparency_of(chunks).len() > 0),
    ensures
        ({
            let data = header_data(header, compression, filter);
            let stream = started(
                data,
                chunks_bytes(chunks) + (png::four_bytes(len as nat) + idat() + rest),
            );
            let (end, left) = open_laws::opened_over(OpeningView::start(), stream);
            &&& left == rest
            &&& end == OpenNext::Opened(
                DecoderView::fresh(
                    header,
                    colours_of(chunks),
                    transparency_of(chunks),
                    len as nat,
                ),
            )
        }),
{
    let data = header_data(header, compression, filter);
    let at_data = png::four_bytes(len as nat) + idat() + rest;
    let body = chunks_bytes(chunks) + at_data;
    lemma_names();
    lemma_header_data(header, compression, filter);
    lemma_started(data, body);
    open_laws::law_opening(started(data, body));
    lemma_leading(header, chunks, at_data);
    lemma_at_image_data(header, colours_of(chunks), transparency_of(chunks), len, rest);
}

/// The data of an image header chunk that is read back.
proof fn lemma_header_data(header: Header, compression: u8, filter: u8)
    requires
        header.color_type == 0 || header.color_type == 2 || header.color_type == 3
            || header.color_type == 4 || header.color_type == 6,
    ensures
        header_data(header, compression, filter).len() == 13,
        forall|stored: Seq<u8>, sum: u32|
            header::be_u32(stored, 0) == sum ==> #[trigger] header::header_in(
                header_data(header, compression, filter),
                stored,
                sum,
            ) == Ok::<Header, PngError>(header),
{
    let data = header_data(header, compression, filter);
    chunk_laws::lemma_four_bytes(header.width);
    chunk_laws::lemma_four_bytes(header.height);
    assert(data.subrange(0, 4) =~= png::four_bytes(header.width as nat));
    assert(data.subrange(4, 8) =~= png::four_bytes(header.height as nat));
    assert(header::be_u32(data, 0) == header::be_u32(data.subrange(0, 4), 0));
    assert(header::be_u32(data, 4) == header::be_u32(data.subrange(4, 8), 0));
}

/// The first image data chunk ends the opening.
proof fn lemma_at_image_data(
    header: Header,
    colours: Seq<[u8; 3]>,
    transparency: Seq<u8>,
    len: u32,
    rest: Seq<u8>,
)
    requires
        header.measurable(transparency.len() > 0),
    ensures
        open_laws::chunks_opened(
            header,
            colours,
            transparency,
            png::four_bytes(len as nat) + idat() + rest,
        ) == (
            OpenNext::Opened(DecoderView::fresh(header, colours, transparency, len as nat)),
            rest,
        ),
{
    let at_data = png::four_bytes(len as nat) + idat() + rest;
    chunk_laws::lemma_four_bytes(len);
    assert(at_data =~= png::four_bytes(len as nat) + (idat() + rest));
    assert(at_data.subrange(4, 8) =~= idat());
    assert(at_data.skip(8) =~= rest);
    law_chunk_types(idat());
}

/// The rows of an image, end to end.
proof fn lemma_rows_of_image(
    v: DecoderView,
    image: Seq<Seq<u8>>,
    to: nat,
    stride: nat,
    r: int,
    j: int,
)
    requires
        0 <= r < to <= image.len(),
        0 <= j < stride,
        forall|i: int| 0 <= i < image.len() ==> v.row_out(#[trigger] image[i]).len() == stride,
    ensures
        v.image_out(image, 0, to).len() == to * stride,
        0 <= r * stride + j < to * stride,
        v.image_out(image, 0, to)[r * stride + j] == v.row_out(image[r])[j],
    decreases to,
{
    let last = (to - 1) as nat;
    assert(v.row_out(image[last as int]).len() == stride);
    assert(to * stride == last * stride + stride) by (nonlinear_arith)
        requires
            to == last + 1,
    ;
    assert(0 <= r * stride) by (nonlinear_arith)
        requires
            0 <= r,
    ;
    if last == 0 {
        assert(v.image_out(image, 0, last).len() == 0);
        assert(0 * stride == 0);
    } else {
        lemma_rows_of_image(
            v,
            image,
            last,
            stride,
            if r < last {
                r
            } else {
                0
            },
            j,
        );
    }
    if r < last {
        assert(r * stride + stride <= last * stride) by (nonlinear_arith)
            requires
                r + 1 <= last,
        ;
    }
}

/// A row of palette indices fills whole bytes.
pub open spec fn whole_bytes(width: u32, depth: u8) -> bool {
    ||| depth == 8
    ||| depth == 4 && width % 2 == 0
    ||| depth == 2 && width % 4 == 0
    ||| depth == 1 && width % 8 == 0
}

/// The bytes of a row as it is handed out.
pub open spec fn stride_of(header: Header, transparency: Seq<u8>) -> nat {
    if header.color_type != 3 {
        png::row_len(header.width as nat, header.color_type, header.bit_depth)
    } else if transparency.len() > 0 {
        4 * header.width as nat
    } else {
        3 * header.width as nat
    }
}

/// `bytes` are the rows of `image`. Without a palette they are the bytes of the
/// rows; with a palette they are the colours of their indices.
pub open spec fn shows(
    bytes: Seq<u8>,
    header: Header,
    colours: Seq<[u8; 3]>,
    transparency: Seq<u8>,
    image: Seq<Seq<u8>>,
) -> bool {
    let stride = stride_of(header, transparency) as int;
    &&& bytes.len() == header.height * stride
    &&& header.color_type != 3 ==> forall|r: int, j: int|
        #![trigger image[r][j]]
        0 <= r < header.height && 0 <= j < stride ==> bytes[r * stride + j] == image[r][j]
    &&& header.color_type == 3 ==> forall|r: int, x: int|
        #![trigger image[r], index_in(image[r][x / in_a_byte(header.bit_depth)], header.bit_depth, x % in_a_byte(header.bit_depth))]
        0 <= r < header.height && 0 <= x < header.width ==> pixel_is(
            bytes,
            r * stride + (if transparency.len() > 0 {
                4int
            } else {
                3
            }) * x,
            colours,
            transparency,
            index_in(
                image[r][x / in_a_byte(header.bit_depth)],
                header.bit_depth,
                x % in_a_byte(header.bit_depth),
            ),
        )
}

/// A PNG image and the way its data comes: rows of the right length, filters that
/// PNG has, and image data in sound chunks that inflates to just the scanlines.
pub open spec fn sound_image(
    header: Header,
    transparency: Seq<u8>,
    image: Seq<Seq<u8>>,
    filters: Seq<u8>,
    chunks: Seq<DataChunk>,
) -> bool {
    let row = png::row_len(header.width as nat, header.color_type, header.bit_depth);
    let pieces = chunk_laws::all_pieces(chunks);
    let distance = png::distance(header.color_type, header.bit_depth);
    &&& png::allowed(header.color_type, header.bit_depth)
    &&& header.width > 0
    &&& header.height > 0
    &&& header.color_type == 3 ==> whole_bytes(header.width, header.bit_depth)
    &&& header.width * 64 + 7 <= usize::MAX
    &&& header.height * (row + 1) <= usize::MAX
    &&& header.height * stride_of(header, transparency) <= usize::MAX
    &&& image.len() == header.height
    &&& filters.len() == header.height
    &&& forall|i: int| 0 <= i < image.len() ==> (#[trigger] image[i]).len() == row
    &&& forall|i: int| 0 <= i < filters.len() ==> #[trigger] filters[i] <= 4
    &&& chunks.len() > 0
    &&& chunk_laws::well_cut(chunks)
    &&& cut_laws::pieces_inflate(
        Seq::empty(),
        Seq::empty(),
        chunk_laws::flat(pieces).len(),
        pieces,
    )
    &&& cut_laws::gathered(Seq::empty(), Seq::empty(), chunks[0].pieces).len() > 0
    &&& cut_laws::gathered(Seq::empty(), Seq::empty(), pieces) == png::scanlines(
        image,
        filters,
        distance,
        header.height as nat,
    )
}

/// The sizes of a sound image are within range.
proof fn lemma_sound_sizes(header: Header, has_transparency: bool)
    requires
        png::allowed(header.color_type, header.bit_depth),
        header.width > 0,
        header.color_type == 3 ==> whole_bytes(header.width, header.bit_depth),
        header.width * 64 + 7 <= usize::MAX,
    ensures
        header.measurable(has_transparency),
        cut_laws::ordinary_header(header),
{
    law_sizes(header, has_transparency);
    let n = png::samples(header.color_type);
    let d = header.bit_depth as nat;
    assert(n * d <= 64) by (nonlinear_arith)
        requires
            n <= 4,
            d <= 16,
    ;
    assert(header.width * (n * d) <= header.width * 64) by (nonlinear_arith)
        requires
            n * d <= 64,
    ;
    if header.color_type == 3 {
        law_indices(0, header.bit_depth, 0);
    }
}

/// Law: a sound PNG image is decoded to its rows. For every colour type and depth,
/// whatever the filters of its rows, however its data is cut into chunks and
/// reads, whatever chunks stand between them, and however it is cut into batches,
/// the bytes handed out are the rows of the image, and it is never found corrupt.
pub proof fn law_image_shown(
    header: Header,
    colours: Seq<[u8; 3]>,
    transparency: Seq<u8>,
    image: Seq<Seq<u8>>,
    filters: Seq<u8>,
    chunks: Seq<DataChunk>,
    tail: Seq<Option<Seq<u8>>>,
    requests: Seq<nat>,
)
    requires
        sound_image(header, transparency, image, filters, chunks),
        header.height <= cut_laws::total(requests),
    ensures
        ({
            let v = DecoderView::fresh(
                header,
                colours,
                transparency,
                chunk_laws::flat(chunks[0].pieces).len(),
            );
            let replies = chunk_laws::answers(chunks) + tail;
            let all = cut_laws::batches(v, requests, replies);
            &&& v.wf()
            &&& cut_laws::batches_answered(v, requests, replies)
            &&& all.action == Action::Done
            &&& !all.decoder.corrupted
            &&& all.decoder.current_y == header.height
            &&& shows(all.bytes, header, colours, transparency, image)
        }),
{
    let first = chunk_laws::flat(chunks[0].pieces).len();
    let v = DecoderView::fresh(header, colours, transparency, first);
    let row = png::row_len(header.width as nat, header.color_type, header.bit_depth);
    let distance = png::distance(header.color_type, header.bit_depth);
    let height = header.height as nat;
    let pieces = chunk_laws::all_pieces(chunks);
    let scan = cut_laws::gathered(Seq::empty(), Seq::empty(), pieces);
    law_sizes(header, transparency.len() > 0);
    lemma_sound_sizes(header, transparency.len() > 0);
    cut_laws::lemma_fresh(header, colours, transparency, first);
    lemma_scanlines(image, filters, distance, row, height);
    encoding::lemma_encoded_len(image, filters, distance, row, height);
    assert(v.bpp() == distance && v.width() == row);
    assert(forall|i: int| 0 <= i < filters.len() ==> filter::known_filter(#[trigger] filters[i]));
    decode_laws::law_encoded_rows_come_out(
        v,
        image,
        filters,
        height,
        Seq::empty(),
        0,
        height,
    );
    assert(scan + Seq::empty() =~= scan);
    chunk_laws::law_image_in_chunks(header, colours, transparency, chunks, tail, requests);
    let bytes = v.image_out(image, 0, height);
    lemma_image_shown(header, colours, transparency, image, v);
}

/// The rows of an image as they are handed out show the image.
proof fn lemma_image_shown(
    header: Header,
    colours: Seq<[u8; 3]>,
    transparency: Seq<u8>,
    image: Seq<Seq<u8>>,
    v: DecoderView,
)
    requires
        png::allowed(header.color_type, header.bit_depth),
        header.width > 0,
        header.height > 0,
        header.color_type == 3 ==> whole_bytes(header.width, header.bit_depth),
        image.len() == header.height,
        forall|i: int|
            0 <= i < image.len() ==> (#[trigger] image[i]).len() == png::row_len(
                header.width as nat,
                header.color_type,
                header.bit_depth,
            ),
        v.layout.color_type == header.color_type,
        v.layout.bit_depth == header.bit_depth,
        v.palette == colours,
        v.transparency == transparency,
    ensures
        shows(
            v.image_out(image, 0, header.height as nat),
            header,
            colours,
            transparency,
            image,
        ),
{
    let height = header.height as nat;
    let stride = stride_of(header, transparency);
    let bytes = v.image_out(image, 0, height);
    let depth = header.bit_depth;
    let per = in_a_byte(depth);
    let width = header.width as int;
    let size: int = if transparency.len() > 0 {
        4
    } else {
        3
    };
    if header.color_type == 3 {
        assert forall|i: int| 0 <= i < image.len() implies v.row_out(#[trigger] image[i]).len()
            == stride by {
            assert(image[i].len() * per == width);
            law_palette_colours(colours, transparency, depth, image[i], 0);
        }
    }
    assert forall|i: int| 0 <= i < image.len() implies v.row_out(#[trigger] image[i]).len()
        == stride by {
        assert(image[i].len() == png::row_len(
            header.width as nat,
            header.color_type,
            header.bit_depth,
        ));
    }
    assert(stride > 0) by {
        assert(image[0].len() == png::row_len(
            header.width as nat,
            header.color_type,
            header.bit_depth,
        ));
        if header.color_type != 3 {
            lemma_row_not_empty(header);
        }
    }
    lemma_rows_of_image(v, image, height, stride, 0, 0);
    if header.color_type != 3 {
        assert forall|r: int, j: int|
            #![trigger image[r][j]]
            0 <= r < header.height && 0 <= j < stride implies bytes[r * stride as int + j]
            == image[r][j] by {
            lemma_rows_of_image(v, image, height, stride, r, j);
        }
    } else {
        assert forall|r: int, x: int|
            #![trigger image[r], index_in(image[r][x / per], depth, x % per)]
            0 <= r < header.height && 0 <= x < header.width implies pixel_is(
            bytes,
            r * stride as int + size * x,
            colours,
            transparency,
            index_in(image[r][x / per], depth, x % per),
        ) by {
            assert(image[r].len() * per == width);
            law_palette_colours(colours, transparency, depth, image[r], x);
            lemma_rows_of_image(v, image, height, stride, r, size * x);
            lemma_rows_of_image(v, image, height, stride, r, size * x + 1);
            lemma_rows_of_image(v, image, height, stride, r, size * x + 2);
            if size == 4 {
                lemma_rows_of_image(v, image, height, stride, r, size * x + 3);
            }
        }
    }
}

proof fn lemma_row_not_empty(header: Header)
    requires
        png::allowed(header.color_type, header.bit_depth),
        header.width > 0,
    ensures
        png::row_len(header.width as nat, header.color_type, header.bit_depth) > 0,
{
    let n = png::samples(header.color_type);
    let w = header.width as nat;
    assert(n * w > 0 && 2 * n * w > 0) by (nonlinear_arith)
        requires
            n > 0,
            w > 0,
    ;
}

} // verus!
