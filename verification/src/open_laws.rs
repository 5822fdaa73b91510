//! What opening a stream comes to, from its first byte to its image data.

use crate::checksum;
use crate::decoder::DecoderView;
use crate::error::PngError;
use crate::header;
use crate::header::{ChunkKind, Header};
use crate::open::{OpenNext, OpenStage, OpeningView};
use vstd::prelude::*;

verus! {

/// How many reads an opening can do without a byte of the stream, at most.
pub open spec fn idle_reads(stage: OpenStage) -> nat {
    match stage {
        OpenStage::PlteData | OpenStage::TrnsData | OpenStage::SkippedData => 2,
        OpenStage::PlteCrc | OpenStage::TrnsCrc | OpenStage::SkippedCrc => 1,
        _ => 0,
    }
}

/// What an opening comes to over the rest of a stream, and what it leaves
/// unread. A read that wants more than there is fails and uses the rest up.
pub open spec fn opened_over(v: OpeningView, stream: Seq<u8>) -> (OpenNext, Seq<u8>)
    decreases stream.len(), idle_reads(v.stage),
    when v.wf()
{
    if v.wanted <= stream.len() {
        let rest = stream.skip(v.wanted as int);
        match v.resumed(Some(stream.take(v.wanted as int))) {
            OpenNext::Need(next) => opened_over(next, rest),
            end => (end, rest),
        }
    } else {
        match v.resumed(None) {
            OpenNext::Need(next) => opened_over(next, Seq::empty()),
            end => (end, Seq::empty()),
        }
    }
}

/// What a stream is opened to from the chunks behind its image header, and
/// what is left unread: palette chunks add to the palette, a transparency
/// chunk replaces the transparency, other chunks are passed over, and the first
/// image data chunk ends it.
pub open spec fn chunks_opened(
    header: Header,
    palette: Seq<[u8; 3]>,
    transparency: Seq<u8>,
    chunks: Seq<u8>,
) -> (OpenNext, Seq<u8>)
    decreases chunks.len(),
{
    if chunks.len() < 8 {
        (OpenNext::Failed(PngError::EndOfFile), Seq::empty())
    } else {
        let len = header::be_u32(chunks, 0) as int;
        let name = chunks.subrange(4, 8);
        let body = chunks.skip(8);
        let data = body.take(len);
        let stored = body.subrange(len, len + 4);
        let rest = body.skip(len + 4);
        match header::chunk_kind(name) {
            ChunkKind::Idat => if header.measurable(transparency.len() > 0) {
                (
                    OpenNext::Opened(
                        DecoderView::fresh(header, palette, transparency, len as nat),
                    ),
                    body,
                )
            } else {
                (OpenNext::TooLarge, body)
            },
            ChunkKind::Plte => if body.len() < len {
                (OpenNext::Failed(PngError::PlteUnreadable), Seq::empty())
            } else if body.len() < len + 4 {
                (OpenNext::Failed(PngError::PlteCrcUnreadable), Seq::empty())
            } else if checksum::crc32(name + data) != header::be_u32(stored, 0) {
                (OpenNext::Failed(PngError::PlteCorrupt), rest)
            } else {
                chunks_opened(
                    header,
                    palette + header::palette_entries(data),
                    transparency,
                    rest,
                )
            },
            ChunkKind::Trns => if body.len() < len {
                (OpenNext::Failed(PngError::TrnsUnreadable), Seq::empty())
            } else if body.len() < len + 4 {
                (OpenNext::Failed(PngError::TrnsCrcUnreadable), Seq::empty())
            } else if checksum::crc32(name + data) != header::be_u32(stored, 0) {
                chunks_opened(header, palette, transparency, rest)
            } else {
                chunks_opened(header, palette, data, rest)
            },
            _ => if body.len() < len + 4 {
                (OpenNext::Failed(PngError::EndOfFile), Seq::empty())
            } else {
                chunks_opened(header, palette, transparency, rest)
            },
        }
    }
}

/// What a stream is opened to, and what is left unread: it starts with the
/// signature and a sound image header chunk.
pub open spec fn stream_opened(stream: Seq<u8>) -> (OpenNext, Seq<u8>) {
    if stream.len() < 8 {
        (OpenNext::Failed(PngError::MagicUnreadable), Seq::empty())
    } else if stream.take(8) != header::PNG_MAGIC@ {
        (OpenNext::Failed(PngError::NotPng), stream.skip(8))
    } else if stream.len() < 16 {
        (OpenNext::Failed(PngError::EndOfFile), Seq::empty())
    } else if stream.subrange(12, 16) != header::ihdr_type() || header::be_u32(stream, 8)
        != header::IHDR_LEN {
        (OpenNext::Failed(PngError::IhdrMissing), stream.skip(16))
    } else if stream.len() < 29 {
        (OpenNext::Failed(PngError::IhdrUnreadable), Seq::empty())
    } else if stream.len() < 33 {
        (OpenNext::Failed(PngError::IhdrCrcUnreadable), Seq::empty())
    } else {
        let ihdr = stream.subrange(16, 29);
        let sum = checksum::crc32(header::ihdr_type() + ihdr);
        match header::header_in(ihdr, stream.subrange(29, 33), sum) {
            Ok(header) => chunks_opened(header, Seq::empty(), Seq::empty(), stream.skip(33)),
            Err(error) => (OpenNext::Failed(error), stream.skip(33)),
        }
    }
}

proof fn lemma_be_u32_shift(bytes: Seq<u8>, from: int, to: int, at: int)
    requires
        0 <= from,
        0 <= at,
        from + at + 4 <= to <= bytes.len(),
    ensures
        header::be_u32(bytes.subrange(from, to), at) == header::be_u32(bytes, from + at),
{
}

/// Reading chunk after chunk comes to what the chunks say.
proof fn lemma_chunks_over(v: OpeningView, chunks: Seq<u8>)
    requires
        v.wf(),
        v.stage == OpenStage::ChunkHead,
    ensures
        opened_over(v, chunks) == chunks_opened(v.header, v.palette, v.transparency, chunks),
    decreases chunks.len(),
{
    if chunks.len() >= 8 {
        let head = chunks.take(8);
        let body = chunks.skip(8);
        let len = header::be_u32(chunks, 0) as int;
        lemma_be_u32_shift(chunks, 0, 8, 0);
        assert(head =~= chunks.subrange(0, 8));
        assert(head.subrange(4, 8) =~= chunks.subrange(4, 8));
        let name = chunks.subrange(4, 8);
        let kind = header::chunk_kind(name);
        let data = body.take(len);
        let after = body.skip(len);
        let stored = after.take(4);
        let rest = after.skip(4);
        reveal_with_fuel(opened_over, 4);
        if kind == ChunkKind::Idat {
        } else if body.len() < len {
            if kind != ChunkKind::Plte && kind != ChunkKind::Trns {
                let skipped = v.asking(OpenStage::SkippedData, len as nat)->Need_0;
                let crc = skipped.asking(OpenStage::SkippedCrc, 4)->Need_0;
                let next = crc.asking(OpenStage::ChunkHead, 8)->Need_0;
                assert(opened_over(next, Seq::empty()) == (
                    OpenNext::Failed(PngError::EndOfFile),
                    Seq::<u8>::empty(),
                ));
                assert(opened_over(crc, Seq::empty()) == opened_over(next, Seq::empty()));
                assert(opened_over(skipped, body) == opened_over(crc, Seq::empty()));
            }
        } else if body.len() < len + 4 {
            if kind != ChunkKind::Plte && kind != ChunkKind::Trns {
                let skipped = v.asking(OpenStage::SkippedData, len as nat)->Need_0;
                let crc = skipped.asking(OpenStage::SkippedCrc, 4)->Need_0;
                let next = crc.asking(OpenStage::ChunkHead, 8)->Need_0;
                assert(opened_over(next, Seq::empty()) == (
                    OpenNext::Failed(PngError::EndOfFile),
                    Seq::<u8>::empty(),
                ));
                assert(opened_over(crc, after) == opened_over(next, Seq::empty()));
                assert(opened_over(skipped, body) == opened_over(crc, after));
            }
        } else {
            assert(stored =~= body.subrange(len, len + 4));
            assert(rest =~= body.skip(len + 4));
            if kind == ChunkKind::Plte {
                let awaiting = v.asking(OpenStage::PlteData, len as nat)->Need_0;
                let held = awaiting.holding(OpenStage::PlteCrc, data)->Need_0;
                assert(opened_over(awaiting, body) == opened_over(held, after));
                if let OpenNext::Need(next) = held.with_palette(stored) {
                    lemma_chunks_over(next, rest);
                }
            } else if kind == ChunkKind::Trns {
                let awaiting = v.asking(OpenStage::TrnsData, len as nat)->Need_0;
                let held = awaiting.holding(OpenStage::TrnsCrc, data)->Need_0;
                assert(opened_over(awaiting, body) == opened_over(held, after));
                if let OpenNext::Need(next) = held.with_transparency(stored) {
                    lemma_chunks_over(next, rest);
                }
            } else {
                let skipped = v.asking(OpenStage::SkippedData, len as nat)->Need_0;
                let crc = skipped.asking(OpenStage::SkippedCrc, 4)->Need_0;
                let next = crc.asking(OpenStage::ChunkHead, 8)->Need_0;
                assert(opened_over(skipped, body) == opened_over(crc, after));
                lemma_chunks_over(next, rest);
            }
        }
    }
}

/// Law: reading a stream step by step comes to what the stream says as a
/// whole, for every stream, whether it is sound, cut short or not a PNG stream
/// at all.
pub proof fn law_opening(stream: Seq<u8>)
    ensures
        opened_over(OpeningView::start(), stream) == stream_opened(stream),
{
    let start = OpeningView::start();
    if stream.len() >= 8 && stream.take(8) == header::PNG_MAGIC@ {
        let head = start.asking(OpenStage::IhdrHead, 8)->Need_0;
        let after_magic = stream.skip(8);
        assert(opened_over(start, stream) == opened_over(head, after_magic));
        if stream.len() >= 16 {
            let ihdr_head = after_magic.take(8);
            assert(ihdr_head.subrange(4, 8) =~= stream.subrange(12, 16));
            assert(header::be_u32(ihdr_head, 0) == header::be_u32(stream, 8));
            if stream.subrange(12, 16) == header::ihdr_type() && header::be_u32(stream, 8)
                == header::IHDR_LEN {
                let awaiting = head.asking(
                    OpenStage::IhdrData,
                    header::IHDR_LEN as nat,
                )->Need_0;
                let after_head = after_magic.skip(8);
                assert(opened_over(head, after_magic) == opened_over(awaiting, after_head));
                if stream.len() >= 29 {
                    let ihdr = after_head.take(13);
                    let after_ihdr = after_head.skip(13);
                    assert(ihdr =~= stream.subrange(16, 29));
                    let held = awaiting.holding(OpenStage::IhdrCrc, ihdr)->Need_0;
                    assert(opened_over(awaiting, after_head) == opened_over(held, after_ihdr));
                    if stream.len() >= 33 {
                        let stored = after_ihdr.take(4);
                        assert(stored =~= stream.subrange(29, 33));
                        assert(after_ihdr.skip(4) =~= stream.skip(33));
                        if let OpenNext::Need(next) = held.with_header(stored) {
                            lemma_chunks_over(next, stream.skip(33));
                        }
                    }
                }
            } else {
                assert(after_magic.skip(8) =~= stream.skip(16));
            }
        }
    }
}

/// A number as four bytes, the most significant first.
pub open spec fn be_bytes(n: u32) -> Seq<u8> {
    seq![
        (n / 0x1000000) as u8,
        ((n / 0x10000) % 0x100) as u8,
        ((n / 0x100) % 0x100) as u8,
        (n % 0x100) as u8,
    ]
}

/// A chunk of type `name` with the data `data` and the stored checksum `stored`.
pub open spec fn chunk(name: Seq<u8>, data: Seq<u8>, stored: Seq<u8>) -> Seq<u8> {
    be_bytes(data.len() as u32) + name + data + stored
}

/// A sound chunk of type `name` with the data `data`.
pub open spec fn sound_chunk(name: Seq<u8>, data: Seq<u8>) -> Seq<u8> {
    chunk(name, data, be_bytes(checksum::crc32(name + data)))
}

/// The data of the image header chunk of a stream that is not interlaced.
pub open spec fn ihdr_data(header: Header) -> Seq<u8> {
    be_bytes(header.width) + be_bytes(header.height) + seq![
        header.bit_depth,
        header.color_type,
        0,
        0,
        0,
    ]
}

/// Law: a number is read back from its four bytes, wherever they stand.
pub proof fn law_number_read_back(n: u32, bytes: Seq<u8>, at: int)
    requires
        0 <= at,
        at + 4 <= bytes.len(),
        bytes.subrange(at, at + 4) == be_bytes(n),
    ensures
        header::be_u32(bytes, at) == n,
{
    let four = bytes.subrange(at, at + 4);
    assert(four[0] == bytes[at] && four[1] == bytes[at + 1] && four[2] == bytes[at + 2] && four[3]
        == bytes[at + 3]);
}

/// A chunk at the front of a stream is taken apart again.
proof fn lemma_chunk_parts(name: Seq<u8>, data: Seq<u8>, stored: Seq<u8>, rest: Seq<u8>)
    requires
        name.len() == 4,
        data.len() <= u32::MAX,
        stored.len() == 4,
    ensures
        ({
            let stream = chunk(name, data, stored) + rest;
            let len = data.len() as int;
            &&& stream.len() == 12 + len + rest.len()
            &&& header::be_u32(stream, 0) == len
            &&& stream.subrange(4, 8) == name
            &&& stream.skip(8).take(len) == data
            &&& stream.skip(8).subrange(len, len + 4) == stored
            &&& stream.skip(8).skip(len + 4) == rest
        }),
{
    let stream = chunk(name, data, stored) + rest;
    let len = data.len() as int;
    assert(stream.subrange(0, 4) =~= be_bytes(data.len() as u32));
    law_number_read_back(data.len() as u32, stream, 0);
    assert(stream.subrange(4, 8) =~= name);
    assert(stream.skip(8).take(len) =~= data);
    assert(stream.skip(8).subrange(len, len + 4) =~= stored);
    assert(stream.skip(8).skip(len + 4) =~= rest);
}

/// Law: opening reads back what the image header says, for every header with a
/// colour type that PNG has.
pub proof fn law_header_read_back(header: Header, rest: Seq<u8>)
    requires
        header::channels_of(header.color_type) is Some,
    ensures
        stream_opened(
            header::PNG_MAGIC@ + sound_chunk(header::ihdr_type(), ihdr_data(header)) + rest,
        ) == chunks_opened(header, Seq::empty(), Seq::empty(), rest),
{
    let data = ihdr_data(header);
    let name = header::ihdr_type();
    let stored = be_bytes(checksum::crc32(name + data));
    let stream = header::PNG_MAGIC@ + sound_chunk(name, data) + rest;
    lemma_ihdr_stream(data, stored, rest);
    assert(data.subrange(0, 4) =~= be_bytes(header.width));
    assert(data.subrange(4, 8) =~= be_bytes(header.height));
    law_number_read_back(header.width, data, 0);
    law_number_read_back(header.height, data, 4);
    assert(stored.subrange(0, 4) =~= stored);
    law_number_read_back(checksum::crc32(name + data), stored, 0);
}

/// The parts of a stream that starts with an image header chunk.
proof fn lemma_ihdr_stream(data: Seq<u8>, stored: Seq<u8>, rest: Seq<u8>)
    requires
        data.len() == header::IHDR_LEN,
        stored.len() == 4,
    ensures
        ({
            let stream = header::PNG_MAGIC@ + chunk(header::ihdr_type(), data, stored) + rest;
            &&& stream.len() == 33 + rest.len()
            &&& stream.take(8) == header::PNG_MAGIC@
            &&& stream.subrange(12, 16) == header::ihdr_type()
            &&& header::be_u32(stream, 8) == header::IHDR_LEN
            &&& stream.subrange(16, 29) == data
            &&& stream.subrange(29, 33) == stored
            &&& stream.skip(33) == rest
        }),
{
    let stream = header::PNG_MAGIC@ + chunk(header::ihdr_type(), data, stored) + rest;
    assert(stream.take(8) =~= header::PNG_MAGIC@);
    assert(stream.subrange(8, 12) =~= be_bytes(13));
    law_number_read_back(13, stream, 8);
    assert(stream.subrange(12, 16) =~= header::ihdr_type());
    assert(stream.subrange(16, 29) =~= data);
    assert(stream.subrange(29, 33) =~= stored);
    assert(stream.skip(33) =~= rest);
}

/// Law: an image header whose stored checksum is wrong is refused, whatever it
/// says.
pub proof fn law_corrupt_header_refused(data: Seq<u8>, stored: Seq<u8>, rest: Seq<u8>)
    requires
        data.len() == header::IHDR_LEN,
        stored.len() == 4,
        checksum::crc32(header::ihdr_type() + data) != header::be_u32(stored, 0),
    ensures
        stream_opened(
            header::PNG_MAGIC@ + chunk(header::ihdr_type(), data, stored) + rest,
        ).0 == OpenNext::Failed(PngError::IhdrCorrupt),
{
    lemma_ihdr_stream(data, stored, rest);
}

/// Law: a sound palette chunk adds its entries to the palette.
pub proof fn law_palette_chunk(
    header: Header,
    palette: Seq<[u8; 3]>,
    transparency: Seq<u8>,
    data: Seq<u8>,
    rest: Seq<u8>,
)
    requires
        data.len() <= u32::MAX,
    ensures
        chunks_opened(
            header,
            palette,
            transparency,
            sound_chunk(header::plte_type(), data) + rest,
        ) == chunks_opened(header, palette + header::palette_entries(data), transparency, rest),
{
    let name = header::plte_type();
    let sum = checksum::crc32(name + data);
    lemma_chunk_parts(name, data, be_bytes(sum), rest);
    assert(be_bytes(sum).subrange(0, 4) =~= be_bytes(sum));
    law_number_read_back(sum, be_bytes(sum), 0);
    assert(header::chunk_kind(name) == ChunkKind::Plte) by {
        assert(name[0] != header::ihdr_type()[0]);
    }
}

/// Law: a palette chunk whose stored checksum is wrong is refused.
pub proof fn law_corrupt_palette_refused(
    header: Header,
    palette: Seq<[u8; 3]>,
    transparency: Seq<u8>,
    data: Seq<u8>,
    stored: Seq<u8>,
    rest: Seq<u8>,
)
    requires
        data.len() <= u32::MAX,
        stored.len() == 4,
        checksum::crc32(header::plte_type() + data) != header::be_u32(stored, 0),
    ensures
        chunks_opened(
            header,
            palette,
            transparency,
            chunk(header::plte_type(), data, stored) + rest,
        ).0 == OpenNext::Failed(PngError::PlteCorrupt),
{
    let name = header::plte_type();
    lemma_chunk_parts(name, data, stored, rest);
    assert(header::chunk_kind(name) == ChunkKind::Plte) by {
        assert(name[0] != header::ihdr_type()[0]);
    }
}

/// Law: a sound transparency chunk sets the transparency, and one whose stored
/// checksum is wrong changes nothing.
pub proof fn law_transparency_chunk(
    header: Header,
    palette: Seq<[u8; 3]>,
    transparency: Seq<u8>,
    data: Seq<u8>,
    stored: Seq<u8>,
    rest: Seq<u8>,
)
    requires
        data.len() <= u32::MAX,
        stored.len() == 4,
    ensures
        chunks_opened(
            header,
            palette,
            transparency,
            chunk(header::trns_type(), data, stored) + rest,
        ) == chunks_opened(
            header,
            palette,
            if checksum::crc32(header::trns_type() + data) == header::be_u32(stored, 0) {
                data
            } else {
                transparency
            },
            rest,
        ),
{
    let name = header::trns_type();
    lemma_chunk_parts(name, data, stored, rest);
    assert(header::chunk_kind(name) == ChunkKind::Trns) by {
        assert(name[0] != header::ihdr_type()[0]);
        assert(name[0] != header::plte_type()[0]);
    }
}

/// Law: a chunk that is none of palette, transparency and image data changes
/// nothing, whatever it holds and whatever its stored checksum is.
pub proof fn law_other_chunk_passed_over(
    header: Header,
    palette: Seq<[u8; 3]>,
    transparency: Seq<u8>,
    name: Seq<u8>,
    data: Seq<u8>,
    stored: Seq<u8>,
    rest: Seq<u8>,
)
    requires
        name.len() == 4,
        name != header::plte_type(),
        name != header::trns_type(),
        name != header::idat_type(),
        data.len() <= u32::MAX,
        stored.len() == 4,
    ensures
        chunks_opened(header, palette, transparency, chunk(name, data, stored) + rest)
            == chunks_opened(header, palette, transparency, rest),
{
    lemma_chunk_parts(name, data, stored, rest);
}

/// Law: at the first image data chunk the stream is open, with the header, the
/// palette and the transparency read so far, and nothing behind the header of
/// that chunk is read.
pub proof fn law_open_at_image_data(
    header: Header,
    palette: Seq<[u8; 3]>,
    transparency: Seq<u8>,
    len: u32,
    rest: Seq<u8>,
)
    requires
        header.measurable(transparency.len() > 0),
    ensures
        chunks_opened(
            header,
            palette,
            transparency,
            be_bytes(len) + header::idat_type() + rest,
        ) == (
            OpenNext::Opened(DecoderView::fresh(header, palette, transparency, len as nat)),
            rest,
        ),
{
    let name = header::idat_type();
    let chunks = be_bytes(len) + name + rest;
    assert(chunks.subrange(0, 4) =~= be_bytes(len));
    law_number_read_back(len, chunks, 0);
    assert(chunks.subrange(4, 8) =~= name);
    assert(chunks.skip(8) =~= rest);
    assert(header::chunk_kind(name) == ChunkKind::Idat) by {
        assert(name[1] != header::ihdr_type()[1]);
        assert(name[0] != header::plte_type()[0]);
        assert(name[0] != header::trns_type()[0]);
    }
}

} // verus!
