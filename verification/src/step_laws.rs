//! Laws on the single steps of a decoder: what it asks for, what it makes of the
//! stream's answers, and what it hands out where the stream ends early.

use crate::checksum;
use crate::decoder::{Action, DecoderView, Halt, Stage};
use crate::error::PngError;
use crate::filter;
use crate::header;
use crate::inflate;
use crate::inflate::InflateEnd;
use crate::open::{OpenNext, OpenStage, OpeningView};
use crate::palette;
use crate::png;
use crate::png_laws;
use crate::scanlines;
use vstd::arithmetic::div_mod;
use vstd::arithmetic::mul;
use vstd::arithmetic::power2;
use vstd::prelude::*;

verus! {

/// `rows` rows of zeroes are handed out in place of a corrupt image's, unless their
/// length is out of the machine's range.
pub open spec fn zeroes_out(
    before: DecoderView,
    rows: int,
    after: DecoderView,
    action: Action,
) -> bool {
    let size = rows * before.layout.output_stride;
    if size <= usize::MAX {
        &&& action == Action::Done
        &&& after.stage == Stage::Idle
        &&& after.corrupted
        &&& after.answer == Some(size as nat)
        &&& after.buffer.len() == size
        &&& forall|j: int| 0 <= j < size ==> after.buffer[j] == 0
        &&& after.pending_drain == size
        &&& after.current_y == before.current_y + rows
    } else {
        &&& action == Action::Halt(Halt::TooLarge)
        &&& after.stage == Stage::Halted
    }
}

/// Nothing changed but what is asked for.
pub open spec fn only_asks(
    before: DecoderView,
    after: DecoderView,
    stage: Stage,
    wanted: int,
) -> bool {
    &&& after.stage == stage
    &&& after.wanted == wanted
    &&& after.header == before.header
    &&& after.layout == before.layout
    &&& after.palette == before.palette
    &&& after.transparency == before.transparency
    &&& after.current_y == before.current_y
    &&& after.idat_remaining == before.idat_remaining
    &&& after.buffer == before.buffer
    &&& after.prev == before.prev
    &&& after.pending_drain == before.pending_drain
    &&& after.crc_fed == before.crc_fed
    &&& after.zlib == before.zlib
    &&& after.calls == before.calls
    &&& after.corrupted == before.corrupted
    &&& after.requested == before.requested
    &&& after.answer == before.answer
}

/// How many of the rows of a batch are there: whole scanlines, each with the byte
/// of its filter.
pub open spec fn rows_there(v: DecoderView) -> int {
    let there = v.buffer.len() as int / (v.layout.bytes_per_scanline + 1);
    if there < v.requested {
        there
    } else {
        v.requested as int
    }
}

/// A batch is handed out with the rows that are there, just as one of so many rows
/// would be.
pub open spec fn short_batch(v: DecoderView, after: DecoderView, action: Action) -> bool {
    let rows = rows_there(v);
    let (same, done) = (DecoderView { requested: rows as nat, ..v }).advanced();
    &&& action == done
    &&& action == Action::Done || action == Action::Halt(Halt::BadLayout)
    &&& after.corrupted == v.corrupted
    &&& after.calls == v.calls
    &&& action == Action::Done ==> {
        &&& after.stage == Stage::Idle
        &&& after.answer == Some((rows * v.layout.output_stride) as nat)
        &&& after.current_y == v.current_y + rows
        &&& after.buffer == same.buffer
        &&& after.prev == same.prev
        &&& after.pending_drain == same.pending_drain
    }
}

proof fn lemma_short_batch(v: DecoderView, w: DecoderView)
    requires
        w == (DecoderView { idat_remaining: w.idat_remaining, crc_fed: w.crc_fed, ..v }),
        v.layout.wf(),
    ensures
        short_batch(v, w.delivered().0, w.delivered().1),
{
    let len = v.layout.line_len() as int;
    let there = v.buffer.len() as int / len;
    let rows = rows_there(v);
    div_mod::lemma_fundamental_div_mod(v.buffer.len() as int, len);
    mul::lemma_mul_is_commutative(there, len);
    mul::lemma_mul_inequality(rows, there, len);
    let same = DecoderView { requested: rows as nat, ..v };
    assert(0 <= rows <= there);
    assert(same.requested * len <= v.buffer.len());
    assert(same.ready_lines() == rows);
    assert(w.ready_lines() == rows);
}

/// Law: where a read fails that the image cannot do without, that of a checksum,
/// of a chunk header or of image data, or where no image data is left to read, the
/// batch is all zeroes and the image counts as corrupt.
pub proof fn law_failed_reads(v: DecoderView)
    requires
        v.busy(),
        v.stage == Stage::IdatCrc || v.stage == Stage::ChunkHead || v.stage == Stage::ImageData,
    ensures
        ({
            let (after, action) = v.resumed(None);
            zeroes_out(v, v.requested as int, after, action)
        }),
        v.stage == Stage::ImageData ==> ({
            let (after, action) = v.resumed(Some(Seq::empty()));
            zeroes_out(v, v.requested as int, after, action)
        }),
{
}

/// Law: image data that cannot be inflated makes the batch all zeroes and the image
/// corrupt; data left behind the end of the compressed stream, and sizes out of the
/// machine's range, halt the decoder.
pub proof fn law_failed_inflating(v: DecoderView, piece: Seq<u8>)
    requires
        v.busy(),
        v.stage == Stage::ImageData,
        0 < piece.len() <= v.wanted,
    ensures
        ({
            let (after, action) = v.resumed(Some(piece));
            let end = inflate::inflate_run(v.calls, piece, v.buffer).end;
            &&& end == InflateEnd::Corrupt ==> zeroes_out(
                v,
                v.requested as int,
                after,
                action,
            )
            &&& end == InflateEnd::Stalled ==> action == Action::Halt(Halt::Stalled) && after.stage
                == Stage::Halted
            &&& end == InflateEnd::Exhausted ==> action == Action::Halt(Halt::TooLarge)
                && after.stage == Stage::Halted
        }),
{
}

/// Law: behind the header of a chunk that is not image data and not the end comes
/// as much data as the header says, then a checksum of four bytes, then the next
/// header of eight; none of it changes anything else.
pub proof fn law_chunk_passed_over(v: DecoderView, head: Seq<u8>, data: Seq<u8>, stored: Seq<u8>)
    requires
        v.busy(),
        v.stage == Stage::ChunkHead,
        head.len() == 8,
        head.subrange(4, 8) != seq![73u8, 68, 65, 84],
        head.subrange(4, 8) != seq![73u8, 69, 78, 68],
        data.len() == png_laws::number_at(head, 0),
        stored.len() == 4,
        data.len() <= usize::MAX,
    ensures
        ({
            let n = data.len();
            let (at_data, asks_data) = v.resumed(Some(head));
            let (at_sum, asks_sum) = at_data.resumed(Some(data));
            let (at_next, asks_next) = at_sum.resumed(Some(stored));
            &&& asks_data == Action::ReadExact(n as usize)
            &&& only_asks(v, at_data, Stage::SkippedData, n as int)
            &&& asks_sum == Action::ReadExact(4)
            &&& only_asks(v, at_sum, Stage::SkippedCrc, 4)
            &&& asks_next == Action::ReadExact(8)
            &&& only_asks(v, at_next, Stage::ChunkHead, 8)
        }),
{
    assert(header::idat_type() =~= seq![73u8, 68, 65, 84]);
    assert(header::iend_type() =~= seq![73u8, 69, 78, 68]);
    assert(header::be_u32(head, 0) == png_laws::number_at(head, 0));
}

/// Law: an image data chunk is entered with the length that its header says, and
/// with a checksum that has taken in the type alone.
pub proof fn law_image_data_entered(v: DecoderView, head: Seq<u8>)
    requires
        v.busy(),
        v.stage == Stage::ChunkHead,
        head.len() == 8,
        head.subrange(4, 8) == seq![73u8, 68, 65, 84],
        png_laws::number_at(head, 0) > 0,
    ensures
        ({
            let n = png_laws::number_at(head, 0);
            let (after, action) = v.resumed(Some(head));
            let first = if n < 8192 {
                n
            } else {
                8192
            };
            &&& action == Action::Read(first as usize)
            &&& after.idat_remaining == n
            &&& after.crc_fed == seq![73u8, 68, 65, 84]
            &&& only_asks(
                DecoderView { idat_remaining: after.idat_remaining, crc_fed: after.crc_fed, ..v },
                after,
                Stage::ImageData,
                first,
            )
        }),
{
    lemma_image_data_type();
    assert(header::be_u32(head, 0) == png_laws::number_at(head, 0));
}

proof fn lemma_image_data_type()
    ensures
        header::chunk_kind(seq![73u8, 68, 65, 84]) == header::ChunkKind::Idat,
        header::chunk_kind(seq![73u8, 69, 78, 68]) == header::ChunkKind::Iend,
        header::idat_type() == seq![73u8, 68, 65, 84],
{
    let idat = seq![73u8, 68, 65, 84];
    let iend = seq![73u8, 69, 78, 68];
    assert(idat[1] != header::ihdr_type()[1] && iend[1] != header::ihdr_type()[1]);
    assert(idat[0] != header::plte_type()[0] && iend[0] != header::plte_type()[0]);
    assert(idat[0] != header::trns_type()[0] && iend[0] != header::trns_type()[0]);
    assert(iend[1] != header::idat_type()[1]);
    assert(idat =~= header::idat_type());
    assert(iend =~= header::iend_type());
}

/// Law: at the end chunk, at an image data chunk without data, and where a chunk
/// that is passed over is broken off, the batch is handed out with the rows that
/// are there.
pub proof fn law_image_ends_early(v: DecoderView, head: Seq<u8>)
    requires
        v.busy(),
        v.stage == Stage::ChunkHead ==> head.len() == 8 && (head.subrange(4, 8) == seq![
            73u8,
            69,
            78,
            68,
        ] || head.subrange(4, 8) == seq![73u8, 68, 65, 84] && png_laws::number_at(head, 0) == 0),
        v.stage == Stage::ChunkHead || v.stage == Stage::SkippedData || v.stage
            == Stage::SkippedCrc,
    ensures
        ({
            let (after, action) = v.resumed(
                if v.stage == Stage::ChunkHead {
                    Some(head)
                } else {
                    None
                },
            );
            short_batch(v, after, action)
        }),
{
    lemma_image_data_type();
    if v.stage == Stage::ChunkHead {
        assert(header::be_u32(head, 0) == png_laws::number_at(head, 0));
        if head.subrange(4, 8) == seq![73u8, 68, 65, 84] {
            lemma_short_batch(
                v,
                DecoderView { idat_remaining: 0, crc_fed: header::idat_type(), ..v },
            );
        } else {
            lemma_short_batch(v, v);
        }
    } else {
        lemma_short_batch(v, v);
    }
}

/// A batch goes on: it is handed out where its scanlines are there. Else the stream
/// is read: image data that is left, at most 8192 bytes at a time, or a checksum, or
/// a chunk header where nothing was inflated yet.
pub open spec fn goes_on(v: DecoderView, after: DecoderView, action: Action) -> bool {
    if v.requested * (v.layout.bytes_per_scanline + 1) <= v.buffer.len() {
        (after, action) == v.delivered()
    } else if v.idat_remaining > 0 {
        let wanted = if v.idat_remaining < 8192 {
            v.idat_remaining as int
        } else {
            8192
        };
        action == Action::Read(wanted as usize) && only_asks(v, after, Stage::ImageData, wanted)
    } else if v.current_y > 0 || v.buffer.len() > 0 {
        action == Action::ReadExact(4) && only_asks(v, after, Stage::IdatCrc, 4)
    } else {
        action == Action::ReadExact(8) && only_asks(v, after, Stage::ChunkHead, 8)
    }
}

/// Law: a batch that is asked for has as many rows as were asked for, and only
/// those that are left, and what the last batch used up is gone. At the end of the
/// image there is nothing; in a corrupt image there are zeroes.
pub proof fn law_batch_begins(v: DecoderView, num_scanlines: nat)
    requires
        v.wf(),
        v.stage == Stage::Idle,
    ensures
        ({
            let (after, action) = v.begun(num_scanlines);
            let left = v.header.height - v.current_y;
            let rows = if num_scanlines < left {
                num_scanlines as int
            } else {
                left
            };
            let needed = rows * (v.layout.bytes_per_scanline + 1);
            if left == 0 {
                &&& action == Action::Done
                &&& after.answer is None
                &&& after.current_y == v.current_y
                &&& after.stage == Stage::Idle
            } else if v.corrupted {
                zeroes_out(v, rows, after, action)
            } else if needed > usize::MAX {
                action == Action::Halt(Halt::TooLarge) && after.stage == Stage::Halted
            } else {
                goes_on(
                    DecoderView {
                        buffer: v.buffer.subrange(v.pending_drain as int, v.buffer.len() as int),
                        pending_drain: 0,
                        requested: rows as nat,
                        answer: None,
                        ..v
                    },
                    after,
                    action,
                )
            }
        }),
{
    let left = v.header.height - v.current_y;
    let rows = if num_scanlines < left {
        num_scanlines as int
    } else {
        left
    };
    assert(v.lines_of(num_scanlines) == rows || left == 0);
    assert(v.drained().buffer =~= v.buffer.subrange(
        v.pending_drain as int,
        v.buffer.len() as int,
    ));
}

/// Law: a piece of image data that is all taken counts as read, goes into the
/// checksum, and brings what it inflates to behind what is there.
pub proof fn law_piece_taken(v: DecoderView, piece: Seq<u8>)
    requires
        v.busy(),
        v.stage == Stage::ImageData,
        0 < piece.len() <= v.wanted,
        inflate::inflate_run(v.calls, piece, v.buffer).end == InflateEnd::Taken,
    ensures
        ({
            let (after, action) = v.resumed(Some(piece));
            let run = inflate::inflate_run(v.calls, piece, v.buffer);
            goes_on(
                DecoderView {
                    idat_remaining: (v.idat_remaining - piece.len()) as nat,
                    crc_fed: v.crc_fed + piece,
                    calls: run.calls,
                    buffer: run.out,
                    ..v
                },
                after,
                action,
            )
        }),
{
}

/// Law: what is handed out, where the scanlines fit: the rows that are there, at the
/// front of the buffer, and behind them what is left over for the next batch. For an
/// indexed image the rows are expanded.
pub proof fn law_rows_handed_out(v: DecoderView)
    requires
        v.layout.wf(),
        v.delivered().1 == Action::Done,
    ensures
        ({
            let after = v.delivered().0;
            let rows = rows_there(v);
            let line = v.layout.bytes_per_scanline as nat;
            let bpp = v.layout.bytes_per_pixel as nat;
            let stride = v.layout.output_stride as int;
            let restored = scanlines::rows(v.buffer, v.prev, bpp, line, 0, rows as nat)
                + v.buffer.skip(rows * line);
            &&& after.answer == Some((rows * stride) as nat)
            &&& after.current_y == v.current_y + rows
            &&& after.stage == Stage::Idle
            &&& after.prev == scanlines::row_above(v.buffer, v.prev, bpp, line, rows as nat)
            &&& v.layout.color_type != 3 ==> {
                &&& after.buffer == restored
                &&& after.pending_drain == rows * (line + 1)
            }
            &&& v.layout.color_type == 3 ==> {
                &&& after.buffer == scanlines::expanded_lines(
                    v.palette,
                    v.transparency,
                    v.layout.bit_depth,
                    restored,
                    rows,
                    line as int,
                    stride,
                )
                &&& after.pending_drain == rows * stride
            }
            &&& after.idat_remaining == v.idat_remaining
            &&& after.crc_fed == v.crc_fed
            &&& after.calls == v.calls
            &&& after.corrupted == v.corrupted
        }),
{
    assert(v.ready_lines() == rows_there(v));
}

/// Law: whatever a decoder is asked and answered, the image stays the same: its
/// header, its layout, its palette and its transparency.
pub proof fn law_image_stays(v: DecoderView, num_scanlines: nat, reply: Option<Seq<u8>>)
    ensures
        ({
            let begun = v.begun(num_scanlines).0;
            let resumed = v.resumed(reply).0;
            &&& begun.header == v.header && resumed.header == v.header
            &&& begun.layout == v.layout && resumed.layout == v.layout
            &&& begun.palette == v.palette && resumed.palette == v.palette
            &&& begun.transparency == v.transparency && resumed.transparency == v.transparency
            &&& begun.zlib == v.zlib && resumed.zlib == v.zlib
            &&& v.corrupted ==> begun.corrupted && resumed.corrupted
            &&& v.current_y <= begun.current_y && v.current_y <= resumed.current_y
        }),
{
}

/// Law: when the scanlines of a batch can be turned to rows in place. Those of the
/// Paeth filter need pixels or rows of at most eight bytes; those of an indexed
/// image need room for the pixels, and pixels that fit their rows.
pub proof fn law_rows_fit(v: DecoderView)
    requires
        v.layout.wf(),
    ensures
        ({
            let rows = rows_there(v);
            let line = v.layout.bytes_per_scanline as int;
            let stride = v.layout.output_stride as int;
            let depth = v.layout.bit_depth as int;
            let rest = v.buffer.len() - rows * (line + 1);
            let pixel = if v.transparency.len() > 0 {
                4int
            } else {
                3
            };
            let paeth_fits = v.layout.bytes_per_pixel <= 8 || line <= 8 || forall|i: nat|
                i < rows ==> v.buffer[#[trigger] (i * (line + 1))] != 4;
            let pixels_fit = {
                &&& rows * stride + rest <= usize::MAX
                &&& rest > 0 ==> rows * (line + 1) <= rows * stride
                &&& 0 < depth < usize::BITS
                &&& rows * line <= rows * stride
                &&& rows > 0 ==> line * (8int / depth) * pixel <= stride
            };
            v.delivered().1 == if paeth_fits && (v.layout.color_type == 3 ==> pixels_fit) {
                Action::Done
            } else {
                Action::Halt(Halt::BadLayout)
            }
        }),
{
    let rows = rows_there(v) as nat;
    let line = v.layout.bytes_per_scanline as nat;
    assert(v.ready_lines() == rows);
    let far = forall|i: nat| i < rows ==> #[trigger] scanlines::filter_at(v.buffer, line, i) != 4;
    let near = forall|i: nat| i < rows ==> v.buffer[#[trigger] (i * (line as int + 1))] != 4;
    assert(far == near) by {
        if far {
            assert forall|i: nat| i < rows implies v.buffer[#[trigger] (i * (line as int + 1))]
                != 4 by {
                assert(scanlines::filter_at(v.buffer, line, i) != 4);
            }
        }
        if near {
            assert forall|i: nat| i < rows implies #[trigger] scanlines::filter_at(
                v.buffer,
                line,
                i,
            ) != 4 by {
                assert(v.buffer[i * (line as int + 1)] != 4);
            }
        }
    }
}

/// One row among those end to end.
proof fn lemma_row_in_rows(
    raw: Seq<u8>,
    first: Seq<u8>,
    bpp: nat,
    w: nat,
    n: nat,
    i: nat,
)
    requires
        i < n,
        n * (w + 1) <= raw.len(),
    ensures
        0 <= i * w,
        i * w + w <= n * w,
        scanlines::rows(raw, first, bpp, w, 0, n).len() == n * w,
        scanlines::rows(raw, first, bpp, w, 0, n).subrange((i * w) as int, (i * w + w) as int)
            == scanlines::row_at(raw, first, bpp, w, i),
    decreases n,
{
    let last = (n - 1) as nat;
    assert(n * w == last * w + w && n * (w + 1) == last * (w + 1) + w + 1 && n * (w + 1) == n * w
        + n) by (nonlinear_arith)
        requires
            n == last + 1,
    ;
    assert(0 <= i * w && i * w + w <= n * w) by (nonlinear_arith)
        requires
            i + 1 <= n,
    ;
    scanlines::lemma_rows_len(raw, first, bpp, w, 0, last);
    scanlines::lemma_rows_len(raw, first, bpp, w, 0, n);
    let before = scanlines::rows(raw, first, bpp, w, 0, last);
    let all = scanlines::rows(raw, first, bpp, w, 0, n);
    if i == last {
        assert(all.subrange((i * w) as int, (i * w + w) as int) =~= scanlines::row_at(
            raw,
            first,
            bpp,
            w,
            i,
        ));
    } else {
        lemma_row_in_rows(raw, first, bpp, w, last, i);
        assert(all.subrange((i * w) as int, (i * w + w) as int) =~= before.subrange(
            (i * w) as int,
            (i * w + w) as int,
        ));
    }
}

/// Law: the rows of scanlines that lie end to end, each behind the byte of its
/// filter. Where the byte names a filter, the row is the scanline restored below
/// the row that was restored last; where it names none, the row is what stood at
/// its place, and the next scanline is restored below the row before.
pub proof fn law_rows_of_scanlines(
    raw: Seq<u8>,
    first: Seq<u8>,
    bpp: nat,
    w: nat,
    n: nat,
    i: nat,
)
    requires
        i < n,
        n * (w + 1) <= raw.len(),
    ensures
        ({
            let at = i * (w + 1);
            let row = scanlines::rows(raw, first, bpp, w, 0, n).subrange(
                (i * w) as int,
                (i * w + w) as int,
            );
            let above = scanlines::row_above(raw, first, bpp, w, i);
            let below = scanlines::row_above(raw, first, bpp, w, i + 1);
            &&& scanlines::row_above(raw, first, bpp, w, 0) == first
            &&& if raw[at as int] <= 4 {
                let line = raw.subrange((at + 1) as int, (at + 1 + w) as int);
                &&& row == filter::restored(raw[at as int], bpp, line, above)
                &&& below == row
            } else {
                &&& row == raw.subrange((i * w) as int, (i * w + w) as int)
                &&& below == above
            }
        }),
{
    lemma_row_in_rows(raw, first, bpp, w, n, i);
}

/// The calls from `start` on offer what is left of `input`, with room for 16384
/// bytes.
pub open spec fn offered(calls: Seq<(Seq<u8>, nat)>, start: nat, input: Seq<u8>) -> bool {
    forall|k: int|
        start <= k < calls.len() ==> {
            &&& (#[trigger] calls[k]).1 == 16384
            &&& 0 < calls[k].0.len() <= input.len()
            &&& calls[k].0 == input.skip(input.len() - calls[k].0.len())
        }
}

/// The last of these calls takes input or writes output, and finds nothing wrong.
pub open spec fn moves_on(calls: Seq<(Seq<u8>, nat)>) -> bool {
    let (ok, consumed, produced) = inflate::inflate_outcome(calls);
    ok && (consumed > 0 || produced.len() > 0)
}

/// Law: a piece of image data is offered to the inflater until all of it is taken,
/// each time with room for 16384 bytes, and as long as that moves on. It is
/// corrupt exactly where the last call finds it so, and stalls exactly where that
/// neither takes nor writes anything.
pub proof fn law_inflating(calls: Seq<(Seq<u8>, nat)>, input: Seq<u8>, out: Seq<u8>)
    ensures
        ({
            let run = inflate::inflate_run(calls, input, out);
            let last = inflate::inflate_outcome(run.calls);
            &&& calls.len() <= run.calls.len()
            &&& run.calls.take(calls.len() as int) == calls
            &&& offered(run.calls, calls.len(), input)
            &&& forall|k: int|
                calls.len() < k < run.calls.len() ==> moves_on(#[trigger] run.calls.take(k))
            &&& run.end == InflateEnd::Taken ==> run.calls == calls || moves_on(run.calls)
            &&& run.end == InflateEnd::Taken && input.len() > 0 ==> run.calls != calls
            &&& run.end == InflateEnd::Corrupt ==> run.calls != calls && !last.0
            &&& run.end == InflateEnd::Stalled ==> run.calls != calls && last.0 && last.1 == 0
                && last.2.len() == 0
            &&& run.end == InflateEnd::Exhausted ==> {
                ||| inflate::taken(run.calls).len() + input.len() > u64::MAX
                ||| inflate::inflated(run.calls).len() + 16384 > u64::MAX
                ||| run.out.len() + last.2.len() > usize::MAX
                ||| last.1 > run.calls.last().0.len()
            }
        }),
    decreases input.len() + usize::MAX - out.len(),
{
    let run = inflate::inflate_run(calls, input, out);
    assert(calls.take(calls.len() as int) =~= calls);
    if input.len() > 0 && inflate::taken(calls).len() + input.len() <= u64::MAX
        && inflate::inflated(calls).len() + 16384 <= u64::MAX {
        let served = calls.push((input, 16384));
        let (ok, consumed, produced) = inflate::inflate_outcome(served);
        assert(served.take(calls.len() as int) =~= calls);
        assert(input.skip(0) =~= input);
        if ok && (consumed > 0 || produced.len() > 0) && consumed <= input.len() && out.len()
            + produced.len() <= usize::MAX {
            let rest = input.skip(consumed as int);
            law_inflating(served, rest, out + produced);
            assert(run.calls.take(calls.len() as int) =~= calls) by {
                assert(run.calls.take(served.len() as int).take(calls.len() as int) =~= calls);
            }
            let at = calls.len() as int;
            assert(run.calls[at] == run.calls.take(served.len() as int)[at]);
            assert(run.calls[at] == (input, 16384nat));
            assert forall|k: int| calls.len() <= k < run.calls.len() implies {
                &&& (#[trigger] run.calls[k]).1 == 16384
                &&& 0 < run.calls[k].0.len() <= input.len()
                &&& run.calls[k].0 == input.skip(input.len() - run.calls[k].0.len())
            } by {
                if k > calls.len() {
                    let given = run.calls[k].0;
                    assert(given == rest.skip(rest.len() - given.len()));
                    assert(given =~= input.skip(input.len() - given.len()));
                }
            }
            assert forall|k: int| calls.len() < k < run.calls.len() implies moves_on(
                #[trigger] run.calls.take(k),
            ) by {
                if k == served.len() {
                    assert(run.calls.take(k) == served);
                }
            }
        }
    }
}

/// Law: the pixels of indexed rows, whatever the depth. Row `r` of `e` bytes holds,
/// at its end, the colours of the indices in the `s` packed bytes of the row, the
/// lowest bits of a byte first.
pub proof fn law_pixels_of_rows(
    colours: Seq<[u8; 3]>,
    transparency: Seq<u8>,
    depth: u8,
    buffer: Seq<u8>,
    rows: int,
    s: int,
    e: int,
    r: int,
    x: int,
)
    requires
        0 < depth <= 8,
        0 <= r < rows,
        0 <= x < s * (8int / depth as int),
        0 <= s,
        rows * (s + 1) <= buffer.len(),
        s * (8int / depth as int) * (if transparency.len() > 0 {
            4int
        } else {
            3
        }) <= e,
    ensures
        ({
            let per = 8int / depth as int;
            let size = if transparency.len() > 0 {
                4int
            } else {
                3
            };
            let all = scanlines::expanded_lines(colours, transparency, depth, buffer, rows, s, e);
            let byte = buffer[r * s + x / per] as nat;
            let index = byte / power2::pow2((x % per * depth) as nat) % power2::pow2(depth as nat);
            png_laws::pixel_is(
                all,
                r * e + (e - s * per * size) + size * x,
                colours,
                transparency,
                index as int,
            )
        }),
{
    let per = 8int / depth as int;
    let size = if transparency.len() > 0 {
        4int
    } else {
        3
    };
    let gap = e - s * per * size;
    let front = scanlines::resized(buffer, (rows * e) as nat);
    let pixels = palette::expanded(colours, transparency, depth, front, rows, s, e);
    let all = scanlines::expanded_lines(colours, transparency, depth, buffer, rows, s, e);
    assert(per >= 1) by (nonlinear_arith)
        requires
            0 < depth <= 8,
            per == 8int / depth as int,
    ;
    div_mod::lemma_fundamental_div_mod(x, per);
    assert(0 <= x / per < s) by (nonlinear_arith)
        requires
            0 <= x < s * per,
            x == per * (x / per) + x % per,
            0 <= x % per < per,
            per >= 1,
    ;
    assert(s <= e) by (nonlinear_arith)
        requires
            s * per * size <= e,
            per >= 1,
            size >= 1,
            0 <= s,
    ;
    assert(0 <= r * s && r * s + s <= rows * s && rows * s <= rows * e && 0 <= rows * s && rows * s
        <= rows * (s + 1)) by (nonlinear_arith)
        requires
            0 <= r < rows,
            0 <= s <= e,
    ;
    assert(0 <= r * e && r * e + e <= rows * e) by (nonlinear_arith)
        requires
            0 <= r < rows,
            0 <= e,
    ;
    assert(0 <= size * x && size * x + size <= s * per * size) by (nonlinear_arith)
        requires
            0 <= x < s * per,
            0 < size,
    ;
    let byte = buffer[r * s + x / per];
    assert(front[r * s + x / per] == byte);
    let index = palette::packed_index(byte, depth, x % per);
    assert forall|c: int| 0 <= c < size implies #[trigger] all[r * e + gap + size * x + c]
        == palette::channel(colours, transparency, index, c) by {
        let j = r * e + gap + size * x + c;
        div_mod::lemma_fundamental_div_mod_converse(j, e, r, gap + size * x + c);
        div_mod::lemma_fundamental_div_mod_converse(size * x + c, size, x, c);
        assert(all[j] == pixels[j]);
    }
    assert(all[r * e + gap + size * x + 0] == palette::channel(colours, transparency, index, 0));
    assert(all[r * e + gap + size * x + 1] == palette::channel(colours, transparency, index, 1));
    assert(all[r * e + gap + size * x + 2] == palette::channel(colours, transparency, index, 2));
    if size == 4 {
        assert(all[r * e + gap + size * x + 3] == palette::channel(
            colours,
            transparency,
            index,
            3,
        ));
    }
}

/// Law: what expanding indexed rows leaves alone. In front of the pixels of a row
/// stands what stood there, or zero where nothing did; behind the rows comes what
/// came behind the scanlines.
pub proof fn law_rest_of_rows(
    colours: Seq<[u8; 3]>,
    transparency: Seq<u8>,
    depth: u8,
    buffer: Seq<u8>,
    rows: int,
    s: int,
    e: int,
    j: int,
)
    requires
        0 < depth,
        0 <= rows,
        0 <= s,
        0 <= e,
        rows * (s + 1) <= buffer.len(),
        0 <= j < rows * e + (buffer.len() - rows * (s + 1)),
    ensures
        ({
            let size = if transparency.len() > 0 {
                4int
            } else {
                3
            };
            let all = scanlines::expanded_lines(colours, transparency, depth, buffer, rows, s, e);
            &&& all.len() == rows * e + (buffer.len() - rows * (s + 1))
            &&& j < rows * e && j % e < e - s * (8int / depth as int) * size ==> all[j] == (
            if j < buffer.len() {
                buffer[j]
            } else {
                0
            })
            &&& j >= rows * e ==> all[j] == buffer[j - rows * e + rows * (s + 1)]
        }),
{
    assert(0 <= rows * e && 0 <= rows * (s + 1)) by (nonlinear_arith)
        requires
            0 <= rows,
            0 <= s,
            0 <= e,
    ;
}

/// Law: restoring a scanline inside a buffer, byte by byte, wherever it comes from
/// and goes to. A byte of the scanline that is replaced before its turn counts as
/// it is then. With a distance of zero the left neighbour is the byte that stands at
/// the destination.
pub proof fn law_restored_in_place(
    filter: u8,
    distance: nat,
    buffer: Seq<u8>,
    above: Seq<u8>,
    src: int,
    dest: int,
    i: nat,
)
    requires
        filter <= 4,
    ensures
        ({
            let byte = filter::unfiltered_byte(filter, distance, buffer, above, src, dest, i);
            let stored = if src < dest <= src + i {
                filter::unfiltered_byte(
                    filter,
                    distance,
                    buffer,
                    above,
                    src,
                    dest,
                    (src + i - dest) as nat,
                )
            } else {
                buffer[src + i]
            } as int;
            let left = if i < distance {
                0
            } else if distance == 0 {
                buffer[dest + i] as int
            } else {
                filter::unfiltered_byte(
                    filter,
                    distance,
                    buffer,
                    above,
                    src,
                    dest,
                    (i - distance) as nat,
                ) as int
            };
            let up = above[i as int] as int;
            let corner = if i < distance || distance == 0 {
                0
            } else {
                above[i - distance] as int
            };
            &&& filter == 0 ==> byte == stored
            &&& filter == 1 ==> byte == (stored + left) % 256
            &&& filter == 2 ==> byte == (stored + up) % 256
            &&& filter == 3 ==> byte == (stored + (left + up) / 2) % 256
            &&& filter == 4 ==> byte == (stored + png::nearest(left, up, corner)) % 256
        }),
{
}

/// Law: how a stream is refused that breaks off while it is opened. A chunk that
/// does not matter may be broken off: it is passed over.
pub proof fn law_opening_broken_off(o: OpeningView)
    ensures
        o.stage == OpenStage::Magic ==> o.resumed(None) == OpenNext::Failed(
            PngError::MagicUnreadable,
        ),
        o.stage == OpenStage::IhdrHead || o.stage == OpenStage::ChunkHead ==> o.resumed(None)
            == OpenNext::Failed(PngError::EndOfFile),
        o.stage == OpenStage::IhdrData ==> o.resumed(None) == OpenNext::Failed(
            PngError::IhdrUnreadable,
        ),
        o.stage == OpenStage::IhdrCrc ==> o.resumed(None) == OpenNext::Failed(
            PngError::IhdrCrcUnreadable,
        ),
        o.stage == OpenStage::PlteData ==> o.resumed(None) == OpenNext::Failed(
            PngError::PlteUnreadable,
        ),
        o.stage == OpenStage::PlteCrc ==> o.resumed(None) == OpenNext::Failed(
            PngError::PlteCrcUnreadable,
        ),
        o.stage == OpenStage::TrnsData ==> o.resumed(None) == OpenNext::Failed(
            PngError::TrnsUnreadable,
        ),
        o.stage == OpenStage::TrnsCrc ==> o.resumed(None) == OpenNext::Failed(
            PngError::TrnsCrcUnreadable,
        ),
        o.stage == OpenStage::SkippedData ==> opening_asks(
            o,
            o.resumed(None),
            OpenStage::SkippedCrc,
            4,
        ),
        o.stage == OpenStage::SkippedCrc ==> opening_asks(
            o,
            o.resumed(None),
            OpenStage::ChunkHead,
            8,
        ),
{
}

/// An opening goes on with what it knows of the image, and asks for more.
pub open spec fn opening_asks(
    before: OpeningView,
    next: OpenNext,
    stage: OpenStage,
    wanted: int,
) -> bool {
    next matches OpenNext::Need(after) && {
        &&& after.stage == stage
        &&& after.wanted == wanted
        &&& after.header == before.header
        &&& after.palette == before.palette
        &&& after.transparency == before.transparency
    }
}

/// Law: a chunk header in front of the image data. The data of palette,
/// transparency and other chunks is asked for by the length that the header says;
/// an image data chunk opens the stream, unless a size is out of range.
pub proof fn law_opening_at_chunk(o: OpeningView, head: Seq<u8>)
    requires
        o.stage == OpenStage::ChunkHead,
        head.len() == 8,
    ensures
        ({
            let name = head.subrange(4, 8);
            let n = png_laws::number_at(head, 0);
            let next = o.resumed(Some(head));
            if name == png_laws::idat() {
                if o.header.measurable(o.transparency.len() > 0) {
                    next matches OpenNext::Opened(d) && {
                        &&& d.header == o.header
                        &&& d.palette == o.palette
                        &&& d.transparency == o.transparency
                        &&& d.idat_remaining == n
                        &&& d.crc_fed == seq![73u8, 68, 65, 84]
                        &&& d.current_y == 0
                        &&& d.buffer.len() == 0
                        &&& d.calls.len() == 0
                        &&& d.pending_drain == 0
                        &&& d.stage == Stage::Idle
                        &&& !d.corrupted
                        &&& d.zlib
                        &&& d.answer is None
                        &&& forall|j: int| 0 <= j < d.prev.len() ==> d.prev[j] == 0
                    }
                } else {
                    next is TooLarge
                }
            } else if name == png_laws::plte() {
                opening_asks(o, next, OpenStage::PlteData, n)
            } else if name == png_laws::trns() {
                opening_asks(o, next, OpenStage::TrnsData, n)
            } else {
                opening_asks(o, next, OpenStage::SkippedData, n)
            }
        }),
{
    lemma_image_data_type();
    let name = head.subrange(4, 8);
    assert(header::be_u32(head, 0) == png_laws::number_at(head, 0));
    assert(header::plte_type() =~= png_laws::plte());
    assert(header::trns_type() =~= png_laws::trns());
    assert(header::idat_type() =~= png_laws::idat());
    assert(png_laws::plte()[0] != header::ihdr_type()[0]);
    assert(png_laws::trns()[0] != header::ihdr_type()[0]);
    assert(png_laws::trns()[0] != png_laws::plte()[0]);
    assert(png_laws::idat()[0] != png_laws::plte()[0]);
    assert(png_laws::idat()[0] != png_laws::trns()[0]);
}

/// Law: what comes first in a stream: the signature, the header of the image header
/// chunk, its thirteen bytes and their checksum. The image is what these bytes say;
/// it is refused for a wrong checksum first, then where it is interlaced, then for
/// its colour type.
pub proof fn law_opening_starts(o: OpeningView, bytes: Seq<u8>)
    requires
        o.wf(),
        bytes.len() == o.wanted,
    ensures
        OpeningView::start().stage == OpenStage::Magic,
        OpeningView::start().wanted == 8,
        OpeningView::start().palette.len() == 0,
        OpeningView::start().transparency.len() == 0,
        ({
            let next = o.resumed(Some(bytes));
            let held = o.held;
            let colour = held[9];
            &&& o.stage == OpenStage::Magic ==> if bytes == png_laws::signature() {
                opening_asks(o, next, OpenStage::IhdrHead, 8)
            } else {
                next == OpenNext::Failed(PngError::NotPng)
            }
            &&& o.stage == OpenStage::IhdrHead ==> if bytes.subrange(4, 8) == png_laws::ihdr()
                && png_laws::number_at(bytes, 0) == 13 {
                opening_asks(o, next, OpenStage::IhdrData, 13)
            } else {
                next == OpenNext::Failed(PngError::IhdrMissing)
            }
            &&& o.stage == OpenStage::IhdrCrc ==> if png_laws::number_at(bytes, 0)
                != checksum::crc32(png_laws::ihdr() + held) {
                next == OpenNext::Failed(PngError::IhdrCorrupt)
            } else if held[12] != 0 {
                next == OpenNext::Failed(PngError::Interlaced)
            } else if colour == 1 || colour == 5 || colour > 6 {
                next == OpenNext::Failed(PngError::UnknownColorType)
            } else {
                next matches OpenNext::Need(after) && {
                    &&& after.stage == OpenStage::ChunkHead
                    &&& after.wanted == 8
                    &&& after.header.width == png_laws::number_at(held, 0)
                    &&& after.header.height == png_laws::number_at(held, 4)
                    &&& after.header.bit_depth == held[8]
                    &&& after.header.color_type == colour
                    &&& after.palette == o.palette
                    &&& after.transparency == o.transparency
                }
            }
        }),
{
    assert(header::PNG_MAGIC@ =~= png_laws::signature());
    assert(header::ihdr_type() =~= png_laws::ihdr());
    if o.stage == OpenStage::IhdrHead || o.stage == OpenStage::IhdrCrc {
        assert(header::be_u32(bytes, 0) == png_laws::number_at(bytes, 0));
    }
    if o.stage == OpenStage::IhdrCrc {
        assert(header::be_u32(o.held, 0) == png_laws::number_at(o.held, 0));
        assert(header::be_u32(o.held, 4) == png_laws::number_at(o.held, 4));
    }
}

/// Law: the data of a chunk that matters is kept, all of it, until its checksum of
/// four bytes is read; that of any other chunk is passed over.
pub proof fn law_opening_at_data(o: OpeningView, data: Seq<u8>)
    requires
        data.len() == o.wanted,
    ensures
        ({
            let next = o.resumed(Some(data));
            let kept = next matches OpenNext::Need(after) && after.held == data;
            &&& o.stage == OpenStage::IhdrData ==> kept && opening_asks(
                o,
                next,
                OpenStage::IhdrCrc,
                4,
            )
            &&& o.stage == OpenStage::PlteData ==> kept && opening_asks(
                o,
                next,
                OpenStage::PlteCrc,
                4,
            )
            &&& o.stage == OpenStage::TrnsData ==> kept && opening_asks(
                o,
                next,
                OpenStage::TrnsCrc,
                4,
            )
            &&& o.stage == OpenStage::SkippedData ==> opening_asks(
                o,
                next,
                OpenStage::SkippedCrc,
                4,
            )
            &&& o.stage == OpenStage::SkippedCrc ==> opening_asks(
                o,
                next,
                OpenStage::ChunkHead,
                8,
            )
        }),
{
}

/// Law: the checksum behind a palette and behind transparency. A palette with a
/// wrong one refuses the stream, transparency with a wrong one is passed over; with
/// the right one the palette gets the entries, three bytes each, behind those that
/// it has, and the transparency is replaced.
pub proof fn law_opening_at_checksum(o: OpeningView, stored: Seq<u8>)
    requires
        stored.len() == 4,
        o.stage == OpenStage::PlteCrc || o.stage == OpenStage::TrnsCrc,
    ensures
        ({
            let next = o.resumed(Some(stored));
            let name = if o.stage == OpenStage::PlteCrc {
                png_laws::plte()
            } else {
                png_laws::trns()
            };
            let right = png_laws::number_at(stored, 0) == checksum::crc32(name + o.held);
            if o.stage == OpenStage::PlteCrc && !right {
                next == OpenNext::Failed(PngError::PlteCorrupt)
            } else {
                next matches OpenNext::Need(after) && {
                    &&& after.stage == OpenStage::ChunkHead
                    &&& after.wanted == 8
                    &&& after.header == o.header
                    &&& o.stage == OpenStage::PlteCrc ==> {
                        &&& after.transparency == o.transparency
                        &&& after.palette.len() == o.palette.len() + o.held.len() / 3
                        &&& after.palette.take(o.palette.len() as int) == o.palette
                        &&& forall|i: int, c: int|
                            0 <= i < o.held.len() / 3 && 0 <= c < 3
                                ==> #[trigger] after.palette[o.palette.len() + i]@[c]
                                == o.held[3 * i + c]
                    }
                    &&& o.stage == OpenStage::TrnsCrc ==> {
                        &&& after.palette == o.palette
                        &&& after.transparency == if right {
                            o.held
                        } else {
                            o.transparency
                        }
                    }
                }
            }
        }),
{
    assert(header::be_u32(stored, 0) == png_laws::number_at(stored, 0));
    assert(header::plte_type() =~= png_laws::plte());
    assert(header::trns_type() =~= png_laws::trns());
    if o.stage == OpenStage::PlteCrc {
        let entries = header::palette_entries(o.held);
        let all = o.palette + entries;
        assert(all.take(o.palette.len() as int) =~= o.palette);
        assert forall|i: int, c: int| 0 <= i < o.held.len() / 3 && 0 <= c < 3 implies #[trigger] all[
        o.palette.len() + i]@[c] == o.held[3 * i + c] by {
            assert(all[o.palette.len() + i] == entries[i]);
        }
    }
}

} // verus!
