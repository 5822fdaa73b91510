//! When a batch is whole, when it is blank, and which images can be handed out
//! at all.

use crate::checksum;
use crate::decode_laws;
use crate::decoder::{Action, DecoderView, Stage};
use crate::header;
use crate::header::ChunkKind;
use crate::inflate;
use crate::inflate::InflateEnd;
use crate::palette;
use crate::pam;
use crate::ppm;
use crate::scanlines;
use vstd::arithmetic::div_mod;
use vstd::arithmetic::mul;
use vstd::prelude::*;

verus! {

/// The answer shows that image data is damaged: a checksum is wrong or missing,
/// no chunk follows, image data is missing, or it does not inflate.
pub open spec fn damaging(v: DecoderView, reply: Option<Seq<u8>>) -> bool {
    match (v.stage, reply) {
        (Stage::IdatCrc, Some(stored)) => checksum::crc32(v.crc_fed) != header::be_u32(stored, 0),
        (Stage::IdatCrc, None) => true,
        (Stage::ChunkHead, None) => true,
        (Stage::ImageData, Some(piece)) => piece.len() == 0 || inflate::inflate_run(
            v.calls,
            piece,
            v.buffer,
        ).end == InflateEnd::Corrupt,
        (Stage::ImageData, None) => true,
        _ => false,
    }
}

/// The answer ends the image data: the chunk that ends the image or an empty
/// image data chunk begins, or a chunk that is passed over breaks off.
pub open spec fn ending(v: DecoderView, reply: Option<Seq<u8>>) -> bool {
    match (v.stage, reply) {
        (Stage::ChunkHead, Some(head)) => {
            let kind = header::chunk_kind(head.subrange(4, 8));
            kind == ChunkKind::Iend || (kind == ChunkKind::Idat && header::be_u32(head, 0) == 0)
        },
        (Stage::SkippedData, None) => true,
        (Stage::SkippedCrc, None) => true,
        _ => false,
    }
}

/// One of the replies that are used shows that image data is damaged.
pub open spec fn damaged(
    v: DecoderView,
    action: Action,
    replies: Seq<Option<Seq<u8>>>,
) -> bool
    decreases replies.len(),
{
    if replies.len() == 0 || !decode_laws::asks(action) {
        false
    } else {
        let (next, then) = v.resumed(replies[0]);
        damaging(v, replies[0]) || damaged(next, then, replies.drop_first())
    }
}

/// One of the replies that are used ends the image data.
pub open spec fn ended(v: DecoderView, action: Action, replies: Seq<Option<Seq<u8>>>) -> bool
    decreases replies.len(),
{
    if replies.len() == 0 || !decode_laws::asks(action) {
        false
    } else {
        let (next, then) = v.resumed(replies[0]);
        ending(v, replies[0]) || ended(next, then, replies.drop_first())
    }
}

/// Law: image data counts as corrupt exactly when an answer of the stream shows
/// that it is damaged.
pub proof fn law_corrupt_when_damaged(
    v: DecoderView,
    action: Action,
    replies: Seq<Option<Seq<u8>>>,
)
    requires
        decode_laws::consistent(v, action),
        decode_laws::all_answer(v, action, replies),
    ensures
        decode_laws::replayed(v, action, replies).0.corrupted <==> v.corrupted || damaged(
            v,
            action,
            replies,
        ),
    decreases replies.len(),
{
    if replies.len() > 0 && decode_laws::asks(action) {
        let (next, then) = v.resumed(replies[0]);
        decode_laws::law_resumed_consistent(v, replies[0]);
        assert(next.corrupted == damaging(v, replies[0]));
        law_corrupt_when_damaged(next, then, replies.drop_first());
    }
}

/// A batch of `lines` rows from row `y` on is under way, or it is ready and
/// whole, or it is not to be had.
pub open spec fn whole_batch(v: DecoderView, action: Action, y: nat, lines: nat) -> bool {
    &&& decode_laws::asks(action) ==> v.current_y == y && v.requested == lines
    &&& action == Action::Done ==> v.current_y == y + lines
}

pub proof fn lemma_advanced_whole(v: DecoderView)
    requires
        v.working(),
    ensures
        whole_batch(v.advanced().0, v.advanced().1, v.current_y, v.requested),
{
    let line_len = v.layout.line_len() as int;
    if v.requested * line_len <= v.buffer.len() {
        div_mod::lemma_fundamental_div_mod(v.buffer.len() as int, line_len);
        let available = v.buffer.len() as int / line_len;
        if available < v.requested {
            mul::lemma_mul_inequality(available + 1, v.requested as int, line_len);
            mul::lemma_mul_is_distributive_add_other_way(line_len, available, 1);
            mul::lemma_mul_is_commutative(available, line_len);
        }
    }
}

/// An answer that does not end the image data leaves a batch whole.
pub proof fn lemma_resumed_whole(v: DecoderView, reply: Option<Seq<u8>>)
    requires
        v.wf(),
        v.busy(),
        v.answers(reply),
        !ending(v, reply),
    ensures
        whole_batch(v.resumed(reply).0, v.resumed(reply).1, v.current_y, v.requested),
{
    match (v.stage, reply) {
        (Stage::ImageData, Some(piece)) => {
            inflate::lemma_out_grows(v.calls, piece, v.buffer);
            lemma_advanced_whole(v.inflating(piece));
        },
        _ => {},
    }
}

proof fn lemma_replayed_whole(
    v: DecoderView,
    action: Action,
    replies: Seq<Option<Seq<u8>>>,
    y: nat,
    lines: nat,
)
    requires
        decode_laws::consistent(v, action),
        decode_laws::all_answer(v, action, replies),
        whole_batch(v, action, y, lines),
        !ended(v, action, replies),
    ensures
        ({
            let (after, end) = decode_laws::replayed(v, action, replies);
            whole_batch(after, end, y, lines)
        }),
    decreases replies.len(),
{
    if replies.len() > 0 && decode_laws::asks(action) {
        let (next, then) = v.resumed(replies[0]);
        decode_laws::law_resumed_consistent(v, replies[0]);
        lemma_resumed_whole(v, replies[0]);
        lemma_replayed_whole(next, then, replies.drop_first(), y, lines);
    }
}

/// Law: a batch has as many rows as were asked for, or as many as are left of
/// the image where these are fewer, unless the image data ended before.
pub proof fn law_batch_is_whole(
    v: DecoderView,
    num_scanlines: nat,
    replies: Seq<Option<Seq<u8>>>,
)
    requires
        v.wf(),
        v.stage == Stage::Idle,
        v.current_y < v.header.height,
        decode_laws::all_answer(v.begun(num_scanlines).0, v.begun(num_scanlines).1, replies),
        !ended(v.begun(num_scanlines).0, v.begun(num_scanlines).1, replies),
        decode_laws::replayed(v.begun(num_scanlines).0, v.begun(num_scanlines).1, replies).1
            == Action::Done,
    ensures
        ({
            let (begun, action) = v.begun(num_scanlines);
            let (after, end) = decode_laws::replayed(begun, action, replies);
            after.current_y == if v.current_y + num_scanlines > v.header.height {
                v.header.height as nat
            } else {
                v.current_y + num_scanlines
            }
        }),
{
    let (begun, action) = v.begun(num_scanlines);
    decode_laws::law_begun_consistent(v, num_scanlines);
    let lines = v.lines_of(num_scanlines);
    if !v.corrupted && lines * v.layout.line_len() <= usize::MAX {
        lemma_advanced_whole(v.readied(num_scanlines));
    }
    lemma_replayed_whole(begun, action, replies, v.current_y, lines);
}

/// Law: the rows up to one of them and the rows from there on are all the rows.
pub proof fn law_rows_out_joined(v: DecoderView, raw: Seq<u8>, from: nat, mid: nat, to: nat)
    requires
        from <= mid <= to,
    ensures
        v.rows_out(raw, from, to) == v.rows_out(raw, from, mid) + v.rows_out(raw, mid, to),
    decreases to,
{
    if mid == to {
        assert(v.rows_out(raw, from, mid) + v.rows_out(raw, mid, to) =~= v.rows_out(
            raw,
            from,
            mid,
        ));
    } else {
        law_rows_out_joined(v, raw, from, mid, (to - 1) as nat);
        assert(v.rows_out(raw, from, to) =~= v.rows_out(raw, from, mid) + v.rows_out(
            raw,
            mid,
            to,
        ));
    }
}

/// Rows that are handed out as they are restored have the length of scanlines.
proof fn lemma_plain_rows_len(v: DecoderView, raw: Seq<u8>, from: nat, to: nat)
    requires
        v.layout.color_type != 3,
        from <= to,
        to * (v.width() + 1) <= raw.len(),
    ensures
        v.rows_out(raw, from, to).len() == (to - from) * v.width(),
    decreases to,
{
    if from < to {
        let last = (to - 1) as nat;
        assert(last * (v.width() + 1) + v.width() + 1 == to * (v.width() + 1)) by (nonlinear_arith)
            requires
                to == last + 1,
        ;
        lemma_plain_rows_len(v, raw, from, last);
        scanlines::lemma_rows_len(raw, v.zeroes(), v.bpp(), v.width(), last, to);
        assert((to - from) * v.width() == (last - from) * v.width() + v.width())
            by (nonlinear_arith)
            requires
                to == last + 1,
        ;
        assert((to - last) * v.width() == v.width()) by (nonlinear_arith)
            requires
                to == last + 1,
        ;
        assert(scanlines::rows(raw, v.zeroes(), v.bpp(), v.width(), last, last)
            =~= Seq::<u8>::empty());
        assert(scanlines::rows(raw, v.zeroes(), v.bpp(), v.width(), last, to)
            =~= scanlines::row_at(raw, v.zeroes(), v.bpp(), v.width(), last));
    } else {
        mul::lemma_mul_basics(v.width() as int);
    }
}

/// Law: the pixels that the rows of an image are converted to do not depend on
/// how the image is cut into batches.
pub proof fn law_converted_in_batches(
    v: DecoderView,
    raw: Seq<u8>,
    from: nat,
    mid: nat,
    to: nat,
)
    requires
        v.laid_out(),
        v.header.color_type == 0 || v.header.color_type == 3 || v.header.bit_depth % 8 == 0,
        from <= mid <= to,
        to * (v.width() + 1) <= raw.len(),
    ensures
        ({
            let (depth, color) = (v.header.bit_depth, v.header.color_type);
            let (a, b) = (v.rows_out(raw, from, mid), v.rows_out(raw, mid, to));
            &&& ppm::rgb(a, depth, color) + ppm::rgb(b, depth, color) == ppm::rgb(
                v.rows_out(raw, from, to),
                depth,
                color,
            )
            &&& pam::rgba(a, depth, color) + pam::rgba(b, depth, color) == pam::rgba(
                v.rows_out(raw, from, to),
                depth,
                color,
            )
        }),
{
    let (depth, color) = (v.header.bit_depth, v.header.color_type);
    let (a, b) = (v.rows_out(raw, from, mid), v.rows_out(raw, mid, to));
    law_rows_out_joined(v, raw, from, mid, to);
    if color != 3 {
        let p = ppm::pixel_len(depth, color);
        assert(mid * (v.width() + 1) <= to * (v.width() + 1)) by (nonlinear_arith)
            requires
                mid <= to,
        ;
        lemma_plain_rows_len(v, raw, from, mid);
        lemma_row_of_pixels(v);
        let n = v.width() as int / p as int;
        div_mod::lemma_fundamental_div_mod(v.width() as int, p as int);
        assert(a.len() == ((mid - from) * n) * p) by (nonlinear_arith)
            requires
                a.len() == (mid - from) * v.width(),
                v.width() == p * n,
        ;
        div_mod::lemma_mod_multiples_basic((mid - from) * n, p as int);
    }
    ppm::law_batches_join(a, b, depth, color);
    pam::law_batches_join(a, b, depth, color);
}

/// A row consists of whole pixels.
proof fn lemma_row_of_pixels(v: DecoderView)
    requires
        v.laid_out(),
        v.header.color_type != 3,
        v.header.color_type == 0 || v.header.bit_depth % 8 == 0,
    ensures
        ppm::pixel_len(v.header.bit_depth, v.header.color_type) > 0,
        v.width() % ppm::pixel_len(v.header.bit_depth, v.header.color_type) == 0,
{
    let p = ppm::pixel_len(v.header.bit_depth, v.header.color_type);
    let depth = v.header.bit_depth as int;
    let channels = header::channels_of(v.header.color_type)->0 as int;
    let width = v.header.width as int;
    if v.header.bit_depth % 8 == 0 {
        let bytes = depth / 8;
        let samples = width * channels * bytes;
        assert(width * (channels * depth) == 8 * samples) by (nonlinear_arith)
            requires
                depth == 8 * bytes,
                samples == width * channels * bytes,
        ;
        assert(v.width() == samples);
        let each = if depth == 16 {
            width
        } else {
            width * bytes
        };
        assert(samples == each * p) by (nonlinear_arith)
            requires
                samples == width * channels * bytes,
                p == (if depth == 16 {
                    2 * channels
                } else {
                    channels
                }),
                each == (if depth == 16 {
                    width
                } else {
                    width * bytes
                }),
                depth == 8 * bytes,
        ;
        assert(each >= 0) by (nonlinear_arith)
            requires
                width >= 0,
                bytes >= 0,
                each == width || each == width * bytes,
        ;
        div_mod::lemma_mod_multiples_basic(each, p as int);
    }
}

/// The Paeth filter stays within its window where samples have at most two
/// bytes.
pub proof fn lemma_plain_row(v: DecoderView)
    requires
        v.laid_out(),
        v.header.color_type != 3,
        v.header.bit_depth <= 16,
    ensures
        v.bpp() <= 8,
{
    let channels = header::channels_of(v.header.color_type)->0;
    assert(channels * v.header.bit_depth <= 64) by (nonlinear_arith)
        requires
            channels <= 4,
            v.header.bit_depth <= 16,
    ;
}

/// Law: images that are not indexed, with samples of at most two bytes, can
/// always be handed out.
pub proof fn law_plain_rows_deliverable(v: DecoderView)
    requires
        v.laid_out(),
        v.header.color_type != 3,
        v.header.bit_depth <= 16,
    ensures
        v.delivered().1 == Action::Done,
{
    lemma_plain_row(v);
}

/// Whole bytes of packed indices make up a row of `width` pixels.
proof fn lemma_packed_row(width: int, depth: int, packed: int)
    requires
        depth == 1 || depth == 2 || depth == 4 || depth == 8,
        0 < width,
        width % (8int / depth) == 0,
        packed == (width * depth + 7) / 8,
    ensures
        1 <= 8int / depth,
        width == packed * (8int / depth),
        1 <= packed,
{
    if depth == 1 {
        assert(8int / depth == 8 && width * depth == width);
    } else if depth == 2 {
        assert(8int / depth == 4 && width * depth == width * 2);
    } else if depth == 4 {
        assert(8int / depth == 2 && width * depth == width * 4);
    } else {
        assert(8int / depth == 1 && width * depth == width * 8);
    }
}

/// The pixels of an indexed row fill it, and take more room than the scanline.
pub proof fn lemma_indexed_row(v: DecoderView)
    requires
        v.laid_out(),
        v.header.color_type == 3,
        v.header.bit_depth == 1 || v.header.bit_depth == 2 || v.header.bit_depth == 4
            || v.header.bit_depth == 8,
        v.header.width > 0,
        v.header.width as int % palette::pixels_per_byte(v.header.bit_depth) == 0,
    ensures
        v.bpp() <= 8,
        v.rows_filled(),
        v.width() + 1 <= v.layout.output_stride,
{
    let w = v.width() as int;
    let ppb = palette::pixels_per_byte(v.header.bit_depth);
    let width = v.header.width as int;
    let pixel = palette::pixel_stride(v.transparency);
    assert(v.header.bits_per_pixel() == v.header.bit_depth);
    lemma_packed_row(width, v.header.bit_depth as int, w);
    assert(w <= width) by (nonlinear_arith)
        requires
            width == w * ppb,
            1 <= ppb,
            1 <= w,
    ;
    assert(w * ppb * pixel == width * pixel);
    assert(v.layout.output_stride == width * pixel);
}

/// Scanlines can be expanded where their pixels fill the rows, take more room
/// than the scanlines, and fit in memory.
pub proof fn lemma_filled_rows_fit(v: DecoderView, len: nat, lines: nat)
    requires
        v.layout.color_type == 3,
        0 < v.layout.bit_depth < usize::BITS,
        v.rows_filled(),
        v.width() + 1 <= v.layout.output_stride,
        lines * (v.width() + 1) <= len,
        len + lines * v.layout.output_stride - lines * (v.width() + 1) <= usize::MAX,
    ensures
        scanlines::expansion_fits(
            v.transparency,
            v.layout.bit_depth,
            len as int,
            lines as int,
            v.width() as int,
            v.layout.output_stride as int,
        ),
{
    let w = v.width() as int;
    let stride = v.layout.output_stride as int;
    assert(lines * (w + 1) <= lines * stride && lines * w <= lines * stride) by (nonlinear_arith)
        requires
            w + 1 <= stride,
            0 <= lines,
    ;
}

/// Law: indexed images with a depth that PNG has, whose rows fill whole bytes,
/// can be handed out as long as the rows fit in memory, and their pixels fill
/// the rows.
pub proof fn law_indexed_rows_deliverable(v: DecoderView)
    requires
        v.laid_out(),
        v.header.color_type == 3,
        v.header.bit_depth == 1 || v.header.bit_depth == 2 || v.header.bit_depth == 4
            || v.header.bit_depth == 8,
        v.header.width > 0,
        v.header.width as int % palette::pixels_per_byte(v.header.bit_depth) == 0,
        v.buffer.len() + v.ready_lines() * v.layout.output_stride <= usize::MAX,
    ensures
        v.delivered().1 == Action::Done,
        v.rows_filled(),
{
    let lines = v.ready_lines();
    let line_len = v.layout.line_len() as int;
    lemma_indexed_row(v);
    div_mod::lemma_fundamental_div_mod(v.buffer.len() as int, line_len);
    let available = v.buffer.len() as int / line_len;
    mul::lemma_mul_is_commutative(available, line_len);
    mul::lemma_mul_inequality(lines as int, available, line_len);
    mul::lemma_mul_nonnegative(lines as int, line_len);
    lemma_filled_rows_fit(v, v.buffer.len(), lines);
}

} // verus!
