//! What holds of a decoder over many batches.

use crate::decoder::{Action, DecoderView, Halt, Stage};
use crate::encoding;
use crate::filter;
use crate::inflate;
use crate::inflate::InflateEnd;
use crate::palette;
use crate::scanlines;
use vstd::arithmetic::div_mod;
use vstd::arithmetic::mul;
use vstd::prelude::*;

verus! {

impl DecoderView {
    pub open spec fn bpp(self) -> nat {
        self.layout.bytes_per_pixel as nat
    }

    pub open spec fn width(self) -> nat {
        self.layout.bytes_per_scanline as nat
    }

    /// The row above the first.
    pub open spec fn zeroes(self) -> Seq<u8> {
        Seq::new(self.width(), |j: int| 0u8)
    }

    /// All that the inflater has written so far.
    pub open spec fn inflated(self) -> Seq<u8> {
        inflate::inflated(self.calls)
    }

    /// The decoder is in step with its stream: as long as nothing was found
    /// corrupt, what is buffered for later is what was inflated behind the
    /// scanlines handed out, and the row kept is the last of these.
    pub open spec fn in_step(self) -> bool {
        self.corrupted || {
            &&& self.current_y * (self.width() + 1) <= self.inflated().len()
            &&& self.buffer.skip(self.pending_drain as int) == self.inflated().skip(
                (self.current_y * (self.width() + 1)) as int,
            )
            &&& self.prev == scanlines::row_above(
                self.inflated(),
                self.zeroes(),
                self.bpp(),
                self.width(),
                self.current_y,
            )
        }
    }

    /// A restored row as it is handed out.
    pub open spec fn row_out(self, row: Seq<u8>) -> Seq<u8> {
        if self.layout.color_type == 3 {
            palette::expanded_row(self.palette, self.transparency, self.layout.bit_depth, row)
        } else {
            row
        }
    }

    /// Rows `from` up to `to` of the image whose scanlines are `raw`, as they
    /// are handed out.
    pub open spec fn rows_out(self, raw: Seq<u8>, from: nat, to: nat) -> Seq<u8>
        decreases to,
    {
        if to <= from {
            Seq::empty()
        } else {
            self.rows_out(raw, from, (to - 1) as nat) + self.row_out(
                scanlines::row_at(
                    raw,
                    self.zeroes(),
                    self.bpp(),
                    self.width(),
                    (to - 1) as nat,
                ),
            )
        }
    }

    /// The pixels of a row fill the row as it is handed out.
    pub open spec fn rows_filled(self) -> bool {
        self.layout.color_type == 3 ==> palette::row_gap(
            self.transparency,
            self.layout.bit_depth,
            self.width() as int,
            self.layout.output_stride as int,
        ) == 0
    }
}

/// Law: a decoder starts in step with its stream.
pub proof fn law_fresh_in_step(
    header: crate::header::Header,
    palette: Seq<[u8; 3]>,
    transparency: Seq<u8>,
    idat_len: nat,
)
    requires
        header.measurable(transparency.len() > 0),
    ensures
        DecoderView::fresh(header, palette, transparency, idat_len).in_step(),
{
    let v = DecoderView::fresh(header, palette, transparency, idat_len);
    assert(v.current_y * (v.width() + 1) == 0) by (nonlinear_arith)
        requires
            v.current_y == 0,
    ;
    assert(v.buffer.skip(0) =~= v.inflated().skip(0));
    assert(v.prev =~= v.zeroes());
}

/// How many scanlines are whole in the buffer, and where they end.
pub proof fn lemma_ready_lines(v: DecoderView)
    ensures
        v.ready_lines() <= v.requested,
        v.ready_lines() * (v.width() + 1) <= v.buffer.len(),
        v.ready_lines() * (v.width() + 1) == v.ready_lines() * v.width() + v.ready_lines(),
        0 <= v.ready_lines() * v.width(),
{
    let lines = v.ready_lines();
    let line_len = (v.width() + 1) as int;
    let available = v.buffer.len() as int / line_len;
    div_mod::lemma_fundamental_div_mod(v.buffer.len() as int, line_len);
    mul::lemma_mul_is_commutative(available, line_len);
    mul::lemma_mul_inequality(lines as int, available, line_len);
    assert(lines * (v.width() + 1) == lines * v.width() + lines && 0 <= lines * v.width())
        by (nonlinear_arith);
}

/// Handing out a batch keeps the decoder in step.
proof fn lemma_delivered_in_step(v: DecoderView)
    requires
        v.working(),
        v.in_step(),
    ensures
        v.delivered().1 == Action::Done ==> v.delivered().0.in_step(),
        v.delivered().1 == Action::Done ==> v.delivered().0.current_y == v.current_y
            + v.ready_lines(),
{
    let after = v.delivered().0;
    if v.delivered().1 == Action::Done {
        let lines = v.ready_lines();
        let y = v.current_y;
        let w = v.width();
        let all = v.inflated();
        lemma_ready_lines(v);
        scanlines::lemma_rows_len(v.buffer, v.prev, v.bpp(), w, 0, lines);
        assert(v.buffer.skip(0) =~= v.buffer);
        assert((y + lines) * (w + 1) == y * (w + 1) + lines * (w + 1)) by (nonlinear_arith);
        scanlines::law_rows_after_cut(all, v.zeroes(), v.bpp(), w, y, lines);
        let restored = v.layout.restored_buffer(v.buffer, v.prev, lines);
        assert(restored.skip((lines * (w + 1)) as int) =~= v.buffer.skip(
            (lines * (w + 1)) as int,
        ));
        if v.layout.color_type == 3 {
            let size = lines * v.layout.output_stride as nat;
            assert(after.buffer.skip(size as int) =~= restored.skip((lines * (w + 1)) as int));
        }
        assert(after.buffer.skip(after.pending_drain as int) =~= all.skip(
            ((y + lines) * (w + 1)) as int,
        ));
    }
}

/// Going on with a batch keeps the decoder in step.
pub proof fn lemma_advanced_in_step(v: DecoderView)
    requires
        v.working(),
        v.in_step(),
    ensures
        v.advanced().0.stage != Stage::Halted ==> v.advanced().0.in_step(),
{
    lemma_delivered_in_step(v);
}

/// A piece that is all taken keeps the decoder in step.
pub proof fn lemma_taken_in_step(v: DecoderView, piece: Seq<u8>)
    requires
        v.working(),
        v.in_step(),
        inflate::inflate_run(v.calls, piece, v.buffer).end == InflateEnd::Taken,
    ensures
        v.inflating(piece).in_step(),
{
    let run = inflate::inflate_run(v.calls, piece, v.buffer);
    inflate::law_pieces_join(v.calls, piece, v.buffer);
    let more = run.out.skip(v.buffer.len() as int);
    let after = v.inflating(piece);
    let start = (v.current_y * (v.width() + 1)) as int;
    assert(v.buffer.skip(0) =~= v.buffer);
    assert(run.out =~= v.buffer + more);
    assert(after.buffer.skip(0) =~= after.inflated().skip(start));
    scanlines::law_rows_of_prefix(
        v.inflated(),
        more,
        v.zeroes(),
        v.bpp(),
        v.width(),
        0,
        v.current_y,
    );
}

/// Inflating a piece keeps the decoder in step.
proof fn lemma_fed_in_step(v: DecoderView, piece: Seq<u8>)
    requires
        v.working(),
        v.in_step(),
        piece.len() <= v.idat_remaining,
    ensures
        v.fed(piece).0.stage != Stage::Halted ==> v.fed(piece).0.in_step(),
{
    let run = inflate::inflate_run(v.calls, piece, v.buffer);
    if run.end == InflateEnd::Taken {
        lemma_taken_in_step(v, piece);
        inflate::lemma_out_grows(v.calls, piece, v.buffer);
        lemma_advanced_in_step(v.inflating(piece));
    }
}

/// Law: asking for a batch keeps a decoder in step with its stream.
pub proof fn law_begun_in_step(v: DecoderView, num_scanlines: nat)
    requires
        v.wf(),
        v.stage == Stage::Idle,
        v.in_step(),
    ensures
        v.begun(num_scanlines).0.stage != Stage::Halted ==> v.begun(num_scanlines).0.in_step(),
{
    let drained = v.drained();
    assert(drained.buffer.skip(0) =~= drained.buffer);
    assert(drained.in_step());
    if v.current_y < v.header.height && !v.corrupted {
        let lines = v.lines_of(num_scanlines);
        let begun = v.readied(num_scanlines);
        if lines * v.layout.line_len() <= usize::MAX {
            assert(begun.in_step());
            lemma_advanced_in_step(begun);
        }
    }
}

/// Law: whatever the stream answers, a decoder stays in step with it.
pub proof fn law_resumed_in_step(v: DecoderView, reply: Option<Seq<u8>>)
    requires
        v.wf(),
        v.busy(),
        v.answers(reply),
        v.in_step(),
    ensures
        v.resumed(reply).0.stage != Stage::Halted ==> v.resumed(reply).0.in_step(),
{
    lemma_delivered_in_step(v);
    match (v.stage, reply) {
        (Stage::ImageData, Some(piece)) => {
            if piece.len() > 0 {
                lemma_fed_in_step(v, piece);
            }
        },
        (Stage::ChunkHead, Some(head)) => {
            let len = crate::header::be_u32(head, 0) as nat;
            let entered = DecoderView {
                idat_remaining: len,
                crc_fed: crate::header::idat_type(),
                ..v
            };
            assert(entered.in_step());
            lemma_delivered_in_step(entered);
        },
        _ => {},
    }
}

/// Row `r` stands at its place among the rows.
proof fn lemma_row_among_rows(
    raw: Seq<u8>,
    first: Seq<u8>,
    bpp: nat,
    width: nat,
    from: nat,
    to: nat,
    r: nat,
)
    requires
        from <= r < to,
        to * (width + 1) <= raw.len(),
    ensures
        0 <= (r - from) * width <= (r - from) * width + width <= scanlines::rows(
            raw,
            first,
            bpp,
            width,
            from,
            to,
        ).len(),
        scanlines::rows(raw, first, bpp, width, from, to).subrange(
            (r - from) * width,
            (r - from) * width + width,
        ) == scanlines::row_at(raw, first, bpp, width, r),
    decreases to,
{
    let last = (to - 1) as nat;
    let all = scanlines::rows(raw, first, bpp, width, from, to);
    let front = scanlines::rows(raw, first, bpp, width, from, last);
    assert(last * (width + 1) <= raw.len() && last * (width + 1) + width + 1 <= raw.len() && last
        * width + width <= raw.len()) by (nonlinear_arith)
        requires
            to == last + 1,
            to * (width + 1) <= raw.len(),
            0 <= last,
            0 <= width,
    ;
    scanlines::lemma_rows_len(raw, first, bpp, width, from, to);
    scanlines::lemma_rows_len(raw, first, bpp, width, from, last);
    let row = scanlines::row_at(raw, first, bpp, width, last);
    assert(row.len() == width);
    assert(0 <= (r - from) * width) by (nonlinear_arith)
        requires
            from <= r,
            0 <= width,
    ;
    if r == last {
        assert(all.subrange((r - from) * width, (r - from) * width + width) =~= row);
    } else {
        lemma_row_among_rows(raw, first, bpp, width, from, last, r);
        assert(all.subrange((r - from) * width, (r - from) * width + width) =~= front.subrange(
            (r - from) * width,
            (r - from) * width + width,
        ));
    }
}

/// Where rows are handed out as they are restored, `rows_out` is `rows`.
proof fn lemma_plain_rows_out(v: DecoderView, raw: Seq<u8>, from: nat, to: nat)
    requires
        v.layout.color_type != 3,
    ensures
        v.rows_out(raw, from, to) == scanlines::rows(
            raw,
            v.zeroes(),
            v.bpp(),
            v.width(),
            from,
            to,
        ),
    decreases to,
{
    if from < to {
        lemma_plain_rows_out(v, raw, from, (to - 1) as nat);
    }
}

/// The pixels of the first `count` of `lines` expanded rows.
proof fn lemma_expanded_rows_out(
    v: DecoderView,
    raw: Seq<u8>,
    staged: Seq<u8>,
    from: nat,
    lines: nat,
    count: nat,
)
    requires
        v.layout.color_type == 3,
        v.rows_filled(),
        (from + lines) * (v.width() + 1) <= raw.len(),
        staged.len() == lines * v.layout.output_stride,
        palette::expandable(
            v.transparency,
            v.layout.bit_depth,
            staged.len() as int,
            lines as int,
            v.width() as int,
            v.layout.output_stride as int,
        ),
        staged.take((lines * v.width()) as int) == scanlines::rows(
            raw,
            v.zeroes(),
            v.bpp(),
            v.width(),
            from,
            from + lines,
        ),
        count <= lines,
    ensures
        0 <= count * v.layout.output_stride <= staged.len(),
        palette::expanded(
            v.palette,
            v.transparency,
            v.layout.bit_depth,
            staged,
            lines as int,
            v.width() as int,
            v.layout.output_stride as int,
        ).take(count * v.layout.output_stride) == v.rows_out(raw, from, from + count),
    decreases count,
{
    let stride = v.layout.output_stride as int;
    let w = v.width();
    let pixels = palette::expanded(
        v.palette,
        v.transparency,
        v.layout.bit_depth,
        staged,
        lines as int,
        w as int,
        stride,
    );
    mul::lemma_mul_inequality(count as int, lines as int, stride);
    mul::lemma_mul_nonnegative(count as int, stride);
    if count > 0 {
        let last = (count - 1) as nat;
        let r = from + last;
        lemma_expanded_rows_out(v, raw, staged, from, lines, last);
        palette::law_rows_expand_alone(
            v.palette,
            v.transparency,
            v.layout.bit_depth,
            staged,
            lines as int,
            w as int,
            stride,
            last as int,
        );
        lemma_row_among_rows(raw, v.zeroes(), v.bpp(), w, from, from + lines, r);
        scanlines::lemma_rows_len(raw, v.zeroes(), v.bpp(), w, from, from + lines);
        assert((last + 1) * w == last * w + w) by (nonlinear_arith);
        let rows = scanlines::rows(raw, v.zeroes(), v.bpp(), w, from, from + lines);
        assert(staged.subrange((last * w) as int, ((last + 1) * w) as int) =~= rows.subrange(
            (last * w) as int,
            (last * w + w) as int,
        ));
        assert(pixels.take(count * stride) =~= pixels.take(last * stride) + pixels.subrange(
            last * stride,
            (last + 1) * stride,
        ));
    } else {
        assert(count * stride == 0) by (nonlinear_arith)
            requires
                count == 0,
        ;
        assert(pixels.take(0) =~= Seq::empty());
    }
}

/// Law: a batch consists of the next rows of the image. Which bytes a row has
/// depends on the inflated stream and on the number of the row alone, so not
/// on how the image is cut into batches.
pub proof fn law_batch_is_the_next_rows(v: DecoderView)
    requires
        v.working(),
        v.in_step(),
        v.delivered().1 == Action::Done,
        v.rows_filled(),
        scanlines::filters_known(
            v.inflated(),
            v.width(),
            v.current_y,
            v.current_y + v.ready_lines(),
        ),
    ensures
        ({
            let after = v.delivered().0;
            &&& after.answer matches Some(size) && after.buffer.take(size as int) == v.rows_out(
                v.inflated(),
                v.current_y,
                after.current_y,
            )
            &&& after.current_y == v.current_y + v.ready_lines()
        }),
{
    let after = v.delivered().0;
    let lines = v.ready_lines();
    let y = v.current_y;
    let w = v.width();
    let all = v.inflated();
    let size = after.answer->0;
    lemma_ready_lines(v);
    assert(v.buffer.skip(0) =~= v.buffer);
    assert((y + lines) * (w + 1) == y * (w + 1) + lines * (w + 1)) by (nonlinear_arith);
    scanlines::law_rows_after_cut(all, v.zeroes(), v.bpp(), w, y, lines);
    scanlines::lemma_rows_len(v.buffer, v.prev, v.bpp(), w, 0, lines);
    let rows = scanlines::rows(all, v.zeroes(), v.bpp(), w, y, y + lines);
    let restored = v.layout.restored_buffer(v.buffer, v.prev, lines);
    if v.layout.color_type == 3 {
        let staged = scanlines::resized(restored, size);
        assert(staged.take((lines * w) as int) =~= rows);
        lemma_expanded_rows_out(v, all, staged, y, lines, lines);
        assert(after.buffer.take(size as int) =~= palette::expanded(
            v.palette,
            v.transparency,
            v.layout.bit_depth,
            staged,
            lines as int,
            w as int,
            v.layout.output_stride as int,
        ).take(size as int));
    } else {
        lemma_plain_rows_out(v, all, y, y + lines);
        assert(after.buffer.take(size as int) =~= rows);
    }
}

/// The state and the action that a step ends with belong together.
pub open spec fn consistent(v: DecoderView, action: Action) -> bool {
    &&& v.wf()
    &&& match action {
        Action::ReadExact(len) => v.busy() && v.stage != Stage::ImageData && v.wanted == len,
        Action::Read(len) => v.busy() && v.stage == Stage::ImageData && v.wanted == len,
        Action::Done => v.stage == Stage::Idle,
        Action::Halt(_) => v.stage == Stage::Halted,
    }
}

/// Everything but the progress of the decoding is the same.
pub open spec fn same_image(v: DecoderView, other: DecoderView) -> bool {
    &&& v.header == other.header
    &&& v.layout == other.layout
    &&& v.palette == other.palette
    &&& v.transparency == other.transparency
}

proof fn lemma_row_above_len(
    raw: Seq<u8>,
    first: Seq<u8>,
    bpp: nat,
    width: nat,
    i: nat,
)
    requires
        first.len() == width,
        i * (width + 1) <= raw.len(),
    ensures
        scanlines::row_above(raw, first, bpp, width, i).len() == width,
    decreases i,
{
    if i > 0 {
        let last = (i - 1) as nat;
        assert(last * (width + 1) + 1 + width <= raw.len() && 0 <= last * (width + 1))
            by (nonlinear_arith)
            requires
                i == last + 1,
                i * (width + 1) <= raw.len(),
                0 <= last,
        ;
        lemma_row_above_len(raw, first, bpp, width, last);
    }
}

proof fn lemma_delivered_consistent(v: DecoderView)
    requires
        v.working(),
    ensures
        consistent(v.delivered().0, v.delivered().1),
        same_image(v, v.delivered().0),
        v.delivered().0.calls == v.calls,
        v.delivered().1 == Action::Done ==> {
            let after = v.delivered().0;
            &&& !after.corrupted
            &&& after.current_y == v.current_y + v.ready_lines()
            &&& after.answer == Some(v.ready_lines() * v.layout.output_stride as nat)
            &&& v.ready_lines() <= v.requested
        },
{
    let after = v.delivered().0;
    lemma_ready_lines(v);
    if v.delivered().1 == Action::Done {
        let lines = v.ready_lines();
        lemma_row_above_len(v.buffer, v.prev, v.bpp(), v.width(), lines);
        scanlines::lemma_rows_len(v.buffer, v.prev, v.bpp(), v.width(), 0, lines);
        mul::lemma_mul_nonnegative(lines as int, v.layout.output_stride as int);
    }
}

proof fn lemma_blanked_consistent(v: DecoderView, lines: nat)
    requires
        v.sound(),
        v.current_y + lines <= v.header.height,
    ensures
        consistent(v.blanked(lines).0, v.blanked(lines).1),
        same_image(v, v.blanked(lines).0),
        v.blanked(lines).0.corrupted == v.corrupted,
        v.blanked(lines).0.calls == v.calls,
{
    mul::lemma_mul_nonnegative(lines as int, v.layout.output_stride as int);
}

proof fn lemma_advanced_consistent(v: DecoderView)
    requires
        v.working(),
    ensures
        consistent(v.advanced().0, v.advanced().1),
        same_image(v, v.advanced().0),
        v.advanced().0.calls == v.calls,
{
    lemma_delivered_consistent(v);
}

/// Law: asking for a batch leads to a sound state, and what is asked for next
/// is what that state awaits.
pub proof fn law_begun_consistent(v: DecoderView, num_scanlines: nat)
    requires
        v.wf(),
        v.stage == Stage::Idle,
    ensures
        consistent(v.begun(num_scanlines).0, v.begun(num_scanlines).1),
        same_image(v, v.begun(num_scanlines).0),
{
    let drained = v.drained();
    if v.current_y < v.header.height {
        let lines = v.lines_of(num_scanlines);
        if v.corrupted {
            lemma_blanked_consistent(v.readied(num_scanlines), lines);
        } else if lines * v.layout.line_len() <= usize::MAX {
            lemma_advanced_consistent(v.readied(num_scanlines));
        }
    }
}

/// Law: every answer of the stream leads to a sound state, and what is asked
/// for next is what that state awaits.
pub proof fn law_resumed_consistent(v: DecoderView, reply: Option<Seq<u8>>)
    requires
        v.wf(),
        v.busy(),
        v.answers(reply),
    ensures
        consistent(v.resumed(reply).0, v.resumed(reply).1),
        same_image(v, v.resumed(reply).0),
{
    lemma_delivered_consistent(v);
    lemma_blanked_consistent(DecoderView { corrupted: true, ..v }, v.requested);
    match (v.stage, reply) {
        (Stage::ImageData, Some(piece)) => {
            let after = v.inflating(piece);
            inflate::lemma_out_grows(v.calls, piece, v.buffer);
            lemma_advanced_consistent(after);
            lemma_blanked_consistent(DecoderView { corrupted: true, ..after }, v.requested);
        },
        (Stage::ChunkHead, Some(head)) => {
            let entered = DecoderView {
                idat_remaining: crate::header::be_u32(head, 0) as nat,
                crc_fed: crate::header::idat_type(),
                ..v
            };
            lemma_delivered_consistent(entered);
        },
        _ => {},
    }
}

/// Whether more of the stream is asked for.
pub open spec fn asks(action: Action) -> bool {
    action is ReadExact || action is Read
}

/// What a batch under way comes to when the stream gives `replies`, one after
/// the other, as long as more of it is asked for.
pub open spec fn replayed(
    v: DecoderView,
    action: Action,
    replies: Seq<Option<Seq<u8>>>,
) -> (DecoderView, Action)
    decreases replies.len(),
{
    if replies.len() == 0 || !asks(action) {
        (v, action)
    } else {
        let (next, then) = v.resumed(replies[0]);
        replayed(next, then, replies.drop_first())
    }
}

/// Each of the replies that is used answers what is asked for.
pub open spec fn all_answer(
    v: DecoderView,
    action: Action,
    replies: Seq<Option<Seq<u8>>>,
) -> bool
    decreases replies.len(),
{
    if replies.len() == 0 || !asks(action) {
        true
    } else {
        let (next, then) = v.resumed(replies[0]);
        v.answers(replies[0]) && all_answer(next, then, replies.drop_first())
    }
}

/// What a batch that was begun at row `y` of the image of `v` has come to: it
/// is still under way, or it is ready with the rows from `y` on, or image data
/// was found corrupt and it is ready with as many rows of zeroes, or it cannot
/// be had.
pub open spec fn batch_from(v: DecoderView, y: nat, after: DecoderView, action: Action) -> bool {
    &&& consistent(after, action)
    &&& same_image(v, after)
    &&& asks(action) ==> after.current_y == y && !after.corrupted && after.in_step()
    &&& action == Action::Done ==> {
        &&& after.in_step()
        &&& y <= after.current_y
        &&& after.answer == Some(((after.current_y - y) * v.layout.output_stride) as nat)
        &&& v.layout.color_type == 3 ==> after.answer == Some(after.pending_drain)
        &&& after.corrupted ==> after.buffer == Seq::new(after.answer->0, |j: int| 0u8)
        &&& !after.corrupted && v.rows_filled() && scanlines::filters_known(
            after.inflated(),
            v.width(),
            y,
            after.current_y,
        ) ==> after.buffer.take(after.answer->0 as int) == v.rows_out(
            after.inflated(),
            y,
            after.current_y,
        )
    }
}

proof fn lemma_same_rows_out(
    v: DecoderView,
    other: DecoderView,
    raw: Seq<u8>,
    from: nat,
    to: nat,
)
    requires
        same_image(v, other),
    ensures
        v.rows_out(raw, from, to) == other.rows_out(raw, from, to),
    decreases to,
{
    if from < to {
        lemma_same_rows_out(v, other, raw, from, (to - 1) as nat);
    }
}

proof fn lemma_delivered_from(v: DecoderView)
    requires
        v.working(),
        v.in_step(),
    ensures
        batch_from(v, v.current_y, v.delivered().0, v.delivered().1),
{
    lemma_delivered_consistent(v);
    lemma_delivered_in_step(v);
    if v.delivered().1 == Action::Done {
        let after = v.delivered().0;
        if v.rows_filled() && scanlines::filters_known(
            after.inflated(),
            v.width(),
            v.current_y,
            after.current_y,
        ) {
            law_batch_is_the_next_rows(v);
        }
    }
}

proof fn lemma_blanked_from(v: DecoderView, lines: nat)
    requires
        v.sound(),
        v.corrupted,
        v.current_y + lines <= v.header.height,
    ensures
        batch_from(v, v.current_y, v.blanked(lines).0, v.blanked(lines).1),
{
    lemma_blanked_consistent(v, lines);
}

proof fn lemma_batch_of_same_image(
    v: DecoderView,
    other: DecoderView,
    y: nat,
    after: DecoderView,
    action: Action,
)
    requires
        same_image(v, other),
        batch_from(other, y, after, action),
    ensures
        batch_from(v, y, after, action),
{
    if action == Action::Done {
        lemma_same_rows_out(v, other, after.inflated(), y, after.current_y);
    }
}

proof fn lemma_advanced_from(v: DecoderView)
    requires
        v.working(),
        v.in_step(),
    ensures
        batch_from(v, v.current_y, v.advanced().0, v.advanced().1),
{
    lemma_delivered_from(v);
    lemma_advanced_consistent(v);
}

proof fn lemma_resumed_from(v: DecoderView, reply: Option<Seq<u8>>)
    requires
        v.wf(),
        v.busy(),
        v.answers(reply),
        v.in_step(),
    ensures
        batch_from(v, v.current_y, v.resumed(reply).0, v.resumed(reply).1),
{
    law_resumed_consistent(v, reply);
    law_resumed_in_step(v, reply);
    lemma_delivered_from(v);
    let spoiled = DecoderView { corrupted: true, ..v };
    lemma_blanked_from(spoiled, v.requested);
    let (next, then) = spoiled.blanked(v.requested);
    lemma_batch_of_same_image(v, spoiled, v.current_y, next, then);
    match (v.stage, reply) {
        (Stage::ImageData, Some(piece)) => {
            let run = inflate::inflate_run(v.calls, piece, v.buffer);
            let after = v.inflating(piece);
            inflate::lemma_out_grows(v.calls, piece, v.buffer);
            if run.end == InflateEnd::Taken {
                lemma_taken_in_step(v, piece);
                lemma_advanced_from(after);
                let (next, then) = after.advanced();
                lemma_batch_of_same_image(v, after, v.current_y, next, then);
            } else if run.end == InflateEnd::Corrupt {
                let spoiled = DecoderView { corrupted: true, ..after };
                lemma_blanked_from(spoiled, v.requested);
                let (next, then) = spoiled.blanked(v.requested);
                lemma_batch_of_same_image(v, spoiled, v.current_y, next, then);
            }
        },
        (Stage::ChunkHead, Some(head)) => {
            let entered = DecoderView {
                idat_remaining: crate::header::be_u32(head, 0) as nat,
                crc_fed: crate::header::idat_type(),
                ..v
            };
            assert(entered.in_step());
            lemma_delivered_from(entered);
            let (next, then) = entered.delivered();
            lemma_batch_of_same_image(v, entered, v.current_y, next, then);
        },
        _ => {},
    }
}

proof fn lemma_replayed_from(
    v: DecoderView,
    y: nat,
    now: DecoderView,
    action: Action,
    replies: Seq<Option<Seq<u8>>>,
)
    requires
        batch_from(v, y, now, action),
        all_answer(now, action, replies),
    ensures
        batch_from(v, y, replayed(now, action, replies).0, replayed(now, action, replies).1),
    decreases replies.len(),
{
    if replies.len() > 0 && asks(action) {
        lemma_resumed_from(now, replies[0]);
        let (next, then) = now.resumed(replies[0]);
        lemma_batch_of_same_image(v, now, y, next, then);
        lemma_replayed_from(v, y, next, then, replies.drop_first());
    }
}

/// Law: whatever the stream answers, and in whatever pieces, a batch asked of a
/// decoder in step consists of the rows that follow those handed out, or of
/// zeroes where image data was found corrupt, and leaves the decoder in step.
/// Which bytes the rows have depends on what was inflated and on the number of
/// the row alone.
pub proof fn law_batch(v: DecoderView, num_scanlines: nat, replies: Seq<Option<Seq<u8>>>)
    requires
        v.wf(),
        v.stage == Stage::Idle,
        v.in_step(),
        v.current_y < v.header.height,
        all_answer(v.begun(num_scanlines).0, v.begun(num_scanlines).1, replies),
    ensures
        ({
            let (begun, action) = v.begun(num_scanlines);
            let (after, end) = replayed(begun, action, replies);
            batch_from(v, v.current_y, after, end)
        }),
{
    let (begun, action) = v.begun(num_scanlines);
    law_begun_consistent(v, num_scanlines);
    law_begun_in_step(v, num_scanlines);
    let drained = v.drained();
    assert(drained.buffer.skip(0) =~= drained.buffer);
    let lines = v.lines_of(num_scanlines);
    let ready = v.readied(num_scanlines);
    if v.corrupted {
        lemma_blanked_from(ready, lines);
        lemma_batch_of_same_image(v, ready, v.current_y, begun, action);
    } else if lines * v.layout.line_len() <= usize::MAX {
        lemma_advanced_from(ready);
        lemma_batch_of_same_image(v, ready, v.current_y, begun, action);
    }
    lemma_replayed_from(v, v.current_y, begun, action, replies);
}

impl DecoderView {
    /// Rows `from` up to `to` of `image` as they are handed out.
    pub open spec fn image_out(self, image: Seq<Seq<u8>>, from: nat, to: nat) -> Seq<u8>
        decreases to,
    {
        if to <= from {
            Seq::empty()
        } else {
            self.image_out(image, from, (to - 1) as nat) + self.row_out(image[to - 1])
        }
    }
}

/// The first scanlines of an encoded image are the encoding of its first rows.
proof fn lemma_encoded_front(
    image: Seq<Seq<u8>>,
    filters: Seq<u8>,
    bpp: nat,
    width: nat,
    count: nat,
    front: nat,
)
    requires
        front <= count <= image.len(),
        forall|i: int| 0 <= i < image.len() ==> (#[trigger] image[i]).len() == width,
    ensures
        encoding::encoded(image, filters, bpp, width, count).len() == count * (width + 1),
        0 <= front * (width + 1) <= count * (width + 1),
        encoding::encoded(image, filters, bpp, width, count).take((front * (width + 1)) as int)
            == encoding::encoded(image, filters, bpp, width, front),
    decreases count,
{
    let all = encoding::encoded(image, filters, bpp, width, count);
    encoding::lemma_encoded_len(image, filters, bpp, width, count);
    mul::lemma_mul_inequality(front as int, count as int, (width + 1) as int);
    mul::lemma_mul_nonnegative(front as int, (width + 1) as int);
    if front == count {
        assert(all.take((front * (width + 1)) as int) =~= all);
    } else {
        let less = (count - 1) as nat;
        lemma_encoded_front(image, filters, bpp, width, less, front);
        let shorter = encoding::encoded(image, filters, bpp, width, less);
        assert(all.take((front * (width + 1)) as int) =~= shorter.take(
            (front * (width + 1)) as int,
        ));
    }
}

/// Row `k` of an encoded image, and its filter byte.
proof fn lemma_encoded_row(
    image: Seq<Seq<u8>>,
    filters: Seq<u8>,
    bpp: nat,
    width: nat,
    count: nat,
    more: Seq<u8>,
    k: nat,
)
    requires
        0 < bpp,
        k < count <= image.len(),
        count <= filters.len(),
        forall|i: int| 0 <= i < image.len() ==> (#[trigger] image[i]).len() == width,
        forall|i: int| 0 <= i < filters.len() ==> filter::known_filter(#[trigger] filters[i]),
    ensures
        ({
            let raw = encoding::encoded(image, filters, bpp, width, count) + more;
            let zeroes = Seq::new(width, |j: int| 0u8);
            &&& scanlines::row_at(raw, zeroes, bpp, width, k) == image[k as int]
            &&& filter::known_filter(scanlines::filter_at(raw, width, k))
        }),
{
    let raw = encoding::encoded(image, filters, bpp, width, count) + more;
    let zeroes = Seq::new(width, |j: int| 0u8);
    let upto = (k + 1) as nat;
    let front = encoding::encoded(image, filters, bpp, width, upto);
    lemma_encoded_front(image, filters, bpp, width, count, upto);
    let tail = raw.skip((upto * (width + 1)) as int);
    assert(raw =~= front + tail) by {
        assert(raw.take((upto * (width + 1)) as int) =~= encoding::encoded(
            image,
            filters,
            bpp,
            width,
            count,
        ).take((upto * (width + 1)) as int));
    }
    encoding::law_decoding_undoes_encoding(image, filters, bpp, width, k, upto, tail);
    assert(scanlines::rows(raw, zeroes, bpp, width, k, k) =~= Seq::empty());
    assert(encoding::joined(image, k, k) =~= Seq::empty());
    let row = scanlines::row_at(raw, zeroes, bpp, width, k);
    assert(scanlines::rows(raw, zeroes, bpp, width, k, upto) =~= row);
    assert(encoding::joined(image, k, upto) =~= image[k as int]);
    encoding::lemma_encoded_len(image, filters, bpp, width, k);
    encoding::lemma_encoded_len(image, filters, bpp, width, upto);
    assert(raw[(k * (width + 1)) as int] == front[(k * (width + 1)) as int]) by {
        assert(upto * (width + 1) == k * (width + 1) + width + 1) by (nonlinear_arith)
            requires
                upto == k + 1,
        ;
    }
    assert(scanlines::filter_at(raw, width, k) == filters[k as int]);
}

/// Law: the rows of an encoded image are handed out as they went in.
pub proof fn law_encoded_rows_come_out(
    v: DecoderView,
    image: Seq<Seq<u8>>,
    filters: Seq<u8>,
    count: nat,
    more: Seq<u8>,
    from: nat,
    to: nat,
)
    requires
        0 < v.bpp(),
        to <= count <= image.len(),
        count <= filters.len(),
        forall|i: int| 0 <= i < image.len() ==> (#[trigger] image[i]).len() == v.width(),
        forall|i: int| 0 <= i < filters.len() ==> filter::known_filter(#[trigger] filters[i]),
    ensures
        ({
            let raw = encoding::encoded(image, filters, v.bpp(), v.width(), count) + more;
            &&& v.rows_out(raw, from, to) == v.image_out(image, from, to)
            &&& scanlines::filters_known(raw, v.width(), from, to)
        }),
    decreases to,
{
    let raw = encoding::encoded(image, filters, v.bpp(), v.width(), count) + more;
    assert forall|k: nat| from <= k < to implies filter::known_filter(
        #[trigger] scanlines::filter_at(raw, v.width(), k),
    ) by {
        lemma_encoded_row(image, filters, v.bpp(), v.width(), count, more, k);
    }
    if from < to {
        let last = (to - 1) as nat;
        law_encoded_rows_come_out(v, image, filters, count, more, from, last);
        lemma_encoded_row(image, filters, v.bpp(), v.width(), count, more, last);
    }
}

/// Law: when the compressed stream holds an encoded image, every batch that is
/// not found corrupt consists of the next rows of that image, whatever the
/// filters of its rows, the size of the batches and the pieces of the stream.
pub proof fn law_image_decoded(
    v: DecoderView,
    num_scanlines: nat,
    replies: Seq<Option<Seq<u8>>>,
    image: Seq<Seq<u8>>,
    filters: Seq<u8>,
    count: nat,
    more: Seq<u8>,
)
    requires
        v.wf(),
        v.stage == Stage::Idle,
        v.in_step(),
        v.current_y < v.header.height,
        v.rows_filled(),
        all_answer(v.begun(num_scanlines).0, v.begun(num_scanlines).1, replies),
        count <= image.len(),
        count <= filters.len(),
        forall|i: int| 0 <= i < image.len() ==> (#[trigger] image[i]).len() == v.width(),
        forall|i: int| 0 <= i < filters.len() ==> filter::known_filter(#[trigger] filters[i]),
        ({
            let (begun, action) = v.begun(num_scanlines);
            let (after, end) = replayed(begun, action, replies);
            &&& end == Action::Done
            &&& !after.corrupted
            &&& after.current_y <= count
            &&& after.inflated() == encoding::encoded(
                image,
                filters,
                v.bpp(),
                v.width(),
                count,
            ) + more
        }),
    ensures
        ({
            let (begun, action) = v.begun(num_scanlines);
            let (after, end) = replayed(begun, action, replies);
            &&& after.answer is Some
            &&& after.buffer.take(after.answer->0 as int) == v.image_out(
                image,
                v.current_y,
                after.current_y,
            )
        }),
{
    let (begun, action) = v.begun(num_scanlines);
    let (after, end) = replayed(begun, action, replies);
    law_batch(v, num_scanlines, replies);
    law_encoded_rows_come_out(v, image, filters, count, more, v.current_y, after.current_y);
}

/// Law: a decoder at the end of its image hands out nothing.
pub proof fn law_nothing_after_the_end(v: DecoderView, num_scanlines: nat)
    requires
        v.wf(),
        v.stage == Stage::Idle,
        v.current_y == v.header.height,
    ensures
        v.begun(num_scanlines).1 == Action::Done,
        v.begun(num_scanlines).0.answer == None::<nat>,
        v.begun(num_scanlines).0.current_y == v.current_y,
{
}

/// Law: once image data was found corrupt, every batch consists of as many rows
/// of zeroes as were asked for and are left, and the stream is not read again.
pub proof fn law_corruption_lasts(v: DecoderView, num_scanlines: nat)
    requires
        v.wf(),
        v.stage == Stage::Idle,
        v.corrupted,
        v.current_y < v.header.height,
    ensures
        ({
            let (after, action) = v.begun(num_scanlines);
            let left = v.header.height - v.current_y;
            let lines = if left < num_scanlines {
                left
            } else {
                num_scanlines as int
            };
            &&& after.corrupted
            &&& if lines * v.layout.output_stride <= usize::MAX {
                &&& action == Action::Done
                &&& after.current_y == v.current_y + lines
                &&& after.answer == Some((lines * v.layout.output_stride) as nat)
                &&& after.buffer == Seq::new(after.answer->0, |j: int| 0u8)
            } else {
                action == Action::Halt(Halt::TooLarge)
            }
        }),
{
}

/// The image data that the stream gives in `replies` while a batch is under
/// way.
pub open spec fn image_data(
    v: DecoderView,
    action: Action,
    replies: Seq<Option<Seq<u8>>>,
) -> Seq<u8>
    decreases replies.len(),
{
    if replies.len() == 0 || !asks(action) {
        Seq::empty()
    } else {
        let (next, then) = v.resumed(replies[0]);
        let piece = if v.stage == Stage::ImageData && replies[0] is Some {
            replies[0]->0
        } else {
            Seq::empty()
        };
        piece + image_data(next, then, replies.drop_first())
    }
}

proof fn lemma_resumed_takes(v: DecoderView, reply: Option<Seq<u8>>)
    requires
        v.wf(),
        v.busy(),
        v.answers(reply),
    ensures
        ({
            let (next, action) = v.resumed(reply);
            let piece = if v.stage == Stage::ImageData && reply is Some {
                reply->0
            } else {
                Seq::empty()
            };
            next.stage == Stage::Halted || next.corrupted || inflate::taken(next.calls)
                == inflate::taken(v.calls) + piece
        }),
{
    assert(inflate::taken(v.calls) + Seq::<u8>::empty() =~= inflate::taken(v.calls));
    lemma_delivered_consistent(v);
    match (v.stage, reply) {
        (Stage::ImageData, Some(piece)) => {
            let run = inflate::inflate_run(v.calls, piece, v.buffer);
            if piece.len() > 0 && run.end == InflateEnd::Taken {
                inflate::law_pieces_join(v.calls, piece, v.buffer);
                let after = v.inflating(piece);
                inflate::lemma_out_grows(v.calls, piece, v.buffer);
                lemma_advanced_consistent(after);
            }
        },
        (Stage::ChunkHead, Some(head)) => {
            lemma_delivered_consistent(
                DecoderView {
                    idat_remaining: crate::header::be_u32(head, 0) as nat,
                    crc_fed: crate::header::idat_type(),
                    ..v
                },
            );
        },
        _ => {},
    }
}

/// Law: the inflater takes in the image data of the stream, and only that, end
/// to end: where one image data chunk ends and the next begins, and what stands
/// between them, makes no difference to it.
pub proof fn law_image_data_joined(
    v: DecoderView,
    action: Action,
    replies: Seq<Option<Seq<u8>>>,
)
    requires
        consistent(v, action),
        all_answer(v, action, replies),
    ensures
        ({
            let (after, end) = replayed(v, action, replies);
            after.stage == Stage::Halted || after.corrupted || inflate::taken(after.calls)
                == inflate::taken(v.calls) + image_data(v, action, replies)
        }),
    decreases replies.len(),
{
    if replies.len() > 0 && asks(action) {
        lemma_resumed_takes(v, replies[0]);
        law_resumed_consistent(v, replies[0]);
        let (next, then) = v.resumed(replies[0]);
        law_image_data_joined(next, then, replies.drop_first());
        let piece = if v.stage == Stage::ImageData && replies[0] is Some {
            replies[0]->0
        } else {
            Seq::empty()
        };
        let rest = image_data(next, then, replies.drop_first());
        assert(inflate::taken(v.calls) + piece + rest =~= inflate::taken(v.calls) + (piece + rest));
    } else {
        assert(inflate::taken(v.calls) + Seq::<u8>::empty() =~= inflate::taken(v.calls));
    }
}

} // verus!
