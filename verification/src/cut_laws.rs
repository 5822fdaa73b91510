//! Batches one after another: an image does not depend on how it is cut into
//! batches.

use crate::batch_laws;
use crate::decode_laws;
use crate::decoder::{Action, DecoderView, Stage};
use crate::header::Header;
use crate::inflate;
use crate::inflate::InflateEnd;
use crate::palette;
use crate::scanlines;
use vstd::arithmetic::mul;
use vstd::prelude::*;

verus! {

/// The bytes of the batch that a decoder holds ready.
pub open spec fn batch_bytes(v: DecoderView) -> Seq<u8> {
    match v.answer {
        Some(size) => v.buffer.take(size as int),
        None => Seq::empty(),
    }
}

/// The replies that a batch under way has no use for.
pub open spec fn unused(
    v: DecoderView,
    action: Action,
    replies: Seq<Option<Seq<u8>>>,
) -> Seq<Option<Seq<u8>>>
    decreases replies.len(),
{
    if replies.len() == 0 || !decode_laws::asks(action) {
        replies
    } else {
        let (next, then) = v.resumed(replies[0]);
        unused(next, then, replies.drop_first())
    }
}

/// What batches asked for one after another come to.
pub struct Batches {
    pub decoder: DecoderView,
    /// What the decoder needs next; `Done` where every batch is ready.
    pub action: Action,
    /// The bytes of the batches, end to end.
    pub bytes: Seq<u8>,
    /// The replies that are left.
    pub unused: Seq<Option<Seq<u8>>>,
}

/// What batches of up to `requests` rows, asked for one after another, come to
/// when the stream gives `replies`.
pub open spec fn batches(
    v: DecoderView,
    requests: Seq<nat>,
    replies: Seq<Option<Seq<u8>>>,
) -> Batches
    decreases requests.len(),
{
    if requests.len() == 0 {
        Batches { decoder: v, action: Action::Done, bytes: Seq::empty(), unused: replies }
    } else {
        let (begun, action) = v.begun(requests[0]);
        let (after, end) = decode_laws::replayed(begun, action, replies);
        let left = unused(begun, action, replies);
        if end == Action::Done {
            let rest = batches(after, requests.drop_first(), left);
            Batches { bytes: batch_bytes(after) + rest.bytes, ..rest }
        } else {
            Batches { decoder: after, action: end, bytes: Seq::empty(), unused: left }
        }
    }
}

/// Each of the replies that the batches use answers what is asked for.
pub open spec fn batches_answered(
    v: DecoderView,
    requests: Seq<nat>,
    replies: Seq<Option<Seq<u8>>>,
) -> bool
    decreases requests.len(),
{
    requests.len() == 0 || {
        let (begun, action) = v.begun(requests[0]);
        let (after, end) = decode_laws::replayed(begun, action, replies);
        let left = unused(begun, action, replies);
        &&& decode_laws::all_answer(begun, action, replies)
        &&& end == Action::Done ==> batches_answered(after, requests.drop_first(), left)
    }
}

/// How many rows are asked for in all.
pub open spec fn total(requests: Seq<nat>) -> nat
    decreases requests.len(),
{
    if requests.len() == 0 {
        0
    } else {
        requests[0] + total(requests.drop_first())
    }
}

/// `front` is the front of `all`.
pub open spec fn leads(front: Seq<u8>, all: Seq<u8>) -> bool {
    front.len() <= all.len() && all.take(front.len() as int) == front
}

pub proof fn lemma_leads_on(a: Seq<u8>, b: Seq<u8>, c: Seq<u8>)
    requires
        leads(a, b),
        leads(b, c),
    ensures
        leads(a, c),
{
    assert(c.take(a.len() as int) =~= c.take(b.len() as int).take(a.len() as int));
}

/// Rows that are whole stay the same when more is inflated.
proof fn lemma_rows_out_of_front(
    v: DecoderView,
    front: Seq<u8>,
    all: Seq<u8>,
    from: nat,
    to: nat,
)
    requires
        leads(front, all),
        to * (v.width() + 1) <= front.len(),
    ensures
        v.rows_out(front, from, to) == v.rows_out(all, from, to),
    decreases to,
{
    if from < to {
        let last = (to - 1) as nat;
        let more = all.skip(front.len() as int);
        assert(all =~= front + more);
        mul::lemma_mul_inequality(last as int, to as int, (v.width() + 1) as int);
        lemma_rows_out_of_front(v, front, all, from, last);
        scanlines::law_rows_of_prefix(front, more, v.zeroes(), v.bpp(), v.width(), last, to);
        lemma_single_row(front, v.zeroes(), v.bpp(), v.width(), last);
        lemma_single_row(all, v.zeroes(), v.bpp(), v.width(), last);
    }
}

proof fn lemma_single_row(raw: Seq<u8>, first: Seq<u8>, bpp: nat, width: nat, i: nat)
    ensures
        scanlines::rows(raw, first, bpp, width, i, i + 1) == scanlines::row_at(
            raw,
            first,
            bpp,
            width,
            i,
        ),
{
    assert(scanlines::rows(raw, first, bpp, width, i, i) =~= Seq::<u8>::empty());
    assert(scanlines::rows(raw, first, bpp, width, i, i + 1) =~= scanlines::row_at(
        raw,
        first,
        bpp,
        width,
        i,
    ));
}

/// Filters that are known stay known when more is inflated.
proof fn lemma_filters_of_front(
    front: Seq<u8>,
    all: Seq<u8>,
    width: nat,
    from: nat,
    to: nat,
)
    requires
        leads(front, all),
        to * (width + 1) <= front.len(),
        scanlines::filters_known(all, width, from, to),
    ensures
        scanlines::filters_known(front, width, from, to),
{
    assert forall|i: nat| from <= i < to implies crate::filter::known_filter(
        #[trigger] scanlines::filter_at(front, width, i),
    ) by {
        assert(i * (width + 1) < to * (width + 1)) by (nonlinear_arith)
            requires
                i < to,
        ;
        assert(0 <= i * (width + 1)) by (nonlinear_arith);
        assert(all.take(front.len() as int)[(i * (width + 1)) as int] == front[(i * (width
            + 1)) as int]);
        assert(scanlines::filter_at(front, width, i) == scanlines::filter_at(all, width, i));
    }
}

/// What a decoder has inflated only grows.
proof fn lemma_resumed_leads(v: DecoderView, reply: Option<Seq<u8>>)
    requires
        v.wf(),
        v.busy(),
        v.answers(reply),
        v.resumed(reply).0.stage != Stage::Halted,
        !v.resumed(reply).0.corrupted,
    ensures
        leads(v.inflated(), v.resumed(reply).0.inflated()),
{
    assert(v.inflated().take(v.inflated().len() as int) =~= v.inflated());
    match (v.stage, reply) {
        (Stage::ImageData, Some(piece)) => {
            let run = inflate::inflate_run(v.calls, piece, v.buffer);
            if piece.len() > 0 && run.end == InflateEnd::Taken {
                inflate::law_pieces_join(v.calls, piece, v.buffer);
                let more = run.out.skip(v.buffer.len() as int);
                assert((v.inflated() + more).take(v.inflated().len() as int) =~= v.inflated());
            }
        },
        _ => {},
    }
}

proof fn lemma_replayed_leads(v: DecoderView, action: Action, replies: Seq<Option<Seq<u8>>>)
    requires
        decode_laws::consistent(v, action),
        decode_laws::all_answer(v, action, replies),
        decode_laws::replayed(v, action, replies).0.stage != Stage::Halted,
        !decode_laws::replayed(v, action, replies).0.corrupted,
    ensures
        leads(v.inflated(), decode_laws::replayed(v, action, replies).0.inflated()),
        !v.corrupted,
    decreases replies.len(),
{
    if replies.len() > 0 && decode_laws::asks(action) {
        let (next, then) = v.resumed(replies[0]);
        decode_laws::law_resumed_consistent(v, replies[0]);
        lemma_replayed_leads(next, then, replies.drop_first());
        lemma_resumed_leads(v, replies[0]);
        lemma_leads_on(
            v.inflated(),
            next.inflated(),
            decode_laws::replayed(v, action, replies).0.inflated(),
        );
    } else {
        assert(v.inflated().take(v.inflated().len() as int) =~= v.inflated());
    }
}

/// What a decoder comes to when a batch is ready: sound, of the same image, in
/// step, and with all it had inflated before.
pub proof fn lemma_one_batch(v: DecoderView, num_scanlines: nat, replies: Seq<Option<Seq<u8>>>)
    requires
        v.wf(),
        v.stage == Stage::Idle,
        v.in_step(),
        decode_laws::all_answer(v.begun(num_scanlines).0, v.begun(num_scanlines).1, replies),
        ({
            let (begun, action) = v.begun(num_scanlines);
            decode_laws::replayed(begun, action, replies).1 == Action::Done
        }),
    ensures
        ({
            let (begun, action) = v.begun(num_scanlines);
            let after = decode_laws::replayed(begun, action, replies).0;
            &&& after.wf()
            &&& after.stage == Stage::Idle
            &&& after.in_step()
            &&& decode_laws::same_image(v, after)
            &&& v.current_y <= after.current_y
            &&& v.corrupted ==> after.corrupted
            &&& !after.corrupted ==> leads(v.inflated(), after.inflated())
            &&& !after.corrupted && v.rows_filled() && scanlines::filters_known(
                after.inflated(),
                v.width(),
                v.current_y,
                after.current_y,
            ) ==> batch_bytes(after) == v.rows_out(
                after.inflated(),
                v.current_y,
                after.current_y,
            )
        }),
{
    let (begun, action) = v.begun(num_scanlines);
    let (after, end) = decode_laws::replayed(begun, action, replies);
    decode_laws::law_begun_consistent(v, num_scanlines);
    if v.current_y < v.header.height {
        decode_laws::law_batch(v, num_scanlines, replies);
        if !after.corrupted {
            lemma_replayed_leads(begun, action, replies);
        }
    } else {
        decode_laws::law_begun_in_step(v, num_scanlines);
        assert(v.inflated().take(v.inflated().len() as int) =~= v.inflated());
    }
}

/// Law: batches asked for one after another, whatever their sizes, are the rows
/// of the image from the first of them on, end to end, as long as image data is
/// not found corrupt.
pub proof fn law_batches_are_the_rows(
    v: DecoderView,
    requests: Seq<nat>,
    replies: Seq<Option<Seq<u8>>>,
)
    requires
        v.wf(),
        v.stage == Stage::Idle,
        v.in_step(),
        v.rows_filled(),
        batches_answered(v, requests, replies),
        batches(v, requests, replies).action == Action::Done,
        !batches(v, requests, replies).decoder.corrupted,
        scanlines::filters_known(
            batches(v, requests, replies).decoder.inflated(),
            v.width(),
            v.current_y,
            batches(v, requests, replies).decoder.current_y,
        ),
    ensures
        ({
            let all = batches(v, requests, replies);
            &&& all.bytes == v.rows_out(
                all.decoder.inflated(),
                v.current_y,
                all.decoder.current_y,
            )
            &&& v.current_y <= all.decoder.current_y
            &&& leads(v.inflated(), all.decoder.inflated())
            &&& all.decoder.in_step()
            &&& !v.corrupted
        }),
    decreases requests.len(),
{
    let all = batches(v, requests, replies);
    assert(v.inflated().take(v.inflated().len() as int) =~= v.inflated());
    if requests.len() > 0 {
        let (begun, action) = v.begun(requests[0]);
        let (after, end) = decode_laws::replayed(begun, action, replies);
        let left = unused(begun, action, replies);
        lemma_one_batch(v, requests[0], replies);
        lemma_batches_keep(after, requests.drop_first(), left);
        law_batches_are_the_rows(after, requests.drop_first(), left);
        let seen = all.decoder.inflated();
        lemma_leads_on(v.inflated(), after.inflated(), seen);
        assert(scanlines::filters_known(seen, v.width(), v.current_y, after.current_y));
        lemma_filters_of_front(
            after.inflated(),
            seen,
            v.width(),
            v.current_y,
            after.current_y,
        );
        lemma_rows_out_of_front(v, after.inflated(), seen, v.current_y, after.current_y);
        lemma_same_rows(v, after, seen, after.current_y, all.decoder.current_y);
        batch_laws::law_rows_out_joined(
            v,
            seen,
            v.current_y,
            after.current_y,
            all.decoder.current_y,
        );
    }
}

/// Rows are the same for every decoder of the image.
pub proof fn lemma_same_rows(v: DecoderView, other: DecoderView, raw: Seq<u8>, from: nat, to: nat)
    requires
        decode_laws::same_image(v, other),
    ensures
        v.rows_out(raw, from, to) == other.rows_out(raw, from, to),
    decreases to,
{
    if from < to {
        lemma_same_rows(v, other, raw, from, (to - 1) as nat);
    }
}

/// Batches never go back.
proof fn lemma_batches_keep(v: DecoderView, requests: Seq<nat>, replies: Seq<Option<Seq<u8>>>)
    requires
        v.wf(),
        v.stage == Stage::Idle,
        v.in_step(),
        batches_answered(v, requests, replies),
        batches(v, requests, replies).action == Action::Done,
    ensures
        v.current_y <= batches(v, requests, replies).decoder.current_y,
        v.corrupted ==> batches(v, requests, replies).decoder.corrupted,
    decreases requests.len(),
{
    if requests.len() > 0 {
        let (begun, action) = v.begun(requests[0]);
        let (after, end) = decode_laws::replayed(begun, action, replies);
        lemma_one_batch(v, requests[0], replies);
        lemma_batches_keep(after, requests.drop_first(), unused(begun, action, replies));
    }
}

/// More of the stream is asked for, to go on with a batch.
pub open spec fn asking_on(v: DecoderView) -> (DecoderView, Action) {
    if v.idat_remaining > 0 {
        v.asking_for_data()
    } else if v.current_y > 0 || v.buffer.len() > 0 {
        v.asking(Stage::IdatCrc, 4)
    } else {
        v.asking(Stage::ChunkHead, 8)
    }
}

/// Rows of this layout can be handed out, as long as they fit in memory: the
/// Paeth filter stays within its window, and palette colours fill the rows and
/// take more room than the scanlines.
pub open spec fn ordinary(v: DecoderView) -> bool {
    &&& v.bpp() <= 8
    &&& v.rows_filled()
    &&& v.layout.color_type == 3 ==> 0 < v.layout.bit_depth < usize::BITS && v.width() + 1
        <= v.layout.output_stride
}

/// The rows from `y` on fit in memory with the rest of `inflated` bytes.
pub open spec fn roomy(v: DecoderView, y: nat, inflated: nat) -> bool {
    &&& y <= v.header.height
    &&& v.layout.color_type == 3 ==> inflated + (v.header.height - y) * v.layout.output_stride
        - v.header.height * (v.width() + 1) <= usize::MAX
}

/// Two decoders have read the same of the same stream.
spec fn twins(p: DecoderView, s: DecoderView) -> bool {
    &&& decode_laws::same_image(p, s)
    &&& p.calls == s.calls
    &&& p.idat_remaining == s.idat_remaining
    &&& p.crc_fed == s.crc_fed
    &&& p.in_step()
    &&& s.in_step()
    &&& !p.corrupted
    &&& !s.corrupted
}

/// The decoder `s` hands out all the rows that are left as `end`, when the
/// stream gives `replies`.
spec fn completes(
    s: DecoderView,
    action: Action,
    replies: Seq<Option<Seq<u8>>>,
    end: DecoderView,
) -> bool {
    &&& decode_laws::consistent(s, action)
    &&& decode_laws::all_answer(s, action, replies)
    &&& decode_laws::replayed(s, action, replies) == (end, Action::Done)
    &&& !batch_laws::ended(s, action, replies)
    &&& end.stage == Stage::Idle
    &&& !end.corrupted
    &&& if decode_laws::asks(action) {
        s.current_y + s.requested == s.header.height
    } else {
        s.current_y == s.header.height
    }
}

/// A batch under way in `p` asks for what `s` asks for.
spec fn abreast(p: DecoderView, s: DecoderView) -> bool {
    &&& twins(p, s)
    &&& s.current_y <= p.current_y
    &&& p.stage == s.stage
    &&& p.wanted == s.wanted
}

/// Between two batches of `p`, the decoder `s` is at its end or asks for what a
/// batch of `p` would ask for.
spec fn level(p: DecoderView, s: DecoderView, action: Action) -> bool {
    &&& twins(p, s)
    &&& decode_laws::asks(action) ==> {
        &&& s.current_y <= p.current_y
        &&& s.stage == asking_on(s).0.stage
        &&& s.wanted == asking_on(s).0.wanted
    }
}

/// What is buffered is what was inflated behind the rows handed out.
proof fn lemma_buffered(v: DecoderView)
    requires
        v.in_step(),
        !v.corrupted,
        v.pending_drain == 0,
    ensures
        v.buffer.len() + v.current_y * (v.width() + 1) == v.inflated().len(),
        v.current_y > 0 || v.buffer.len() > 0 <==> v.inflated().len() > 0,
{
    assert(v.buffer.skip(0) =~= v.buffer);
    assert(v.current_y > 0 ==> v.current_y * (v.width() + 1) > 0) by (nonlinear_arith);
}

/// A batch can be handed out.
proof fn lemma_delivers(v: DecoderView, y: nat, inflated: nat)
    requires
        v.working(),
        v.in_step(),
        ordinary(v),
        roomy(v, y, inflated),
        v.inflated().len() <= inflated,
        y <= v.current_y,
    ensures
        v.delivered().1 == Action::Done,
{
    if v.layout.color_type == 3 {
        let lines = v.ready_lines();
        let line_len = (v.width() + 1) as int;
        let stride = v.layout.output_stride as int;
        let h = v.header.height as int;
        let now = v.current_y as int;
        lemma_buffered(v);
        decode_laws::lemma_ready_lines(v);
        assert(inflated - now * line_len + lines * (stride - line_len) <= inflated + (h - y)
            * stride - h * line_len) by (nonlinear_arith)
            requires
                line_len <= stride,
                0 <= lines,
                0 <= y <= now,
                now + lines <= h,
                0 <= line_len,
        ;
        assert(lines * (stride - line_len) == lines * stride - lines * line_len)
            by (nonlinear_arith);
        batch_laws::lemma_filled_rows_fit(v, v.buffer.len(), lines);
    }
}

/// A piece that is all taken with some output in front of it is all taken with
/// less.
proof fn lemma_taken_with_less(
    calls: Seq<(Seq<u8>, nat)>,
    input: Seq<u8>,
    out: Seq<u8>,
    less: Seq<u8>,
)
    requires
        less.len() <= out.len(),
        inflate::inflate_run(calls, input, out).end == InflateEnd::Taken,
    ensures
        inflate::inflate_run(calls, input, less).end == InflateEnd::Taken,
        inflate::inflate_run(calls, input, less).calls == inflate::inflate_run(
            calls,
            input,
            out,
        ).calls,
    decreases input.len() + usize::MAX - out.len(),
{
    if input.len() > 0 {
        let served = calls.push((input, inflate::OUT_ROOM as nat));
        let (ok, consumed, produced) = inflate::inflate_outcome(served);
        lemma_taken_with_less(
            served,
            input.skip(consumed as int),
            out + produced,
            less + produced,
        );
    }
}

/// Two decoders that have read the same go on in the same way: the one with
/// fewer rows to fetch hands them out as soon as the other could.
proof fn lemma_advance_together(p: DecoderView, s: DecoderView, y: nat, inflated: nat)
    requires
        p.working(),
        s.working(),
        twins(p, s),
        s.current_y <= p.current_y,
        s.current_y + s.requested == s.header.height,
        ordinary(p),
        roomy(p, y, inflated),
        p.inflated().len() <= inflated,
        y <= p.current_y,
        s.advanced().0.stage != Stage::Halted,
    ensures
        ({
            let (next, then) = p.advanced();
            let (other, action) = s.advanced();
            &&& decode_laws::asks(then) ==> {
                &&& decode_laws::asks(action)
                &&& abreast(next, other)
                &&& next.current_y == p.current_y
                &&& next.requested == p.requested
            }
            &&& !decode_laws::asks(then) ==> {
                &&& then == Action::Done
                &&& next.current_y == p.current_y + p.requested
                &&& level(next, other, action)
            }
        }),
{
    let line_len = (p.width() + 1) as int;
    let (next, then) = p.advanced();
    let (other, action) = s.advanced();
    lemma_buffered(p);
    lemma_buffered(s);
    decode_laws::lemma_advanced_in_step(p);
    decode_laws::lemma_advanced_in_step(s);
    batch_laws::lemma_advanced_whole(p);
    batch_laws::lemma_advanced_whole(s);
    if p.requested * line_len <= p.buffer.len() {
        lemma_delivers(p, y, inflated);
    } else {
        assert(s.requested * line_len > s.buffer.len()) by (nonlinear_arith)
            requires
                p.requested * line_len > p.buffer.len(),
                p.buffer.len() + p.current_y * line_len == s.buffer.len() + s.current_y * line_len,
                p.current_y + p.requested <= s.current_y + s.requested,
                0 <= line_len,
        ;
    }
}

/// An answer takes a batch on, together with a decoder that fetches all rows.
proof fn lemma_step_together(
    p: DecoderView,
    s: DecoderView,
    reply: Option<Seq<u8>>,
    y: nat,
    inflated: nat,
)
    requires
        p.wf(),
        p.busy(),
        s.wf(),
        s.busy(),
        abreast(p, s),
        s.answers(reply),
        !batch_laws::ending(s, reply),
        s.current_y + s.requested == s.header.height,
        s.resumed(reply).0.stage != Stage::Halted,
        !s.resumed(reply).0.corrupted,
        ordinary(p),
        roomy(p, y, inflated),
        s.resumed(reply).0.inflated().len() <= inflated,
        y <= p.current_y,
    ensures
        p.answers(reply),
        ({
            let (next, then) = p.resumed(reply);
            let (other, action) = s.resumed(reply);
            &&& decode_laws::asks(then) ==> {
                &&& decode_laws::asks(action)
                &&& abreast(next, other)
                &&& next.current_y == p.current_y
                &&& next.requested == p.requested
            }
            &&& !decode_laws::asks(then) ==> {
                &&& then == Action::Done
                &&& next.current_y == p.current_y + p.requested
                &&& level(next, other, action)
            }
        }),
{
    decode_laws::law_resumed_in_step(p, reply);
    decode_laws::law_resumed_in_step(s, reply);
    match (s.stage, reply) {
        (Stage::ImageData, Some(piece)) => {
            assert(piece.len() > 0);
            let run = inflate::inflate_run(s.calls, piece, s.buffer);
            assert(run.end == InflateEnd::Taken);
            lemma_buffered(p);
            lemma_buffered(s);
            assert(p.buffer.len() <= s.buffer.len()) by (nonlinear_arith)
                requires
                    p.buffer.len() + p.current_y * (p.width() + 1) == s.buffer.len() + s.current_y
                        * (p.width() + 1),
                    s.current_y <= p.current_y,
            ;
            lemma_taken_with_less(s.calls, piece, s.buffer, p.buffer);
            inflate::lemma_out_grows(s.calls, piece, s.buffer);
            inflate::lemma_out_grows(p.calls, piece, p.buffer);
            decode_laws::lemma_taken_in_step(p, piece);
            decode_laws::lemma_taken_in_step(s, piece);
            assert(s.inflating(piece).inflated() == s.resumed(reply).0.inflated());
            lemma_advance_together(p.inflating(piece), s.inflating(piece), y, inflated);
        },
        _ => {},
    }
}

/// A batch under way is handed out whole, together with a decoder that fetches
/// all rows; gives where that decoder then stands.
proof fn lemma_batch_together(
    p: DecoderView,
    pa: Action,
    s: DecoderView,
    sa: Action,
    replies: Seq<Option<Seq<u8>>>,
    end: DecoderView,
    y: nat,
) -> (there: (DecoderView, Action))
    requires
        decode_laws::consistent(p, pa),
        decode_laws::asks(pa),
        decode_laws::asks(sa),
        completes(s, sa, replies, end),
        abreast(p, s),
        ordinary(p),
        roomy(p, y, end.inflated().len()),
        y <= p.current_y,
    ensures
        decode_laws::all_answer(p, pa, replies),
        ({
            let (after, then) = decode_laws::replayed(p, pa, replies);
            let left = unused(p, pa, replies);
            &&& then == Action::Done
            &&& after.current_y == p.current_y + p.requested
            &&& level(after, there.0, there.1)
            &&& completes(there.0, there.1, left, end)
        }),
    decreases replies.len(),
{
    assert(replies.len() > 0);
    let reply = replies[0];
    let (next, then) = p.resumed(reply);
    let (other, action) = s.resumed(reply);
    let rest = replies.drop_first();
    decode_laws::law_resumed_consistent(s, reply);
    lemma_replayed_leads(other, action, rest);
    lemma_resumed_leads(s, reply);
    batch_laws::lemma_resumed_whole(s, reply);
    lemma_step_together(p, s, reply, y, end.inflated().len());
    decode_laws::law_resumed_consistent(p, reply);
    if decode_laws::asks(then) {
        lemma_batch_together(next, then, other, action, rest, end, y)
    } else {
        assert(decode_laws::all_answer(next, then, rest));
        assert(decode_laws::replayed(next, then, rest) == (next, then));
        assert(unused(next, then, rest) == rest);
        (other, action)
    }
}

/// A batch is asked for and handed out whole, together with a decoder that
/// fetches all rows; gives where that decoder then stands.
proof fn lemma_request_together(
    p: DecoderView,
    num_scanlines: nat,
    s: DecoderView,
    sa: Action,
    replies: Seq<Option<Seq<u8>>>,
    end: DecoderView,
    y: nat,
) -> (there: (DecoderView, Action))
    requires
        p.wf(),
        p.stage == Stage::Idle,
        level(p, s, sa),
        completes(s, sa, replies, end),
        ordinary(p),
        roomy(p, y, end.inflated().len()),
        y <= p.current_y,
        p.header.height * p.layout.line_len() <= usize::MAX + y * p.layout.line_len(),
    ensures
        ({
            let (begun, action) = p.begun(num_scanlines);
            let (after, then) = decode_laws::replayed(begun, action, replies);
            let left = unused(begun, action, replies);
            &&& decode_laws::all_answer(begun, action, replies)
            &&& then == Action::Done
            &&& after.current_y == p.current_y + p.lines_of(num_scanlines)
            &&& level(after, there.0, there.1)
            &&& completes(there.0, there.1, left, end)
        }),
{
    let (begun, action) = p.begun(num_scanlines);
    let ready = p.readied(num_scanlines);
    let line_len = p.layout.line_len() as int;
    decode_laws::law_begun_consistent(p, num_scanlines);
    decode_laws::law_begun_in_step(p, num_scanlines);
    if p.current_y >= p.header.height {
        (s, sa)
    } else {
        assert(ready.requested * line_len <= usize::MAX) by (nonlinear_arith)
            requires
                ready.requested + p.current_y <= p.header.height,
                y <= p.current_y,
                0 <= line_len,
                p.header.height * line_len <= usize::MAX + y * line_len,
        ;
        assert(ready.buffer.skip(0) =~= ready.buffer);
        assert(ready.in_step());
        lemma_buffered(ready);
        lemma_replayed_leads(s, sa, replies);
        batch_laws::lemma_advanced_whole(ready);
        if ready.requested * line_len <= ready.buffer.len() {
            lemma_delivers(ready, y, end.inflated().len());
            (s, sa)
        } else {
            if !decode_laws::asks(sa) {
                assert(ready.requested * line_len <= ready.buffer.len()) by (nonlinear_arith)
                    requires
                        ready.buffer.len() + ready.current_y * line_len == s.inflated().len(),
                        s.current_y * line_len <= s.inflated().len(),
                        ready.current_y + ready.requested <= s.current_y,
                        0 <= line_len,
                ;
            } else {
                lemma_buffered(s);
            }
            lemma_batch_together(begun, action, s, sa, replies, end, y)
        }
    }
}

/// Batches are handed out whole, together with a decoder that fetches all rows.
proof fn lemma_batches_together(
    p: DecoderView,
    requests: Seq<nat>,
    s: DecoderView,
    sa: Action,
    replies: Seq<Option<Seq<u8>>>,
    end: DecoderView,
    y: nat,
)
    requires
        p.wf(),
        p.stage == Stage::Idle,
        level(p, s, sa),
        completes(s, sa, replies, end),
        ordinary(p),
        roomy(p, y, end.inflated().len()),
        y <= p.current_y,
        p.header.height * p.layout.line_len() <= usize::MAX + y * p.layout.line_len(),
    ensures
        batches_answered(p, requests, replies),
        ({
            let all = batches(p, requests, replies);
            &&& all.action == Action::Done
            &&& !all.decoder.corrupted
            &&& all.decoder.current_y == if p.current_y + total(requests) < p.header.height {
                p.current_y + total(requests)
            } else {
                p.header.height as nat
            }
            &&& leads(all.decoder.inflated(), end.inflated())
        }),
    decreases requests.len(),
{
    lemma_replayed_leads(s, sa, replies);
    if requests.len() > 0 {
        let (begun, action) = p.begun(requests[0]);
        let (after, then) = decode_laws::replayed(begun, action, replies);
        let there = lemma_request_together(p, requests[0], s, sa, replies, end, y);
        lemma_one_batch(p, requests[0], replies);
        lemma_batches_together(
            after,
            requests.drop_first(),
            there.0,
            there.1,
            unused(begun, action, replies),
            end,
            y,
        );
    }
}

/// The rows that are left fit in memory where they are handed out at once.
proof fn lemma_end_is_roomy(v: DecoderView, end: DecoderView)
    requires
        v.sound(),
        end.wf(),
        end.stage == Stage::Idle,
        decode_laws::batch_from(v, v.current_y, end, Action::Done),
        end.current_y == v.header.height,
        !end.corrupted,
    ensures
        roomy(v, v.current_y, end.inflated().len()),
{
    if v.layout.color_type == 3 {
        let rest = end.buffer.skip(end.pending_drain as int);
        let done = (end.current_y * (v.width() + 1)) as int;
        assert(rest.len() == end.inflated().skip(done).len());
        mul::lemma_mul_nonnegative(
            v.header.height - v.current_y,
            v.layout.output_stride as int,
        );
    }
}

/// Law: an image does not depend on how it is cut into batches. Where all the
/// rows that are left are handed out at once, batches of any sizes hand out the
/// same bytes on the same answers of the stream, and each is as long as was
/// asked for until the image ends.
pub proof fn law_cuts_do_not_matter(
    v: DecoderView,
    requests: Seq<nat>,
    replies: Seq<Option<Seq<u8>>>,
)
    requires
        v.wf(),
        v.stage == Stage::Idle,
        v.in_step(),
        !v.corrupted,
        v.current_y < v.header.height,
        ordinary(v),
        ({
            let (begun, action) = v.begun((v.header.height - v.current_y) as nat);
            let (end, then) = decode_laws::replayed(begun, action, replies);
            &&& decode_laws::all_answer(begun, action, replies)
            &&& !batch_laws::ended(begun, action, replies)
            &&& then == Action::Done
            &&& !end.corrupted
            &&& scanlines::filters_known(
                end.inflated(),
                v.width(),
                v.current_y,
                v.header.height as nat,
            )
        }),
    ensures
        batches_answered(v, requests, replies),
        ({
            let (begun, action) = v.begun((v.header.height - v.current_y) as nat);
            let end = decode_laws::replayed(begun, action, replies).0;
            let all = batches(v, requests, replies);
            &&& all.action == Action::Done
            &&& !all.decoder.corrupted
            &&& all.decoder.current_y == if v.current_y + total(requests) < v.header.height {
                v.current_y + total(requests)
            } else {
                v.header.height as nat
            }
            &&& all.bytes == v.rows_out(end.inflated(), v.current_y, all.decoder.current_y)
            &&& batch_bytes(end) == v.rows_out(
                end.inflated(),
                v.current_y,
                v.header.height as nat,
            )
            &&& v.header.height <= v.current_y + total(requests) ==> all.bytes == batch_bytes(end)
        }),
{
    let left = (v.header.height - v.current_y) as nat;
    let (begun, action) = v.begun(left);
    let (end, then) = decode_laws::replayed(begun, action, replies);
    let all = batches(v, requests, replies);
    let line_len = v.layout.line_len() as int;
    decode_laws::law_begun_consistent(v, left);
    decode_laws::law_begun_in_step(v, left);
    decode_laws::law_batch(v, left, replies);
    batch_laws::law_batch_is_whole(v, left, replies);
    lemma_one_batch(v, left, replies);
    lemma_replayed_leads(begun, action, replies);
    lemma_end_is_roomy(v, end);
    let ready = v.readied(left);
    assert(ready.requested * line_len <= usize::MAX);
    assert(v.header.height * line_len <= usize::MAX + v.current_y * line_len)
        by (nonlinear_arith)
        requires
            (v.header.height - v.current_y) * line_len <= usize::MAX,
    ;
    lemma_batches_together(v, requests, begun, action, replies, end, v.current_y);
    lemma_batches_in_step(v, requests, replies);
    lemma_filters_of_front(
        all.decoder.inflated(),
        end.inflated(),
        v.width(),
        v.current_y,
        all.decoder.current_y,
    );
    law_batches_are_the_rows(v, requests, replies);
    lemma_rows_out_of_front(
        v,
        all.decoder.inflated(),
        end.inflated(),
        v.current_y,
        all.decoder.current_y,
    );
}

/// Batches leave the decoder in step.
proof fn lemma_batches_in_step(
    v: DecoderView,
    requests: Seq<nat>,
    replies: Seq<Option<Seq<u8>>>,
)
    requires
        v.wf(),
        v.stage == Stage::Idle,
        v.in_step(),
        batches_answered(v, requests, replies),
        batches(v, requests, replies).action == Action::Done,
    ensures
        batches(v, requests, replies).decoder.in_step(),
        decode_laws::same_image(v, batches(v, requests, replies).decoder),
    decreases requests.len(),
{
    if requests.len() > 0 {
        let (begun, action) = v.begun(requests[0]);
        let (after, end) = decode_laws::replayed(begun, action, replies);
        lemma_one_batch(v, requests[0], replies);
        lemma_batches_in_step(after, requests.drop_first(), unused(begun, action, replies));
    }
}

/// The depths that PNG has; with a palette, pixels fill whole bytes.
pub open spec fn ordinary_header(header: Header) -> bool {
    if header.color_type == 3 {
        &&& header.bit_depth == 1 || header.bit_depth == 2 || header.bit_depth == 4
            || header.bit_depth == 8
        &&& header.width > 0
        &&& header.width as int % palette::pixels_per_byte(header.bit_depth) == 0
    } else {
        header.bit_depth <= 16
    }
}

/// Law: rows of the depths that PNG has can be handed out as long as they fit in
/// memory; with a palette, where they fill whole bytes.
pub proof fn law_ordinary_header(v: DecoderView)
    requires
        v.laid_out(),
        ordinary_header(v.header),
    ensures
        ordinary(v),
{
    if v.header.color_type == 3 {
        batch_laws::lemma_indexed_row(v);
    } else {
        batch_laws::lemma_plain_row(v);
    }
}

/// The image data comes in `pieces`, none empty, none longer than 8192 bytes, and
/// no more than the `remaining` bytes in all, and an inflater that has served
/// `calls` takes each of them whole, behind `out`.
pub open spec fn pieces_inflate(
    calls: Seq<(Seq<u8>, nat)>,
    out: Seq<u8>,
    remaining: nat,
    pieces: Seq<Seq<u8>>,
) -> bool
    decreases pieces.len(),
{
    pieces.len() == 0 || {
        let run = inflate::inflate_run(calls, pieces[0], out);
        &&& 0 < pieces[0].len() <= 8192
        &&& pieces[0].len() <= remaining
        &&& run.end == InflateEnd::Taken
        &&& pieces_inflate(
            run.calls,
            run.out,
            (remaining - pieces[0].len()) as nat,
            pieces.drop_first(),
        )
    }
}

/// What is gathered of `pieces`, behind `out`.
pub open spec fn gathered(
    calls: Seq<(Seq<u8>, nat)>,
    out: Seq<u8>,
    pieces: Seq<Seq<u8>>,
) -> Seq<u8>
    decreases pieces.len(),
{
    if pieces.len() == 0 {
        out
    } else {
        let run = inflate::inflate_run(calls, pieces[0], out);
        gathered(run.calls, run.out, pieces.drop_first())
    }
}

/// A stream that gives `pieces`.
pub open spec fn giving(pieces: Seq<Seq<u8>>) -> Seq<Option<Seq<u8>>> {
    pieces.map_values(|piece: Seq<u8>| Some(piece))
}

/// What is gathered of some pieces leads what is gathered of all.
pub proof fn lemma_gathered_leads(
    calls: Seq<(Seq<u8>, nat)>,
    out: Seq<u8>,
    remaining: nat,
    pieces: Seq<Seq<u8>>,
)
    requires
        pieces_inflate(calls, out, remaining, pieces),
    ensures
        leads(out, gathered(calls, out, pieces)),
    decreases pieces.len(),
{
    assert(out.take(out.len() as int) =~= out);
    if pieces.len() > 0 {
        let run = inflate::inflate_run(calls, pieces[0], out);
        inflate::law_pieces_join(calls, pieces[0], out);
        let rest = (remaining - pieces[0].len()) as nat;
        lemma_gathered_leads(run.calls, run.out, rest, pieces.drop_first());
        lemma_leads_on(out, run.out, gathered(calls, out, pieces));
    }
}

/// A batch under way that has all its image data in the current chunk is handed
/// out, whatever follows.
pub proof fn lemma_fetched(
    v: DecoderView,
    action: Action,
    pieces: Seq<Seq<u8>>,
    tail: Seq<Option<Seq<u8>>>,
)
    requires
        decode_laws::consistent(v, action),
        v.stage == Stage::ImageData,
        v.in_step(),
        v.current_y == 0,
        v.buffer == v.inflated(),
        v.buffer.len() < v.requested * (v.width() + 1),
        pieces_inflate(v.calls, v.buffer, v.idat_remaining, pieces),
        v.requested * (v.width() + 1) <= gathered(v.calls, v.buffer, pieces).len(),
        ordinary(v),
        roomy(v, 0, gathered(v.calls, v.buffer, pieces).len()),
    ensures
        decode_laws::all_answer(v, action, giving(pieces) + tail),
        !batch_laws::ended(v, action, giving(pieces) + tail),
        ({
            let (end, then) = decode_laws::replayed(v, action, giving(pieces) + tail);
            &&& then == Action::Done
            &&& !end.corrupted
            &&& leads(end.inflated(), gathered(v.calls, v.buffer, pieces))
        }),
    decreases pieces.len(),
{
    assert(pieces.len() > 0);
    let all = gathered(v.calls, v.buffer, pieces);
    let piece = pieces[0];
    let rest = pieces.drop_first();
    let replies = giving(pieces) + tail;
    let next = v.inflating(piece);
    assert(replies[0] == Some(piece));
    assert(replies.drop_first() =~= giving(rest) + tail);
    inflate::lemma_out_grows(v.calls, piece, v.buffer);
    inflate::law_pieces_join(v.calls, piece, v.buffer);
    decode_laws::lemma_taken_in_step(v, piece);
    let run = inflate::inflate_run(v.calls, piece, v.buffer);
    assert(run.out =~= v.buffer + run.out.skip(v.buffer.len() as int));
    assert(next.buffer == next.inflated());
    lemma_gathered_leads(next.calls, next.buffer, next.idat_remaining, rest);
    let (then_view, then) = v.resumed(replies[0]);
    assert((then_view, then) == next.advanced());
    if next.requested * (next.width() + 1) <= next.buffer.len() {
        lemma_delivers(next, 0, all.len());
        assert(decode_laws::all_answer(then_view, then, replies.drop_first()));
        assert(!batch_laws::ended(then_view, then, replies.drop_first()));
        assert(decode_laws::replayed(then_view, then, replies.drop_first()) == (then_view, then));
    } else {
        assert(rest.len() > 0);
        assert(pieces_inflate(next.calls, next.buffer, next.idat_remaining, rest));
        decode_laws::law_resumed_consistent(v, replies[0]);
        lemma_fetched(then_view, then, rest, tail);
    }
}

/// A fresh decoder is sound.
pub proof fn lemma_fresh(
    header: Header,
    palette: Seq<[u8; 3]>,
    transparency: Seq<u8>,
    idat_len: nat,
)
    requires
        header.measurable(transparency.len() > 0),
    ensures
        DecoderView::fresh(header, palette, transparency, idat_len).wf(),
        DecoderView::fresh(header, palette, transparency, idat_len).width()
            == header.bytes_per_scanline(),
        DecoderView::fresh(header, palette, transparency, idat_len).layout.output_stride
            == header.output_stride(transparency.len() > 0),
{
    let channels = crate::header::channels_of(header.color_type)->0;
    assert(channels * header.bit_depth <= 1020) by (nonlinear_arith)
        requires
            channels <= 4,
            header.bit_depth <= 255,
    ;
}

/// Law: a fresh decoder of an image whose data lies in one chunk and inflates to
/// just its scanlines hands out the rows of these scanlines, however it is cut
/// into batches, as long as the rows fit in memory.
pub proof fn law_image_in_one_chunk(
    header: Header,
    palette: Seq<[u8; 3]>,
    transparency: Seq<u8>,
    idat_len: nat,
    pieces: Seq<Seq<u8>>,
    requests: Seq<nat>,
)
    requires
        header.measurable(transparency.len() > 0),
        ordinary_header(header),
        header.height > 0,
        header.height <= total(requests),
        header.height * (header.bytes_per_scanline() + 1) <= usize::MAX,
        header.height * header.output_stride(transparency.len() > 0) <= usize::MAX,
        pieces_inflate(Seq::empty(), Seq::empty(), idat_len, pieces),
        gathered(Seq::empty(), Seq::empty(), pieces).len() == header.height * (
        header.bytes_per_scanline() + 1),
        scanlines::filters_known(
            gathered(Seq::empty(), Seq::empty(), pieces),
            header.bytes_per_scanline(),
            0,
            header.height as nat,
        ),
    ensures
        ({
            let v = DecoderView::fresh(header, palette, transparency, idat_len);
            let all = batches(v, requests, giving(pieces));
            &&& batches_answered(v, requests, giving(pieces))
            &&& all.action == Action::Done
            &&& !all.decoder.corrupted
            &&& all.decoder.current_y == header.height
            &&& all.bytes == v.rows_out(
                gathered(Seq::empty(), Seq::empty(), pieces),
                0,
                header.height as nat,
            )
        }),
{
    let v = DecoderView::fresh(header, palette, transparency, idat_len);
    let height = header.height as nat;
    let scan = gathered(Seq::empty(), Seq::empty(), pieces);
    let replies = giving(pieces);
    lemma_fresh(header, palette, transparency, idat_len);
    decode_laws::law_fresh_in_step(header, palette, transparency, idat_len);
    law_ordinary_header(v);
    let (begun, action) = v.begun(height);
    decode_laws::law_begun_consistent(v, height);
    decode_laws::law_begun_in_step(v, height);
    assert(v.buffer.skip(0) =~= v.buffer);
    assert(pieces.len() > 0) by {
        if pieces.len() == 0 {
            assert(header.height * (header.bytes_per_scanline() + 1) > 0) by (nonlinear_arith)
                requires
                    header.height > 0,
            ;
        }
    }
    assert(height * (v.width() + 1) > 0) by (nonlinear_arith)
        requires
            height > 0,
    ;
    assert(begun.inflated() =~= begun.buffer);
    lemma_fetched(begun, action, pieces, Seq::empty());
    assert(replies + Seq::empty() =~= replies);
    let end = decode_laws::replayed(begun, action, replies).0;
    batch_laws::law_batch_is_whole(v, height, replies);
    lemma_one_batch(v, height, replies);
    assert(end.inflated() =~= scan);
    law_cuts_do_not_matter(v, requests, replies);
}

/// Law: a request for no rows is answered with no bytes, reads nothing of the
/// stream, and leaves every later batch as it would have been.
pub proof fn law_no_rows_no_trace(
    v: DecoderView,
    requests: Seq<nat>,
    replies: Seq<Option<Seq<u8>>>,
)
    requires
        v.wf(),
        v.stage == Stage::Idle,
        v.current_y < v.header.height,
        v.layout.color_type == 3 ==> 0 < v.layout.bit_depth < usize::BITS,
    ensures
        v.begun(0).1 == Action::Done,
        v.begun(0).0.answer == Some(0nat),
        v.begun(0).0.current_y == v.current_y,
        ({
            let with = batches(v, seq![0nat] + requests, replies);
            let without = batches(v, requests, replies);
            &&& with.action == without.action
            &&& with.bytes == without.bytes
            &&& with.unused == without.unused
        }),
{
    let after = v.begun(0).0;
    let ready = v.readied(0);
    let asked = seq![0nat] + requests;
    lemma_no_rows(v);
    assert(decode_laws::replayed(after, Action::Done, replies) == (after, Action::Done));
    assert(unused(after, Action::Done, replies) == replies);
    assert(asked.drop_first() =~= requests);
    assert(batch_bytes(after) =~= Seq::<u8>::empty());
    let rest = batches(after, requests, replies);
    assert(batch_bytes(after) + rest.bytes =~= rest.bytes);
    if requests.len() > 0 {
        lemma_begun_after_no_rows(v, requests[0]);
    }
}

/// What a request for no rows leaves.
proof fn lemma_no_rows(v: DecoderView)
    requires
        v.wf(),
        v.stage == Stage::Idle,
        v.current_y < v.header.height,
        v.layout.color_type == 3 ==> 0 < v.layout.bit_depth < usize::BITS,
    ensures
        v.begun(0).1 == Action::Done,
        v.begun(0).0 == (DecoderView {
            answer: Some(0),
            buffer: if v.corrupted {
                Seq::empty()
            } else {
                v.drained().buffer
            },
            ..v.readied(0)
        }),
{
    let ready = v.readied(0);
    mul::lemma_mul_basics(v.layout.output_stride as int);
    mul::lemma_mul_basics(v.layout.line_len() as int);
    mul::lemma_mul_basics(v.width() as int);
    mul::lemma_mul_basics((v.width() + 1) as int);
    if v.corrupted {
        assert(ready.blanked(0).0.buffer =~= Seq::<u8>::empty());
    } else {
        let raw = ready.buffer;
        assert(ready.ready_lines() == 0);
        assert(raw.skip(0) =~= raw);
        let restored = ready.layout.restored_buffer(raw, ready.prev, 0);
        assert(restored =~= raw);
        assert(ready.delivered().0.buffer =~= raw);
    }
}

/// A batch goes the same way after a request for no rows as without it.
proof fn lemma_begun_after_no_rows(v: DecoderView, num_scanlines: nat)
    requires
        v.wf(),
        v.stage == Stage::Idle,
        v.current_y < v.header.height,
        v.layout.color_type == 3 ==> 0 < v.layout.bit_depth < usize::BITS,
    ensures
        v.begun(0).0.begun(num_scanlines).1 == v.begun(num_scanlines).1,
        v.begun(num_scanlines).0.stage != Stage::Halted ==> v.begun(0).0.begun(num_scanlines).0
            == v.begun(num_scanlines).0,
{
    lemma_no_rows(v);
    let after = v.begun(0).0;
    if !v.corrupted {
        assert(after.buffer.skip(0) =~= after.buffer);
        assert(after.readied(num_scanlines) == v.readied(num_scanlines));
    }
}

} // verus!
