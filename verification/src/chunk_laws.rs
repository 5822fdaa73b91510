//! Image data over several chunks: it is read whole, checked, and joined.

use crate::batch_laws;
use crate::checksum;
use crate::cut_laws;
use crate::decode_laws;
use crate::decoder::{Action, DecoderView, Stage};
use crate::header;
use crate::header::{ChunkKind, Header};
use crate::inflate;
use crate::png;
use crate::scanlines;
use vstd::prelude::*;

verus! {

/// A chunk between two image data chunks: its type, its data, and the checksum
/// stored with it.
pub struct Passed {
    pub name: Seq<u8>,
    pub data: Seq<u8>,
    pub stored: Seq<u8>,
}

/// An image data chunk, in the pieces that it is read in, and the chunks behind
/// it up to the next.
pub struct DataChunk {
    pub pieces: Seq<Seq<u8>>,
    pub passed: Seq<Passed>,
}

/// Pieces end to end.
pub open spec fn flat(pieces: Seq<Seq<u8>>) -> Seq<u8>
    decreases pieces.len(),
{
    if pieces.len() == 0 {
        Seq::empty()
    } else {
        pieces[0] + flat(pieces.drop_first())
    }
}

/// The pieces of all the chunks.
pub open spec fn all_pieces(chunks: Seq<DataChunk>) -> Seq<Seq<u8>>
    decreases chunks.len(),
{
    if chunks.len() == 0 {
        Seq::empty()
    } else {
        chunks[0].pieces + all_pieces(chunks.drop_first())
    }
}

/// What a stream gives of chunks that are passed over: for each its length and
/// type, its data, and its checksum.
pub open spec fn passed_answers(passed: Seq<Passed>) -> Seq<Option<Seq<u8>>>
    decreases passed.len(),
{
    if passed.len() == 0 {
        Seq::empty()
    } else {
        let first = passed[0];
        seq![
            Some(png::four_bytes(first.data.len()) + first.name),
            Some(first.data),
            Some(first.stored),
        ] + passed_answers(passed.drop_first())
    }
}

/// What a stream gives of image data chunks, from the data of the first on: the
/// data in its pieces; between two chunks the checksum of the first over its type
/// and all of its data, the chunks that are passed over, and the length and the
/// type of the second.
pub open spec fn answers(chunks: Seq<DataChunk>) -> Seq<Option<Seq<u8>>>
    decreases chunks.len(),
{
    if chunks.len() == 0 {
        Seq::empty()
    } else if chunks.len() == 1 {
        cut_laws::giving(chunks[0].pieces)
    } else {
        cut_laws::giving(chunks[0].pieces) + (gap_answers(chunks[0], chunks[1]) + answers(
            chunks.drop_first(),
        ))
    }
}

/// What a stream gives between two image data chunks.
pub open spec fn gap_answers(one: DataChunk, next: DataChunk) -> Seq<Option<Seq<u8>>> {
    seq![
        Some(
            png::four_bytes(
                checksum::crc32(seq![73u8, 68, 65, 84] + flat(one.pieces)) as nat,
            ),
        ),
    ] + (passed_answers(one.passed) + seq![
        Some(png::four_bytes(flat(next.pieces).len()) + seq![73u8, 68, 65, 84]),
    ])
}

/// The bytes of a chunk.
pub open spec fn passed_bytes(passed: Seq<Passed>) -> Seq<u8>
    decreases passed.len(),
{
    if passed.len() == 0 {
        Seq::empty()
    } else {
        let first = passed[0];
        png::four_bytes(first.data.len()) + first.name + first.data + first.stored
            + passed_bytes(passed.drop_first())
    }
}

/// A stream of image data chunks, from the data of the first on, up to the end of
/// the data of the last.
pub open spec fn stream(chunks: Seq<DataChunk>) -> Seq<u8>
    decreases chunks.len(),
{
    if chunks.len() == 0 {
        Seq::empty()
    } else if chunks.len() == 1 {
        flat(chunks[0].pieces)
    } else {
        let data = flat(chunks[0].pieces);
        let next = flat(chunks[1].pieces);
        data + png::four_bytes(checksum::crc32(seq![73u8, 68, 65, 84] + data) as nat)
            + passed_bytes(chunks[0].passed) + png::four_bytes(next.len()) + seq![
            73u8,
            68,
            65,
            84,
        ] + stream(chunks.drop_first())
    }
}

/// The bytes of answers, end to end.
pub open spec fn bytes_of(replies: Seq<Option<Seq<u8>>>) -> Seq<u8>
    decreases replies.len(),
{
    if replies.len() == 0 {
        Seq::empty()
    } else {
        replies[0]->0 + bytes_of(replies.drop_first())
    }
}

proof fn lemma_bytes_joined(a: Seq<Option<Seq<u8>>>, b: Seq<Option<Seq<u8>>>)
    ensures
        bytes_of(a + b) == bytes_of(a) + bytes_of(b),
    decreases a.len(),
{
    if a.len() == 0 {
        assert(a + b =~= b);
        assert(bytes_of(a) + bytes_of(b) =~= bytes_of(b));
    } else {
        lemma_bytes_joined(a.drop_first(), b);
        assert((a + b).drop_first() =~= a.drop_first() + b);
        assert(bytes_of(a + b) =~= bytes_of(a) + bytes_of(b));
    }
}

proof fn lemma_giving_bytes(pieces: Seq<Seq<u8>>)
    ensures
        bytes_of(cut_laws::giving(pieces)) == flat(pieces),
    decreases pieces.len(),
{
    if pieces.len() > 0 {
        lemma_giving_bytes(pieces.drop_first());
        assert(cut_laws::giving(pieces).drop_first() =~= cut_laws::giving(pieces.drop_first()));
    }
}

proof fn lemma_passed_bytes(passed: Seq<Passed>)
    ensures
        bytes_of(passed_answers(passed)) == passed_bytes(passed),
    decreases passed.len(),
{
    if passed.len() > 0 {
        let first = passed[0];
        let rest = passed_answers(passed.drop_first());
        let three = seq![
            Some(png::four_bytes(first.data.len()) + first.name),
            Some(first.data),
            Some(first.stored),
        ];
        lemma_passed_bytes(passed.drop_first());
        lemma_bytes_joined(three, rest);
        reveal_with_fuel(bytes_of, 4);
        assert(three.drop_first().drop_first().drop_first() =~= Seq::empty());
        assert(bytes_of(three) =~= png::four_bytes(first.data.len()) + first.name + first.data
            + first.stored);
    }
}

/// Law: the answers of a stream of image data chunks are its bytes in order, each
/// byte once.
pub proof fn law_answers_are_the_stream(chunks: Seq<DataChunk>)
    ensures
        bytes_of(answers(chunks)) == stream(chunks),
    decreases chunks.len(),
{
    if chunks.len() == 1 {
        lemma_giving_bytes(chunks[0].pieces);
    } else if chunks.len() > 1 {
        let one = chunks[0];
        let next = chunks[1];
        let rest = chunks.drop_first();
        let crc: Option<Seq<u8>> = Some(
            png::four_bytes(checksum::crc32(seq![73u8, 68, 65, 84] + flat(one.pieces)) as nat),
        );
        let head: Option<Seq<u8>> = Some(
            png::four_bytes(flat(next.pieces).len()) + seq![73u8, 68, 65, 84],
        );
        law_answers_are_the_stream(rest);
        lemma_giving_bytes(one.pieces);
        lemma_passed_bytes(one.passed);
        lemma_bytes_joined(
            cut_laws::giving(one.pieces),
            gap_answers(one, next) + answers(rest),
        );
        lemma_bytes_joined(gap_answers(one, next), answers(rest));
        lemma_bytes_joined(seq![crc], passed_answers(one.passed) + seq![head]);
        lemma_bytes_joined(passed_answers(one.passed), seq![head]);
        reveal_with_fuel(bytes_of, 2);
        assert(seq![crc].drop_first() =~= Seq::empty());
        assert(seq![head].drop_first() =~= Seq::empty());
        assert(bytes_of(answers(chunks)) =~= stream(chunks));
    }
}

/// Chunks that a sound image can have: image data chunks that are not empty, and
/// between them chunks of other types that do not end the image.
pub open spec fn well_cut(chunks: Seq<DataChunk>) -> bool {
    &&& forall|i: int|
        0 <= i < chunks.len() ==> 0 < flat((#[trigger] chunks[i]).pieces).len() <= u32::MAX
    &&& forall|i: int| 0 <= i < chunks.len() ==> all_passable((#[trigger] chunks[i]).passed)
}

/// Chunks of types other than image data and end.
pub open spec fn all_passable(passed: Seq<Passed>) -> bool {
    forall|j: int| 0 <= j < passed.len() ==> passable(#[trigger] passed[j])
}

/// A chunk of a type other than image data and end.
pub open spec fn passable(one: Passed) -> bool {
    &&& one.name.len() == 4
    &&& one.name != seq![73u8, 68, 65, 84]
    &&& one.name != seq![73u8, 69, 78, 68]
    &&& one.data.len() <= u32::MAX
    &&& one.stored.len() == 4
}

/// What an inflater comes to over `pieces`: the calls that it has served, and what
/// is gathered behind `out`.
pub open spec fn over_pieces(
    calls: Seq<(Seq<u8>, nat)>,
    out: Seq<u8>,
    pieces: Seq<Seq<u8>>,
) -> (Seq<(Seq<u8>, nat)>, Seq<u8>)
    decreases pieces.len(),
{
    if pieces.len() == 0 {
        (calls, out)
    } else {
        let run = inflate::inflate_run(calls, pieces[0], out);
        over_pieces(run.calls, run.out, pieces.drop_first())
    }
}

/// Pieces can be taken in two lots.
proof fn lemma_pieces_split(
    calls: Seq<(Seq<u8>, nat)>,
    out: Seq<u8>,
    remaining: nat,
    a: Seq<Seq<u8>>,
    b: Seq<Seq<u8>>,
)
    requires
        cut_laws::pieces_inflate(calls, out, remaining, a + b),
    ensures
        ({
            let (then, more) = over_pieces(calls, out, a);
            &&& flat(a).len() <= remaining
            &&& cut_laws::pieces_inflate(calls, out, flat(a).len(), a)
            &&& cut_laws::pieces_inflate(then, more, (remaining - flat(a).len()) as nat, b)
            &&& cut_laws::gathered(calls, out, a) == more
            &&& cut_laws::gathered(calls, out, a + b) == cut_laws::gathered(then, more, b)
            &&& out.len() <= usize::MAX ==> more.len() <= usize::MAX
            &&& inflate::taken(then) == inflate::taken(calls) + flat(a)
            &&& inflate::inflated(calls) == out ==> inflate::inflated(then) == more
        }),
    decreases a.len(),
{
    if a.len() == 0 {
        assert(a + b =~= b);
        assert(inflate::taken(calls) + flat(a) =~= inflate::taken(calls));
    } else {
        let run = inflate::inflate_run(calls, a[0], out);
        let rest = a.drop_first();
        assert((a + b)[0] == a[0]);
        assert((a + b).drop_first() =~= rest + b);
        inflate::law_pieces_join(calls, a[0], out);
        if out.len() <= usize::MAX {
            inflate::lemma_out_grows(calls, a[0], out);
        }
        assert(run.out =~= out + run.out.skip(out.len() as int));
        lemma_pieces_split(run.calls, run.out, (remaining - a[0].len()) as nat, rest, b);
        lemma_pieces_room(run.calls, run.out, flat(rest).len(), (flat(a).len()
            - a[0].len()) as nat, rest);
        assert(inflate::taken(calls) + a[0] + flat(rest) =~= inflate::taken(calls) + flat(a));
    }
}

/// Pieces that fit in some room fit in the same room under another name.
proof fn lemma_pieces_room(
    calls: Seq<(Seq<u8>, nat)>,
    out: Seq<u8>,
    room: nat,
    other: nat,
    pieces: Seq<Seq<u8>>,
)
    requires
        cut_laws::pieces_inflate(calls, out, room, pieces),
        room <= other,
    ensures
        cut_laws::pieces_inflate(calls, out, other, pieces),
    decreases pieces.len(),
{
    if pieces.len() > 0 {
        let run = inflate::inflate_run(calls, pieces[0], out);
        lemma_pieces_room(
            run.calls,
            run.out,
            (room - pieces[0].len()) as nat,
            (other - pieces[0].len()) as nat,
            pieces.drop_first(),
        );
    }
}

/// A decoder once `pieces` of the current chunk went through it: they count as
/// read, as checked and as inflated.
pub open spec fn through(v: DecoderView, pieces: Seq<Seq<u8>>) -> DecoderView {
    DecoderView {
        idat_remaining: (v.idat_remaining - flat(pieces).len()) as nat,
        crc_fed: v.crc_fed + flat(pieces),
        calls: over_pieces(v.calls, v.buffer, pieces).0,
        buffer: over_pieces(v.calls, v.buffer, pieces).1,
        ..v
    }
}

/// A decoder that still lacks image data after `pieces` asks for the rest of the
/// chunk, and for its checksum once all of it is read.
proof fn lemma_through(
    v: DecoderView,
    action: Action,
    pieces: Seq<Seq<u8>>,
    tail: Seq<Option<Seq<u8>>>,
)
    requires
        decode_laws::consistent(v, action),
        v.stage == Stage::ImageData,
        v.in_step(),
        cut_laws::pieces_inflate(v.calls, v.buffer, v.idat_remaining, pieces),
        cut_laws::gathered(v.calls, v.buffer, pieces).len() < v.requested * (v.width() + 1),
    ensures
        ({
            let (next, then) = cut_laws::asking_on(through(v, pieces));
            let replies = cut_laws::giving(pieces) + tail;
            &&& decode_laws::replayed(v, action, replies) == decode_laws::replayed(
                next,
                then,
                tail,
            )
            &&& decode_laws::all_answer(v, action, replies) == decode_laws::all_answer(
                next,
                then,
                tail,
            )
            &&& batch_laws::ended(v, action, replies) == batch_laws::ended(next, then, tail)
            &&& decode_laws::consistent(next, then)
            &&& next.in_step()
            &&& flat(pieces).len() <= v.idat_remaining
        }),
    decreases pieces.len(),
{
    let replies = cut_laws::giving(pieces) + tail;
    if pieces.len() == 0 {
        assert(replies =~= tail);
        assert(v.crc_fed + flat(pieces) =~= v.crc_fed);
        assert(cut_laws::asking_on(through(v, pieces)) == (v, action));
    } else {
        let piece = pieces[0];
        let rest = pieces.drop_first();
        let next = v.inflating(piece);
        assert(replies[0] == Some(piece));
        assert(replies.drop_first() =~= cut_laws::giving(rest) + tail);
        inflate::lemma_out_grows(v.calls, piece, v.buffer);
        decode_laws::lemma_taken_in_step(v, piece);
        decode_laws::law_resumed_consistent(v, replies[0]);
        decode_laws::law_resumed_in_step(v, replies[0]);
        cut_laws::lemma_gathered_leads(next.calls, next.buffer, next.idat_remaining, rest);
        let (asked, then) = v.resumed(replies[0]);
        assert((asked, then) == next.advanced());
        assert((asked, then) == cut_laws::asking_on(next));
        if rest.len() == 0 {
            assert(replies.drop_first() =~= tail);
            assert(v.crc_fed + flat(pieces) =~= v.crc_fed + piece);
            assert(flat(pieces) =~= piece);
            assert(cut_laws::asking_on(through(v, pieces)) == (asked, then));
        } else {
            assert(cut_laws::pieces_inflate(next.calls, next.buffer, next.idat_remaining, rest));
            lemma_through(asked, then, rest, tail);
            assert(v.crc_fed + piece + flat(rest) =~= v.crc_fed + flat(pieces));
            assert(cut_laws::asking_on(through(asked, rest)) == cut_laws::asking_on(
                through(v, pieces),
            ));
        }
    }
}

pub proof fn lemma_four_bytes(n: u32)
    ensures
        png::four_bytes(n as nat).len() == 4,
        header::be_u32(png::four_bytes(n as nat), 0) == n,
        forall|more: Seq<u8>| header::be_u32(#[trigger] (png::four_bytes(n as nat) + more), 0) == n,
{
    let b = png::four_bytes(n as nat);
    assert(b[0] * 0x1000000 + b[1] * 0x10000 + b[2] * 0x100 + b[3] == n);
}

/// Chunks that are passed over lead from one chunk header to the next.
proof fn lemma_passed(
    v: DecoderView,
    passed: Seq<Passed>,
    tail: Seq<Option<Seq<u8>>>,
)
    requires
        v.wf(),
        v.busy(),
        v.stage == Stage::ChunkHead,
        all_passable(passed),
    ensures
        ({
            let replies = passed_answers(passed) + tail;
            let action = Action::ReadExact(8);
            &&& decode_laws::replayed(v, action, replies) == decode_laws::replayed(v, action, tail)
            &&& decode_laws::all_answer(v, action, replies) == decode_laws::all_answer(
                v,
                action,
                tail,
            )
            &&& batch_laws::ended(v, action, replies) == batch_laws::ended(v, action, tail)
        }),
    decreases passed.len(),
{
    let replies = passed_answers(passed) + tail;
    let action = Action::ReadExact(8);
    if passed.len() == 0 {
        assert(replies =~= tail);
    } else {
        let first = passed[0];
        let rest = passed.drop_first();
        assert(passable(first));
        assert(all_passable(rest)) by {
            assert forall|j: int| 0 <= j < rest.len() implies passable(#[trigger] rest[j]) by {
                assert(passable(passed[j + 1]));
            }
        }
        let head = png::four_bytes(first.data.len()) + first.name;
        lemma_four_bytes(first.data.len() as u32);
        assert(header::be_u32(head, 0) == first.data.len());
        assert(head.subrange(4, 8) =~= first.name);
        let after = passed_answers(rest) + tail;
        assert(replies[0] == Some(head));
        assert(replies.drop_first()[0] == Some(first.data));
        assert(replies.drop_first().drop_first()[0] == Some(first.stored));
        assert(replies.drop_first().drop_first().drop_first() =~= after);
        let (data_state, data_action) = v.resumed(Some(head));
        assert(data_state == v.asking(Stage::SkippedData, first.data.len()).0);
        let (crc_state, crc_action) = data_state.resumed(Some(first.data));
        let (head_state, head_action) = crc_state.resumed(Some(first.stored));
        assert(head_state == v);
        assert(head_action == action);
        lemma_passed(v, rest, tail);
        reveal_with_fuel(decode_laws::replayed, 4);
        reveal_with_fuel(decode_laws::all_answer, 4);
        reveal_with_fuel(batch_laws::ended, 4);
    }
}

/// From the end of the data of a chunk to the data of the next.
proof fn lemma_gap(
    w: DecoderView,
    one: DataChunk,
    next: DataChunk,
    tail: Seq<Option<Seq<u8>>>,
)
    requires
        w.wf(),
        w.busy(),
        w.in_step(),
        w.stage == Stage::IdatCrc,
        w.crc_fed == seq![73u8, 68, 65, 84] + flat(one.pieces),
        all_passable(one.passed),
        0 < flat(next.pieces).len() <= u32::MAX,
    ensures
        ({
            let replies = gap_answers(one, next) + tail;
            let action = Action::ReadExact(4);
            let entered = DecoderView {
                idat_remaining: flat(next.pieces).len(),
                crc_fed: seq![73u8, 68, 65, 84],
                ..w
            };
            let (there, then) = cut_laws::asking_on(entered);
            &&& there.stage == Stage::ImageData
            &&& there.in_step()
            &&& decode_laws::consistent(there, then)
            &&& decode_laws::replayed(w, action, replies) == decode_laws::replayed(
                there,
                then,
                tail,
            )
            &&& decode_laws::all_answer(w, action, replies) == decode_laws::all_answer(
                there,
                then,
                tail,
            )
            &&& batch_laws::ended(w, action, replies) == batch_laws::ended(there, then, tail)
        }),
{
    let sum = checksum::crc32(w.crc_fed);
    let stored = png::four_bytes(sum as nat);
    let len = flat(next.pieces).len();
    let idat = seq![73u8, 68, 65, 84];
    let head = png::four_bytes(len) + idat;
    let replies = gap_answers(one, next) + tail;
    let last: Seq<Option<Seq<u8>>> = seq![Some(head)] + tail;
    lemma_four_bytes(sum);
    lemma_four_bytes(len as u32);
    assert(header::be_u32(head, 0) == len);
    assert(head.subrange(4, 8) =~= idat);
    assert(replies[0] == Some(stored));
    assert(replies.drop_first() =~= passed_answers(one.passed) + last);
    let (at_head, asks_head) = w.resumed(Some(stored));
    assert((at_head, asks_head) == w.asking(Stage::ChunkHead, 8));
    lemma_passed(at_head, one.passed, last);
    assert(last[0] == Some(head));
    assert(last.drop_first() =~= tail);
    decode_laws::law_resumed_consistent(at_head, Some(head));
    decode_laws::law_resumed_in_step(at_head, Some(head));
    assert(header::chunk_kind(idat) == ChunkKind::Idat) by {
        assert(idat[1] != header::ihdr_type()[1]);
        assert(idat[0] != header::plte_type()[0]);
        assert(idat[0] != header::trns_type()[0]);
        assert(idat =~= header::idat_type());
    }
}

/// A batch under way is handed out when its image data comes in sound chunks.
proof fn lemma_chunks_fetched(
    v: DecoderView,
    action: Action,
    chunks: Seq<DataChunk>,
    tail: Seq<Option<Seq<u8>>>,
)
    requires
        decode_laws::consistent(v, action),
        v.stage == Stage::ImageData,
        v.in_step(),
        v.current_y == 0,
        v.buffer == v.inflated(),
        v.buffer.len() < v.requested * (v.width() + 1),
        chunks.len() > 0,
        well_cut(chunks),
        v.idat_remaining == flat(chunks[0].pieces).len(),
        v.crc_fed == seq![73u8, 68, 65, 84],
        cut_laws::pieces_inflate(
            v.calls,
            v.buffer,
            flat(all_pieces(chunks)).len(),
            all_pieces(chunks),
        ),
        v.requested * (v.width() + 1) <= cut_laws::gathered(
            v.calls,
            v.buffer,
            all_pieces(chunks),
        ).len(),
        cut_laws::gathered(v.calls, v.buffer, chunks[0].pieces).len() > 0,
        cut_laws::ordinary(v),
        cut_laws::roomy(
            v,
            0,
            cut_laws::gathered(v.calls, v.buffer, all_pieces(chunks)).len(),
        ),
    ensures
        decode_laws::all_answer(v, action, answers(chunks) + tail),
        !batch_laws::ended(v, action, answers(chunks) + tail),
        ({
            let (end, then) = decode_laws::replayed(v, action, answers(chunks) + tail);
            &&& then == Action::Done
            &&& !end.corrupted
            &&& cut_laws::leads(
                end.inflated(),
                cut_laws::gathered(v.calls, v.buffer, all_pieces(chunks)),
            )
        }),
    decreases chunks.len(),
{
    let one = chunks[0].pieces;
    let rest = chunks.drop_first();
    let more = all_pieces(rest);
    let all = cut_laws::gathered(v.calls, v.buffer, all_pieces(chunks));
    assert(all_pieces(chunks) == one + more);
    lemma_pieces_split(v.calls, v.buffer, flat(all_pieces(chunks)).len(), one, more);
    let (calls, out) = over_pieces(v.calls, v.buffer, one);
    lemma_flat_joined(one, more);
    cut_laws::lemma_gathered_leads(calls, out, flat(more).len(), more);
    let here = cut_laws::gathered(v.calls, v.buffer, one);
    let after: Seq<Option<Seq<u8>>> = if chunks.len() == 1 {
        tail
    } else {
        gap_answers(chunks[0], chunks[1]) + (answers(rest) + tail)
    };
    assert(answers(chunks) + tail =~= cut_laws::giving(one) + after);
    if v.requested * (v.width() + 1) <= here.len() {
        cut_laws::lemma_fetched(v, action, one, after);
        let end = decode_laws::replayed(v, action, cut_laws::giving(one) + after).0;
        cut_laws::lemma_leads_on(end.inflated(), here, all);
    } else {
        if chunks.len() == 1 {
            assert(more =~= Seq::empty());
            assert(false);
        }
        assert(rest[0] == chunks[1]);
        assert(flat(chunks[1].pieces).len() > 0);
        assert(all_passable(chunks[0].passed));
        lemma_through(v, action, one, after);
        let (w, then) = cut_laws::asking_on(through(v, one));
        assert(w.stage == Stage::IdatCrc);
        lemma_gap(w, chunks[0], chunks[1], answers(rest) + tail);
        let entered = DecoderView {
            idat_remaining: flat(chunks[1].pieces).len(),
            crc_fed: seq![73u8, 68, 65, 84],
            ..w
        };
        let (there, asks) = cut_laws::asking_on(entered);
        assert(well_cut(rest)) by {
            assert forall|i: int| 0 <= i < rest.len() implies 0 < flat(
                (#[trigger] rest[i]).pieces,
            ).len() <= u32::MAX && all_passable(rest[i].passed) by {
                assert(rest[i] == chunks[i + 1]);
            }
        }
        lemma_pieces_split(
            there.calls,
            there.buffer,
            flat(more).len(),
            rest[0].pieces,
            all_pieces(rest.drop_first()),
        );
        cut_laws::lemma_gathered_leads(
            there.calls,
            there.buffer,
            flat(rest[0].pieces).len(),
            rest[0].pieces,
        );
        lemma_chunks_fetched(there, asks, rest, tail);
    }
}

proof fn lemma_flat_joined(a: Seq<Seq<u8>>, b: Seq<Seq<u8>>)
    ensures
        flat(a + b) == flat(a) + flat(b),
    decreases a.len(),
{
    if a.len() == 0 {
        assert(a + b =~= b);
        assert(flat(a) + flat(b) =~= flat(b));
    } else {
        lemma_flat_joined(a.drop_first(), b);
        assert((a + b).drop_first() =~= a.drop_first() + b);
        assert(flat(a + b) =~= flat(a) + flat(b));
    }
}

/// Law: once the header of an image data chunk of `len` bytes is read, exactly
/// that many bytes are read as image data, and taken in by the inflater, before
/// the checksum is asked for, and the checksum is taken over the type and all of
/// these bytes. While some are left, they are asked for, at most 8192 at a time.
pub proof fn law_image_data_is_counted(v: DecoderView, len: u32, pieces: Seq<Seq<u8>>)
    requires
        v.wf(),
        v.busy(),
        v.in_step(),
        v.stage == Stage::ChunkHead,
        len > 0,
        cut_laws::pieces_inflate(v.calls, v.buffer, len as nat, pieces),
        cut_laws::gathered(v.calls, v.buffer, pieces).len() < v.requested * (v.width() + 1),
        cut_laws::gathered(v.calls, v.buffer, pieces).len() > 0,
    ensures
        ({
            let head = png::four_bytes(len as nat) + seq![73u8, 68, 65, 84];
            let replies = seq![Some(head)] + cut_laws::giving(pieces);
            let (after, then) = decode_laws::replayed(v, Action::ReadExact(8), replies);
            let left = len - flat(pieces).len();
            &&& decode_laws::all_answer(v, Action::ReadExact(8), replies)
            &&& !after.corrupted
            &&& after.crc_fed == seq![73u8, 68, 65, 84] + flat(pieces)
            &&& inflate::taken(after.calls) == inflate::taken(v.calls) + flat(pieces)
            &&& after.idat_remaining == left
            &&& left > 0 ==> then == Action::Read(
                if left < 8192 {
                    left as usize
                } else {
                    8192
                },
            )
            &&& left == 0 ==> then == Action::ReadExact(4) && after.stage == Stage::IdatCrc
        }),
{
    let idat = seq![73u8, 68, 65, 84];
    let head = png::four_bytes(len as nat) + idat;
    let given = cut_laws::giving(pieces);
    let replies = seq![Some(head)] + given;
    lemma_four_bytes(len);
    assert(header::be_u32(head, 0) == len);
    assert(head.subrange(4, 8) =~= idat);
    assert(header::chunk_kind(idat) == ChunkKind::Idat) by {
        assert(idat[1] != header::ihdr_type()[1]);
        assert(idat[0] != header::plte_type()[0]);
        assert(idat[0] != header::trns_type()[0]);
        assert(idat =~= header::idat_type());
    }
    assert(replies[0] == Some(head));
    assert(replies.drop_first() =~= given);
    assert(given + Seq::empty() =~= given);
    decode_laws::law_resumed_consistent(v, Some(head));
    decode_laws::law_resumed_in_step(v, Some(head));
    let (entered, asks) = v.resumed(Some(head));
    assert(entered.stage == Stage::ImageData);
    assert(pieces + Seq::empty() =~= pieces);
    lemma_pieces_split(v.calls, v.buffer, len as nat, pieces, Seq::empty());
    lemma_through(entered, asks, pieces, Seq::empty());
    let (next, then) = cut_laws::asking_on(through(entered, pieces));
    assert(decode_laws::replayed(next, then, Seq::empty()) == (next, then));
    assert(decode_laws::all_answer(next, then, Seq::empty()));
}

/// Law: where the checksum stored behind an image data chunk is not that of its
/// type and data, the batch under way is all zeroes, as many as were asked for,
/// and the image counts as corrupt; where it is, the next chunk is looked for.
pub proof fn law_checksum_decides(v: DecoderView, data: Seq<u8>, stored: u32)
    requires
        v.wf(),
        v.busy(),
        v.stage == Stage::IdatCrc,
        v.crc_fed == seq![73u8, 68, 65, 84] + data,
        v.requested * v.layout.output_stride <= usize::MAX,
    ensures
        ({
            let (after, then) = v.resumed(Some(png::four_bytes(stored as nat)));
            if stored == checksum::crc32(seq![73u8, 68, 65, 84] + data) {
                &&& then == Action::ReadExact(8)
                &&& after.stage == Stage::ChunkHead
                &&& !after.corrupted
                &&& after.buffer == v.buffer
            } else {
                &&& then == Action::Done
                &&& after.corrupted
                &&& after.current_y == v.current_y + v.requested
                &&& cut_laws::batch_bytes(after) == Seq::new(
                    (v.requested * v.layout.output_stride) as nat,
                    |j: int| 0u8,
                )
            }
        }),
{
    lemma_four_bytes(stored);
    let (after, then) = v.resumed(Some(png::four_bytes(stored as nat)));
    if stored != checksum::crc32(v.crc_fed) {
        assert(cut_laws::batch_bytes(after) =~= after.buffer);
    }
}

/// Law: image data over several chunks is as good as in one. A fresh decoder of
/// an image whose data lies in sound chunks, with whatever chunks of other types
/// between them, and inflates to just its scanlines, hands out the rows of these
/// scanlines, however it is cut into batches and whatever follows, and is never
/// found corrupt.
pub proof fn law_image_in_chunks(
    header: Header,
    palette: Seq<[u8; 3]>,
    transparency: Seq<u8>,
    chunks: Seq<DataChunk>,
    tail: Seq<Option<Seq<u8>>>,
    requests: Seq<nat>,
)
    requires
        header.measurable(transparency.len() > 0),
        cut_laws::ordinary_header(header),
        header.height > 0,
        header.height <= cut_laws::total(requests),
        header.height * (header.bytes_per_scanline() + 1) <= usize::MAX,
        header.height * header.output_stride(transparency.len() > 0) <= usize::MAX,
        chunks.len() > 0,
        well_cut(chunks),
        cut_laws::pieces_inflate(
            Seq::empty(),
            Seq::empty(),
            flat(all_pieces(chunks)).len(),
            all_pieces(chunks),
        ),
        cut_laws::gathered(Seq::empty(), Seq::empty(), chunks[0].pieces).len() > 0,
        cut_laws::gathered(Seq::empty(), Seq::empty(), all_pieces(chunks)).len() == header.height
            * (header.bytes_per_scanline() + 1),
        scanlines::filters_known(
            cut_laws::gathered(Seq::empty(), Seq::empty(), all_pieces(chunks)),
            header.bytes_per_scanline(),
            0,
            header.height as nat,
        ),
    ensures
        ({
            let v = DecoderView::fresh(
                header,
                palette,
                transparency,
                flat(chunks[0].pieces).len(),
            );
            let replies = answers(chunks) + tail;
            let all = cut_laws::batches(v, requests, replies);
            &&& cut_laws::batches_answered(v, requests, replies)
            &&& all.action == Action::Done
            &&& !all.decoder.corrupted
            &&& all.decoder.current_y == header.height
            &&& all.bytes == v.rows_out(
                cut_laws::gathered(Seq::empty(), Seq::empty(), all_pieces(chunks)),
                0,
                header.height as nat,
            )
        }),
{
    let v = DecoderView::fresh(header, palette, transparency, flat(chunks[0].pieces).len());
    let height = header.height as nat;
    let scan = cut_laws::gathered(Seq::empty(), Seq::empty(), all_pieces(chunks));
    let replies = answers(chunks) + tail;
    cut_laws::lemma_fresh(header, palette, transparency, flat(chunks[0].pieces).len());
    decode_laws::law_fresh_in_step(
        header,
        palette,
        transparency,
        flat(chunks[0].pieces).len(),
    );
    cut_laws::law_ordinary_header(v);
    let (begun, action) = v.begun(height);
    decode_laws::law_begun_consistent(v, height);
    decode_laws::law_begun_in_step(v, height);
    assert(v.buffer.skip(0) =~= v.buffer);
    assert(height * (v.width() + 1) > 0) by (nonlinear_arith)
        requires
            height > 0,
    ;
    assert(begun.inflated() =~= begun.buffer);
    assert(begun.crc_fed =~= seq![73u8, 68, 65, 84]);
    assert(flat(chunks[0].pieces).len() > 0);
    lemma_chunks_fetched(begun, action, chunks, tail);
    let end = decode_laws::replayed(begun, action, replies).0;
    batch_laws::law_batch_is_whole(v, height, replies);
    cut_laws::lemma_one_batch(v, height, replies);
    assert(end.inflated() =~= scan);
    cut_laws::law_cuts_do_not_matter(v, requests, replies);
}

/// Law: the batches are the same as those of the image with all of its data in
/// one chunk.
pub proof fn law_chunks_do_not_matter(
    header: Header,
    palette: Seq<[u8; 3]>,
    transparency: Seq<u8>,
    chunks: Seq<DataChunk>,
    tail: Seq<Option<Seq<u8>>>,
    requests: Seq<nat>,
)
    requires
        header.measurable(transparency.len() > 0),
        cut_laws::ordinary_header(header),
        header.height > 0,
        header.height <= cut_laws::total(requests),
        header.height * (header.bytes_per_scanline() + 1) <= usize::MAX,
        header.height * header.output_stride(transparency.len() > 0) <= usize::MAX,
        chunks.len() > 0,
        well_cut(chunks),
        cut_laws::pieces_inflate(
            Seq::empty(),
            Seq::empty(),
            flat(all_pieces(chunks)).len(),
            all_pieces(chunks),
        ),
        cut_laws::gathered(Seq::empty(), Seq::empty(), chunks[0].pieces).len() > 0,
        cut_laws::gathered(Seq::empty(), Seq::empty(), all_pieces(chunks)).len() == header.height
            * (header.bytes_per_scanline() + 1),
        scanlines::filters_known(
            cut_laws::gathered(Seq::empty(), Seq::empty(), all_pieces(chunks)),
            header.bytes_per_scanline(),
            0,
            header.height as nat,
        ),
    ensures
        ({
            let many = DecoderView::fresh(
                header,
                palette,
                transparency,
                flat(chunks[0].pieces).len(),
            );
            let one = DecoderView::fresh(
                header,
                palette,
                transparency,
                flat(all_pieces(chunks)).len(),
            );
            cut_laws::batches(many, requests, answers(chunks) + tail).bytes == cut_laws::batches(
                one,
                requests,
                cut_laws::giving(all_pieces(chunks)),
            ).bytes
        }),
{
    let scan = cut_laws::gathered(Seq::empty(), Seq::empty(), all_pieces(chunks));
    let many = DecoderView::fresh(header, palette, transparency, flat(chunks[0].pieces).len());
    let one = DecoderView::fresh(
        header,
        palette,
        transparency,
        flat(all_pieces(chunks)).len(),
    );
    law_image_in_chunks(header, palette, transparency, chunks, tail, requests);
    cut_laws::law_image_in_one_chunk(
        header,
        palette,
        transparency,
        flat(all_pieces(chunks)).len(),
        all_pieces(chunks),
        requests,
    );
    cut_laws::lemma_same_rows(many, one, scan, 0, header.height as nat);
}

} // verus!
