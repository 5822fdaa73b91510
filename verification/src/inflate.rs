//! Inflating the zlib stream that the image data chunks carry, piece by piece.

use flate2::{Decompress, FlushDecompress};
use vstd::prelude::*;

verus! {

/// The output room offered to each call of the inflater.
pub const OUT_ROOM: usize = 16384;

/// `flate2::Decompress`, the inflater.
#[verifier::external_type_specification]
#[verifier::external_body]
pub struct ExDecompress(flate2::Decompress);

/// Whether an inflater was made for a zlib stream, with its header and its
/// checksum.
pub uninterp spec fn zlib_format(inflater: flate2::Decompress) -> bool;

/// The calls that an inflater has served, first to last: the input offered
/// and the output room offered.
pub uninterp spec fn inflate_calls(inflater: flate2::Decompress) -> Seq<(Seq<u8>, nat)>;

/// What the last of a non-empty sequence of calls on a fresh zlib inflater
/// does: whether it succeeds, how much of its input it takes, and the bytes
/// that it writes.
pub uninterp spec fn inflate_outcome(calls: Seq<(Seq<u8>, nat)>) -> (bool, nat, Seq<u8>);

/// All the input that a sequence of calls takes.
pub open spec fn taken(calls: Seq<(Seq<u8>, nat)>) -> Seq<u8>
    decreases calls.len(),
{
    if calls.len() == 0 {
        Seq::empty()
    } else {
        taken(calls.drop_last()) + calls.last().0.take(inflate_outcome(calls).1 as int)
    }
}

/// All the output that a sequence of calls writes.
pub open spec fn inflated(calls: Seq<(Seq<u8>, nat)>) -> Seq<u8>
    decreases calls.len(),
{
    if calls.len() == 0 {
        Seq::empty()
    } else {
        inflated(calls.drop_last()) + inflate_outcome(calls).2
    }
}

/// `flate2::Decompress::new(true)`: an inflater for a zlib stream, which has
/// served no call.
#[verifier::external_body]
fn zlib_inflater() -> (inflater: Decompress)
    ensures
        zlib_format(inflater),
        inflate_calls(inflater) == Seq::<(Seq<u8>, nat)>::empty(),
{
    Decompress::new(true)
}

/// An inflater for a zlib stream of which nothing is read.
pub fn new_inflater() -> (inflater: Decompress)
    ensures
        zlib_format(inflater),
        inflate_calls(inflater) == Seq::<(Seq<u8>, nat)>::empty(),
{
    zlib_inflater()
}

/// `flate2::Decompress::total_in`: the count of the input that an inflater for a
/// zlib stream has taken so far.
pub assume_specification[ flate2::Decompress::total_in ](inflater: &flate2::Decompress) -> (total:
    u64)
    ensures
        zlib_format(*inflater) ==> total == taken(inflate_calls(*inflater)).len(),
;

/// `flate2::Decompress::total_out`: the count of the output that an inflater for
/// a zlib stream has written so far.
pub assume_specification[ flate2::Decompress::total_out ](inflater: &flate2::Decompress) -> (total:
    u64)
    ensures
        zlib_format(*inflater) ==> total == inflated(inflate_calls(*inflater)).len(),
;

/// `flate2::Decompress::decompress` without a flush, on a zlib stream: takes
/// some of the front of `input`, writes to the front of `output`, and answers
/// whether the stream is sound so far. What it does is a function of the calls served since the
/// inflater was made, this one among them. The two running totals must not
/// leave their 64 bits.
#[verifier::external_body]
fn decompress(inflater: &mut Decompress, input: &[u8], output: &mut [u8]) -> (ok: bool)
    requires
        zlib_format(*old(inflater)),
        taken(inflate_calls(*old(inflater))).len() + input@.len() <= u64::MAX,
        inflated(inflate_calls(*old(inflater))).len() + old(output)@.len() <= u64::MAX,
    ensures
        zlib_format(*final(inflater)),
        inflate_calls(*final(inflater)) == inflate_calls(*old(inflater)).push(
            (input@, old(output)@.len()),
        ),
        ok == inflate_outcome(inflate_calls(*final(inflater))).0,
        inflate_outcome(inflate_calls(*final(inflater))).1 <= input@.len(),
        inflate_outcome(inflate_calls(*final(inflater))).2.len() <= old(output)@.len(),
        final(output)@ == inflate_outcome(inflate_calls(*final(inflater))).2 + old(output)@.skip(
            inflate_outcome(inflate_calls(*final(inflater))).2.len() as int,
        ),
{
    inflater.decompress(input, output, FlushDecompress::None).is_ok()
}

/// How the inflating of a piece of input ends.
#[derive(Clone, Copy, Debug, PartialEq, Eq, Structural)]
pub enum InflateEnd {
    /// All of the piece is taken.
    Taken,
    /// The stream is not a sound zlib stream.
    Corrupt,
    /// Input is left that the inflater does not take, and it writes nothing.
    Stalled,
    /// A running total or the output would leave its range.
    Exhausted,
}

/// Inflating a piece: the calls served afterwards, the output afterwards, and
/// how it ended.
pub struct InflateRun {
    pub calls: Seq<(Seq<u8>, nat)>,
    pub out: Seq<u8>,
    pub end: InflateEnd,
}

/// Offers `input` to an inflater that has served `calls` until all of it is
/// taken, gathering what is written behind `out`.
pub open spec fn inflate_run(
    calls: Seq<(Seq<u8>, nat)>,
    input: Seq<u8>,
    out: Seq<u8>,
) -> InflateRun
    decreases input.len() + usize::MAX - out.len(),
{
    if input.len() == 0 {
        InflateRun { calls, out, end: InflateEnd::Taken }
    } else if taken(calls).len() + input.len() > u64::MAX || inflated(calls).len() + OUT_ROOM
        > u64::MAX {
        InflateRun { calls, out, end: InflateEnd::Exhausted }
    } else {
        let served = calls.push((input, OUT_ROOM as nat));
        let (ok, consumed, produced) = inflate_outcome(served);
        if !ok {
            InflateRun { calls: served, out, end: InflateEnd::Corrupt }
        } else if consumed == 0 && produced.len() == 0 {
            InflateRun { calls: served, out, end: InflateEnd::Stalled }
        } else if consumed > input.len() || out.len() + produced.len() > usize::MAX {
            InflateRun { calls: served, out, end: InflateEnd::Exhausted }
        } else {
            inflate_run(served, input.skip(consumed as int), out + produced)
        }
    }
}

/// Inflates `piece` of a zlib stream, gathering the output behind what `out`
/// holds.
pub fn inflate_piece(inflater: &mut Decompress, piece: &[u8], out: &mut Vec<u8>) -> (end:
    InflateEnd)
    requires
        zlib_format(*old(inflater)),
    ensures
        zlib_format(*final(inflater)),
        ({
            let run = inflate_run(inflate_calls(*old(inflater)), piece@, old(out)@);
            &&& inflate_calls(*final(inflater)) == run.calls
            &&& final(out)@ == run.out
            &&& end == run.end
        }),
{
    let mut out_buf: Vec<u8> = vec![0u8; OUT_ROOM];
    let n: usize = piece.len();
    let mut in_pos: usize = 0;
    let ghost run = inflate_run(inflate_calls(*inflater), piece@, out@);
    assert(piece@.skip(0) == piece@);
    while in_pos < n
        invariant
            zlib_format(*inflater),
            in_pos <= n,
            n == piece@.len(),
            out_buf@.len() == OUT_ROOM,
            run == inflate_run(inflate_calls(*old(inflater)), piece@, old(out)@),
            run == inflate_run(inflate_calls(*inflater), piece@.skip(in_pos as int), out@),
        decreases n - in_pos + usize::MAX - out.len(),
    {
        let before_out: u64 = inflater.total_out();
        let before_in: u64 = inflater.total_in();
        if before_in > u64::MAX - ((n - in_pos) as u64) || before_out > u64::MAX - (
        OUT_ROOM as u64) {
            return InflateEnd::Exhausted;
        }
        let ghost calls = inflate_calls(*inflater);
        let ghost input = piece@.skip(in_pos as int);
        let rest: &[u8] = &piece[in_pos..n];
        assert(rest@ == input);
        let ok: bool = decompress(inflater, rest, &mut out_buf);
        let ghost served = inflate_calls(*inflater);
        assert(served.drop_last() == calls);
        if !ok {
            return InflateEnd::Corrupt;
        }
        let consumed: usize = (inflater.total_in() - before_in) as usize;
        let produced: usize = (inflater.total_out() - before_out) as usize;
        if consumed == 0 && produced == 0 {
            return InflateEnd::Stalled;
        }
        let ghost before = out@;
        in_pos += consumed;
        out.extend_from_slice(&out_buf.as_slice()[0..produced]);
        assert(out@ == before + inflate_outcome(served).2);
        assert(out.len() == before.len() + produced);
        assert(input.skip(consumed as int) == piece@.skip(in_pos as int));
    }
    InflateEnd::Taken
}

/// The output gathered for a piece comes behind what was there, and stays within
/// the machine's range.
pub proof fn lemma_out_grows(calls: Seq<(Seq<u8>, nat)>, input: Seq<u8>, out: Seq<u8>)
    requires
        out.len() <= usize::MAX,
    ensures
        out.len() <= inflate_run(calls, input, out).out.len() <= usize::MAX,
    decreases input.len() + usize::MAX - out.len(),
{
    let served = calls.push((input, OUT_ROOM as nat));
    let (ok, consumed, produced) = inflate_outcome(served);
    if input.len() > 0 && ok && (consumed > 0 || produced.len() > 0) && consumed <= input.len()
        && out.len() + produced.len() <= usize::MAX && taken(calls).len() + input.len() <= u64::MAX
        && inflated(calls).len() + OUT_ROOM <= u64::MAX {
        lemma_out_grows(served, input.skip(consumed as int), out + produced);
    }
}

/// Law: a piece that is all taken joins on to the input taken before it, and
/// the output gathered for it is what the inflater wrote for it.
pub proof fn law_pieces_join(calls: Seq<(Seq<u8>, nat)>, input: Seq<u8>, out: Seq<u8>)
    requires
        inflate_run(calls, input, out).end == InflateEnd::Taken,
    ensures
        ({
            let run = inflate_run(calls, input, out);
            &&& taken(run.calls) == taken(calls) + input
            &&& out.len() <= run.out.len()
            &&& run.out.take(out.len() as int) == out
            &&& inflated(run.calls) == inflated(calls) + run.out.skip(out.len() as int)
        }),
    decreases input.len() + usize::MAX - out.len(),
{
    let run = inflate_run(calls, input, out);
    if input.len() == 0 {
        assert(taken(calls) + input == taken(calls));
        assert(out.take(out.len() as int) == out);
        assert(inflated(calls) + out.skip(out.len() as int) == inflated(calls));
    } else {
        let served = calls.push((input, OUT_ROOM as nat));
        let (ok, consumed, produced) = inflate_outcome(served);
        let rest = input.skip(consumed as int);
        let more = out + produced;
        law_pieces_join(served, rest, more);
        assert(served.drop_last() == calls);
        assert(taken(calls) + input.take(consumed as int) + rest == taken(calls) + input);
        assert(run.out.take(out.len() as int) == run.out.take(more.len() as int).take(
            out.len() as int,
        ));
        assert(more.take(out.len() as int) == out);
        assert(run.out.skip(out.len() as int) == produced + run.out.skip(more.len() as int)) by {
            assert forall|k: int| 0 <= k < produced.len() implies run.out[out.len() + k]
                == produced[k] by {
                assert(run.out.take(more.len() as int)[out.len() + k] == more[out.len() + k]);
            }
        }
        assert(inflated(calls) + produced + run.out.skip(more.len() as int) == inflated(calls) + (
        produced + run.out.skip(more.len() as int)));
    }
}

} // verus!
