//! The other direction, as a yardstick: what an encoder puts into a PNG stream,
//! and that decoding gives it back.

use crate::filter;
use crate::scanlines;
use vstd::prelude::*;

verus! {

/// The row above row `i` of an image: zeroes above the first.
pub open spec fn image_above(image: Seq<Seq<u8>>, width: nat, i: int) -> Seq<u8> {
    if i <= 0 {
        Seq::new(width, |j: int| 0u8)
    } else {
        image[i - 1]
    }
}

/// The first `count` rows of `image` as filtered scanlines, row `i` with the
/// filter `filters[i]`.
pub open spec fn encoded(
    image: Seq<Seq<u8>>,
    filters: Seq<u8>,
    bpp: nat,
    width: nat,
    count: nat,
) -> Seq<u8>
    decreases count,
{
    if count == 0 {
        Seq::empty()
    } else {
        let i = count - 1;
        encoded(image, filters, bpp, width, i as nat) + seq![filters[i]] + filter::filtered(
            filters[i],
            bpp,
            image[i],
            image_above(image, width, i),
        )
    }
}

/// Rows `from` up to `to` of `image`, end to end.
pub open spec fn joined(image: Seq<Seq<u8>>, from: nat, to: nat) -> Seq<u8>
    decreases to,
{
    if to <= from {
        Seq::empty()
    } else {
        joined(image, from, (to - 1) as nat) + image[to - 1]
    }
}

/// A scanline takes a byte more than its row.
pub proof fn lemma_encoded_len(
    image: Seq<Seq<u8>>,
    filters: Seq<u8>,
    bpp: nat,
    width: nat,
    count: nat,
)
    requires
        count <= image.len(),
        forall|i: int| 0 <= i < image.len() ==> (#[trigger] image[i]).len() == width,
    ensures
        encoded(image, filters, bpp, width, count).len() == count * (width + 1),
    decreases count,
{
    if count > 0 {
        lemma_encoded_len(image, filters, bpp, width, (count - 1) as nat);
        assert(image[count - 1].len() == width);
        assert(count * (width + 1) == (count - 1) * (width + 1) + width + 1) by (nonlinear_arith);
    } else {
        assert(count * (width + 1) == 0) by (nonlinear_arith)
            requires
                count == 0,
        ;
    }
}

/// Law: restoring the scanlines of an encoded image, from row `from` on, gives
/// its rows back, whichever filters its rows were encoded with, and whatever follows them.
pub proof fn law_decoding_undoes_encoding(
    image: Seq<Seq<u8>>,
    filters: Seq<u8>,
    bpp: nat,
    width: nat,
    from: nat,
    count: nat,
    more: Seq<u8>,
)
    requires
        0 < bpp,
        count <= image.len(),
        count <= filters.len(),
        forall|i: int| 0 <= i < image.len() ==> (#[trigger] image[i]).len() == width,
        forall|i: int| 0 <= i < filters.len() ==> filter::known_filter(#[trigger] filters[i]),
    ensures
        ({
            let raw = encoded(image, filters, bpp, width, count) + more;
            let zeroes = Seq::new(width, |j: int| 0u8);
            &&& scanlines::rows(raw, zeroes, bpp, width, from, count) == joined(
                image,
                from,
                count,
            )
            &&& scanlines::row_above(raw, zeroes, bpp, width, count) == image_above(
                image,
                width,
                count as int,
            )
        }),
    decreases count,
{
    let raw = encoded(image, filters, bpp, width, count) + more;
    let zeroes = Seq::new(width, |j: int| 0u8);
    if count > 0 {
        let i = (count - 1) as nat;
        let front = encoded(image, filters, bpp, width, i);
        let above = image_above(image, width, i as int);
        let line = filter::filtered(filters[i as int], bpp, image[i as int], above);
        let rest = seq![filters[i as int]] + line + more;
        assert(image[i as int].len() == width);
        lemma_encoded_len(image, filters, bpp, width, i);
        assert(raw =~= front + rest);
        law_decoding_undoes_encoding(image, filters, bpp, width, from, i, rest);
        assert(scanlines::filter_at(raw, width, i) == filters[i as int]);
        assert(scanlines::line_at(raw, width, i) =~= line);
        assert(filter::known_filter(filters[i as int]));
        filter::law_restoring_undoes_filtering(filters[i as int], bpp, image[i as int], above);
    }
}

} // verus!
