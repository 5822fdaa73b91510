//! From inflated bytes to image rows: a run of filtered scanlines, each with
//! its filter byte in front, is restored and, for indexed colour, expanded.

use crate::filter;
use crate::filter::unfilter_scanline_inplace;
use crate::palette;
use crate::palette::expand_indexed_inplace;
use vstd::arithmetic::mul;
use vstd::prelude::*;

verus! {

/// The filter byte of scanline `i` of `raw`.
pub open spec fn filter_at(raw: Seq<u8>, bytes_per_scanline: nat, i: nat) -> u8 {
    raw[(i * (bytes_per_scanline + 1)) as int]
}

/// The filtered bytes of scanline `i` of `raw`.
pub open spec fn line_at(raw: Seq<u8>, bytes_per_scanline: nat, i: nat) -> Seq<u8> {
    raw.subrange(
        (i * (bytes_per_scanline + 1) + 1) as int,
        (i * (bytes_per_scanline + 1) + 1 + bytes_per_scanline) as int,
    )
}

/// The row that scanline `i` of `raw` is predicted from: the last restored row
/// before it, or `first` where there is none.
pub open spec fn row_above(
    raw: Seq<u8>,
    first: Seq<u8>,
    bpp: nat,
    bytes_per_scanline: nat,
    i: nat,
) -> Seq<u8>
    decreases i,
{
    if i == 0 {
        first
    } else {
        let above = row_above(raw, first, bpp, bytes_per_scanline, (i - 1) as nat);
        let filter_type = filter_at(raw, bytes_per_scanline, (i - 1) as nat);
        if filter::known_filter(filter_type) {
            filter::restored(
                filter_type,
                bpp,
                line_at(raw, bytes_per_scanline, (i - 1) as nat),
                above,
            )
        } else {
            above
        }
    }
}

/// Row `i` of the scanlines in `raw`. Where the filter byte names no filter,
/// the row is what stands at its place in `raw`.
pub open spec fn row_at(
    raw: Seq<u8>,
    first: Seq<u8>,
    bpp: nat,
    bytes_per_scanline: nat,
    i: nat,
) -> Seq<u8> {
    if filter::known_filter(filter_at(raw, bytes_per_scanline, i)) {
        filter::restored(
            filter_at(raw, bytes_per_scanline, i),
            bpp,
            line_at(raw, bytes_per_scanline, i),
            row_above(raw, first, bpp, bytes_per_scanline, i),
        )
    } else {
        raw.subrange(
            (i * bytes_per_scanline) as int,
            (i * bytes_per_scanline + bytes_per_scanline) as int,
        )
    }
}

/// Rows `from` up to `to` of the scanlines in `raw`, end to end.
pub open spec fn rows(
    raw: Seq<u8>,
    first: Seq<u8>,
    bpp: nat,
    bytes_per_scanline: nat,
    from: nat,
    to: nat,
) -> Seq<u8>
    decreases to,
{
    if to <= from {
        Seq::empty()
    } else {
        rows(raw, first, bpp, bytes_per_scanline, from, (to - 1) as nat) + row_at(
            raw,
            first,
            bpp,
            bytes_per_scanline,
            (to - 1) as nat,
        )
    }
}

/// The Paeth filter keeps a window of eight bytes; the first `lines` scanlines
/// stay within it.
pub open spec fn window_suffices(
    raw: Seq<u8>,
    bpp: nat,
    bytes_per_scanline: nat,
    lines: nat,
) -> bool {
    bpp <= 8 || bytes_per_scanline <= 8 || forall|i: nat|
        i < lines ==> #[trigger] filter_at(raw, bytes_per_scanline, i) != 4
}

pub proof fn lemma_rows_len(
    raw: Seq<u8>,
    first: Seq<u8>,
    bpp: nat,
    bytes_per_scanline: nat,
    from: nat,
    to: nat,
)
    requires
        from <= to,
        to * (bytes_per_scanline + 1) <= raw.len(),
    ensures
        rows(raw, first, bpp, bytes_per_scanline, from, to).len() == (to - from)
            * bytes_per_scanline,
    decreases to,
{
    if from < to {
        let last = (to - 1) as nat;
        lemma_scanline_place(bytes_per_scanline, last, to, raw.len());
        assert(last * (bytes_per_scanline + 1) <= raw.len());
        lemma_rows_len(raw, first, bpp, bytes_per_scanline, from, last);
        assert((to - from) * bytes_per_scanline == (last - from) * bytes_per_scanline
            + bytes_per_scanline) by (nonlinear_arith)
            requires
                to == last + 1,
        ;
    } else {
        assert((to - from) * bytes_per_scanline == 0) by (nonlinear_arith)
            requires
                to == from,
        ;
    }
}

/// Scanline `i` lies in the raw bytes, behind the place of its row.
proof fn lemma_scanline_place(bytes_per_scanline: nat, i: nat, lines: nat, len: nat)
    requires
        i < lines,
        lines * (bytes_per_scanline + 1) <= len,
    ensures
        i * (bytes_per_scanline + 1) + 1 + bytes_per_scanline == (i + 1) * (bytes_per_scanline + 1),
        (i + 1) * (bytes_per_scanline + 1) <= len,
        i * (bytes_per_scanline + 1) == i * bytes_per_scanline + i,
        (i + 1) * bytes_per_scanline == i * bytes_per_scanline + bytes_per_scanline,
        0 <= i * bytes_per_scanline,
{
    assert(i * (bytes_per_scanline + 1) + 1 + bytes_per_scanline == (i + 1) * (bytes_per_scanline
        + 1) && i * (bytes_per_scanline + 1) == i * bytes_per_scanline + i && (i + 1)
        * bytes_per_scanline == i * bytes_per_scanline + bytes_per_scanline) by (nonlinear_arith);
    mul::lemma_mul_inequality(
        (i + 1) as int,
        lines as int,
        (bytes_per_scanline + 1) as int,
    );
}

/// Whether the Paeth filter stays within its window, over the first `lines`
/// scanlines.
pub fn check_window(
    raw: &[u8],
    bpp: usize,
    bytes_per_scanline: usize,
    lines: usize,
) -> (ok: bool)
    requires
        bytes_per_scanline < usize::MAX,
        lines * (bytes_per_scanline + 1) <= raw@.len(),
    ensures
        ok == window_suffices(raw@, bpp as nat, bytes_per_scanline as nat, lines as nat),
{
    if bpp <= 8 || bytes_per_scanline <= 8 {
        return true;
    }
    let mut i: usize = 0;
    while i < lines
        invariant
            i <= lines,
            bpp > 8,
            bytes_per_scanline > 8,
            bytes_per_scanline < usize::MAX,
            lines * (bytes_per_scanline + 1) <= raw@.len(),
            forall|k: nat|
                k < i ==> #[trigger] filter_at(raw@, bytes_per_scanline as nat, k) != 4,
        decreases lines - i,
    {
        proof {
            lemma_scanline_place(
                bytes_per_scanline as nat,
                i as nat,
                lines as nat,
                raw@.len(),
            );
            assert(raw.len() == raw@.len());
        }
        let at: usize = i * (bytes_per_scanline + 1);
        assert(raw@[at as int] == filter_at(raw@, bytes_per_scanline as nat, i as nat));
        if raw[at] == 4 {
            return false;
        }
        i += 1;
    }
    true
}

/// Restores the first `lines` scanlines of `buffer` in place, packing the rows
/// together at its front. `prev` holds the row above on entry, and the row
/// that a further scanline is predicted from on return.
pub fn restore_lines(
    buffer: &mut Vec<u8>,
    prev: &mut Vec<u8>,
    bpp: usize,
    bytes_per_scanline: usize,
    lines: usize,
)
    requires
        0 < bpp,
        bytes_per_scanline < usize::MAX,
        old(prev)@.len() == bytes_per_scanline,
        lines * (bytes_per_scanline + 1) <= old(buffer)@.len(),
        window_suffices(
            old(buffer)@,
            bpp as nat,
            bytes_per_scanline as nat,
            lines as nat,
        ),
    ensures
        final(buffer)@ == rows(
            old(buffer)@,
            old(prev)@,
            bpp as nat,
            bytes_per_scanline as nat,
            0,
            lines as nat,
        ) + old(buffer)@.skip(lines * bytes_per_scanline),
        final(buffer)@.len() == old(buffer)@.len(),
        final(prev)@ == row_above(
            old(buffer)@,
            old(prev)@,
            bpp as nat,
            bytes_per_scanline as nat,
            lines as nat,
        ),
        final(prev)@.len() == bytes_per_scanline,
{
    let ghost raw = buffer@;
    let ghost first = prev@;
    let ghost pixel = bpp as nat;
    let ghost width = bytes_per_scanline as nat;
    assert(raw.skip(0) == raw);
    assert(rows(raw, first, pixel, width, 0, 0) + raw == raw);
    assert(0 * width == 0);
    let mut i: usize = 0;
    while i < lines
        invariant
            i <= lines,
            0 < bpp,
            bytes_per_scanline < usize::MAX,
            pixel == bpp,
            width == bytes_per_scanline,
            lines * (bytes_per_scanline + 1) <= raw.len(),
            window_suffices(raw, pixel, width, lines as nat),
            buffer@.len() == raw.len(),
            buffer@ == rows(raw, first, pixel, width, 0, i as nat) + raw.skip(i * width),
            prev@ == row_above(raw, first, pixel, width, i as nat),
            prev@.len() == width,
        decreases lines - i,
    {
        proof {
            lemma_scanline_place(width, i as nat, lines as nat, raw.len());
            lemma_rows_len(raw, first, pixel, width, 0, i as nat);
            assert(buffer.len() == raw.len());
        }
        let src_start: usize = i * (bytes_per_scanline + 1);
        let dest_start: usize = i * bytes_per_scanline;
        let ghost before = buffer@;
        let ghost above = prev@;
        let filter_type: u8 = buffer[src_start];
        assert(filter_type == filter_at(raw, width, i as nat));
        unfilter_scanline_inplace(
            filter_type,
            bpp,
            bytes_per_scanline,
            prev,
            buffer,
            src_start + 1,
            dest_start,
        );
        proof {
            let line = line_at(raw, width, i as nat);
            let row = row_at(raw, first, pixel, width, i as nat);
            assert(before.subrange(src_start + 1, src_start + 1 + line.len()) =~= line);
            if filter::known_filter(filter_type) {
                assert forall|k: nat| k < width implies filter::unfiltered_byte(
                    filter_type,
                    pixel,
                    before,
                    above,
                    src_start + 1,
                    dest_start as int,
                    k,
                ) == #[trigger] row[k as int] by {
                    filter::lemma_unfiltered_is_restored(
                        filter_type,
                        pixel,
                        before,
                        line,
                        above,
                        src_start + 1,
                        dest_start as int,
                        k,
                    );
                }
                assert(prev@ =~= row);
            } else {
                assert(before.subrange(dest_start as int, dest_start + width) =~= row);
            }
            let done = rows(raw, first, pixel, width, 0, i as nat);
            assert(rows(raw, first, pixel, width, 0, (i + 1) as nat) == done + row);
            assert(buffer@ =~= done + row + raw.skip((i + 1) * width));
        }
        i += 1;
    }
}

/// Every one of the scanlines `from` up to `to` has a filter byte that names a
/// filter.
pub open spec fn filters_known(raw: Seq<u8>, bytes_per_scanline: nat, from: nat, to: nat) -> bool {
    forall|i: nat|
        from <= i < to ==> filter::known_filter(#[trigger] filter_at(raw, bytes_per_scanline, i))
}

/// Law: which row a scanline restores to does not depend on where the run of
/// scanlines is cut. Restoring `count` scanlines from scanline `skipped` on,
/// from the row kept there, gives rows `skipped` up to `skipped + count` of
/// the whole run.
pub proof fn law_rows_after_cut(
    raw: Seq<u8>,
    first: Seq<u8>,
    bpp: nat,
    bytes_per_scanline: nat,
    skipped: nat,
    count: nat,
)
    requires
        (skipped + count) * (bytes_per_scanline + 1) <= raw.len(),
    ensures
        ({
            let rest = raw.skip((skipped * (bytes_per_scanline + 1)) as int);
            let above = row_above(raw, first, bpp, bytes_per_scanline, skipped);
            &&& row_above(rest, above, bpp, bytes_per_scanline, count) == row_above(
                raw,
                first,
                bpp,
                bytes_per_scanline,
                skipped + count,
            )
            &&& filters_known(raw, bytes_per_scanline, skipped, skipped + count) ==> rows(
                rest,
                above,
                bpp,
                bytes_per_scanline,
                0,
                count,
            ) == rows(raw, first, bpp, bytes_per_scanline, skipped, skipped + count)
        }),
    decreases count,
{
    let width = bytes_per_scanline;
    let start = (skipped * (width + 1)) as int;
    let rest = raw.skip(start);
    let above = row_above(raw, first, bpp, width, skipped);
    if count > 0 {
        let last = (count - 1) as nat;
        assert((skipped + last) * (width + 1) == skipped * (width + 1) + last * (width + 1)
            && (skipped + count) * (width + 1) == (skipped + last) * (width + 1) + width + 1
            && 0 <= last * (width + 1) && 0 <= skipped * (width + 1)) by (nonlinear_arith)
            requires
                count == last + 1,
        ;
        law_rows_after_cut(raw, first, bpp, width, skipped, last);
        assert(filter_at(rest, width, last) == filter_at(raw, width, skipped + last));
        assert(line_at(rest, width, last) =~= line_at(raw, width, skipped + last));
        if filters_known(raw, width, skipped, skipped + count) {
            assert(filters_known(raw, width, skipped, skipped + last));
            assert(filter::known_filter(filter_at(raw, width, skipped + last)));
            assert(row_at(rest, above, bpp, width, last) == row_at(
                raw,
                first,
                bpp,
                width,
                skipped + last,
            ));
        }
    }
}

/// Law: scanlines that are whole in `raw` restore to the same rows when more
/// bytes follow.
pub proof fn law_rows_of_prefix(
    raw: Seq<u8>,
    more: Seq<u8>,
    first: Seq<u8>,
    bpp: nat,
    bytes_per_scanline: nat,
    from: nat,
    to: nat,
)
    requires
        to * (bytes_per_scanline + 1) <= raw.len(),
    ensures
        row_above(raw + more, first, bpp, bytes_per_scanline, to) == row_above(
            raw,
            first,
            bpp,
            bytes_per_scanline,
            to,
        ),
        rows(raw + more, first, bpp, bytes_per_scanline, from, to) == rows(
            raw,
            first,
            bpp,
            bytes_per_scanline,
            from,
            to,
        ),
    decreases to,
{
    let width = bytes_per_scanline;
    let all = raw + more;
    if to > 0 {
        let last = (to - 1) as nat;
        lemma_scanline_place(width, last, to, raw.len());
        law_rows_of_prefix(raw, more, first, bpp, width, from, last);
        assert(filter_at(all, width, last) == filter_at(raw, width, last));
        assert(line_at(all, width, last) =~= line_at(raw, width, last));
        assert(all.subrange((last * width) as int, (last * width + width) as int)
            =~= raw.subrange((last * width) as int, (last * width + width) as int));
    }
}

/// `bytes` cut or filled up with zeroes to `len`.
pub open spec fn resized(bytes: Seq<u8>, len: nat) -> Seq<u8> {
    Seq::new(
        len,
        |j: int|
            if j < bytes.len() {
                bytes[j]
            } else {
                0
            },
    )
}

/// The restored rows in a buffer of `len` bytes can be expanded in place: the
/// sizes fit, what is left behind the scanlines only ever moves back, and the
/// pixels of a row fit its place.
pub open spec fn expansion_fits(
    transparency: Seq<u8>,
    bit_depth: u8,
    len: int,
    lines: int,
    bytes_per_scanline: int,
    output_stride: int,
) -> bool {
    let packed_size = lines * (bytes_per_scanline + 1);
    let expanded_size = lines * output_stride;
    let remainder_size = len - packed_size;
    &&& expanded_size + remainder_size <= usize::MAX
    &&& remainder_size > 0 ==> packed_size <= expanded_size
    &&& palette::expandable(
        transparency,
        bit_depth,
        expanded_size,
        lines,
        bytes_per_scanline,
        output_stride,
    )
}

/// The buffer after its restored rows are expanded: the pixels, then what
/// stood behind the scanlines.
pub open spec fn expanded_lines(
    palette: Seq<[u8; 3]>,
    transparency: Seq<u8>,
    bit_depth: u8,
    buffer: Seq<u8>,
    lines: int,
    bytes_per_scanline: int,
    output_stride: int,
) -> Seq<u8> {
    palette::expanded(
        palette,
        transparency,
        bit_depth,
        resized(buffer, (lines * output_stride) as nat),
        lines,
        bytes_per_scanline,
        output_stride,
    ) + buffer.skip(lines * (bytes_per_scanline + 1))
}

/// Whether the restored rows can be expanded in place.
pub fn check_expansion(
    transparency: &[u8],
    bit_depth: u8,
    len: usize,
    lines: usize,
    bytes_per_scanline: usize,
    output_stride: usize,
) -> (ok: bool)
    requires
        bytes_per_scanline < usize::MAX,
        lines * (bytes_per_scanline + 1) <= len,
    ensures
        ok == expansion_fits(
            transparency@,
            bit_depth,
            len as int,
            lines as int,
            bytes_per_scanline as int,
            output_stride as int,
        ),
{
    let packed_size: usize = lines * (bytes_per_scanline + 1);
    let remainder_size: usize = len - packed_size;
    let expanded_size: usize = match lines.checked_mul(output_stride) {
        Some(size) => size,
        None => {
            return false;
        },
    };
    if expanded_size.checked_add(remainder_size).is_none() {
        return false;
    }
    if remainder_size > 0 && packed_size > expanded_size {
        return false;
    }
    if bit_depth == 0 || bit_depth as u32 >= usize::BITS {
        return false;
    }
    proof {
        assert(lines * bytes_per_scanline <= lines * (bytes_per_scanline + 1)) by (nonlinear_arith);
    }
    if lines * bytes_per_scanline > expanded_size {
        return false;
    }
    if lines == 0 {
        return true;
    }
    let pixel_stride: usize = if transparency.len() > 0 {
        4
    } else {
        3
    };
    let pixels_per_byte: usize = 8 / (bit_depth as usize);
    match bytes_per_scanline.checked_mul(pixels_per_byte) {
        Some(pixels) => match pixels.checked_mul(pixel_stride) {
            Some(size) => size <= output_stride,
            None => false,
        },
        None => {
            assert(bytes_per_scanline * pixels_per_byte <= bytes_per_scanline * pixels_per_byte
                * pixel_stride) by (nonlinear_arith)
                requires
                    bytes_per_scanline * pixels_per_byte >= 0,
                    pixel_stride >= 1,
            ;
            false
        },
    }
}

/// Expands the rows restored at the front of `buffer` in place, once what
/// follows the `lines` scanlines is out of the way.
pub fn expand_lines(
    buffer: &mut Vec<u8>,
    palette: &[[u8; 3]],
    transparency: &[u8],
    bit_depth: u8,
    lines: usize,
    bytes_per_scanline: usize,
    output_stride: usize,
)
    requires
        bytes_per_scanline < usize::MAX,
        lines * (bytes_per_scanline + 1) <= old(buffer)@.len(),
        expansion_fits(
            transparency@,
            bit_depth,
            old(buffer)@.len() as int,
            lines as int,
            bytes_per_scanline as int,
            output_stride as int,
        ),
    ensures
        final(buffer)@ == expanded_lines(
            palette@,
            transparency@,
            bit_depth,
            old(buffer)@,
            lines as int,
            bytes_per_scanline as int,
            output_stride as int,
        ),
        final(buffer)@.len() == lines * output_stride + old(buffer)@.len() - lines * (
        bytes_per_scanline + 1),
{
    let ghost before = buffer@;
    let original_len: usize = buffer.len();
    let packed_size: usize = lines * (bytes_per_scanline + 1);
    let remainder_size: usize = original_len - packed_size;
    assert(0 <= lines * output_stride) by (nonlinear_arith);
    let expanded_size: usize = lines * output_stride;

    // Room for the pixels and for what is left behind the scanlines.
    buffer.resize(expanded_size + remainder_size, 0);
    assert(buffer@ =~= resized(before, (expanded_size + remainder_size) as nat)) by {
        if expanded_size + remainder_size > original_len {
            assert forall|j: int| 0 <= j < original_len implies buffer@[j] == before[j] by {
                assert(buffer@.subrange(0, original_len as int)[j] == before[j]);
            }
        }
    }
    let ghost grown = buffer@;

    // What is left moves back, last byte first.
    let mut k: usize = remainder_size;
    while k > 0
        invariant
            k <= remainder_size,
            remainder_size > 0 ==> packed_size <= expanded_size,
            expanded_size + remainder_size <= usize::MAX,
            grown.len() == expanded_size + remainder_size,
            buffer@.len() == grown.len(),
            forall|j: int|
                0 <= j < buffer@.len() ==> #[trigger] buffer@[j] == (if expanded_size + k <= j {
                    grown[j - expanded_size + packed_size]
                } else {
                    grown[j]
                }),
        decreases k,
    {
        k -= 1;
        let moved: u8 = buffer[packed_size + k];
        buffer[expanded_size + k] = moved;
    }
    let ghost shifted = buffer@;
    assert(shifted.subrange(0, expanded_size as int) =~= resized(before, expanded_size as nat));
    assert(shifted.subrange(expanded_size as int, shifted.len() as int) =~= before.skip(
        packed_size as int,
    ));
    let (pixels, _rest) = buffer.as_mut_slice().split_at_mut(expanded_size);
    expand_indexed_inplace(
        palette,
        transparency,
        bit_depth,
        pixels,
        lines,
        bytes_per_scanline,
        output_stride,
    );
}

/// How the scanlines of an image are laid out.
#[derive(Clone, Copy, Debug, PartialEq, Eq, Structural)]
pub struct Layout {
    pub color_type: u8,
    pub bit_depth: u8,
    /// The distance of a byte to its left neighbour.
    pub bytes_per_pixel: usize,
    /// The bytes of a scanline without its filter byte.
    pub bytes_per_scanline: usize,
    /// The bytes of a row as it is handed out.
    pub output_stride: usize,
}

impl Layout {
    /// A layout that scanlines can have.
    pub open spec fn wf(self) -> bool {
        &&& 0 < self.bytes_per_pixel
        &&& self.bytes_per_scanline < usize::MAX
        &&& self.color_type != 3 ==> self.output_stride == self.bytes_per_scanline
    }

    /// The bytes of a scanline with its filter byte.
    pub open spec fn line_len(self) -> nat {
        (self.bytes_per_scanline + 1) as nat
    }

    /// How many of `wanted` scanlines are whole in `len` bytes.
    pub open spec fn whole_lines(self, len: nat, wanted: nat) -> nat {
        if wanted <= len / self.line_len() {
            wanted
        } else {
            len / self.line_len()
        }
    }

    /// The scanlines at the front of `raw` can be turned to rows.
    pub open spec fn deliverable(
        self,
        transparency: Seq<u8>,
        raw: Seq<u8>,
        lines: nat,
    ) -> bool {
        &&& window_suffices(
            raw,
            self.bytes_per_pixel as nat,
            self.bytes_per_scanline as nat,
            lines,
        )
        &&& self.color_type == 3 ==> expansion_fits(
            transparency,
            self.bit_depth,
            raw.len() as int,
            lines as int,
            self.bytes_per_scanline as int,
            self.output_stride as int,
        )
    }

    /// `raw` with its first `lines` scanlines restored.
    pub open spec fn restored_buffer(self, raw: Seq<u8>, prev: Seq<u8>, lines: nat) -> Seq<u8> {
        rows(
            raw,
            prev,
            self.bytes_per_pixel as nat,
            self.bytes_per_scanline as nat,
            0,
            lines,
        ) + raw.skip((lines * self.bytes_per_scanline) as int)
    }

    /// `raw` with its first `lines` scanlines turned to rows.
    pub open spec fn delivered_buffer(
        self,
        palette: Seq<[u8; 3]>,
        transparency: Seq<u8>,
        raw: Seq<u8>,
        prev: Seq<u8>,
        lines: nat,
    ) -> Seq<u8> {
        let restored = self.restored_buffer(raw, prev, lines);
        if self.color_type == 3 {
            expanded_lines(
                palette,
                transparency,
                self.bit_depth,
                restored,
                lines as int,
                self.bytes_per_scanline as int,
                self.output_stride as int,
            )
        } else {
            restored
        }
    }

    /// How much of the delivered buffer is spent once the rows are used.
    pub open spec fn spent(self, lines: nat) -> nat {
        if self.color_type == 3 {
            lines * self.output_stride as nat
        } else {
            lines * self.line_len()
        }
    }
}

/// Rows handed out at the front of a buffer.
#[derive(Clone, Copy, Debug, PartialEq, Eq, Structural)]
pub struct Delivery {
    /// How many scanlines were turned to rows.
    pub lines: usize,
    /// The bytes of the rows.
    pub size: usize,
    /// The bytes to drop from the buffer before it is used again.
    pub spent: usize,
}

/// Turns up to `wanted` whole scanlines at the front of `buffer` to rows, in
/// place. Where that is not possible, nothing changes.
pub fn deliver_lines(
    layout: &Layout,
    palette: &[[u8; 3]],
    transparency: &[u8],
    buffer: &mut Vec<u8>,
    prev: &mut Vec<u8>,
    wanted: usize,
) -> (delivery: Option<Delivery>)
    requires
        layout.wf(),
        old(prev)@.len() == layout.bytes_per_scanline,
    ensures
        ({
            let lines = layout.whole_lines(old(buffer)@.len(), wanted as nat);
            if layout.deliverable(transparency@, old(buffer)@, lines) {
                &&& delivery is Some
                &&& delivery->0.lines == lines
                &&& delivery->0.size == lines * layout.output_stride
                &&& delivery->0.spent == layout.spent(lines)
                &&& delivery->0.size <= final(buffer)@.len()
                &&& delivery->0.spent <= final(buffer)@.len()
                &&& final(buffer)@ == layout.delivered_buffer(
                    palette@,
                    transparency@,
                    old(buffer)@,
                    old(prev)@,
                    lines,
                )
                &&& final(prev)@ == row_above(
                    old(buffer)@,
                    old(prev)@,
                    layout.bytes_per_pixel as nat,
                    layout.bytes_per_scanline as nat,
                    lines,
                )
                &&& final(prev)@.len() == layout.bytes_per_scanline
            } else {
                &&& delivery == None::<Delivery>
                &&& final(buffer)@ == old(buffer)@
                &&& final(prev)@ == old(prev)@
            }
        }),
{
    let line_len: usize = layout.bytes_per_scanline + 1;
    let available: usize = buffer.len() / line_len;
    let lines: usize = if wanted <= available {
        wanted
    } else {
        available
    };
    proof {
        vstd::arithmetic::div_mod::lemma_fundamental_div_mod(
            buffer@.len() as int,
            line_len as int,
        );
        mul::lemma_mul_inequality(lines as int, available as int, line_len as int);
        mul::lemma_mul_is_commutative(available as int, line_len as int);
        assert(lines * layout.bytes_per_scanline <= lines * line_len) by (nonlinear_arith)
            requires
                layout.bytes_per_scanline <= line_len,
                0 <= lines,
        ;
    }
    if !check_window(
        buffer.as_slice(),
        layout.bytes_per_pixel,
        layout.bytes_per_scanline,
        lines,
    ) {
        return None;
    }
    if layout.color_type == 3 && !check_expansion(
        transparency,
        layout.bit_depth,
        buffer.len(),
        lines,
        layout.bytes_per_scanline,
        layout.output_stride,
    ) {
        return None;
    }
    restore_lines(
        buffer,
        prev,
        layout.bytes_per_pixel,
        layout.bytes_per_scanline,
        lines,
    );
    if layout.color_type == 3 {
        expand_lines(
            buffer,
            palette,
            transparency,
            layout.bit_depth,
            lines,
            layout.bytes_per_scanline,
            layout.output_stride,
        );
        let size: usize = lines * layout.output_stride;
        Some(Delivery { lines, size, spent: size })
    } else {
        Some(
            Delivery {
                lines,
                size: lines * layout.bytes_per_scanline,
                spent: lines * line_len,
            },
        )
    }
}

} // verus!
