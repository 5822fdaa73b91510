//! Indexed colour: packed palette indices are expanded in place to RGB or,
//! when the palette has transparency, to RGBA.

use vstd::arithmetic::div_mod;
use vstd::arithmetic::mul;
use vstd::arithmetic::power2;
use vstd::bits;
use vstd::prelude::*;

verus! {

/// How many whole palette indices of `bit_depth` bits a byte holds.
pub open spec fn pixels_per_byte(bit_depth: u8) -> int {
    8int / (bit_depth as int)
}

/// The bytes of an expanded pixel: three colour channels, and an alpha
/// channel when there is transparency.
pub open spec fn pixel_stride(transparency: Seq<u8>) -> int {
    if transparency.len() > 0 {
        4
    } else {
        3
    }
}

/// Palette index number `p` of a byte, counted from its least significant bits.
pub open spec fn packed_index(byte: u8, bit_depth: u8, p: int) -> int {
    ((byte as nat / power2::pow2((p * bit_depth) as nat)) % power2::pow2(bit_depth as nat)) as int
}

/// Channel `c` of palette entry `index`: black where the palette has no such
/// entry, opaque where the transparency has none.
pub open spec fn channel(
    palette: Seq<[u8; 3]>,
    transparency: Seq<u8>,
    index: int,
    c: int,
) -> u8 {
    if c == 3 {
        if index < transparency.len() {
            transparency[index]
        } else {
            255
        }
    } else if index < palette.len() {
        palette[index]@[c]
    } else {
        0
    }
}

/// The bytes of an expanded row that its pixels leave free, at its front.
pub open spec fn row_gap(
    transparency: Seq<u8>,
    bit_depth: u8,
    packed_row_stride: int,
    expanded_row_stride: int,
) -> int {
    expanded_row_stride - packed_row_stride * pixels_per_byte(bit_depth) * pixel_stride(
        transparency,
    )
}

/// Byte `j` of the buffer after `num_rows` packed rows are expanded. The pixels
/// of a row stand at the end of the expanded row; every other byte is kept.
pub open spec fn expanded_byte(
    palette: Seq<[u8; 3]>,
    transparency: Seq<u8>,
    bit_depth: u8,
    buffer: Seq<u8>,
    num_rows: int,
    packed_row_stride: int,
    expanded_row_stride: int,
    j: int,
) -> u8 {
    let gap = row_gap(transparency, bit_depth, packed_row_stride, expanded_row_stride);
    let row = j / expanded_row_stride;
    let column = j % expanded_row_stride - gap;
    if j < num_rows * expanded_row_stride && 0 <= column {
        let pixel = column / pixel_stride(transparency);
        let byte = buffer[row * packed_row_stride + pixel / pixels_per_byte(bit_depth)];
        channel(
            palette,
            transparency,
            packed_index(byte, bit_depth, pixel % pixels_per_byte(bit_depth)),
            column % pixel_stride(transparency),
        )
    } else {
        buffer[j]
    }
}

/// The buffer after `num_rows` packed rows are expanded in place.
pub open spec fn expanded(
    palette: Seq<[u8; 3]>,
    transparency: Seq<u8>,
    bit_depth: u8,
    buffer: Seq<u8>,
    num_rows: int,
    packed_row_stride: int,
    expanded_row_stride: int,
) -> Seq<u8> {
    Seq::new(
        buffer.len(),
        |j: int|
            expanded_byte(
                palette,
                transparency,
                bit_depth,
                buffer,
                num_rows,
                packed_row_stride,
                expanded_row_stride,
                j,
            ),
    )
}

/// The rows can be expanded: an index fits a machine word, the packed and the
/// expanded rows lie in the buffer, and the pixels of a row fit its place.
pub open spec fn expandable(
    transparency: Seq<u8>,
    bit_depth: u8,
    buffer_len: int,
    num_rows: int,
    packed_row_stride: int,
    expanded_row_stride: int,
) -> bool {
    &&& 0 < bit_depth < usize::BITS
    &&& num_rows * packed_row_stride <= buffer_len
    &&& num_rows * expanded_row_stride <= buffer_len
    &&& num_rows > 0 ==> 0 <= row_gap(
        transparency,
        bit_depth,
        packed_row_stride,
        expanded_row_stride,
    )
}

proof fn lemma_packed_index(byte: u8, bit_depth: u8, p: usize, shift: usize, mask: usize)
    requires
        0 < bit_depth <= 8,
        p < pixels_per_byte(bit_depth),
        shift == p * bit_depth,
        mask == power2::pow2(bit_depth as nat) - 1,
    ensures
        ((byte as usize >> shift) & mask) == packed_index(byte, bit_depth, p as int),
{
    lemma_shift_in_byte(bit_depth, p as int);
    bits::lemma_usize_pow2_no_overflow(bit_depth as nat);
    assert(bits::low_bits_mask(bit_depth as nat) as usize == mask);
    bits::lemma_usize_shr_is_div(byte as usize, shift);
    bits::lemma_usize_low_bits_mask_is_mod(byte as usize >> shift, bit_depth as nat);
}

/// The state of the buffer when every byte from `front` on is expanded.
spec fn expanded_from(before: Seq<u8>, after: Seq<u8>, current: Seq<u8>, front: int) -> bool {
    &&& before.len() == after.len()
    &&& current.len() == before.len()
    &&& forall|j: int|
        0 <= j < current.len() ==> #[trigger] current[j] == (if front <= j {
            after[j]
        } else {
            before[j]
        })
}

/// A row and its place lie in the buffer.
proof fn lemma_row_bounds(
    row: int,
    num_rows: int,
    packed_row_stride: int,
    expanded_row_stride: int,
)
    requires
        0 <= row < num_rows,
        0 <= packed_row_stride,
        0 <= expanded_row_stride,
    ensures
        0 <= row * packed_row_stride,
        0 <= row * expanded_row_stride,
        row * packed_row_stride + packed_row_stride == (row + 1) * packed_row_stride,
        row * expanded_row_stride + expanded_row_stride == (row + 1) * expanded_row_stride,
        (row + 1) * packed_row_stride <= num_rows * packed_row_stride,
        (row + 1) * expanded_row_stride <= num_rows * expanded_row_stride,
{
    mul::lemma_mul_nonnegative(row, packed_row_stride);
    mul::lemma_mul_nonnegative(row, expanded_row_stride);
    mul::lemma_mul_is_distributive_add_other_way(packed_row_stride, row, 1);
    mul::lemma_mul_is_distributive_add_other_way(expanded_row_stride, row, 1);
    mul::lemma_mul_inequality(row + 1, num_rows, packed_row_stride);
    mul::lemma_mul_inequality(row + 1, num_rows, expanded_row_stride);
}

proof fn lemma_gap_size(
    transparency: Seq<u8>,
    bit_depth: u8,
    packed_row_stride: int,
    expanded_row_stride: int,
)
    requires
        0 < bit_depth,
        0 <= packed_row_stride,
    ensures
        row_gap(transparency, bit_depth, packed_row_stride, expanded_row_stride)
            <= expanded_row_stride,
        packed_row_stride * pixels_per_byte(bit_depth) * pixel_stride(transparency) >= 0,
{
    let per_byte = pixels_per_byte(bit_depth);
    let stride = pixel_stride(transparency);
    assert(per_byte >= 0) by {
        div_mod::lemma_div_pos_is_pos(8, bit_depth as int);
    }
    assert(packed_row_stride * per_byte * stride >= 0) by (nonlinear_arith)
        requires
            packed_row_stride >= 0,
            per_byte >= 0,
            stride >= 0,
    ;
}

/// Index number `p` lies inside the byte.
proof fn lemma_shift_in_byte(bit_depth: u8, p: int)
    requires
        0 < bit_depth,
        0 <= p < pixels_per_byte(bit_depth),
    ensures
        bit_depth <= 8,
        0 <= p * bit_depth < 8,
{
    let d = bit_depth as int;
    div_mod::lemma_fundamental_div_mod(8, d);
    assert(0 <= p * d && p * d + d <= 8 && d <= 8) by (nonlinear_arith)
        requires
            0 < d,
            0 <= p,
            p + 1 <= 8int / d,
            d * (8int / d) <= 8,
    ;
}

/// Where pixel `p` of packed byte `i` of a row stands, and what it holds.
proof fn lemma_pixel(
    palette: Seq<[u8; 3]>,
    transparency: Seq<u8>,
    bit_depth: u8,
    before: Seq<u8>,
    num_rows: int,
    packed_row_stride: int,
    expanded_row_stride: int,
    row: int,
    i: int,
    p: int,
)
    requires
        expandable(
            transparency,
            bit_depth,
            before.len() as int,
            num_rows,
            packed_row_stride,
            expanded_row_stride,
        ),
        0 <= row < num_rows,
        0 <= i < packed_row_stride,
        0 <= p < pixels_per_byte(bit_depth),
    ensures
        ({
            let stride = pixel_stride(transparency);
            let gap = row_gap(transparency, bit_depth, packed_row_stride, expanded_row_stride);
            let at = row * expanded_row_stride + gap + (i * pixels_per_byte(bit_depth) + p)
                * stride;
            &&& 0 <= row * packed_row_stride + i <= at
            &&& at + stride <= (row + 1) * expanded_row_stride <= before.len()
            &&& forall|c: int|
                0 <= c < stride ==> #[trigger] expanded_byte(
                    palette,
                    transparency,
                    bit_depth,
                    before,
                    num_rows,
                    packed_row_stride,
                    expanded_row_stride,
                    at + c,
                ) == channel(
                    palette,
                    transparency,
                    packed_index(before[row * packed_row_stride + i], bit_depth, p),
                    c,
                )
        }),
{
    let per_byte = pixels_per_byte(bit_depth);
    let stride = pixel_stride(transparency);
    let gap = row_gap(transparency, bit_depth, packed_row_stride, expanded_row_stride);
    let pixel = i * per_byte + p;
    let start = row * expanded_row_stride;
    let at = start + gap + pixel * stride;
    assert(0 <= i <= pixel) by (nonlinear_arith)
        requires
            pixel == i * per_byte + p,
            0 <= i,
            0 <= p < per_byte,
    ;
    assert(pixel + 1 <= packed_row_stride * per_byte) by (nonlinear_arith)
        requires
            pixel == i * per_byte + p,
            0 <= p < per_byte,
            i + 1 <= packed_row_stride,
    ;
    assert(pixel * stride + stride <= packed_row_stride * per_byte * stride) by (nonlinear_arith)
        requires
            pixel + 1 <= packed_row_stride * per_byte,
            stride > 0,
    ;
    assert(pixel <= pixel * stride) by (nonlinear_arith)
        requires
            pixel >= 0,
            stride >= 1,
    ;
    assert(packed_row_stride <= packed_row_stride * per_byte * stride) by (nonlinear_arith)
        requires
            packed_row_stride > 0,
            per_byte >= 1,
            stride >= 1,
    ;
    assert(row * packed_row_stride <= start) by (nonlinear_arith)
        requires
            0 <= row,
            packed_row_stride <= expanded_row_stride,
            start == row * expanded_row_stride,
    ;
    assert(0 <= row * packed_row_stride) by (nonlinear_arith)
        requires
            0 <= row,
            0 <= packed_row_stride,
    ;
    assert((row + 1) * expanded_row_stride == start + expanded_row_stride) by (nonlinear_arith)
        requires
            start == row * expanded_row_stride,
    ;
    assert((row + 1) * expanded_row_stride <= num_rows * expanded_row_stride)
        by (nonlinear_arith)
        requires
            row + 1 <= num_rows,
            0 <= expanded_row_stride,
    ;
    assert forall|c: int| 0 <= c < stride implies #[trigger] expanded_byte(
        palette,
        transparency,
        bit_depth,
        before,
        num_rows,
        packed_row_stride,
        expanded_row_stride,
        at + c,
    ) == channel(
        palette,
        transparency,
        packed_index(before[row * packed_row_stride + i], bit_depth, p),
        c,
    ) by {
        div_mod::lemma_fundamental_div_mod_converse(
            at + c,
            expanded_row_stride,
            row,
            gap + pixel * stride + c,
        );
        div_mod::lemma_fundamental_div_mod_converse(pixel * stride + c, stride, pixel, c);
        div_mod::lemma_fundamental_div_mod_converse(pixel, per_byte, i, p);
    }
}

/// The bytes in front of a row's pixels are kept.
proof fn lemma_gap(
    palette: Seq<[u8; 3]>,
    transparency: Seq<u8>,
    bit_depth: u8,
    before: Seq<u8>,
    num_rows: int,
    packed_row_stride: int,
    expanded_row_stride: int,
    row: int,
    j: int,
)
    requires
        0 <= expanded_row_stride,
        0 <= row,
        row * expanded_row_stride <= j < row * expanded_row_stride + row_gap(
            transparency,
            bit_depth,
            packed_row_stride,
            expanded_row_stride,
        ),
        row_gap(transparency, bit_depth, packed_row_stride, expanded_row_stride)
            <= expanded_row_stride,
    ensures
        expanded_byte(
            palette,
            transparency,
            bit_depth,
            before,
            num_rows,
            packed_row_stride,
            expanded_row_stride,
            j,
        ) == before[j],
{
    div_mod::lemma_fundamental_div_mod_converse(
        j,
        expanded_row_stride,
        row,
        j - row * expanded_row_stride,
    );
}

/// Expands `num_rows` rows of packed palette indices to pixels inside
/// `buffer`, back to front. Rows are `packed_row_stride` bytes apart before
/// and `expanded_row_stride` bytes apart after.
pub fn expand_indexed_inplace(
    palette: &[[u8; 3]],
    transparency: &[u8],
    bit_depth: u8,
    buffer: &mut [u8],
    num_rows: usize,
    packed_row_stride: usize,
    expanded_row_stride: usize,
)
    requires
        expandable(
            transparency@,
            bit_depth,
            old(buffer)@.len() as int,
            num_rows as int,
            packed_row_stride as int,
            expanded_row_stride as int,
        ),
    ensures
        final(buffer)@ == expanded(
            palette@,
            transparency@,
            bit_depth,
            old(buffer)@,
            num_rows as int,
            packed_row_stride as int,
            expanded_row_stride as int,
        ),
{
    let pixels_per_byte: usize = 8 / (bit_depth as usize);
    proof {
        bits::lemma_usize_pow2_no_overflow(bit_depth as nat);
        bits::lemma_usize_shl_is_mul(1usize, bit_depth as usize);
    }
    let mask: usize = (1usize << (bit_depth as usize)) - 1;
    let pixel_stride: usize = if transparency.len() > 0 {
        4
    } else {
        3
    };
    let ghost before = buffer@;
    let ghost after = expanded(
        palette@,
        transparency@,
        bit_depth,
        before,
        num_rows as int,
        packed_row_stride as int,
        expanded_row_stride as int,
    );
    let ghost gap = row_gap(
        transparency@,
        bit_depth,
        packed_row_stride as int,
        expanded_row_stride as int,
    );
    assert(buffer.len() == before.len());

    let mut row: usize = num_rows;
    while row > 0
        invariant
            row <= num_rows,
            expandable(
                transparency@,
                bit_depth,
                before.len() as int,
                num_rows as int,
                packed_row_stride as int,
                expanded_row_stride as int,
            ),
            after == expanded(
                palette@,
                transparency@,
                bit_depth,
                before,
                num_rows as int,
                packed_row_stride as int,
                expanded_row_stride as int,
            ),
            gap == row_gap(
                transparency@,
                bit_depth,
                packed_row_stride as int,
                expanded_row_stride as int,
            ),
            pixels_per_byte == self::pixels_per_byte(bit_depth),
            pixel_stride == self::pixel_stride(transparency@),
            mask == power2::pow2(bit_depth as nat) - 1,
            before.len() <= usize::MAX,
            expanded_from(before, after, buffer@, row * expanded_row_stride),
        decreases row,
    {
        row -= 1;
        proof {
            lemma_row_bounds(
                row as int,
                num_rows as int,
                packed_row_stride as int,
                expanded_row_stride as int,
            );
            lemma_gap_size(
                transparency@,
                bit_depth,
                packed_row_stride as int,
                expanded_row_stride as int,
            );
        }
        let src_row_start: usize = row * packed_row_stride;
        let dst_row_start: usize = row * expanded_row_stride;
        // Writing starts at the very end of the expanded scanline.
        let mut write_idx: usize = dst_row_start + expanded_row_stride;

        let mut i: usize = packed_row_stride;
        while i > 0
            invariant
                i <= packed_row_stride,
                row < num_rows,
                expandable(
                    transparency@,
                    bit_depth,
                    before.len() as int,
                    num_rows as int,
                    packed_row_stride as int,
                    expanded_row_stride as int,
                ),
                after == expanded(
                    palette@,
                    transparency@,
                    bit_depth,
                    before,
                    num_rows as int,
                    packed_row_stride as int,
                    expanded_row_stride as int,
                ),
                gap == row_gap(
                    transparency@,
                    bit_depth,
                    packed_row_stride as int,
                    expanded_row_stride as int,
                ),
                pixels_per_byte == self::pixels_per_byte(bit_depth),
                pixel_stride == self::pixel_stride(transparency@),
                mask == power2::pow2(bit_depth as nat) - 1,
                before.len() <= usize::MAX,
                src_row_start == row * packed_row_stride,
                src_row_start + packed_row_stride <= before.len(),
                write_idx == row * expanded_row_stride + gap + (i * pixels_per_byte) * pixel_stride,
                expanded_from(before, after, buffer@, write_idx as int),
            decreases i,
        {
            i -= 1;
            let byte: u8 = buffer[src_row_start + i];
            proof {
                assert((i + 1) * pixels_per_byte == i * pixels_per_byte + pixels_per_byte)
                    by (nonlinear_arith);
                if pixels_per_byte > 0 {
                    lemma_pixel(
                        palette@,
                        transparency@,
                        bit_depth,
                        before,
                        num_rows as int,
                        packed_row_stride as int,
                        expanded_row_stride as int,
                        row as int,
                        i as int,
                        pixels_per_byte - 1,
                    );
                    assert((i * pixels_per_byte + pixels_per_byte) * pixel_stride == (i
                        * pixels_per_byte + (pixels_per_byte - 1)) * pixel_stride + pixel_stride)
                        by (nonlinear_arith);
                }
            }

            let mut p: usize = pixels_per_byte;
            while p > 0
                invariant
                    p <= pixels_per_byte,
                    i < packed_row_stride,
                    row < num_rows,
                    expandable(
                        transparency@,
                        bit_depth,
                        before.len() as int,
                        num_rows as int,
                        packed_row_stride as int,
                        expanded_row_stride as int,
                    ),
                    after == expanded(
                        palette@,
                        transparency@,
                        bit_depth,
                        before,
                        num_rows as int,
                        packed_row_stride as int,
                        expanded_row_stride as int,
                    ),
                    gap == row_gap(
                        transparency@,
                        bit_depth,
                        packed_row_stride as int,
                        expanded_row_stride as int,
                    ),
                    pixels_per_byte == self::pixels_per_byte(bit_depth),
                    pixel_stride == self::pixel_stride(transparency@),
                    mask == power2::pow2(bit_depth as nat) - 1,
                    before.len() <= usize::MAX,
                    p > 0 ==> byte == before[row * packed_row_stride + i],
                    write_idx == row * expanded_row_stride + gap + (i * pixels_per_byte + p)
                        * pixel_stride,
                    expanded_from(before, after, buffer@, write_idx as int),
                decreases p,
            {
                p -= 1;
                proof {
                    lemma_pixel(
                        palette@,
                        transparency@,
                        bit_depth,
                        before,
                        num_rows as int,
                        packed_row_stride as int,
                        expanded_row_stride as int,
                        row as int,
                        i as int,
                        p as int,
                    );
                    lemma_shift_in_byte(bit_depth, p as int);
                    assert((i * pixels_per_byte + (p + 1)) * pixel_stride == (i * pixels_per_byte
                        + p) * pixel_stride + pixel_stride) by (nonlinear_arith);
                    lemma_packed_index(
                        byte,
                        bit_depth,
                        p,
                        (p * bit_depth) as usize,
                        mask,
                    );
                }
                let shift: usize = p * (bit_depth as usize);
                let idx: usize = (byte as usize >> shift) & mask;
                write_idx -= pixel_stride;

                let color: [u8; 3] = if idx < palette.len() {
                    palette[idx]
                } else {
                    [0u8, 0u8, 0u8]
                };
                let ghost at = write_idx as int;
                assert(after[at] == expanded_byte(
                    palette@,
                    transparency@,
                    bit_depth,
                    before,
                    num_rows as int,
                    packed_row_stride as int,
                    expanded_row_stride as int,
                    at + 0,
                ));
                buffer[write_idx] = color[0];
                buffer[write_idx + 1] = color[1];
                buffer[write_idx + 2] = color[2];
                if pixel_stride == 4 {
                    buffer[write_idx + 3] = if idx < transparency.len() {
                        transparency[idx]
                    } else {
                        255
                    };
                }
            }
        }
        proof {
            assert forall|j: int|
                row * expanded_row_stride <= j < row * expanded_row_stride + gap implies after[j]
                == before[j] by {
                lemma_gap(
                    palette@,
                    transparency@,
                    bit_depth,
                    before,
                    num_rows as int,
                    packed_row_stride as int,
                    expanded_row_stride as int,
                    row as int,
                    j,
                );
            }
        }
    }
}

/// The pixels of one packed row.
pub open spec fn expanded_row(
    palette: Seq<[u8; 3]>,
    transparency: Seq<u8>,
    bit_depth: u8,
    row: Seq<u8>,
) -> Seq<u8> {
    Seq::new(
        (row.len() * pixels_per_byte(bit_depth) * pixel_stride(transparency)) as nat,
        |x: int|
            channel(
                palette,
                transparency,
                packed_index(
                    row[(x / pixel_stride(transparency)) / pixels_per_byte(bit_depth)],
                    bit_depth,
                    (x / pixel_stride(transparency)) % pixels_per_byte(bit_depth),
                ),
                x % pixel_stride(transparency),
            ),
    )
}

/// Law: a byte that holds one index is that index.
pub proof fn law_byte_is_its_index(byte: u8)
    ensures
        pixels_per_byte(8) == 1,
        packed_index(byte, 8, 0) == byte,
{
    power2::lemma2_to64();
    let whole = byte as nat / power2::pow2((0int * 8u8) as nat);
    assert(whole == byte);
    assert(whole % power2::pow2(8u8 as nat) == byte);
}

/// Law: where the pixels of a row fill its place, a row expands to the same
/// pixels on its own as among other rows.
pub proof fn law_rows_expand_alone(
    palette: Seq<[u8; 3]>,
    transparency: Seq<u8>,
    bit_depth: u8,
    buffer: Seq<u8>,
    num_rows: int,
    packed_row_stride: int,
    expanded_row_stride: int,
    row: int,
)
    requires
        0 <= packed_row_stride,
        0 <= expanded_row_stride,
        expandable(
            transparency,
            bit_depth,
            buffer.len() as int,
            num_rows,
            packed_row_stride,
            expanded_row_stride,
        ),
        row_gap(transparency, bit_depth, packed_row_stride, expanded_row_stride) == 0,
        0 <= row < num_rows,
    ensures
        0 <= row * packed_row_stride <= (row + 1) * packed_row_stride <= buffer.len(),
        0 <= row * expanded_row_stride <= (row + 1) * expanded_row_stride <= buffer.len(),
        expanded(
            palette,
            transparency,
            bit_depth,
            buffer,
            num_rows,
            packed_row_stride,
            expanded_row_stride,
        ).subrange(row * expanded_row_stride, (row + 1) * expanded_row_stride) == expanded_row(
            palette,
            transparency,
            bit_depth,
            buffer.subrange(row * packed_row_stride, (row + 1) * packed_row_stride),
        ),
{
    lemma_row_bounds(row, num_rows, packed_row_stride, expanded_row_stride);
    let per_byte = pixels_per_byte(bit_depth);
    let stride = pixel_stride(transparency);
    let packed = buffer.subrange(row * packed_row_stride, (row + 1) * packed_row_stride);
    let alone = expanded_row(palette, transparency, bit_depth, packed);
    let all = expanded(
        palette,
        transparency,
        bit_depth,
        buffer,
        num_rows,
        packed_row_stride,
        expanded_row_stride,
    );
    let start = row * expanded_row_stride;
    assert(packed.len() == packed_row_stride);
    assert(alone.len() == expanded_row_stride);
    assert forall|x: int| 0 <= x < expanded_row_stride implies all[start + x] == alone[x] by {
        div_mod::lemma_fundamental_div_mod_converse(start + x, expanded_row_stride, row, x);
        div_mod::lemma_div_pos_is_pos(x, stride);
        let pixel = x / stride;
        assert(pixel < packed_row_stride * per_byte) by {
            div_mod::lemma_div_pos_is_pos(8, bit_depth as int);
            div_mod::lemma_multiply_divide_lt(x, stride, packed_row_stride * per_byte);
            mul::lemma_mul_is_commutative(stride, packed_row_stride * per_byte);
        }
        assert(per_byte > 0) by (nonlinear_arith)
            requires
                0 <= pixel < packed_row_stride * per_byte,
                0 <= packed_row_stride,
        ;
        div_mod::lemma_div_pos_is_pos(pixel, per_byte);
        assert(pixel / per_byte < packed_row_stride) by {
            mul::lemma_mul_is_commutative(packed_row_stride, per_byte);
            div_mod::lemma_multiply_divide_lt(pixel, per_byte, packed_row_stride);
        }
        assert(packed[pixel / per_byte] == buffer[row * packed_row_stride + pixel / per_byte]);
    }
    assert(all.subrange(start, (row + 1) * expanded_row_stride) =~= alone);
}

} // verus!
