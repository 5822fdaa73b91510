//! Scanline filters: every PNG scanline is stored as the difference to a
//! prediction made from bytes already known, and is restored here in place.

use vstd::prelude::*;

verus! {

/// The sum of two bytes, modulo 256.
pub open spec fn byte_sum(a: u8, b: u8) -> u8 {
    ((a + b) % 256) as u8
}

/// The difference of two bytes, modulo 256.
pub open spec fn byte_difference(a: u8, b: u8) -> u8 {
    ((a - b) % 256) as u8
}

pub open spec fn magnitude(x: int) -> int {
    if x < 0 {
        -x
    } else {
        x
    }
}

/// The Paeth predictor: whichever of left, up and up-left is closest to
/// `left + up - up_left`, ties going to left, then to up.
pub open spec fn paeth(left: u8, up: u8, up_left: u8) -> u8 {
    let p = left + up - up_left;
    let to_left = magnitude(p - left);
    let to_up = magnitude(p - up);
    let to_up_left = magnitude(p - up_left);
    if to_left <= to_up && to_left <= to_up_left {
        left
    } else if to_up <= to_up_left {
        up
    } else {
        up_left
    }
}

/// Whether a filter byte names one of the five filters.
pub open spec fn known_filter(filter_type: u8) -> bool {
    filter_type <= 4
}

/// What a filter predicts for a byte from its neighbours.
pub open spec fn prediction(filter_type: u8, left: u8, up: u8, up_left: u8) -> u8 {
    if filter_type == 1 {
        left
    } else if filter_type == 2 {
        up
    } else if filter_type == 3 {
        ((left + up) / 2) as u8
    } else if filter_type == 4 {
        paeth(left, up, up_left)
    } else {
        0
    }
}

/// Byte `i` of the scanline restored from the filtered bytes `line` and the
/// scanline `above`; pixels are `bpp` bytes apart.
pub open spec fn restored_byte(
    filter_type: u8,
    bpp: nat,
    line: Seq<u8>,
    above: Seq<u8>,
    i: nat,
) -> u8
    decreases i,
{
    let left = if 0 < bpp && bpp <= i {
        restored_byte(filter_type, bpp, line, above, (i - bpp) as nat)
    } else {
        0
    };
    let up_left = if 0 < bpp && bpp <= i {
        above[i - bpp]
    } else {
        0
    };
    byte_sum(line[i as int], prediction(filter_type, left, above[i as int], up_left))
}

/// The scanline restored from the filtered bytes `line` and the scanline `above`.
pub open spec fn restored(filter_type: u8, bpp: nat, line: Seq<u8>, above: Seq<u8>) -> Seq<u8> {
    Seq::new(line.len(), |i: int| restored_byte(filter_type, bpp, line, above, i as nat))
}

/// The filtered form of the scanline `row` below the scanline `above`.
pub open spec fn filtered(filter_type: u8, bpp: nat, row: Seq<u8>, above: Seq<u8>) -> Seq<u8> {
    Seq::new(
        row.len(),
        |i: int|
            byte_difference(
                row[i],
                prediction(
                    filter_type,
                    if bpp <= i {
                        row[i - bpp]
                    } else {
                        0
                    },
                    above[i],
                    if bpp <= i {
                        above[i - bpp]
                    } else {
                        0
                    },
                ),
            ),
    )
}

/// Byte `i` of the scanline restored inside `buffer` from the filtered bytes
/// at `src` to the place `dest`. Where the two ranges overlap with `dest`
/// ahead, a filtered byte may already be replaced when its turn comes; a pixel
/// distance of 0 makes the byte still standing at the destination the left
/// neighbour.
pub open spec fn unfiltered_byte(
    filter_type: u8,
    bpp: nat,
    buffer: Seq<u8>,
    above: Seq<u8>,
    src: int,
    dest: int,
    i: nat,
) -> u8
    decreases i,
{
    let stored = if src < dest && dest <= src + i {
        unfiltered_byte(filter_type, bpp, buffer, above, src, dest, (src + i - dest) as nat)
    } else {
        buffer[src + i]
    };
    let left = if i < bpp {
        0
    } else if bpp == 0 {
        buffer[dest + i]
    } else {
        unfiltered_byte(filter_type, bpp, buffer, above, src, dest, (i - bpp) as nat)
    };
    let up_left = if bpp == 0 || i < bpp {
        0
    } else {
        above[i - bpp]
    };
    byte_sum(stored, prediction(filter_type, left, above[i as int], up_left))
}

/// A scanline of `len` bytes can be restored from `src` to `dest`.
spec fn room(buffer: Seq<u8>, above: Seq<u8>, src: int, dest: int, len: int) -> bool {
    &&& 0 <= src
    &&& 0 <= dest
    &&& buffer.len() <= usize::MAX
    &&& len > 0 ==> {
        &&& len <= above.len()
        &&& src + len <= buffer.len()
        &&& dest + len <= buffer.len()
    }
}

/// The state of `buffer` and `prev` once the first `done` bytes of a scanline
/// are restored.
#[verifier::opaque]
spec fn restored_up_to(
    filter_type: u8,
    bpp: nat,
    buffer0: Seq<u8>,
    above: Seq<u8>,
    src: int,
    dest: int,
    buffer: Seq<u8>,
    prev: Seq<u8>,
    done: int,
) -> bool {
    &&& buffer.len() == buffer0.len()
    &&& prev.len() == above.len()
    &&& forall|k: int|
        0 <= k < buffer.len() ==> #[trigger] buffer[k] == (if dest <= k < dest + done {
            unfiltered_byte(filter_type, bpp, buffer0, above, src, dest, (k - dest) as nat)
        } else {
            buffer0[k]
        })
    &&& forall|k: int|
        0 <= k < prev.len() ==> #[trigger] prev[k] == (if k < done {
            unfiltered_byte(filter_type, bpp, buffer0, above, src, dest, k as nat)
        } else {
            above[k]
        })
}

/// Restoring one more byte keeps the state described by `restored_up_to`.
proof fn lemma_restore_next(
    filter_type: u8,
    bpp: nat,
    buffer0: Seq<u8>,
    above: Seq<u8>,
    src: int,
    dest: int,
    buffer: Seq<u8>,
    prev: Seq<u8>,
    i: int,
    len: int,
)
    requires
        0 <= i < len,
        room(buffer0, above, src, dest, len),
        restored_up_to(filter_type, bpp, buffer0, above, src, dest, buffer, prev, i),
    ensures
        buffer.len() == buffer0.len(),
        prev.len() == above.len(),
        prev[i] == above[i],
        ({
            let left = if bpp <= i {
                buffer[dest + i - bpp]
            } else {
                0
            };
            let up_left = if 0 < bpp <= i {
                above[i - bpp]
            } else {
                0
            };
            let val = byte_sum(
                buffer[src + i],
                prediction(filter_type, left, above[i], up_left),
            );
            restored_up_to(
                filter_type,
                bpp,
                buffer0,
                above,
                src,
                dest,
                buffer.update(dest + i, val),
                prev.update(i, val),
                i + 1,
            )
        }),
{
    reveal(restored_up_to);
    let left = if bpp <= i {
        buffer[dest + i - bpp]
    } else {
        0
    };
    let up_left = if 0 < bpp <= i {
        above[i - bpp]
    } else {
        0
    };
    let val = byte_sum(buffer[src + i], prediction(filter_type, left, above[i], up_left));
    assert(val == unfiltered_byte(filter_type, bpp, buffer0, above, src, dest, i as nat));
}

fn paeth_predictor(left: u8, up: u8, up_left: u8) -> (r: u8)
    ensures
        r == paeth(left, up, up_left),
{
    let p: i32 = left as i32 + up as i32 - up_left as i32;
    let pa: i32 = distance(p, left as i32);
    let pb: i32 = distance(p, up as i32);
    let pc: i32 = distance(p, up_left as i32);
    if pa <= pb && pa <= pc {
        left
    } else if pb <= pc {
        up
    } else {
        up_left
    }
}

fn distance(a: i32, b: i32) -> (r: i32)
    requires
        -1000 <= a <= 1000,
        -1000 <= b <= 1000,
    ensures
        r == magnitude(a - b),
{
    if a < b {
        b - a
    } else {
        a - b
    }
}

/// Restores one scanline of `bytes_per_scanline` bytes inside `buffer`, from
/// `src_start` to `dest_start`, and keeps a copy in `prev_scanline`, which
/// holds the scanline above on entry. A filter byte that names no filter
/// leaves everything as it is.
pub fn unfilter_scanline_inplace(
    filter_type: u8,
    bpp: usize,
    bytes_per_scanline: usize,
    prev_scanline: &mut [u8],
    buffer: &mut [u8],
    src_start: usize,
    dest_start: usize,
)
    requires
        known_filter(filter_type) && bytes_per_scanline > 0 ==> {
            &&& bytes_per_scanline <= old(prev_scanline)@.len()
            &&& src_start + bytes_per_scanline <= old(buffer)@.len()
            &&& dest_start + bytes_per_scanline <= old(buffer)@.len()
        },
        filter_type == 4 ==> bpp <= 8 || bytes_per_scanline <= 8,
    ensures
        final(buffer)@.len() == old(buffer)@.len(),
        final(prev_scanline)@.len() == old(prev_scanline)@.len(),
        !known_filter(filter_type) ==> final(buffer)@ == old(buffer)@ && final(prev_scanline)@
            == old(prev_scanline)@,
        known_filter(filter_type) ==> forall|k: int|
            0 <= k < old(buffer)@.len() ==> #[trigger] final(buffer)@[k] == (if dest_start <= k
                < dest_start + bytes_per_scanline {
                unfiltered_byte(
                    filter_type,
                    bpp as nat,
                    old(buffer)@,
                    old(prev_scanline)@,
                    src_start as int,
                    dest_start as int,
                    (k - dest_start) as nat,
                )
            } else {
                old(buffer)@[k]
            }),
        known_filter(filter_type) ==> forall|k: int|
            0 <= k < old(prev_scanline)@.len() ==> #[trigger] final(prev_scanline)@[k] == (if k
                < bytes_per_scanline {
                unfiltered_byte(
                    filter_type,
                    bpp as nat,
                    old(buffer)@,
                    old(prev_scanline)@,
                    src_start as int,
                    dest_start as int,
                    k as nat,
                )
            } else {
                old(prev_scanline)@[k]
            }),
{
    let ghost buffer0 = buffer@;
    let ghost above = prev_scanline@;
    let ghost src = src_start as int;
    let ghost dest = dest_start as int;
    assert(buffer.len() == buffer0.len());
    proof {
        reveal(restored_up_to);
    }
    match filter_type {
        0 => {
            let mut i: usize = 0;
            while i < bytes_per_scanline
                invariant
                    i <= bytes_per_scanline,
                    src == src_start,
                    dest == dest_start,
                    room(buffer0, above, src, dest, bytes_per_scanline as int),
                    restored_up_to(
                        0,
                        bpp as nat,
                        buffer0,
                        above,
                        src,
                        dest,
                        buffer@,
                        prev_scanline@,
                        i as int,
                    ),
                decreases bytes_per_scanline - i,
            {
                proof {
                    lemma_restore_next(
                        0,
                        bpp as nat,
                        buffer0,
                        above,
                        src,
                        dest,
                        buffer@,
                        prev_scanline@,
                        i as int,
                        bytes_per_scanline as int,
                    );
                }
                let val: u8 = buffer[src_start + i];
                buffer[dest_start + i] = val;
                prev_scanline[i] = val;
                i += 1;
            }
        },
        1 => {
            let mut i: usize = 0;
            while i < bytes_per_scanline
                invariant
                    i <= bytes_per_scanline,
                    src == src_start,
                    dest == dest_start,
                    room(buffer0, above, src, dest, bytes_per_scanline as int),
                    restored_up_to(
                        1,
                        bpp as nat,
                        buffer0,
                        above,
                        src,
                        dest,
                        buffer@,
                        prev_scanline@,
                        i as int,
                    ),
                decreases bytes_per_scanline - i,
            {
                proof {
                    lemma_restore_next(
                        1,
                        bpp as nat,
                        buffer0,
                        above,
                        src,
                        dest,
                        buffer@,
                        prev_scanline@,
                        i as int,
                        bytes_per_scanline as int,
                    );
                }
                let left: u8 = if i >= bpp {
                    buffer[dest_start + i - bpp]
                } else {
                    0
                };
                let val: u8 = buffer[src_start + i].wrapping_add(left);
                buffer[dest_start + i] = val;
                prev_scanline[i] = val;
                i += 1;
            }
        },
        2 => {
            let mut i: usize = 0;
            while i < bytes_per_scanline
                invariant
                    i <= bytes_per_scanline,
                    src == src_start,
                    dest == dest_start,
                    room(buffer0, above, src, dest, bytes_per_scanline as int),
                    restored_up_to(
                        2,
                        bpp as nat,
                        buffer0,
                        above,
                        src,
                        dest,
                        buffer@,
                        prev_scanline@,
                        i as int,
                    ),
                decreases bytes_per_scanline - i,
            {
                proof {
                    lemma_restore_next(
                        2,
                        bpp as nat,
                        buffer0,
                        above,
                        src,
                        dest,
                        buffer@,
                        prev_scanline@,
                        i as int,
                        bytes_per_scanline as int,
                    );
                }
                let up: u8 = prev_scanline[i];
                let val: u8 = buffer[src_start + i].wrapping_add(up);
                buffer[dest_start + i] = val;
                prev_scanline[i] = val;
                i += 1;
            }
        },
        3 => {
            let mut i: usize = 0;
            while i < bytes_per_scanline
                invariant
                    i <= bytes_per_scanline,
                    src == src_start,
                    dest == dest_start,
                    room(buffer0, above, src, dest, bytes_per_scanline as int),
                    restored_up_to(
                        3,
                        bpp as nat,
                        buffer0,
                        above,
                        src,
                        dest,
                        buffer@,
                        prev_scanline@,
                        i as int,
                    ),
                decreases bytes_per_scanline - i,
            {
                proof {
                    lemma_restore_next(
                        3,
                        bpp as nat,
                        buffer0,
                        above,
                        src,
                        dest,
                        buffer@,
                        prev_scanline@,
                        i as int,
                        bytes_per_scanline as int,
                    );
                }
                let left: u8 = if i >= bpp {
                    buffer[dest_start + i - bpp]
                } else {
                    0
                };
                let up: u8 = prev_scanline[i];
                let avg: u8 = ((left as u16 + up as u16) / 2) as u8;
                let val: u8 = buffer[src_start + i].wrapping_add(avg);
                buffer[dest_start + i] = val;
                prev_scanline[i] = val;
                i += 1;
            }
        },
        4 => {
            let mut up_left_buf: [u8; 8] = [0u8; 8];
            let mut up_left_idx: usize = 0;
            let mut i: usize = 0;
            while i < bytes_per_scanline
                invariant
                    i <= bytes_per_scanline,
                    src == src_start,
                    dest == dest_start,
                    room(buffer0, above, src, dest, bytes_per_scanline as int),
                    restored_up_to(
                        4,
                        bpp as nat,
                        buffer0,
                        above,
                        src,
                        dest,
                        buffer@,
                        prev_scanline@,
                        i as int,
                    ),
                    bpp <= 8 || bytes_per_scanline <= 8,
                    bpp == 0 ==> up_left_idx == 0 && up_left_buf@[0] == 0,
                    0 < bpp ==> up_left_idx < bpp,
                    i < bpp ==> up_left_idx == i,
                    forall|t: int|
                        0 <= t < up_left_idx && t < 8 ==> #[trigger] up_left_buf@[t] == above[i
                            - up_left_idx + t],
                    forall|t: int|
                        0 < bpp <= i && up_left_idx <= t < bpp && t < 8
                            ==> #[trigger] up_left_buf@[t] == above[i - up_left_idx - bpp + t],
                decreases bytes_per_scanline - i,
            {
                proof {
                    lemma_restore_next(
                        4,
                        bpp as nat,
                        buffer0,
                        above,
                        src,
                        dest,
                        buffer@,
                        prev_scanline@,
                        i as int,
                        bytes_per_scanline as int,
                    );
                }
                let left: u8 = if i >= bpp {
                    buffer[dest_start + i - bpp]
                } else {
                    0
                };
                let up: u8 = prev_scanline[i];
                let up_left: u8 = if i >= bpp {
                    up_left_buf[up_left_idx]
                } else {
                    0
                };
                let pr: u8 = paeth_predictor(left, up, up_left);
                let val: u8 = buffer[src_start + i].wrapping_add(pr);

                // A sliding index instead of a remainder.
                if bpp > 0 {
                    up_left_buf[up_left_idx] = up;
                    up_left_idx += 1;
                    if up_left_idx == bpp {
                        up_left_idx = 0;
                    }
                }

                buffer[dest_start + i] = val;
                prev_scanline[i] = val;
                i += 1;
            }
        },
        _ => {},
    }
}

/// Restoring towards the front of the buffer gives the scanline that the
/// filtered bytes and the scanline above determine, whatever else the buffer
/// holds.
pub proof fn lemma_unfiltered_is_restored(
    filter_type: u8,
    bpp: nat,
    buffer: Seq<u8>,
    line: Seq<u8>,
    above: Seq<u8>,
    src: int,
    dest: int,
    i: nat,
)
    requires
        0 < bpp,
        0 <= dest <= src,
        src + line.len() <= buffer.len(),
        line == buffer.subrange(src, src + line.len()),
        i < line.len(),
    ensures
        unfiltered_byte(filter_type, bpp, buffer, above, src, dest, i) == restored_byte(
            filter_type,
            bpp,
            line,
            above,
            i,
        ),
    decreases i,
{
    if bpp <= i {
        lemma_unfiltered_is_restored(
            filter_type,
            bpp,
            buffer,
            line,
            above,
            src,
            dest,
            (i - bpp) as nat,
        );
    }
}

/// Law: restoring a filtered scanline gives the scanline back, for every
/// filter, every pixel distance and every scanline above.
pub proof fn law_restoring_undoes_filtering(
    filter_type: u8,
    bpp: nat,
    row: Seq<u8>,
    above: Seq<u8>,
)
    requires
        0 < bpp,
    ensures
        restored(filter_type, bpp, filtered(filter_type, bpp, row, above), above) == row,
{
    let line = filtered(filter_type, bpp, row, above);
    assert forall|i: int| 0 <= i < row.len() implies restored_byte(
        filter_type,
        bpp,
        line,
        above,
        i as nat,
    ) == row[i] by {
        lemma_restored_byte_of_filtered(filter_type, bpp, row, above, i as nat);
    }
    assert(restored(filter_type, bpp, line, above) =~= row);
}

proof fn lemma_restored_byte_of_filtered(
    filter_type: u8,
    bpp: nat,
    row: Seq<u8>,
    above: Seq<u8>,
    i: nat,
)
    requires
        0 < bpp,
        i < row.len(),
    ensures
        restored_byte(filter_type, bpp, filtered(filter_type, bpp, row, above), above, i)
            == row[i as int],
    decreases i,
{
    if bpp <= i {
        lemma_restored_byte_of_filtered(filter_type, bpp, row, above, (i - bpp) as nat);
    }
}

} // verus!
