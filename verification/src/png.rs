//! The PNG format by its definition, apart from any decoder: numbers, chunks,
//! pixel sizes and filters.

use crate::checksum;
use vstd::prelude::*;

verus! {

/// A number in four bytes, the most significant first.
pub open spec fn four_bytes(n: nat) -> Seq<u8> {
    seq![
        (n / 16777216 % 256) as u8,
        (n / 65536 % 256) as u8,
        (n / 256 % 256) as u8,
        (n % 256) as u8,
    ]
}

/// A chunk: the length of its data, its type, its data, and the checksum of type
/// and data.
pub open spec fn chunk(name: Seq<u8>, data: Seq<u8>) -> Seq<u8> {
    four_bytes(data.len()) + name + data + four_bytes(checksum::crc32(name + data) as nat)
}

/// The samples of a pixel.
pub open spec fn samples(color_type: u8) -> nat {
    if color_type == 6 {
        4
    } else if color_type == 2 {
        3
    } else if color_type == 4 {
        2
    } else {
        1
    }
}

/// The colour types, each with the depths that it can have.
pub open spec fn allowed(color_type: u8, bit_depth: u8) -> bool {
    ||| color_type == 0 && (bit_depth == 1 || bit_depth == 2 || bit_depth == 4 || bit_depth == 8
        || bit_depth == 16)
    ||| color_type == 2 && (bit_depth == 8 || bit_depth == 16)
    ||| color_type == 3 && (bit_depth == 1 || bit_depth == 2 || bit_depth == 4 || bit_depth == 8)
    ||| color_type == 4 && (bit_depth == 8 || bit_depth == 16)
    ||| color_type == 6 && (bit_depth == 8 || bit_depth == 16)
}

/// How far back the left neighbour of a byte is: the bytes of a pixel, and one
/// where pixels share a byte.
pub open spec fn distance(color_type: u8, bit_depth: u8) -> nat {
    if bit_depth == 16 {
        if color_type == 6 {
            8
        } else if color_type == 2 {
            6
        } else if color_type == 4 {
            4
        } else {
            2
        }
    } else if bit_depth == 8 {
        if color_type == 6 {
            4
        } else if color_type == 2 {
            3
        } else if color_type == 4 {
            2
        } else {
            1
        }
    } else {
        1
    }
}

/// The bytes of a row of `width` pixels: as many as hold all of its bits.
pub open spec fn row_len(width: nat, color_type: u8, bit_depth: u8) -> nat {
    if bit_depth == 16 {
        2 * samples(color_type) * width
    } else if bit_depth == 8 {
        samples(color_type) * width
    } else if bit_depth == 4 {
        (width + 1) / 2
    } else if bit_depth == 2 {
        (width + 3) / 4
    } else {
        (width + 7) / 8
    }
}

/// The distance of two numbers.
pub open spec fn gap(a: int, b: int) -> int {
    if a < b {
        b - a
    } else {
        a - b
    }
}

/// The neighbour that is nearest to `left + up - corner`, the first of left, up
/// and corner where several are.
pub open spec fn nearest(left: int, up: int, corner: int) -> int {
    let aim = left + up - corner;
    if gap(aim, left) <= gap(aim, up) && gap(aim, left) <= gap(aim, corner) {
        left
    } else if gap(aim, up) <= gap(aim, corner) {
        up
    } else {
        corner
    }
}

/// Byte `i` of a row, and zero in front of the row.
pub open spec fn byte_at(row: Seq<u8>, i: int) -> int {
    if 0 <= i < row.len() {
        row[i] as int
    } else {
        0
    }
}

/// What is taken off byte `i` of `row` below `above` by a filter.
pub open spec fn taken_off(
    filter: u8,
    distance: nat,
    row: Seq<u8>,
    above: Seq<u8>,
    i: int,
) -> int {
    let left = byte_at(row, i - distance);
    let up = byte_at(above, i);
    let corner = byte_at(above, i - distance);
    if filter == 1 {
        left
    } else if filter == 2 {
        up
    } else if filter == 3 {
        (left + up) / 2
    } else if filter == 4 {
        nearest(left, up, corner)
    } else {
        0
    }
}

/// A row below `above`, filtered.
pub open spec fn filtered(filter: u8, distance: nat, row: Seq<u8>, above: Seq<u8>) -> Seq<u8> {
    Seq::new(
        row.len(),
        |i: int| ((row[i] - taken_off(filter, distance, row, above, i)) % 256) as u8,
    )
}

/// The row above row `i` of an image: zeroes above the first.
pub open spec fn above(image: Seq<Seq<u8>>, i: int) -> Seq<u8> {
    if i == 0 {
        Seq::new(image[0].len(), |j: int| 0u8)
    } else {
        image[i - 1]
    }
}

/// The first `count` rows of an image as scanlines: each the byte of its filter,
/// then the filtered row.
pub open spec fn scanlines(
    image: Seq<Seq<u8>>,
    filters: Seq<u8>,
    distance: nat,
    count: nat,
) -> Seq<u8>
    decreases count,
{
    if count == 0 {
        Seq::empty()
    } else {
        let i = count - 1;
        scanlines(image, filters, distance, i as nat) + seq![filters[i]] + filtered(
            filters[i],
            distance,
            image[i],
            above(image, i),
        )
    }
}

} // verus!
