//! How many rows to decode at a time within a memory budget.

use vstd::arithmetic::div_mod;
use vstd::arithmetic::mul;
use vstd::prelude::*;

verus! {

/// What is taken whatever the image: the process, the inflater and the
/// buffers of input and output.
pub const BASELINE_BYTES: usize = 2_800_000 + 45_000 + 65_536;

/// How many times the bytes of a row are held again while it is converted.
pub open spec fn transient_rows(color_type: u8) -> nat {
    if color_type == 0 {
        3
    } else if color_type == 4 {
        2
    } else {
        0
    }
}

/// The bytes held for a row: its own, and those held while it is converted.
/// `None` where their number is too large.
pub fn bytes_per_row(bytes_per_scanline: usize, color_type: u8) -> (bytes: Option<usize>)
    ensures
        bytes is Some <==> bytes_per_scanline * (1 + transient_rows(color_type)) <= usize::MAX,
        bytes is Some ==> bytes.unwrap() == bytes_per_scanline * (1 + transient_rows(color_type)),
{
    let again: usize = match color_type {
        0 => 3,
        4 => 2,
        _ => 0,
    };
    match bytes_per_scanline.checked_mul(again) {
        Some(transient) => {
            proof {
                mul::lemma_mul_is_distributive_add(bytes_per_scanline as int, 1, again as int);
            }
            bytes_per_scanline.checked_add(transient)
        },
        None => {
            proof {
                mul::lemma_mul_is_distributive_add(bytes_per_scanline as int, 1, again as int);
            }
            None
        },
    }
}

/// The low 32 bits of a number, or 1 where they are all zero.
pub open spec fn at_least_one(n: nat) -> nat {
    if n % 0x1_0000_0000 == 0 {
        1
    } else {
        n % 0x1_0000_0000
    }
}

/// The low 32 bits of a number.
fn low_bits(n: usize) -> (low: u32)
    ensures
        low == n as nat % 0x1_0000_0000,
{
    let wide: u64 = n as u64;
    assert((wide as u32) as u64 == wide % 0x1_0000_0000) by (bit_vector);
    #[verifier::truncate]
    let low: u32 = wide as u32;
    low
}

/// How many rows to decode at a time.
#[derive(Clone, Copy, Debug, PartialEq, Eq)]
pub struct Batch {
    pub rows: u32,
    /// The budget does not cover what is taken whatever the image.
    pub budget_too_low: bool,
}

/// How many rows to decode at a time: as many as fit in the budget besides what
/// is taken whatever the image, and always one. Only the low 32 bits of the
/// count are kept.
pub fn rows_for_budget(total_budget_bytes: usize, ram_per_scanline: usize) -> (batch: Batch)
    requires
        BASELINE_BYTES < total_budget_bytes ==> 0 < ram_per_scanline,
    ensures
        batch.budget_too_low == (total_budget_bytes <= BASELINE_BYTES),
        batch.budget_too_low ==> batch.rows == 1,
        !batch.budget_too_low ==> batch.rows == at_least_one(
            ((total_budget_bytes - BASELINE_BYTES) / ram_per_scanline as int) as nat,
        ),
{
    if total_budget_bytes <= BASELINE_BYTES {
        Batch { rows: 1, budget_too_low: true }
    } else {
        let count: usize = (total_budget_bytes - BASELINE_BYTES) / ram_per_scanline;
        let low: u32 = low_bits(count);
        Batch {
            rows: if low == 0 {
                1
            } else {
                low
            },
            budget_too_low: false,
        }
    }
}

/// How many rows of the given length to decode at a time: as many as fit in
/// `max_bytes`, and always one. Only the low 32 bits of the length count.
pub fn rows_within(max_bytes: u32, bytes_per_scanline: usize) -> (rows: u32)
    requires
        bytes_per_scanline as nat % 0x1_0000_0000 != 0,
    ensures
        rows == at_least_one(
            max_bytes as nat / (bytes_per_scanline as nat % 0x1_0000_0000),
        ),
{
    let length: u32 = low_bits(bytes_per_scanline);
    let rows: u32 = max_bytes / length;
    proof {
        assert(rows as nat % 0x1_0000_0000 == rows);
    }
    if rows == 0 {
        1
    } else {
        rows
    }
}

/// Law: where one row fits in what the budget leaves, so does a batch.
pub proof fn law_batch_within_budget(left: nat, ram_per_row: nat)
    requires
        0 < ram_per_row <= left,
    ensures
        1 <= at_least_one(left / ram_per_row) <= u32::MAX,
        at_least_one(left / ram_per_row) * ram_per_row <= left,
{
    let count = left / ram_per_row;
    let rows = at_least_one(count);
    div_mod::lemma_fundamental_div_mod(left as int, ram_per_row as int);
    mul::lemma_mul_basics(ram_per_row as int);
    assert(rows <= count);
    mul::lemma_mul_is_commutative(ram_per_row as int, count as int);
    mul::lemma_mul_inequality(rows as int, count as int, ram_per_row as int);
}

/// Law: a batch has as many rows as fit, and no more: one row more would not fit,
/// where a batch can have so many.
pub proof fn law_batch_fills_budget(left: nat, ram_per_row: nat)
    requires
        0 < ram_per_row <= left,
        left / ram_per_row < 0x1_0000_0000,
    ensures
        at_least_one(left / ram_per_row) * ram_per_row <= left,
        left < (at_least_one(left / ram_per_row) + 1) * ram_per_row,
{
    law_batch_within_budget(left, ram_per_row);
    let count = left / ram_per_row;
    div_mod::lemma_fundamental_div_mod(left as int, ram_per_row as int);
    mul::lemma_mul_basics(ram_per_row as int);
    assert(count > 0);
    assert(at_least_one(count) == count);
    assert((count + 1) * ram_per_row == ram_per_row * count + ram_per_row) by (nonlinear_arith);
}

/// Law: where not one row fits, a batch has one row; a batch always has one, and
/// otherwise as many as fit, as far as 32 bits can tell.
pub proof fn law_batch_has_a_row(left: nat, ram_per_row: nat)
    requires
        0 < ram_per_row,
    ensures
        left < ram_per_row ==> at_least_one(left / ram_per_row) == 1,
        1 <= at_least_one(left / ram_per_row) <= 0xffff_ffff,
        (left / ram_per_row) % 0x1_0000_0000 != 0 ==> at_least_one(left / ram_per_row) == (left
            / ram_per_row) % 0x1_0000_0000,
        (left / ram_per_row) % 0x1_0000_0000 == 0 ==> at_least_one(left / ram_per_row) == 1,
{
    if left < ram_per_row {
        div_mod::lemma_basic_div(left as int, ram_per_row as int);
    }
}

/// Law: rows of grey are held three times more while they are converted, rows of
/// grey with alpha twice, others not again; and what is taken whatever the image
/// is 2910536 bytes.
pub proof fn law_bytes_held(color_type: u8)
    ensures
        color_type == 0 ==> transient_rows(color_type) == 3,
        color_type == 4 ==> transient_rows(color_type) == 2,
        color_type != 0 && color_type != 4 ==> transient_rows(color_type) == 0,
        BASELINE_BYTES == 2_910_536,
{
}

} // verus!
