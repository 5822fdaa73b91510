//! Decoded rows as a portable pixmap: three samples to a pixel, without alpha.

use crate::netpbm;
use crate::netpbm::{push_bytes, push_decimal, push_picked, push_text};
use vstd::prelude::*;
use vstd::string::StringSliceAdditionalSpecFns;

verus! {

/// The text in front of the pixels.
pub open spec fn header_text(width: u32, height: u32, bit_depth: u8) -> Seq<u8> {
    "P6\n".spec_bytes() + netpbm::decimal(width as nat) + " ".spec_bytes() + netpbm::decimal(
        height as nat,
    ) + "\n".spec_bytes() + netpbm::decimal(netpbm::max_sample(bit_depth)) + "\n".spec_bytes()
}

/// Adds the text in front of the pixels.
pub fn write_header(out: &mut Vec<u8>, width: u32, height: u32, bit_depth: u8)
    ensures
        final(out)@ == old(out)@ + header_text(width, height, bit_depth),
{
    let max: u64 = if bit_depth == 16 {
        65535
    } else {
        255
    };
    let mut text: Vec<u8> = Vec::new();
    push_text(&mut text, "P6\n");
    assert(text@ =~= "P6\n".spec_bytes());
    push_decimal(&mut text, width as u64);
    push_text(&mut text, " ");
    push_decimal(&mut text, height as u64);
    push_text(&mut text, "\n");
    push_decimal(&mut text, max);
    push_text(&mut text, "\n");
    push_bytes(out, text.as_slice());
}

/// Rows with samples of one byte as red, green and blue: a grey sample stands
/// for all three, alpha is left out. Rows of palette colours are kept as they
/// are. An unknown colour type gives nothing.
pub open spec fn rgb_8bit(raw: Seq<u8>, color_type: u8) -> Seq<u8> {
    if color_type == 0 {
        netpbm::picked(raw, 1, seq![0usize, 0, 0])
    } else if color_type == 2 || color_type == 3 {
        raw
    } else if color_type == 4 {
        netpbm::picked(raw, 2, seq![0usize, 0, 0])
    } else if color_type == 6 {
        netpbm::picked(raw, 4, seq![0usize, 1, 2])
    } else {
        Seq::empty()
    }
}

/// Rows with samples of two bytes as red, green and blue: a grey sample stands
/// for all three, alpha is left out. An unknown colour type gives nothing.
pub open spec fn rgb_16bit(raw: Seq<u8>, color_type: u8) -> Seq<u8> {
    if color_type == 0 {
        netpbm::picked(raw, 2, seq![0usize, 1, 0, 1, 0, 1])
    } else if color_type == 2 {
        raw
    } else if color_type == 4 {
        netpbm::picked(raw, 4, seq![0usize, 1, 0, 1, 0, 1])
    } else if color_type == 6 {
        netpbm::picked(raw, 8, seq![0usize, 1, 2, 3, 4, 5])
    } else {
        Seq::empty()
    }
}

/// Rows as red, green and blue.
pub open spec fn rgb(raw: Seq<u8>, bit_depth: u8, color_type: u8) -> Seq<u8> {
    if bit_depth == 16 {
        rgb_16bit(raw, color_type)
    } else {
        rgb_8bit(raw, color_type)
    }
}

/// Adds rows with samples of one byte as red, green and blue.
pub fn write_rgb_8bit(out: &mut Vec<u8>, raw_data: &[u8], color_type: u8)
    ensures
        final(out)@ == old(out)@ + rgb_8bit(raw_data@, color_type),
{
    match color_type {
        0 => {
            let picks: [usize; 3] = [0, 0, 0];
            assert(picks@ =~= seq![0usize, 0, 0]);
            push_picked(out, raw_data, 1, picks.as_slice());
        },
        2 | 3 => {
            push_bytes(out, raw_data);
        },
        4 => {
            let picks: [usize; 3] = [0, 0, 0];
            assert(picks@ =~= seq![0usize, 0, 0]);
            push_picked(out, raw_data, 2, picks.as_slice());
        },
        6 => {
            let picks: [usize; 3] = [0, 1, 2];
            assert(picks@ =~= seq![0usize, 1, 2]);
            push_picked(out, raw_data, 4, picks.as_slice());
        },
        _ => {
            assert(out@ =~= old(out)@ + rgb_8bit(raw_data@, color_type));
        },
    }
}

/// Adds rows with samples of two bytes as red, green and blue.
pub fn write_rgb_16bit(out: &mut Vec<u8>, raw_data: &[u8], color_type: u8)
    ensures
        final(out)@ == old(out)@ + rgb_16bit(raw_data@, color_type),
{
    match color_type {
        0 => {
            let picks: [usize; 6] = [0, 1, 0, 1, 0, 1];
            assert(picks@ =~= seq![0usize, 1, 0, 1, 0, 1]);
            push_picked(out, raw_data, 2, picks.as_slice());
        },
        2 => {
            push_bytes(out, raw_data);
        },
        4 => {
            let picks: [usize; 6] = [0, 1, 0, 1, 0, 1];
            assert(picks@ =~= seq![0usize, 1, 0, 1, 0, 1]);
            push_picked(out, raw_data, 4, picks.as_slice());
        },
        6 => {
            let picks: [usize; 6] = [0, 1, 2, 3, 4, 5];
            assert(picks@ =~= seq![0usize, 1, 2, 3, 4, 5]);
            push_picked(out, raw_data, 8, picks.as_slice());
        },
        _ => {
            assert(out@ =~= old(out)@ + rgb_16bit(raw_data@, color_type));
        },
    }
}

/// Adds a batch of rows as red, green and blue.
pub fn write_rgb(out: &mut Vec<u8>, raw_data: &[u8], bit_depth: u8, color_type: u8)
    ensures
        final(out)@ == old(out)@ + rgb(raw_data@, bit_depth, color_type),
{
    if bit_depth == 16 {
        write_rgb_16bit(out, raw_data, color_type);
    } else {
        write_rgb_8bit(out, raw_data, color_type);
    }
}

/// The bytes of a decoded pixel that is no palette colour.
pub open spec fn pixel_len(bit_depth: u8, color_type: u8) -> nat {
    let samples: nat = if color_type == 2 {
        3
    } else if color_type == 4 {
        2
    } else if color_type == 6 {
        4
    } else {
        1
    };
    if bit_depth == 16 {
        2 * samples
    } else {
        samples
    }
}

/// Law: the pixels of a file do not depend on how its rows were split into
/// batches: two batches written one after the other are their rows written at
/// once.
pub proof fn law_batches_join(a: Seq<u8>, b: Seq<u8>, bit_depth: u8, color_type: u8)
    requires
        color_type != 3 ==> a.len() % pixel_len(bit_depth, color_type) == 0,
    ensures
        rgb(a + b, bit_depth, color_type) == rgb(a, bit_depth, color_type) + rgb(
            b,
            bit_depth,
            color_type,
        ),
{
    if bit_depth == 16 {
        if color_type == 0 {
            netpbm::law_picked_joined(a, b, 2, seq![0usize, 1, 0, 1, 0, 1]);
        } else if color_type == 4 {
            netpbm::law_picked_joined(a, b, 4, seq![0usize, 1, 0, 1, 0, 1]);
        } else if color_type == 6 {
            netpbm::law_picked_joined(a, b, 8, seq![0usize, 1, 2, 3, 4, 5]);
        }
    } else {
        if color_type == 0 {
            netpbm::law_picked_joined(a, b, 1, seq![0usize, 0, 0]);
        } else if color_type == 4 {
            netpbm::law_picked_joined(a, b, 2, seq![0usize, 0, 0]);
        } else if color_type == 6 {
            netpbm::law_picked_joined(a, b, 4, seq![0usize, 1, 2]);
        }
    }
    assert(Seq::<u8>::empty() + Seq::<u8>::empty() =~= Seq::<u8>::empty());
}

/// Law: a pixel that is no palette colour takes three samples in the file,
/// whatever it was made of.
pub proof fn law_three_samples_a_pixel(raw: Seq<u8>, bit_depth: u8, color_type: u8)
    requires
        color_type == 0 || color_type == 2 || color_type == 4 || color_type == 6,
        raw.len() % pixel_len(bit_depth, color_type) == 0,
    ensures
        rgb(raw, bit_depth, color_type).len() == raw.len() / pixel_len(bit_depth, color_type)
            * pixel_len(bit_depth, 2),
{
    let n = raw.len() / pixel_len(bit_depth, color_type);
    let whole = rgb(raw, bit_depth, color_type);
    if bit_depth == 16 {
        assert(n * pixel_len(bit_depth, 2) == n * 6);
        if color_type == 2 {
            assert(n == raw.len() / 6 && raw.len() % 6 == 0);
        } else {
            assert(whole.len() == n * 6);
        }
    } else {
        assert(n * pixel_len(bit_depth, 2) == n * 3);
        if color_type == 2 {
            assert(n == raw.len() / 3 && raw.len() % 3 == 0);
        } else {
            assert(whole.len() == n * 3);
        }
    }
}

/// Law: alpha has no part in the pixels: rows that differ in their alpha
/// samples alone give the same file.
pub proof fn law_alpha_left_out(a: Seq<u8>, b: Seq<u8>, bit_depth: u8, color_type: u8)
    requires
        color_type == 4 || color_type == 6,
        a.len() == b.len(),
        a.len() % pixel_len(bit_depth, color_type) == 0,
        forall|i: int|
            0 <= i < a.len() && i % pixel_len(bit_depth, color_type) as int + (if bit_depth == 16 {
                2int
            } else {
                1
            }) < pixel_len(bit_depth, color_type) ==> #[trigger] a[i] == b[i],
    ensures
        rgb(a, bit_depth, color_type) == rgb(b, bit_depth, color_type),
{
    if bit_depth == 16 {
        if color_type == 4 {
            netpbm::law_picked_alone(a, b, 4, seq![0usize, 1, 0, 1, 0, 1]);
        } else {
            netpbm::law_picked_alone(a, b, 8, seq![0usize, 1, 2, 3, 4, 5]);
        }
    } else {
        if color_type == 4 {
            netpbm::law_picked_alone(a, b, 2, seq![0usize, 0, 0]);
        } else {
            netpbm::law_picked_alone(a, b, 4, seq![0usize, 1, 2]);
        }
    }
}

} // verus!
