//! Decoded rows as a portable arbitrary map where they have alpha, and as a
//! portable pixmap where they have not. Both tell the resolution in a comment.

use crate::metadata;
use crate::metadata::{unit_name, AuxiliaryMetadata};
use crate::netpbm;
use crate::netpbm::{push_bytes, push_decimal, push_picked, push_text};
use crate::ppm;
use vstd::prelude::*;
use vstd::string::StringSliceAdditionalSpecFns;

verus! {

/// The colour types with alpha.
pub open spec fn alpha_type(color_type: u8) -> bool {
    color_type == 4 || color_type == 6
}

/// Whether a colour type has alpha.
pub fn has_alpha(color_type: u8) -> (alpha: bool)
    ensures
        alpha == alpha_type(color_type),
{
    color_type == 4 || color_type == 6
}

/// The samples of a pixel; one for an unknown colour type.
pub open spec fn channel_count(color_type: u8) -> u8 {
    if color_type == 2 {
        3
    } else if color_type == 4 {
        2
    } else if color_type == 6 {
        4
    } else {
        1
    }
}

/// The name of a colour type.
pub open spec fn color_text(color_type: u8) -> &'static str {
    if color_type == 0 {
        "Grayscale"
    } else if color_type == 2 {
        "RGB"
    } else if color_type == 3 {
        "Indexed (Paletted)"
    } else if color_type == 4 {
        "Grayscale + Alpha"
    } else if color_type == 6 {
        "RGB + Alpha (RGBA)"
    } else {
        "Unknown"
    }
}

/// The samples of a pixel and the name of a colour type.
pub fn describe_color(color_type: u8) -> (described: (u8, &'static str))
    ensures
        described.0 == channel_count(color_type),
        described.1@ == color_text(color_type)@,
{
    match color_type {
        0 => (1, "Grayscale"),
        2 => (3, "RGB"),
        3 => (1, "Indexed (Paletted)"),
        4 => (2, "Grayscale + Alpha"),
        6 => (4, "RGB + Alpha (RGBA)"),
        _ => (1, "Unknown"),
    }
}

/// A letter in lower case; any other byte as it is.
pub open spec fn lower(byte: u8) -> u8 {
    if 65 <= byte <= 90 {
        (byte + 32) as u8
    } else {
        byte
    }
}

/// Whether a file name's extension has to change to hold alpha: rows with alpha
/// do not belong in a file named as a pixmap, in letters of either case.
pub fn swaps_extension(color_type: u8, extension: &[u8]) -> (swaps: bool)
    ensures
        swaps == (alpha_type(color_type) && extension@.map_values(|b: u8| lower(b))
            == "ppm".spec_bytes()),
{
    proof {
        reveal_strlit("ppm");
        vstd::string::is_ascii_spec_bytes("ppm");
    }
    let ghost lowered = extension@.map_values(|b: u8| lower(b));
    if has_alpha(color_type) && extension.len() == 3 {
        let first: u8 = extension[0];
        let second: u8 = extension[1];
        let third: u8 = extension[2];
        let same: bool = (first == 112 || first == 80) && (second == 112 || second == 80) && (third
            == 109 || third == 77);
        proof {
            if same {
                assert(lowered =~= "ppm".spec_bytes());
            } else if lowered == "ppm".spec_bytes() {
                assert(lowered[0] == 112 && lowered[1] == 112 && lowered[2] == 109);
            }
        }
        same
    } else {
        assert(lowered.len() == extension@.len());
        false
    }
}

/// The comment with the resolution, where it is known.
pub open spec fn resolution_text(meta: AuxiliaryMetadata) -> Seq<u8> {
    if meta.has_phys {
        "\n# Resolution: ".spec_bytes() + netpbm::decimal(meta.phys_x as nat) + " x ".spec_bytes()
            + netpbm::decimal(meta.phys_y as nat) + " ".spec_bytes() + metadata::unit_text(
            meta.phys_unit,
        ).spec_bytes() + "\n".spec_bytes()
    } else {
        Seq::empty()
    }
}

/// The comment with the aspect ratio, where it is known. `aspect` is the ratio
/// of the two resolutions, in digits.
pub open spec fn aspect_text(meta: AuxiliaryMetadata, aspect: &str) -> Seq<u8> {
    if meta.has_phys && meta.phys_y > 0 {
        "\n# AspectRatio: ".spec_bytes() + aspect.spec_bytes() + "\n".spec_bytes()
    } else {
        Seq::empty()
    }
}

/// The text in front of pixels with alpha.
pub open spec fn alpha_header(
    width: u32,
    height: u32,
    bit_depth: u8,
    meta: AuxiliaryMetadata,
) -> Seq<u8> {
    "P7\nWIDTH ".spec_bytes() + netpbm::decimal(width as nat) + "\nHEIGHT ".spec_bytes()
        + netpbm::decimal(height as nat) + "\nDEPTH 4\nMAXVAL ".spec_bytes() + netpbm::decimal(
        netpbm::max_sample(bit_depth),
    ) + "\nTUPLTYPE RGB_ALPHA\n".spec_bytes() + resolution_text(meta) + "ENDHDR\n".spec_bytes()
}

/// The text in front of pixels without alpha.
pub open spec fn opaque_header(
    width: u32,
    height: u32,
    bit_depth: u8,
    meta: AuxiliaryMetadata,
    aspect: &str,
) -> Seq<u8> {
    "P6\n".spec_bytes() + resolution_text(meta) + aspect_text(meta, aspect) + "\n".spec_bytes()
        + netpbm::decimal(width as nat) + " ".spec_bytes() + netpbm::decimal(height as nat)
        + "\n".spec_bytes() + netpbm::decimal(netpbm::max_sample(bit_depth)) + "\n".spec_bytes()
}

/// Adds the comment with the resolution, where it is known.
fn write_resolution(out: &mut Vec<u8>, meta: &AuxiliaryMetadata)
    ensures
        final(out)@ == old(out)@ + resolution_text(*meta),
{
    let mut text: Vec<u8> = Vec::new();
    if meta.has_phys {
        push_text(&mut text, "\n# Resolution: ");
        assert(text@ =~= "\n# Resolution: ".spec_bytes());
        push_decimal(&mut text, meta.phys_x as u64);
        push_text(&mut text, " x ");
        push_decimal(&mut text, meta.phys_y as u64);
        push_text(&mut text, " ");
        push_text(&mut text, unit_name(meta.phys_unit));
        push_text(&mut text, "\n");
    }
    push_bytes(out, text.as_slice());
}

/// Adds the comment with the aspect ratio, where it is known.
fn write_aspect(out: &mut Vec<u8>, meta: &AuxiliaryMetadata, aspect: &str)
    ensures
        final(out)@ == old(out)@ + aspect_text(*meta, aspect),
{
    if meta.has_phys && meta.phys_y > 0 {
        push_text(out, "\n# AspectRatio: ");
        push_text(out, aspect);
        push_text(out, "\n");
    }
    assert(out@ =~= old(out)@ + aspect_text(*meta, aspect));
}

/// Adds the text in front of the pixels. `aspect` is the ratio of the two
/// resolutions, in digits; it is used where the ratio is known and the pixels
/// have no alpha.
pub fn write_header(
    out: &mut Vec<u8>,
    width: u32,
    height: u32,
    bit_depth: u8,
    color_type: u8,
    meta: &AuxiliaryMetadata,
    aspect: &str,
)
    ensures
        alpha_type(color_type) ==> final(out)@ == old(out)@ + alpha_header(
            width,
            height,
            bit_depth,
            *meta,
        ),
        !alpha_type(color_type) ==> final(out)@ == old(out)@ + opaque_header(
            width,
            height,
            bit_depth,
            *meta,
            aspect,
        ),
{
    let max: u64 = if bit_depth == 16 {
        65535
    } else {
        255
    };
    let mut text: Vec<u8> = Vec::new();
    if has_alpha(color_type) {
        push_text(&mut text, "P7\nWIDTH ");
        assert(text@ =~= "P7\nWIDTH ".spec_bytes());
        push_decimal(&mut text, width as u64);
        push_text(&mut text, "\nHEIGHT ");
        push_decimal(&mut text, height as u64);
        push_text(&mut text, "\nDEPTH 4\nMAXVAL ");
        push_decimal(&mut text, max);
        push_text(&mut text, "\nTUPLTYPE RGB_ALPHA\n");
        write_resolution(&mut text, meta);
        push_text(&mut text, "ENDHDR\n");
    } else {
        push_text(&mut text, "P6\n");
        assert(text@ =~= "P6\n".spec_bytes());
        write_resolution(&mut text, meta);
        write_aspect(&mut text, meta, aspect);
        push_text(&mut text, "\n");
        push_decimal(&mut text, width as u64);
        push_text(&mut text, " ");
        push_decimal(&mut text, height as u64);
        push_text(&mut text, "\n");
        push_decimal(&mut text, max);
        push_text(&mut text, "\n");
    }
    push_bytes(out, text.as_slice());
}

/// Rows with samples of one byte as red, green and blue, with alpha behind them
/// where they have it. An unknown colour type gives nothing.
pub open spec fn rgba_8bit(raw: Seq<u8>, color_type: u8) -> Seq<u8> {
    if color_type == 4 {
        netpbm::picked(raw, 2, seq![0usize, 0, 0, 1])
    } else if color_type == 6 {
        raw
    } else {
        ppm::rgb_8bit(raw, color_type)
    }
}

/// Rows with samples of two bytes as red, green and blue, with alpha behind
/// them where they have it. An unknown colour type gives nothing.
pub open spec fn rgba_16bit(raw: Seq<u8>, color_type: u8) -> Seq<u8> {
    if color_type == 4 {
        netpbm::picked(raw, 4, seq![0usize, 1, 0, 1, 0, 1, 2, 3])
    } else if color_type == 6 {
        raw
    } else {
        ppm::rgb_16bit(raw, color_type)
    }
}

/// Rows as red, green and blue, with alpha where they have it.
pub open spec fn rgba(raw: Seq<u8>, bit_depth: u8, color_type: u8) -> Seq<u8> {
    if bit_depth == 16 {
        rgba_16bit(raw, color_type)
    } else {
        rgba_8bit(raw, color_type)
    }
}

/// Adds rows with samples of one byte as red, green and blue, with alpha where
/// they have it.
pub fn write_rgb_8bit(out: &mut Vec<u8>, raw_data: &[u8], color_type: u8)
    ensures
        final(out)@ == old(out)@ + rgba_8bit(raw_data@, color_type),
{
    match color_type {
        4 => {
            let picks: [usize; 4] = [0, 0, 0, 1];
            assert(picks@ =~= seq![0usize, 0, 0, 1]);
            push_picked(out, raw_data, 2, picks.as_slice());
        },
        6 => {
            push_bytes(out, raw_data);
        },
        _ => {
            ppm::write_rgb_8bit(out, raw_data, color_type);
        },
    }
}

/// Adds rows with samples of two bytes as red, green and blue, with alpha where
/// they have it.
pub fn write_rgb_16bit(out: &mut Vec<u8>, raw_data: &[u8], color_type: u8)
    ensures
        final(out)@ == old(out)@ + rgba_16bit(raw_data@, color_type),
{
    match color_type {
        4 => {
            let picks: [usize; 8] = [0, 1, 0, 1, 0, 1, 2, 3];
            assert(picks@ =~= seq![0usize, 1, 0, 1, 0, 1, 2, 3]);
            push_picked(out, raw_data, 4, picks.as_slice());
        },
        6 => {
            push_bytes(out, raw_data);
        },
        _ => {
            ppm::write_rgb_16bit(out, raw_data, color_type);
        },
    }
}

/// Adds a batch of rows as red, green and blue, with alpha where they have it.
pub fn write_rgba(out: &mut Vec<u8>, raw_data: &[u8], bit_depth: u8, color_type: u8)
    ensures
        final(out)@ == old(out)@ + rgba(raw_data@, bit_depth, color_type),
{
    if bit_depth == 16 {
        write_rgb_16bit(out, raw_data, color_type);
    } else {
        write_rgb_8bit(out, raw_data, color_type);
    }
}

/// Law: the pixels of a file do not depend on how its rows were split into
/// batches.
pub proof fn law_batches_join(a: Seq<u8>, b: Seq<u8>, bit_depth: u8, color_type: u8)
    requires
        color_type != 3 ==> a.len() % ppm::pixel_len(bit_depth, color_type) == 0,
    ensures
        rgba(a + b, bit_depth, color_type) == rgba(a, bit_depth, color_type) + rgba(
            b,
            bit_depth,
            color_type,
        ),
{
    if color_type == 4 {
        if bit_depth == 16 {
            netpbm::law_picked_joined(a, b, 4, seq![0usize, 1, 0, 1, 0, 1, 2, 3]);
        } else {
            netpbm::law_picked_joined(a, b, 2, seq![0usize, 0, 0, 1]);
        }
    } else if color_type != 6 {
        ppm::law_batches_join(a, b, bit_depth, color_type);
    }
}

/// Law: a pixel that is no palette colour takes four samples in the file where
/// it has alpha, and three where it has not.
pub proof fn law_samples_of_a_pixel(raw: Seq<u8>, bit_depth: u8, color_type: u8)
    requires
        color_type == 0 || color_type == 2 || color_type == 4 || color_type == 6,
        raw.len() % ppm::pixel_len(bit_depth, color_type) == 0,
    ensures
        rgba(raw, bit_depth, color_type).len() == raw.len() / ppm::pixel_len(bit_depth, color_type)
            * ppm::pixel_len(
            bit_depth,
            if alpha_type(color_type) {
                6
            } else {
                2
            },
        ),
{
    let n = raw.len() / ppm::pixel_len(bit_depth, color_type);
    let whole = rgba(raw, bit_depth, color_type);
    if !alpha_type(color_type) {
        ppm::law_three_samples_a_pixel(raw, bit_depth, color_type);
    } else if bit_depth == 16 {
        assert(n * ppm::pixel_len(bit_depth, 6) == n * 8);
        if color_type == 6 {
            assert(n == raw.len() / 8 && raw.len() % 8 == 0);
        } else {
            assert(whole.len() == n * 8);
        }
    } else {
        assert(n * ppm::pixel_len(bit_depth, 6) == n * 4);
        if color_type == 6 {
            assert(n == raw.len() / 4 && raw.len() % 4 == 0);
        } else {
            assert(whole.len() == n * 4);
        }
    }
}

} // verus!
