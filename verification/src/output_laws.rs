//! What the files that are written hold: headers that read back, and pixels.

use crate::metadata::AuxiliaryMetadata;
use crate::netpbm;
use crate::pam;
use crate::png;
use crate::ppm;
use vstd::arithmetic::div_mod;
use vstd::arithmetic::mul;
use vstd::prelude::*;
use vstd::string;
use vstd::string::StringSliceAdditionalSpecFns;

verus! {

/// Where the decimal digits from `at` on end.
pub open spec fn digits_end(text: Seq<u8>, at: int) -> int
    decreases text.len() - at,
{
    if 0 <= at < text.len() && 48 <= text[at] <= 57 {
        digits_end(text, at + 1)
    } else {
        at
    }
}

/// The number that the decimal digits from `at` on stand for.
pub open spec fn number_from(text: Seq<u8>, at: int) -> nat {
    netpbm::number_of(text.subrange(at, digits_end(text, at)))
}

/// `part` stands in `text` at `at`.
pub open spec fn stands_at(text: Seq<u8>, at: int, part: Seq<u8>) -> bool {
    0 <= at && at + part.len() <= text.len() && text.subrange(at, at + part.len()) == part
}

/// Digits end where something else follows.
proof fn lemma_digits_end(text: Seq<u8>, at: int, end: int)
    requires
        0 <= at <= end <= text.len(),
        forall|i: int| at <= i < end ==> 48 <= #[trigger] text[i] <= 57,
        end < text.len() ==> !(48 <= text[end] <= 57),
    ensures
        digits_end(text, at) == end,
    decreases end - at,
{
    if at < end {
        assert(48 <= text[at] <= 57);
        lemma_digits_end(text, at + 1, end);
    }
}

/// A number in a text is read back.
pub proof fn lemma_number_from(front: Seq<u8>, n: nat, back: Seq<u8>)
    requires
        back.len() > 0 ==> !(48 <= back[0] <= 57),
    ensures
        ({
            let text = front + netpbm::decimal(n) + back;
            let end = front.len() + netpbm::decimal(n).len();
            &&& digits_end(text, front.len() as int) == end
            &&& number_from(text, front.len() as int) == n
            &&& end == text.len() - back.len()
            &&& text.skip(end as int) == back
            &&& text.take(front.len() as int) == front
        }),
{
    let text = front + netpbm::decimal(n) + back;
    let end = front.len() + netpbm::decimal(n).len();
    netpbm::law_decimal_read_back(n);
    assert forall|i: int| front.len() <= i < end implies 48 <= #[trigger] text[i] <= 57 by {
        assert(text[i] == netpbm::decimal(n)[i - front.len()]);
    }
    lemma_digits_end(text, front.len() as int, end as int);
    assert(text.subrange(front.len() as int, end as int) =~= netpbm::decimal(n));
    assert(text.skip(end as int) =~= back);
    assert(text.take(front.len() as int) =~= front);
}

/// What stands at the front of the rest of a text stands in the text.
proof fn lemma_stands(text: Seq<u8>, at: int, part: Seq<u8>, more: Seq<u8>)
    requires
        0 <= at <= text.len(),
        text.skip(at) == part + more,
    ensures
        stands_at(text, at, part),
        text.skip(at + part.len()) == more,
{
    let rest = text.skip(at);
    let joined = part + more;
    assert(rest.len() == text.len() - at && rest.len() == part.len() + more.len());
    assert forall|i: int| 0 <= i < part.len() implies text[at + i] == part[i] by {
        assert(rest[i] == text[at + i]);
        assert(joined[i] == part[i]);
    }
    assert(text.subrange(at, at + part.len()) =~= part);
    assert forall|i: int| 0 <= i < more.len() implies text[at + part.len() + i] == more[i] by {
        assert(rest[part.len() + i] == text[at + part.len() + i]);
        assert(joined[part.len() + i] == more[i]);
    }
    assert(text.skip(at + part.len()) =~= more);
}

/// A number behind a text is read back, and what follows comes behind its digits.
proof fn lemma_number_stands(text: Seq<u8>, at: int, part: Seq<u8>, n: nat, more: Seq<u8>)
    requires
        0 <= at <= text.len(),
        text.skip(at) == part + (netpbm::decimal(n) + more),
        more.len() > 0,
        !(48 <= more[0] <= 57),
    ensures
        stands_at(text, at, part),
        number_from(text, at + part.len()) == n,
        at + part.len() < digits_end(text, at + part.len()) < text.len(),
        text.skip(digits_end(text, at + part.len())) == more,
{
    let front = text.take(at) + part;
    lemma_stands(text, at, part, netpbm::decimal(n) + more);
    netpbm::law_decimal_read_back(n);
    assert(text =~= text.take(at) + text.skip(at));
    assert(text =~= front + netpbm::decimal(n) + more);
    lemma_number_from(front, n, more);
}

/// The texts of headers, as bytes.
proof fn lemma_texts()
    ensures
        "P6\n".spec_bytes() == seq![80u8, 54, 10],
        " ".spec_bytes() == seq![32u8],
        "\n".spec_bytes() == seq![10u8],
        "\nHEIGHT ".spec_bytes().len() == 8,
        "\nHEIGHT ".spec_bytes()[0] == 10,
        "P7\nWIDTH ".spec_bytes().len() == 9,
        "\nDEPTH 4\nMAXVAL ".spec_bytes().len() == 16,
        "\nDEPTH 4\nMAXVAL ".spec_bytes()[0] == 10,
        "\nTUPLTYPE RGB_ALPHA\n".spec_bytes().len() == 20,
        "\nTUPLTYPE RGB_ALPHA\n".spec_bytes()[0] == 10,
        " x ".spec_bytes() == seq![32u8, 120, 32],
{
    reveal_strlit("P6\n");
    reveal_strlit(" ");
    reveal_strlit("\n");
    reveal_strlit("\nHEIGHT ");
    reveal_strlit("P7\nWIDTH ");
    reveal_strlit("\nDEPTH 4\nMAXVAL ");
    reveal_strlit("\nTUPLTYPE RGB_ALPHA\n");
    reveal_strlit(" x ");
    string::is_ascii_spec_bytes("P6\n");
    string::is_ascii_spec_bytes(" ");
    string::is_ascii_spec_bytes("\n");
    string::is_ascii_spec_bytes("\nHEIGHT ");
    string::is_ascii_spec_bytes("P7\nWIDTH ");
    string::is_ascii_spec_bytes("\nDEPTH 4\nMAXVAL ");
    string::is_ascii_spec_bytes("\nTUPLTYPE RGB_ALPHA\n");
    string::is_ascii_spec_bytes(" x ");
    assert("P6\n".spec_bytes() =~= seq![80u8, 54, 10]);
    assert(" ".spec_bytes() =~= seq![32u8]);
    assert("\n".spec_bytes() =~= seq![10u8]);
    assert(" x ".spec_bytes() =~= seq![32u8, 120, 32]);
}

/// Three numbers behind a text, with a space and a line end between them.
proof fn lemma_three_numbers(text: Seq<u8>, first: Seq<u8>, width: nat, height: nat, max: nat)
    requires
        text == first + (netpbm::decimal(width) + (seq![32u8] + (netpbm::decimal(height) + (seq![
            10u8,
        ] + (netpbm::decimal(max) + seq![10u8]))))),
    ensures
        ({
            let start = first.len() as int;
            let a = digits_end(text, start);
            let b = digits_end(text, a + 1);
            let c = digits_end(text, b + 1);
            &&& stands_at(text, 0, first)
            &&& number_from(text, start) == width
            &&& stands_at(text, a, seq![32u8])
            &&& number_from(text, a + 1) == height
            &&& stands_at(text, b, seq![10u8])
            &&& number_from(text, b + 1) == max
            &&& stands_at(text, c, seq![10u8])
            &&& text.len() == c + 1
        }),
{
    let end = seq![10u8];
    let three = netpbm::decimal(max) + end;
    let two = netpbm::decimal(height) + (end + three);
    assert(text.skip(0) =~= text);
    lemma_number_stands(text, 0, first, width, seq![32u8] + two);
    let a = digits_end(text, first.len() as int);
    lemma_number_stands(text, a, seq![32u8], height, end + three);
    let b = digits_end(text, a + 1);
    lemma_number_stands(text, b, end, max, end);
    let c = digits_end(text, b + 1);
    assert(end =~= end + Seq::<u8>::empty());
    lemma_stands(text, c, end, Seq::empty());
    assert(text.skip(c).len() == 1);
}

/// Law: the header of a pixmap reads back to the image: behind the mark stand its
/// width, its height and the greatest sample, each with all of its digits.
pub proof fn law_pixmap_header_reads_back(width: u32, height: u32, bit_depth: u8)
    ensures
        ({
            let text = ppm::header_text(width, height, bit_depth);
            let a = digits_end(text, 3);
            let b = digits_end(text, a + 1);
            let c = digits_end(text, b + 1);
            &&& stands_at(text, 0, seq![80u8, 54, 10])
            &&& number_from(text, 3) == width
            &&& stands_at(text, a, seq![32u8])
            &&& number_from(text, a + 1) == height
            &&& stands_at(text, b, seq![10u8])
            &&& number_from(text, b + 1) == if bit_depth == 16 {
                65535nat
            } else {
                255
            }
            &&& stands_at(text, c, seq![10u8])
            &&& text.len() == c + 1
        }),
{
    lemma_texts();
    let text = ppm::header_text(width, height, bit_depth);
    let max: nat = if bit_depth == 16 {
        65535
    } else {
        255
    };
    let end = seq![10u8];
    let three = netpbm::decimal(max) + end;
    let two = netpbm::decimal(height as nat) + (end + three);
    let one = netpbm::decimal(width as nat) + (seq![32u8] + two);
    assert(text =~= seq![80u8, 54, 10] + one);
    lemma_three_numbers(text, seq![80u8, 54, 10], width as nat, height as nat, max);
}

/// Law: the header of a file with alpha reads back to the image: behind `WIDTH`
/// stands the width, behind `HEIGHT` the height, behind `MAXVAL` the greatest
/// sample, each with all of its digits up to the end of its line. Behind them
/// comes the resolution, and then the end of the header.
pub proof fn law_alpha_header_reads_back(
    width: u32,
    height: u32,
    bit_depth: u8,
    meta: AuxiliaryMetadata,
)
    ensures
        ({
            let text = pam::alpha_header(width, height, bit_depth, meta);
            let a = digits_end(text, 9);
            let b = digits_end(text, a + 8);
            let c = digits_end(text, b + 16);
            &&& stands_at(text, 0, "P7\nWIDTH ".spec_bytes())
            &&& "P7\nWIDTH ".spec_bytes().len() == 9
            &&& number_from(text, 9) == width
            &&& stands_at(text, a, "\nHEIGHT ".spec_bytes())
            &&& "\nHEIGHT ".spec_bytes().len() == 8
            &&& number_from(text, a + 8) == height
            &&& stands_at(text, b, "\nDEPTH 4\nMAXVAL ".spec_bytes())
            &&& "\nDEPTH 4\nMAXVAL ".spec_bytes().len() == 16
            &&& number_from(text, b + 16) == if bit_depth == 16 {
                65535nat
            } else {
                255
            }
            &&& stands_at(text, c, "\nTUPLTYPE RGB_ALPHA\n".spec_bytes())
            &&& text.skip(c + 20) == pam::resolution_text(meta) + "ENDHDR\n".spec_bytes()
        }),
{
    lemma_texts();
    let text = pam::alpha_header(width, height, bit_depth, meta);
    let max: nat = if bit_depth == 16 {
        65535
    } else {
        255
    };
    let first = "P7\nWIDTH ".spec_bytes();
    let second = "\nHEIGHT ".spec_bytes();
    let third = "\nDEPTH 4\nMAXVAL ".spec_bytes();
    let fourth = "\nTUPLTYPE RGB_ALPHA\n".spec_bytes();
    let end = pam::resolution_text(meta) + "ENDHDR\n".spec_bytes();
    let four = fourth + end;
    let three = netpbm::decimal(max) + four;
    let two = netpbm::decimal(height as nat) + (third + three);
    let one = netpbm::decimal(width as nat) + (second + two);
    assert(text.skip(0) =~= text);
    lemma_alpha_header_shape(width, height, bit_depth, meta);
    lemma_number_stands(text, 0, first, width as nat, second + two);
    let a = digits_end(text, 9);
    lemma_number_stands(text, a, second, height as nat, third + three);
    let b = digits_end(text, a + 8);
    lemma_number_stands(text, b, third, max, four);
    let c = digits_end(text, b + 16);
    lemma_stands(text, c, fourth, end);
}

/// The header of a file with alpha, from its end on.
proof fn lemma_alpha_header_shape(
    width: u32,
    height: u32,
    bit_depth: u8,
    meta: AuxiliaryMetadata,
)
    ensures
        ({
            let max: nat = if bit_depth == 16 {
                65535
            } else {
                255
            };
            let end = pam::resolution_text(meta) + "ENDHDR\n".spec_bytes();
            let three = netpbm::decimal(max) + ("\nTUPLTYPE RGB_ALPHA\n".spec_bytes() + end);
            let two = netpbm::decimal(height as nat) + ("\nDEPTH 4\nMAXVAL ".spec_bytes() + three);
            let one = netpbm::decimal(width as nat) + ("\nHEIGHT ".spec_bytes() + two);
            pam::alpha_header(width, height, bit_depth, meta) == "P7\nWIDTH ".spec_bytes() + one
        }),
{
    broadcast use lemma_joined;

    let max: nat = if bit_depth == 16 {
        65535
    } else {
        255
    };
    assert(netpbm::max_sample(bit_depth) == max);
}

/// Texts are joined in any order.
broadcast proof fn lemma_joined(a: Seq<u8>, b: Seq<u8>, c: Seq<u8>)
    ensures
        #[trigger] ((a + b) + c) == a + (b + c),
{
    assert((a + b) + c =~= a + (b + c));
}

/// Law: the headers of images of different widths, heights or sample sizes differ.
pub proof fn law_alpha_headers_differ(
    width: u32,
    height: u32,
    bit_depth: u8,
    meta: AuxiliaryMetadata,
    other_width: u32,
    other_height: u32,
    other_depth: u8,
    other_meta: AuxiliaryMetadata,
)
    requires
        pam::alpha_header(width, height, bit_depth, meta) == pam::alpha_header(
            other_width,
            other_height,
            other_depth,
            other_meta,
        ),
    ensures
        width == other_width,
        height == other_height,
        bit_depth == 16 <==> other_depth == 16,
{
    law_alpha_header_reads_back(width, height, bit_depth, meta);
    law_alpha_header_reads_back(other_width, other_height, other_depth, other_meta);
}

/// Law: the comment with the resolution reads back to it; there is none where the
/// resolution is not known.
pub proof fn law_resolution_reads_back(meta: AuxiliaryMetadata)
    ensures
        ({
            let text = pam::resolution_text(meta);
            let a = digits_end(text, 15);
            let b = digits_end(text, a + 3);
            &&& !meta.has_phys ==> text.len() == 0
            &&& meta.has_phys ==> {
                &&& stands_at(text, 0, "\n# Resolution: ".spec_bytes())
                &&& "\n# Resolution: ".spec_bytes().len() == 15
                &&& number_from(text, 15) == meta.phys_x
                &&& stands_at(text, a, " x ".spec_bytes())
                &&& number_from(text, a + 3) == meta.phys_y
                &&& text.skip(b) == " ".spec_bytes() + (if meta.phys_unit == 1 {
                    "pixels/meter".spec_bytes()
                } else {
                    "unknown".spec_bytes()
                }) + "\n".spec_bytes()
            }
        }),
{
    lemma_texts();
    reveal_strlit("\n# Resolution: ");
    string::is_ascii_spec_bytes("\n# Resolution: ");
    if meta.has_phys {
        let text = pam::resolution_text(meta);
        let first = "\n# Resolution: ".spec_bytes();
        let unit = if meta.phys_unit == 1 {
            "pixels/meter".spec_bytes()
        } else {
            "unknown".spec_bytes()
        };
        let end = " ".spec_bytes() + unit + "\n".spec_bytes();
        let two = netpbm::decimal(meta.phys_y as nat) + end;
        let one = netpbm::decimal(meta.phys_x as nat) + (" x ".spec_bytes() + two);
        assert(text == first + one) by {
            broadcast use lemma_joined;

        }
        assert(text.skip(0) =~= text);
        lemma_number_stands(text, 0, first, meta.phys_x as nat, " x ".spec_bytes() + two);
        let a = digits_end(text, 15);
        lemma_number_stands(text, a, " x ".spec_bytes(), meta.phys_y as nat, end);
    }
}

/// What stands in front of the numbers in the header of a file without alpha: the
/// mark, the comments, and an empty line.
pub open spec fn opaque_front(meta: AuxiliaryMetadata, aspect: &str) -> Seq<u8> {
    seq![80u8, 54, 10] + (pam::resolution_text(meta) + (if meta.has_phys && meta.phys_y > 0 {
        "\n# AspectRatio: ".spec_bytes() + aspect.spec_bytes() + "\n".spec_bytes()
    } else {
        Seq::empty()
    })) + seq![10u8]
}

/// Law: the header of a file without alpha, behind its mark and the comments,
/// reads back to the image as that of a pixmap does.
pub proof fn law_opaque_header_reads_back(
    width: u32,
    height: u32,
    bit_depth: u8,
    meta: AuxiliaryMetadata,
    aspect: &str,
)
    ensures
        ({
            let text = pam::opaque_header(width, height, bit_depth, meta, aspect);
            let start = opaque_front(meta, aspect).len() as int;
            let a = digits_end(text, start);
            let b = digits_end(text, a + 1);
            let c = digits_end(text, b + 1);
            &&& stands_at(text, 0, opaque_front(meta, aspect))
            &&& number_from(text, start) == width
            &&& stands_at(text, a, seq![32u8])
            &&& number_from(text, a + 1) == height
            &&& stands_at(text, b, seq![10u8])
            &&& number_from(text, b + 1) == if bit_depth == 16 {
                65535nat
            } else {
                255
            }
            &&& stands_at(text, c, seq![10u8])
            &&& text.len() == c + 1
        }),
{
    let text = pam::opaque_header(width, height, bit_depth, meta, aspect);
    let max: nat = if bit_depth == 16 {
        65535
    } else {
        255
    };
    lemma_opaque_header_shape(width, height, bit_depth, meta, aspect);
    lemma_three_numbers(
        text,
        opaque_front(meta, aspect),
        width as nat,
        height as nat,
        max,
    );
}

/// The header of a file without alpha, from its end on.
proof fn lemma_opaque_header_shape(
    width: u32,
    height: u32,
    bit_depth: u8,
    meta: AuxiliaryMetadata,
    aspect: &str,
)
    ensures
        ({
            let max: nat = if bit_depth == 16 {
                65535
            } else {
                255
            };
            let end = seq![10u8];
            let three = netpbm::decimal(max) + end;
            let two = netpbm::decimal(height as nat) + (end + three);
            let one = netpbm::decimal(width as nat) + (seq![32u8] + two);
            pam::opaque_header(width, height, bit_depth, meta, aspect) == opaque_front(
                meta,
                aspect,
            ) + one
        }),
{
    lemma_texts();
    let asp = pam::aspect_text(meta, aspect);
    let res = pam::resolution_text(meta);
    let max = netpbm::max_sample(bit_depth);
    let p = seq![80u8, 54, 10];
    let end = seq![10u8];
    let gap = seq![32u8];
    let w = netpbm::decimal(width as nat);
    let h = netpbm::decimal(height as nat);
    let m = netpbm::decimal(max);
    assert(pam::opaque_header(width, height, bit_depth, meta, aspect) == p + res + asp + end + w
        + gap + h + end + m + end);
    lemma_regrouped(p, res, asp, end, w, gap, h, m);
}

proof fn lemma_regrouped(
    p: Seq<u8>,
    res: Seq<u8>,
    asp: Seq<u8>,
    end: Seq<u8>,
    w: Seq<u8>,
    gap: Seq<u8>,
    h: Seq<u8>,
    m: Seq<u8>,
)
    ensures
        p + res + asp + end + w + gap + h + end + m + end == p + (res + asp) + end + (w + (gap + (h
            + (end + (m + end))))),
{
    broadcast use lemma_joined;

}

/// A byte picked out of a group.
proof fn lemma_picked_at(raw: Seq<u8>, group: nat, picks: Seq<usize>, p: int, t: int)
    requires
        0 < group,
        0 <= p < raw.len() / group,
        0 <= t < picks.len(),
        forall|k: int| 0 <= k < picks.len() ==> #[trigger] picks[k] < group,
    ensures
        netpbm::picked(raw, group, picks).len() == raw.len() / group * picks.len(),
        0 <= p * picks.len() + t < netpbm::picked(raw, group, picks).len(),
        netpbm::picked(raw, group, picks)[p * picks.len() + t] == raw[group * p + picks[t]],
{
    let n = picks.len() as int;
    let count = raw.len() as int / group as int;
    div_mod::lemma_fundamental_div_mod_converse(p * n + t, n, p, t);
    assert(0 <= p * n + t < count * n) by (nonlinear_arith)
        requires
            0 <= p < count,
            0 <= t < n,
    ;
}

/// A byte picked out of a group, by its place.
proof fn lemma_picked_from(
    raw: Seq<u8>,
    group: nat,
    picks: Seq<usize>,
    p: int,
    t: int,
    place: int,
    from: int,
)
    requires
        0 < group,
        0 <= p < raw.len() / group,
        0 <= t < picks.len(),
        forall|k: int| 0 <= k < picks.len() ==> #[trigger] picks[k] < group,
        place == p * picks.len() + t,
        from == group * p + picks[t],
    ensures
        netpbm::picked(raw, group, picks).len() == raw.len() / group * picks.len(),
        netpbm::picked(raw, group, picks)[place] == raw[from],
{
    lemma_picked_at(raw, group, picks, p, t);
}

/// Where sample `d` of pixel `p` stands, of pixels with `n` samples.
proof fn lemma_place(n: int, b: int, p: int, d: int, k: int)
    requires
        b == 1 && k == 0 || b == 2,
    ensures
        (n * p + d) * b + k == (n * b) * p + (b * d + k),
{
    assert((n * p + d) * b + k == (n * b) * p + (b * d + k)) by (nonlinear_arith);
}

/// The bytes of a sample.
pub open spec fn sample_len(bit_depth: u8) -> int {
    if bit_depth == 16 {
        2
    } else {
        1
    }
}

/// Law: the pixels of a pixmap. Byte `k` of sample `c` of pixel `p` is that of the
/// red, green or blue sample of the pixel, and that of its grey sample where it has
/// no colour. Each whole pixel gives three samples.
pub proof fn law_pixmap_pixels(raw: Seq<u8>, bit_depth: u8, color_type: u8, p: int, c: int, k: int)
    requires
        color_type == 0 || color_type == 2 || color_type == 4 || color_type == 6,
        0 <= p < raw.len() as int / (png::samples(color_type) * sample_len(bit_depth)),
        0 <= c < 3,
        0 <= k < sample_len(bit_depth),
    ensures
        ({
            let b = sample_len(bit_depth);
            let grey = color_type == 0 || color_type == 4;
            let from = (png::samples(color_type) * p + (if grey {
                0
            } else {
                c
            })) * b + k;
            ppm::rgb(raw, bit_depth, color_type)[(3 * p + c) * b + k] == raw[from]
        }),
        color_type != 2 ==> ppm::rgb(raw, bit_depth, color_type).len() == raw.len() as int / (
        png::samples(color_type) * sample_len(bit_depth)) * (3 * sample_len(bit_depth)),
{
    let b = sample_len(bit_depth);
    let n = png::samples(color_type) as int;
    let grey = color_type == 0 || color_type == 4;
    let d = if grey {
        0
    } else {
        c
    };
    let place = (3 * p + c) * b + k;
    let from = (n * p + d) * b + k;
    lemma_place(3, b, p, c, k);
    lemma_place(n, b, p, d, k);
    if color_type == 2 {
        assert(n == 3);
    } else if bit_depth == 16 {
        let picks = if grey {
            seq![0usize, 1, 0, 1, 0, 1]
        } else {
            seq![0usize, 1, 2, 3, 4, 5]
        };
        let t = 2 * c + k;
        assert(b * c == 2 * c && b * d == 2 * d && n * b == 2 * n);
        assert(picks[t] == 2 * d + k);
        assert(place == p * 6 + t);
        lemma_picked_from(raw, (2 * n) as nat, picks, p, t, place, from);
    } else {
        let picks = if grey {
            seq![0usize, 0, 0]
        } else {
            seq![0usize, 1, 2]
        };
        assert(b * c == c && b * d == d && n * b == n);
        assert(picks[c] == d);
        assert(place == p * 3 + c);
        lemma_picked_from(raw, n as nat, picks, p, c, place, from);
    }
}

/// Law: rows that are red, green and blue already are kept as they are, and so are
/// rows of palette colours; a colour type that PNG does not have gives nothing.
pub proof fn law_rows_kept(raw: Seq<u8>, bit_depth: u8, color_type: u8)
    ensures
        color_type == 2 || (color_type == 3 && bit_depth != 16) ==> ppm::rgb(
            raw,
            bit_depth,
            color_type,
        ) == raw && pam::rgba(raw, bit_depth, color_type) == raw,
        color_type == 6 ==> pam::rgba(raw, bit_depth, color_type) == raw,
        color_type != 0 && color_type != 2 && color_type != 4 && color_type != 6 && (color_type != 3
            || bit_depth == 16) ==> ppm::rgb(raw, bit_depth, color_type).len() == 0 && pam::rgba(
            raw,
            bit_depth,
            color_type,
        ).len() == 0,
{
}

/// Law: the pixels of a file that keeps alpha. Grey with alpha gives its grey
/// sample three times and then its alpha; grey without alpha gives its sample
/// three times.
pub proof fn law_alpha_pixels(raw: Seq<u8>, bit_depth: u8, color_type: u8, p: int, c: int, k: int)
    requires
        color_type == 0 || color_type == 4,
        0 <= p < raw.len() as int / (png::samples(color_type) * sample_len(bit_depth)),
        0 <= c < 3 + (if color_type == 4 {
            1int
        } else {
            0
        }),
        0 <= k < sample_len(bit_depth),
    ensures
        ({
            let b = sample_len(bit_depth);
            let all = pam::rgba(raw, bit_depth, color_type);
            if color_type == 4 {
                &&& all[(4 * p + c) * b + k] == raw[(2 * p + (if c == 3 {
                    1int
                } else {
                    0
                })) * b + k]
                &&& all.len() == raw.len() as int / (2 * b) * (4 * b)
            } else {
                &&& all[(3 * p + c) * b + k] == raw[p * b + k]
                &&& all.len() == raw.len() as int / b * (3 * b)
            }
        }),
{
    if color_type == 0 {
        law_pixmap_pixels(raw, bit_depth, color_type, p, c, k);
    } else {
        let b = sample_len(bit_depth);
        let d = if c == 3 {
            1int
        } else {
            0
        };
        let place = (4 * p + c) * b + k;
        let from = (2 * p + d) * b + k;
        lemma_place(4, b, p, c, k);
        lemma_place(2, b, p, d, k);
        if bit_depth == 16 {
            let picks = seq![0usize, 1, 0, 1, 0, 1, 2, 3];
            let t = 2 * c + k;
            assert(picks[t] == 2 * d + k);
            assert(place == p * 8 + t);
            lemma_picked_from(raw, 4, picks, p, t, place, from);
        } else {
            let picks = seq![0usize, 0, 0, 1];
            assert(picks[c] == d);
            assert(place == p * 4 + c);
            lemma_picked_from(raw, 2, picks, p, c, place, from);
        }
    }
}

/// Whole rows of samples, cut into pixels of `n` samples.
proof fn lemma_pixels_in_rows(raw: Seq<u8>, width: u32, height: u32, n: int, b: int)
    requires
        0 < n,
        0 < b,
        raw.len() == height * (b * n * width),
    ensures
        0 <= width * height,
        raw.len() == width * height * (n * b),
        raw.len() as int / (n * b) == width * height,
{
    let pixels = width * height;
    assert(0 <= pixels && 0 < n * b && raw.len() == pixels * (n * b)) by (nonlinear_arith)
        requires
            raw.len() == height * (b * n * width),
            pixels == width * height,
            0 < n,
            0 < b,
    ;
    div_mod::lemma_div_by_multiple(pixels, n * b);
}

/// The length of pixels with alpha.
proof fn lemma_alpha_len(raw: Seq<u8>, width: u32, height: u32, bit_depth: u8, color_type: u8)
    requires
        color_type == 4 || color_type == 6,
        bit_depth == 8 || bit_depth == 16,
        raw.len() == height * png::row_len(width as nat, color_type, bit_depth),
    ensures
        pam::rgba(raw, bit_depth, color_type).len() == width * height * 4 * sample_len(bit_depth),
{
    let b = sample_len(bit_depth);
    let n = png::samples(color_type) as int;
    let pixels = width * height;
    assert(png::row_len(width as nat, color_type, bit_depth) == b * n * width);
    lemma_pixels_in_rows(raw, width, height, n, b);
    if color_type == 4 {
        lemma_picked_len(raw, (2 * b) as nat, if b == 2 {
            seq![0usize, 1, 0, 1, 0, 1, 2, 3]
        } else {
            seq![0usize, 0, 0, 1]
        });
        assert(n * b == 2 * b);
    }
    assert(pixels * (4 * b) == width * height * 4 * b) by (nonlinear_arith)
        requires
            pixels == width * height,
    ;
}

/// Law: the pixels of an image with alpha take, behind its header, as many bytes
/// as the header says: the number behind `WIDTH` times the number behind `HEIGHT`
/// times four samples, for whole rows of samples.
pub proof fn law_alpha_file_length(
    raw: Seq<u8>,
    width: u32,
    height: u32,
    bit_depth: u8,
    color_type: u8,
    meta: AuxiliaryMetadata,
)
    requires
        color_type == 4 || color_type == 6,
        bit_depth == 8 || bit_depth == 16,
        raw.len() == height * png::row_len(width as nat, color_type, bit_depth),
    ensures
        ({
            let text = pam::alpha_header(width, height, bit_depth, meta);
            let wide = number_from(text, 9);
            let high = number_from(text, digits_end(text, 9) + 8);
            let size = if bit_depth == 16 {
                2int
            } else {
                1
            };
            pam::rgba(raw, bit_depth, color_type).len() == wide * high * 4 * size
        }),
{
    lemma_alpha_len(raw, width, height, bit_depth, color_type);
    law_alpha_header_reads_back(width, height, bit_depth, meta);
}

/// The length of pixels without alpha.
proof fn lemma_pixmap_len(raw: Seq<u8>, width: u32, height: u32, bit_depth: u8, color_type: u8)
    requires
        color_type == 0 || color_type == 2 || color_type == 4 || color_type == 6,
        bit_depth == 8 || bit_depth == 16,
        raw.len() == height * png::row_len(width as nat, color_type, bit_depth),
    ensures
        ppm::rgb(raw, bit_depth, color_type).len() == width * height * 3 * sample_len(bit_depth),
{
    let b = sample_len(bit_depth);
    let n = png::samples(color_type) as int;
    let pixels = width * height;
    assert(png::row_len(width as nat, color_type, bit_depth) == b * n * width);
    lemma_pixels_in_rows(raw, width, height, n, b);
    let grey = color_type == 0 || color_type == 4;
    if color_type != 2 {
        assert(n * b == if b == 2 {
            2 * n
        } else {
            n
        });
        lemma_picked_len(raw, (n * b) as nat, if b == 2 {
            if grey {
                seq![0usize, 1, 0, 1, 0, 1]
            } else {
                seq![0usize, 1, 2, 3, 4, 5]
            }
        } else {
            if grey {
                seq![0usize, 0, 0]
            } else {
                seq![0usize, 1, 2]
            }
        });
    }
    assert(pixels * (3 * b) == width * height * 3 * b) by (nonlinear_arith)
        requires
            pixels == width * height,
    ;
}

/// Law: the pixels of a pixmap take, behind its header, as many bytes as the header
/// says: its first number times its second times three samples, for whole rows of
/// samples.
pub proof fn law_pixmap_file_length(
    raw: Seq<u8>,
    width: u32,
    height: u32,
    bit_depth: u8,
    color_type: u8,
)
    requires
        color_type == 0 || color_type == 2 || color_type == 4 || color_type == 6,
        bit_depth == 8 || bit_depth == 16,
        raw.len() == height * png::row_len(width as nat, color_type, bit_depth),
    ensures
        ({
            let text = ppm::header_text(width, height, bit_depth);
            let wide = number_from(text, 3);
            let high = number_from(text, digits_end(text, 3) + 1);
            let size = if bit_depth == 16 {
                2int
            } else {
                1
            };
            ppm::rgb(raw, bit_depth, color_type).len() == wide * high * 3 * size
        }),
{
    lemma_pixmap_len(raw, width, height, bit_depth, color_type);
    law_pixmap_header_reads_back(width, height, bit_depth);
}

proof fn lemma_picked_len(raw: Seq<u8>, group: nat, picks: Seq<usize>)
    requires
        0 < group,
    ensures
        netpbm::picked(raw, group, picks).len() == raw.len() / group * picks.len(),
{
    mul::lemma_mul_nonnegative(raw.len() as int / group as int, picks.len() as int);
}

/// Law: only the colour types 4 and 6 have alpha; pixels have the samples of their
/// colour type, and one where PNG does not have it.
pub proof fn law_colour_types(color_type: u8)
    ensures
        pam::alpha_type(color_type) <==> color_type == 4 || color_type == 6,
        pam::channel_count(color_type) == png::samples(color_type),
        color_type == 0 ==> pam::color_text(color_type)@ == "Grayscale"@,
        color_type == 2 ==> pam::color_text(color_type)@ == "RGB"@,
        color_type == 3 ==> pam::color_text(color_type)@ == "Indexed (Paletted)"@,
        color_type == 4 ==> pam::color_text(color_type)@ == "Grayscale + Alpha"@,
        color_type == 6 ==> pam::color_text(color_type)@ == "RGB + Alpha (RGBA)"@,
        color_type == 1 || color_type == 5 || color_type > 6 ==> pam::color_text(color_type)@
            == "Unknown"@,
{
}

/// Law: letters of either case are told as one, and nothing else changes: a byte
/// becomes a small letter exactly where it is that letter or its capital.
pub proof fn law_letter_case(byte: u8, letter: u8)
    requires
        97 <= letter <= 122,
    ensures
        pam::lower(byte) == letter <==> byte == letter || byte == letter - 32,
        byte < 65 || byte > 90 ==> pam::lower(byte) == byte,
{
}

/// Law: an extension counts as that of a pixmap exactly where it is the letters
/// p, p, m, each of either case.
pub proof fn law_pixmap_extension(extension: Seq<u8>)
    ensures
        extension.map_values(|b: u8| pam::lower(b)) == "ppm".spec_bytes() <==> {
            &&& extension.len() == 3
            &&& extension[0] == 112 || extension[0] == 80
            &&& extension[1] == 112 || extension[1] == 80
            &&& extension[2] == 109 || extension[2] == 77
        },
{
    reveal_strlit("ppm");
    string::is_ascii_spec_bytes("ppm");
    let lowered = extension.map_values(|b: u8| pam::lower(b));
    assert(lowered.len() == extension.len());
    if lowered == "ppm".spec_bytes() {
        assert(lowered[0] == 112 && lowered[1] == 112 && lowered[2] == 109);
    } else if extension.len() == 3 && (extension[0] == 112 || extension[0] == 80) && (extension[1]
        == 112 || extension[1] == 80) && (extension[2] == 109 || extension[2] == 77) {
        assert(lowered =~= "ppm".spec_bytes());
    }
}

} // verus!
