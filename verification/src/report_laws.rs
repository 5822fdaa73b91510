//! Laws on the report: which entries it has, in which order, and how their texts
//! read.

use crate::error::PngError;
use crate::metadata::{AuxiliaryMetadata, ReportLine};
use crate::netpbm;
use crate::report;
use crate::report::Measured;
use vstd::arithmetic::div_mod;
use vstd::arithmetic::power;
use vstd::prelude::*;
use vstd::string::StringSliceAdditionalSpecFns;
use vstd::utf8;

verus! {

/// The place of an entry in the order of the report.
pub open spec fn rank(line: ReportLine) -> int {
    match line {
        ReportLine::Gamma(_) => 0,
        ReportLine::Intent(_) => 1,
        ReportLine::Chromaticities(_) => 2,
        ReportLine::Resolution { .. } => 3,
        ReportLine::Size { .. } => 4,
        ReportLine::AspectRatio { .. } => 5,
        ReportLine::HistogramLen(_) => 6,
        ReportLine::Background => 7,
        ReportLine::Modified(_) => 8,
        ReportLine::TextHeading => 9,
        ReportLine::Text(i) => 10 + i,
    }
}

/// What an image has to say for an entry to be in its report.
pub open spec fn said(meta: AuxiliaryMetadata, width: u32, height: u32, line: ReportLine) -> bool {
    match line {
        ReportLine::Gamma(gamma) => meta.has_gamma && gamma == meta.gamma,
        ReportLine::Intent(intent) => meta.has_srgb && intent == meta.srgb_intent,
        ReportLine::Chromaticities(data) => meta.has_chrm && data == meta.chrm_data,
        ReportLine::Resolution { x, y, unit } => meta.has_phys && x == meta.phys_x && y
            == meta.phys_y && unit == meta.phys_unit,
        ReportLine::Size { width: w, height: h, x, y } => meta.has_phys && meta.phys_unit == 1 && w
            == width && h == height && x == meta.phys_x && x != 0 && y == meta.phys_y && y != 0,
        ReportLine::AspectRatio { x, y } => meta.has_phys && x == meta.phys_x && y == meta.phys_y
            && y != 0,
        ReportLine::HistogramLen(len) => len == meta.histogram@.len() && len != 0,
        ReportLine::Background => meta.bkgd_bytes@.len() != 0,
        ReportLine::Modified(epoch) => meta.has_time && epoch == meta.unix_epoch,
        ReportLine::TextHeading => meta.text_chunks@.len() != 0,
        ReportLine::Text(i) => i < meta.text_chunks@.len(),
    }
}

/// Entries in order, with ranks from `from` up to `to`.
pub open spec fn in_order(lines: Seq<ReportLine>, from: int, to: int) -> bool {
    &&& forall|i: int| 0 <= i < lines.len() ==> from <= rank(#[trigger] lines[i]) < to
    &&& forall|i: int, j: int|
        0 <= i < j < lines.len() ==> rank(#[trigger] lines[i]) < rank(#[trigger] lines[j])
}

/// An entry that is there or not.
spec fn one_or_none(there: bool, line: ReportLine) -> Seq<ReportLine> {
    if there {
        seq![line]
    } else {
        seq![]
    }
}

proof fn lemma_one_or_none(there: bool, line: ReportLine)
    ensures
        in_order(one_or_none(there, line), rank(line), rank(line) + 1),
        forall|l: ReportLine| #[trigger]
            one_or_none(there, line).contains(l) <==> there && l == line,
{
    if there {
        assert(one_or_none(there, line)[0] == line);
    }
}

proof fn lemma_in_order(a: Seq<ReportLine>, b: Seq<ReportLine>, from: int, at: int, to: int)
    requires
        in_order(a, from, at),
        in_order(b, at, to),
        from <= at <= to,
    ensures
        in_order(a + b, from, to),
        forall|l: ReportLine| #[trigger] (a + b).contains(l) <==> a.contains(l) || b.contains(l),
{
    let both = a + b;
    assert forall|l: ReportLine| #[trigger] both.contains(l) <==> a.contains(l) || b.contains(
        l,
    ) by {
        if both.contains(l) {
            let i = choose|i: int| 0 <= i < both.len() && both[i] == l;
            if i < a.len() {
                assert(a[i] == l);
            } else {
                assert(b[i - a.len()] == l);
            }
        }
        if a.contains(l) {
            let i = choose|i: int| 0 <= i < a.len() && a[i] == l;
            assert(both[i] == l);
        }
        if b.contains(l) {
            let i = choose|i: int| 0 <= i < b.len() && b[i] == l;
            assert(both[a.len() + i] == l);
        }
    }
    assert forall|i: int| 0 <= i < both.len() implies from <= rank(#[trigger] both[i]) < to by {
        if i < a.len() {
            assert(both[i] == a[i]);
        } else {
            assert(both[i] == b[i - a.len()]);
        }
    }
    assert forall|i: int, j: int| 0 <= i < j < both.len() implies rank(#[trigger] both[i]) < rank(
        #[trigger] both[j],
    ) by {
        if j < a.len() {
            assert(both[i] == a[i] && both[j] == a[j]);
        } else if i < a.len() {
            assert(both[i] == a[i] && both[j] == b[j - a.len()]);
        } else {
            assert(both[i] == b[i - a.len()] && both[j] == b[j - a.len()]);
        }
    }
}

proof fn lemma_three(
    x: (bool, ReportLine),
    y: (bool, ReportLine),
    z: (bool, ReportLine),
    from: int,
)
    requires
        rank(x.1) == from,
        rank(y.1) == from + 1,
        rank(z.1) == from + 2,
    ensures
        ({
            let all = one_or_none(x.0, x.1) + one_or_none(y.0, y.1) + one_or_none(z.0, z.1);
            &&& in_order(all, from, from + 3)
            &&& forall|l: ReportLine| #[trigger]
                all.contains(l) <==> x.0 && l == x.1 || y.0 && l == y.1 || z.0 && l == z.1
        }),
{
    lemma_one_or_none(x.0, x.1);
    lemma_one_or_none(y.0, y.1);
    lemma_one_or_none(z.0, z.1);
    let xy = one_or_none(x.0, x.1) + one_or_none(y.0, y.1);
    lemma_in_order(one_or_none(x.0, x.1), one_or_none(y.0, y.1), from, from + 1, from + 2);
    lemma_in_order(xy, one_or_none(z.0, z.1), from, from + 2, from + 3);
    let all = xy + one_or_none(z.0, z.1);
    assert forall|l: ReportLine| #[trigger] all.contains(l) <==> x.0 && l == x.1 || y.0 && l == y.1
        || z.0 && l == z.1 by {
        assert(all.contains(l) <==> xy.contains(l) || one_or_none(z.0, z.1).contains(l));
        assert(xy.contains(l) <==> one_or_none(x.0, x.1).contains(l) || one_or_none(
            y.0,
            y.1,
        ).contains(l));
    }
}

/// The entries that are said and have ranks from `from` up to `to`, in order.
spec fn part_of(
    meta: AuxiliaryMetadata,
    width: u32,
    height: u32,
    lines: Seq<ReportLine>,
    from: int,
    to: int,
) -> bool {
    &&& in_order(lines, from, to)
    &&& forall|l: ReportLine| #[trigger]
        lines.contains(l) <==> said(meta, width, height, l) && from <= rank(l) < to
}

proof fn lemma_colour(meta: AuxiliaryMetadata, width: u32, height: u32)
    ensures
        part_of(meta, width, height, meta.color_report(), 0, 3),
{
    let gamma = (meta.has_gamma, ReportLine::Gamma(meta.gamma));
    let intent = (meta.has_srgb, ReportLine::Intent(meta.srgb_intent));
    let points = (meta.has_chrm, ReportLine::Chromaticities(meta.chrm_data));
    lemma_three(gamma, intent, points, 0);
    assert(meta.color_report() =~= one_or_none(gamma.0, gamma.1) + one_or_none(intent.0, intent.1)
        + one_or_none(points.0, points.1));
}

proof fn lemma_sizes(meta: AuxiliaryMetadata, width: u32, height: u32)
    ensures
        part_of(meta, width, height, meta.size_report(width, height), 3, 6),
{
    let (x, y) = (meta.phys_x, meta.phys_y);
    let resolution = (meta.has_phys, ReportLine::Resolution { x, y, unit: meta.phys_unit });
    let size = (
        meta.has_phys && meta.phys_unit == 1 && x > 0 && y > 0,
        ReportLine::Size { width, height, x, y },
    );
    let aspect = (meta.has_phys && y > 0, ReportLine::AspectRatio { x, y });
    lemma_three(resolution, size, aspect, 3);
    assert(meta.size_report(width, height) =~= one_or_none(resolution.0, resolution.1)
        + one_or_none(size.0, size.1) + one_or_none(aspect.0, aspect.1));
}

proof fn lemma_content(meta: AuxiliaryMetadata, width: u32, height: u32)
    requires
        meta.histogram@.len() <= usize::MAX,
    ensures
        part_of(meta, width, height, meta.content_report(), 6, 9),
{
    let histogram = (
        meta.histogram@.len() > 0,
        ReportLine::HistogramLen(meta.histogram@.len() as usize),
    );
    let background = (meta.bkgd_bytes@.len() > 0, ReportLine::Background);
    let time = (meta.has_time, ReportLine::Modified(meta.unix_epoch));
    lemma_three(histogram, background, time, 6);
    assert(meta.content_report() =~= one_or_none(histogram.0, histogram.1) + one_or_none(
        background.0,
        background.1,
    ) + one_or_none(time.0, time.1));
}

proof fn lemma_texts(meta: AuxiliaryMetadata, width: u32, height: u32)
    requires
        meta.text_chunks@.len() <= usize::MAX,
    ensures
        part_of(meta, width, height, meta.text_report(), 9, 10int + meta.text_chunks@.len()),
{
    let texts = meta.text_report();
    let n = meta.text_chunks@.len();
    if n > 0 {
        assert(texts.len() == n + 1);
        assert(texts[0] == ReportLine::TextHeading);
        assert forall|i: int| 1 <= i < texts.len() implies #[trigger] texts[i] == ReportLine::Text(
            (i - 1) as usize,
        ) by {}
        assert forall|l: ReportLine| #[trigger] texts.contains(l) <==> said(meta, width, height, l)
            && 9 <= rank(l) < 10 + n by {
            if let ReportLine::Text(i) = l {
                if i < n {
                    assert(texts[i + 1] == l);
                }
            }
        }
    }
}

proof fn lemma_parts_join(
    meta: AuxiliaryMetadata,
    width: u32,
    height: u32,
    a: Seq<ReportLine>,
    b: Seq<ReportLine>,
    at: int,
    to: int,
)
    requires
        part_of(meta, width, height, a, 0, at),
        part_of(meta, width, height, b, at, to),
        0 <= at <= to,
    ensures
        part_of(meta, width, height, a + b, 0, to),
{
    lemma_in_order(a, b, 0, at, to);
}

/// Law: the report on an image has exactly the entries for what the image says,
/// each with its own value, once, and in one order.
pub proof fn law_report_entries(meta: AuxiliaryMetadata, width: u32, height: u32)
    requires
        meta.text_chunks@.len() <= usize::MAX,
        meta.histogram@.len() <= usize::MAX,
    ensures
        in_order(meta.full_report(width, height), 0, 10int + meta.text_chunks@.len()),
        forall|l: ReportLine| #[trigger]
            meta.full_report(width, height).contains(l) <==> said(meta, width, height, l),
{
    let colour = meta.color_report();
    let sizes = meta.size_report(width, height);
    let content = meta.content_report();
    let texts = meta.text_report();
    let end = 10int + meta.text_chunks@.len();
    lemma_colour(meta, width, height);
    lemma_sizes(meta, width, height);
    lemma_content(meta, width, height);
    lemma_texts(meta, width, height);
    lemma_parts_join(meta, width, height, colour, sizes, 3, 6);
    lemma_parts_join(meta, width, height, colour + sizes, content, 6, 9);
    lemma_parts_join(meta, width, height, colour + sizes + content, texts, 9, end);
}

/// Law: the last `width` digits of a number are as many digits, and read as the
/// number without what is in front of them.
pub proof fn law_padded_reads_back(n: nat, width: nat)
    ensures
        report::padded(n, width).len() == width,
        forall|i: int|
            0 <= i < width ==> 48 <= #[trigger] report::padded(n, width)[i] <= 57,
        netpbm::number_of(report::padded(n, width)) == n as int % power::pow(10, width),
    decreases width,
{
    power::lemma_pow_positive(10, width);
    if width == 0 {
        power::lemma_pow0(10);
    } else {
        let less = (width - 1) as nat;
        law_padded_reads_back(n / 10, less);
        power::lemma_pow_positive(10, less);
        power::lemma_pow_adds(10, 1, less);
        power::lemma_pow1(10);
        div_mod::lemma_breakdown(n as int, 10, power::pow(10, less));
        let digits = report::padded(n, width);
        assert(digits.drop_last() =~= report::padded(n / 10, less));
    }
}

/// Law: a number of hundred thousandths reads back: the whole part in front of a
/// point, and five digits for the rest behind it.
pub proof fn law_hundred_thousandths_read_back(n: nat)
    ensures
        ({
            let text = report::hundred_thousandths(n);
            let point = text.len() - 6;
            &&& point > 0
            &&& text[point] == 46
            &&& netpbm::number_of(text.take(point)) == n / 100_000
            &&& netpbm::number_of(text.skip(point + 1)) == n % 100_000
            &&& forall|i: int|
                0 <= i < text.len() && i != point ==> 48 <= #[trigger] text[i] <= 57
        }),
{
    reveal_strlit(".");
    vstd::string::is_ascii_spec_bytes(".");
    netpbm::law_decimal_read_back(n / 100_000);
    law_padded_reads_back(n, 5);
    reveal_with_fuel(power::pow, 6);
    assert(power::pow(10, 5) == 100_000);
    let whole = netpbm::decimal(n / 100_000);
    let rest = report::padded(n, 5);
    let text = report::hundred_thousandths(n);
    assert(text.take(whole.len() as int) =~= whole);
    assert(text.skip((whole.len() + 1) as int) =~= rest);
    assert forall|i: int| 0 <= i < text.len() && i != whole.len() implies 48 <= #[trigger] text[i]
        <= 57 by {
        if i < whole.len() {
            assert(text[i] == whole[i]);
        } else {
            assert(text[i] == rest[i - whole.len() - 1]);
        }
    }
}

/// Law: a number with a sign reads back: a minus in front of the digits exactly
/// where it is negative.
pub proof fn law_signed_reads_back(n: int)
    ensures
        ({
            let text = report::signed_decimal(n);
            &&& text.len() > 0
            &&& n < 0 <==> text[0] == 45
            &&& n >= 0 ==> netpbm::number_of(text) == n
            &&& n < 0 ==> netpbm::number_of(text.skip(1)) == -n
        }),
{
    reveal_strlit("-");
    vstd::string::is_ascii_spec_bytes("-");
    if n < 0 {
        netpbm::law_decimal_read_back((-n) as nat);
        assert(report::signed_decimal(n).skip(1) =~= netpbm::decimal((-n) as nat));
    } else {
        netpbm::law_decimal_read_back(n as nat);
    }
}

/// Law: lists of bytes join with a comma and a space between them; a list of one
/// byte is that byte in decimal.
pub proof fn law_byte_lists_join(a: Seq<u8>, b: Seq<u8>)
    requires
        a.len() > 0,
        b.len() > 0,
    ensures
        report::byte_list(a + b) == report::byte_list(a) + ", ".spec_bytes() + report::byte_list(b),
        a.len() == 1 ==> report::byte_list(a) == netpbm::decimal(a[0] as nat),
        report::byte_list(Seq::<u8>::empty()).len() == 0,
    decreases b.len(),
{
    let both = a + b;
    assert(both.drop_last() =~= a + b.drop_last());
    assert(both.last() == b.last());
    if b.len() == 1 {
        assert(both.drop_last() =~= a);
    } else {
        law_byte_lists_join(a, b.drop_last());
        let comma = ", ".spec_bytes();
        let last = netpbm::decimal(b.last() as nat);
        let front = report::byte_list(b.drop_last());
        assert(report::byte_list(a) + comma + front + comma + last =~= report::byte_list(a) + comma
            + (front + comma + last));
    }
}

/// Law: the texts of entries join, and that of one entry is its own.
pub proof fn law_texts_join(
    meta: AuxiliaryMetadata,
    a: Seq<ReportLine>,
    b: Seq<ReportLine>,
    measured: Measured,
)
    ensures
        meta.lines_text(a + b, measured) == meta.lines_text(a, measured) + meta.lines_text(
            b,
            measured,
        ),
        a.len() == 1 ==> meta.lines_text(a, measured) == meta.line_text(a[0], measured),
    decreases b.len(),
{
    reveal_with_fuel(AuxiliaryMetadata::lines_text, 2);
    if a.len() == 1 {
        assert(meta.lines_text(a.drop_last(), measured) =~= Seq::<u8>::empty());
        assert(Seq::<u8>::empty() + meta.line_text(a[0], measured) =~= meta.line_text(
            a[0],
            measured,
        ));
    }
    if b.len() == 0 {
        assert(a + b =~= a);
        assert(meta.lines_text(a, measured) + Seq::<u8>::empty() =~= meta.lines_text(a, measured));
    } else {
        let both = a + b;
        law_texts_join(meta, a, b.drop_last(), measured);
        assert(both.drop_last() =~= a + b.drop_last());
        assert(both.last() == b.last());
        let front = meta.lines_text(b.drop_last(), measured);
        let last = meta.line_text(b.last(), measured);
        assert(meta.lines_text(a, measured) + front + last =~= meta.lines_text(a, measured) + (front
            + last));
    }
}

/// Law: the report stands between its two rules, and has nothing else.
pub proof fn law_report_framed(
    meta: AuxiliaryMetadata,
    width: u32,
    height: u32,
    measured: Measured,
)
    ensures
        ({
            let top = "\n================= PNG METADATA REPORT =================\n".spec_bytes();
            let bottom = "=======================================================\n\n".spec_bytes();
            let text = meta.report_text(width, height, measured);
            let inside = meta.lines_text(meta.full_report(width, height), measured);
            &&& text.len() == top.len() + inside.len() + bottom.len()
            &&& text.take(top.len() as int) == top
            &&& text.subrange(top.len() as int, (top.len() + inside.len()) as int) == inside
            &&& text.skip((top.len() + inside.len()) as int) == bottom
        }),
{
    let top = "\n================= PNG METADATA REPORT =================\n".spec_bytes();
    let bottom = "=======================================================\n\n".spec_bytes();
    let text = meta.report_text(width, height, measured);
    let inside = meta.lines_text(meta.full_report(width, height), measured);
    assert(text.take(top.len() as int) =~= top);
    assert(text.subrange(top.len() as int, (top.len() + inside.len()) as int) =~= inside);
    assert(text.skip((top.len() + inside.len()) as int) =~= bottom);
}

/// Law: how the entries with numbers of the image read.
pub proof fn law_numbers_told(
    meta: AuxiliaryMetadata,
    measured: Measured,
    n: u32,
    m: u32,
    k: u8,
    len: usize,
)
    ensures
        meta.line_text(ReportLine::Gamma(n), measured) == " Gamma (gAMA)         : ".spec_bytes()
            + report::hundred_thousandths(n as nat) + "\n".spec_bytes(),
        meta.line_text(ReportLine::Intent(k), measured) == " sRGB Intent          : ".spec_bytes()
            + (if k == 0 {
            "Perceptual"
        } else if k == 1 {
            "Relative Colorimetric"
        } else if k == 2 {
            "Saturation"
        } else if k == 3 {
            "Absolute Colorimetric"
        } else {
            "Unknown/Reserved"
        }).spec_bytes() + " (".spec_bytes() + netpbm::decimal(k as nat) + ")\n".spec_bytes(),
        meta.line_text(ReportLine::Resolution { x: n, y: m, unit: k }, measured)
            == "  Physical pixel dimensions (pHYs):\n   Resolution: ".spec_bytes()
            + netpbm::decimal(n as nat) + " x ".spec_bytes() + netpbm::decimal(m as nat)
            + " ".spec_bytes() + (if k == 1 {
            "pixels/meter"
        } else {
            "unknown"
        }).spec_bytes() + "\n".spec_bytes(),
        meta.line_text(ReportLine::HistogramLen(len), measured)
            == " Histogram (hIST)     : [Large Block - Elements: ".spec_bytes() + netpbm::decimal(
            len as nat,
        ) + "]\n".spec_bytes(),
        meta.line_text(ReportLine::Background, measured)
            == " Background (bKGD)    : Raw Payload Bytes [".spec_bytes() + report::byte_list(
            meta.bkgd_bytes@,
        ) + "]\n".spec_bytes(),
{
}

/// Law: how the entries with texts from elsewhere read. Texts stand in them whole.
pub proof fn law_texts_told(
    meta: AuxiliaryMetadata,
    measured: Measured,
    width: u32,
    height: u32,
    x: u32,
    y: u32,
    i: usize,
)
    ensures
        meta.line_text(ReportLine::Size { width, height, x, y }, measured)
            == "   Size: ".spec_bytes() + utf8::encode_utf8(measured.width_cm@)
            + " cm x ".spec_bytes() + utf8::encode_utf8(measured.height_cm@)
            + " cm\n".spec_bytes(),
        meta.line_text(ReportLine::AspectRatio { x, y }, measured)
            == "   Aspect ratio: ".spec_bytes() + utf8::encode_utf8(measured.aspect_ratio@)
            + "\n".spec_bytes(),
        meta.line_text(ReportLine::TextHeading, measured)
            == " Text Content Fields  :\n".spec_bytes(),
        i < meta.text_chunks@.len() ==> meta.line_text(ReportLine::Text(i), measured)
            == "   [".spec_bytes() + netpbm::decimal(i as nat) + "] Keyword : \"".spec_bytes()
            + utf8::encode_utf8(meta.text_chunks@[i as int].keyword@)
            + "\"\n       Text    : \"".spec_bytes() + utf8::encode_utf8(
            meta.text_chunks@[i as int].text@,
        ) + "\"\n".spec_bytes(),
        i >= meta.text_chunks@.len() ==> meta.line_text(ReportLine::Text(i), measured).len() == 0,
{
}

/// Law: how the time of modification reads: as it is told here, or in seconds.
pub proof fn law_time_told(meta: AuxiliaryMetadata, measured: Measured, epoch: i64)
    ensures
        ({
            let text = meta.line_text(ReportLine::Modified(epoch), measured);
            let front = " Modification (tIME)  : ".spec_bytes();
            match measured.modified {
                Some(time) => text == front + utf8::encode_utf8(time@) + "\n".spec_bytes(),
                None => text == front + ("Raw Timestamp Epoch (".spec_bytes()
                    + report::signed_decimal(epoch as int) + " seconds)".spec_bytes())
                    + "\n".spec_bytes(),
            }
        }),
{
}

/// Law: how the chromaticities read: white, red, green and blue, x before y.
pub proof fn law_chromaticities_told(meta: AuxiliaryMetadata, measured: Measured, data: [u32; 8])
    ensures
        ({
            let between = ", Y=".spec_bytes();
            let end = "\n".spec_bytes();
            let white = "   White Point ".spec_bytes() + ": X=".spec_bytes()
                + report::hundred_thousandths(data[0] as nat) + between
                + report::hundred_thousandths(data[1] as nat) + end;
            let red = "   Red Channel ".spec_bytes() + ": X=".spec_bytes()
                + report::hundred_thousandths(data[2] as nat) + between
                + report::hundred_thousandths(data[3] as nat) + end;
            let green = "   Green Chan. ".spec_bytes() + ": X=".spec_bytes()
                + report::hundred_thousandths(data[4] as nat) + between
                + report::hundred_thousandths(data[5] as nat) + end;
            let blue = "   Blue Channel".spec_bytes() + ": X=".spec_bytes()
                + report::hundred_thousandths(data[6] as nat) + between
                + report::hundred_thousandths(data[7] as nat) + end;
            meta.line_text(ReportLine::Chromaticities(data), measured)
                == " Chromaticities (cHRM):\n".spec_bytes() + white + red + green + blue
        }),
{
}

/// Law: the text that each reason of a refusal is told in.
pub proof fn law_refusals_told(error: PngError)
    ensures
        error == PngError::MagicUnreadable ==> error.text() == "Failed to read magic"@,
        error == PngError::NotPng ==> error.text() == "Not a valid PNG file"@,
        error == PngError::EndOfFile ==> error.text() == "EOF reached"@,
        error == PngError::IhdrMissing ==> error.text() == "First chunk must be IHDR"@,
        error == PngError::IhdrUnreadable ==> error.text() == "Failed to read IHDR payload"@,
        error == PngError::IhdrCrcUnreadable ==> error.text() == "Failed to read IHDR CRC"@,
        error == PngError::IhdrCorrupt ==> error.text() == "Corrupt IHDR chunk (CRC mismatch)"@,
        error == PngError::Interlaced ==> error.text() == "Adam7 Interlacing is not supported"@,
        error == PngError::UnknownColorType ==> error.text() == "Unknown color type"@,
        error == PngError::PlteUnreadable ==> error.text() == "Failed to read PLTE"@,
        error == PngError::PlteCrcUnreadable ==> error.text() == "Failed to read PLTE CRC"@,
        error == PngError::PlteCorrupt ==> error.text() == "Corrupt PLTE chunk (CRC mismatch)"@,
        error == PngError::TrnsUnreadable ==> error.text() == "Failed to read tRNS"@,
        error == PngError::TrnsCrcUnreadable ==> error.text() == "Failed to read tRNS CRC"@,
{
}

/// Law: no two reasons of a refusal are told alike.
pub proof fn law_refusals_differ(a: PngError, b: PngError)
    requires
        a != b,
    ensures
        a.text() != b.text(),
{
    reveal_strlit("Failed to read magic");
    reveal_strlit("Not a valid PNG file");
    reveal_strlit("EOF reached");
    reveal_strlit("First chunk must be IHDR");
    reveal_strlit("Failed to read IHDR payload");
    reveal_strlit("Failed to read IHDR CRC");
    reveal_strlit("Corrupt IHDR chunk (CRC mismatch)");
    reveal_strlit("Adam7 Interlacing is not supported");
    reveal_strlit("Unknown color type");
    reveal_strlit("Failed to read PLTE");
    reveal_strlit("Failed to read PLTE CRC");
    reveal_strlit("Corrupt PLTE chunk (CRC mismatch)");
    reveal_strlit("Failed to read tRNS");
    reveal_strlit("Failed to read tRNS CRC");
    assert(a.text().len() != b.text().len() || a.text()[0] != b.text()[0] || a.text()[8]
        != b.text()[8] || a.text()[15] != b.text()[15]);
}

} // verus!
