//! The text of the report on an image.

use crate::metadata;
use crate::metadata::{intent_name, unit_name, AuxiliaryMetadata, ReportLine, TextChunk};
use crate::netpbm;
use crate::netpbm::{push_bytes, push_decimal, push_text};
use vstd::prelude::*;
use vstd::string::StringSliceAdditionalSpecFns;
use vstd::utf8;

verus! {

/// What the report takes from elsewhere: quotients in digits, and the time of
/// modification as it is told here.
#[derive(Debug)]
pub struct Measured {
    /// The size of the image in centimeters.
    pub width_cm: String,
    pub height_cm: String,
    /// The horizontal resolution over the vertical one.
    pub aspect_ratio: String,
    /// The time of modification; nothing where it has no one form.
    pub modified: Option<String>,
}

/// The last `width` decimal digits of a number, with zeroes in front.
pub open spec fn padded(n: nat, width: nat) -> Seq<u8>
    decreases width,
{
    if width == 0 {
        Seq::empty()
    } else {
        padded(n / 10, (width - 1) as nat).push((48 + n % 10) as u8)
    }
}

/// Adds the last `width` decimal digits of `n`, with zeroes in front.
fn push_padded(out: &mut Vec<u8>, n: u64, width: u64)
    ensures
        final(out)@ == old(out)@ + padded(n as nat, width as nat),
    decreases width,
{
    if width > 0 {
        push_padded(out, n / 10, width - 1);
        out.push((48 + n % 10) as u8);
    }
    assert(out@ =~= old(out)@ + padded(n as nat, width as nat));
}

/// A number of hundred thousandths, with five places behind the point.
pub open spec fn hundred_thousandths(n: nat) -> Seq<u8> {
    netpbm::decimal(n / 100_000) + ".".spec_bytes() + padded(n, 5)
}

/// Adds a number of hundred thousandths, with five places behind the point.
fn push_hundred_thousandths(out: &mut Vec<u8>, n: u32)
    ensures
        final(out)@ == old(out)@ + hundred_thousandths(n as nat),
{
    push_decimal(out, (n / 100_000) as u64);
    push_text(out, ".");
    push_padded(out, n as u64, 5);
    assert(out@ =~= old(out)@ + hundred_thousandths(n as nat));
}

/// The decimal digits of a number, with its sign where it is negative.
pub open spec fn signed_decimal(n: int) -> Seq<u8> {
    if n < 0 {
        "-".spec_bytes() + netpbm::decimal((-n) as nat)
    } else {
        netpbm::decimal(n as nat)
    }
}

/// Adds the decimal digits of `n`, with its sign where it is negative.
fn push_signed(out: &mut Vec<u8>, n: i64)
    ensures
        final(out)@ == old(out)@ + signed_decimal(n as int),
{
    if n < 0 {
        push_text(out, "-");
        let magnitude: u64 = (-(n + 1)) as u64 + 1;
        push_decimal(out, magnitude);
    } else {
        push_decimal(out, n as u64);
    }
    assert(out@ =~= old(out)@ + signed_decimal(n as int));
}

/// The line on the time of modification: the time as it is told here, or the
/// seconds where it has no one form.
pub open spec fn modified_text(epoch: i64, local: Option<Seq<char>>) -> Seq<u8> {
    " Modification (tIME)  : ".spec_bytes() + match local {
        Some(time) => utf8::encode_utf8(time),
        None => "Raw Timestamp Epoch (".spec_bytes() + signed_decimal(epoch as int)
            + " seconds)".spec_bytes(),
    } + "\n".spec_bytes()
}

/// Adds the line on the time of modification.
pub fn write_modified(out: &mut Vec<u8>, epoch: i64, local: Option<&str>)
    ensures
        final(out)@ == old(out)@ + modified_text(
            epoch,
            match local {
                Some(time) => Some(time@),
                None => None,
            },
        ),
{
    let ghost told: Option<Seq<char>> = match local {
        Some(time) => Some(time@),
        None => None,
    };
    let mut text: Vec<u8> = Vec::new();
    match local {
        Some(time) => {
            push_text(&mut text, time);
            assert(text@ =~= time.spec_bytes());
        },
        None => {
            push_text(&mut text, "Raw Timestamp Epoch (");
            assert(text@ =~= "Raw Timestamp Epoch (".spec_bytes());
            push_signed(&mut text, epoch);
            push_text(&mut text, " seconds)");
        },
    }
    push_text(out, " Modification (tIME)  : ");
    push_bytes(out, text.as_slice());
    push_text(out, "\n");
    assert(out@ =~= old(out)@ + modified_text(epoch, told));
}

/// The line on one of the chromaticities.
pub open spec fn point_text(name: &str, x: u32, y: u32) -> Seq<u8> {
    name.spec_bytes() + ": X=".spec_bytes() + hundred_thousandths(x as nat)
        + ", Y=".spec_bytes() + hundred_thousandths(y as nat) + "\n".spec_bytes()
}

/// Adds the line on one of the chromaticities.
fn push_point(out: &mut Vec<u8>, name: &str, x: u32, y: u32)
    ensures
        final(out)@ == old(out)@ + point_text(name, x, y),
{
    let mut text: Vec<u8> = Vec::new();
    push_text(&mut text, name);
    assert(text@ =~= name.spec_bytes());
    push_text(&mut text, ": X=");
    push_hundred_thousandths(&mut text, x);
    push_text(&mut text, ", Y=");
    push_hundred_thousandths(&mut text, y);
    push_text(&mut text, "\n");
    push_bytes(out, text.as_slice());
}

/// The lines on the chromaticities.
pub open spec fn chromaticities_text(data: [u32; 8]) -> Seq<u8> {
    " Chromaticities (cHRM):\n".spec_bytes() + point_text(
        "   White Point ",
        data[0],
        data[1],
    ) + point_text("   Red Channel ", data[2], data[3]) + point_text(
        "   Green Chan. ",
        data[4],
        data[5],
    ) + point_text("   Blue Channel", data[6], data[7])
}

/// Adds the lines on the chromaticities.
fn push_chromaticities(out: &mut Vec<u8>, data: &[u32; 8])
    ensures
        final(out)@ == old(out)@ + chromaticities_text(*data),
{
    let mut text: Vec<u8> = Vec::new();
    push_text(&mut text, " Chromaticities (cHRM):\n");
    assert(text@ =~= " Chromaticities (cHRM):\n".spec_bytes());
    push_point(&mut text, "   White Point ", data[0], data[1]);
    push_point(&mut text, "   Red Channel ", data[2], data[3]);
    push_point(&mut text, "   Green Chan. ", data[4], data[5]);
    push_point(&mut text, "   Blue Channel", data[6], data[7]);
    push_bytes(out, text.as_slice());
}

/// The two lines of the report for a text chunk: its place, its keyword and its
/// text, each whole.
pub open spec fn chunk_text(i: nat, chunk: TextChunk) -> Seq<u8> {
    "   [".spec_bytes() + netpbm::decimal(i) + "] Keyword : \"".spec_bytes() + utf8::encode_utf8(
        chunk.keyword@,
    ) + "\"\n       Text    : \"".spec_bytes() + utf8::encode_utf8(chunk.text@)
        + "\"\n".spec_bytes()
}

/// Adds the two lines of the report for a text chunk.
pub fn text_lines(out: &mut Vec<u8>, i: usize, chunk: &TextChunk)
    ensures
        final(out)@ == old(out)@ + chunk_text(i as nat, *chunk),
{
    let mut text: Vec<u8> = Vec::new();
    push_text(&mut text, "   [");
    assert(text@ =~= "   [".spec_bytes());
    push_decimal(&mut text, i as u64);
    push_text(&mut text, "] Keyword : \"");
    push_text(&mut text, chunk.keyword.as_str());
    push_text(&mut text, "\"\n       Text    : \"");
    push_text(&mut text, chunk.text.as_str());
    push_text(&mut text, "\"\n");
    push_bytes(out, text.as_slice());
}

/// Bytes in decimal, with commas between them.
pub open spec fn byte_list(bytes: Seq<u8>) -> Seq<u8>
    decreases bytes.len(),
{
    if bytes.len() == 0 {
        Seq::empty()
    } else if bytes.len() == 1 {
        netpbm::decimal(bytes[0] as nat)
    } else {
        byte_list(bytes.drop_last()) + ", ".spec_bytes() + netpbm::decimal(bytes.last() as nat)
    }
}

/// Adds bytes in decimal, with commas between them.
fn push_byte_list(out: &mut Vec<u8>, bytes: &[u8])
    ensures
        final(out)@ == old(out)@ + byte_list(bytes@),
{
    let ghost before = out@;
    let mut i: usize = 0;
    assert(bytes@.take(0).len() == 0);
    assert(out@ =~= before + byte_list(bytes@.take(0)));
    while i < bytes.len()
        invariant
            i <= bytes@.len(),
            out@ == before + byte_list(bytes@.take(i as int)),
        decreases bytes@.len() - i,
    {
        let ghost done = bytes@.take(i as int);
        let ghost more = bytes@.take(i + 1);
        assert(more.drop_last() =~= done);
        if i > 0 {
            push_text(out, ", ");
        }
        push_decimal(out, bytes[i] as u64);
        i += 1;
        assert(out@ =~= before + byte_list(more));
    }
    assert(bytes@.take(i as int) =~= bytes@);
}

impl AuxiliaryMetadata {
    /// The text of an entry of the report; nothing for a text chunk that is not
    /// there.
    pub open spec fn line_text(self, line: ReportLine, measured: Measured) -> Seq<u8> {
        match line {
            ReportLine::Gamma(gamma) => " Gamma (gAMA)         : ".spec_bytes()
                + hundred_thousandths(gamma as nat) + "\n".spec_bytes(),
            ReportLine::Intent(intent) => " sRGB Intent          : ".spec_bytes()
                + metadata::intent_text(intent).spec_bytes() + " (".spec_bytes()
                + netpbm::decimal(intent as nat) + ")\n".spec_bytes(),
            ReportLine::Chromaticities(data) => chromaticities_text(data),
            ReportLine::Resolution {
                x,
                y,
                unit,
            } => "  Physical pixel dimensions (pHYs):\n   Resolution: ".spec_bytes()
                + netpbm::decimal(x as nat) + " x ".spec_bytes() + netpbm::decimal(y as nat)
                + " ".spec_bytes() + metadata::unit_text(unit).spec_bytes() + "\n".spec_bytes(),
            ReportLine::Size { .. } => "   Size: ".spec_bytes() + utf8::encode_utf8(
                measured.width_cm@,
            ) + " cm x ".spec_bytes() + utf8::encode_utf8(measured.height_cm@)
                + " cm\n".spec_bytes(),
            ReportLine::AspectRatio { .. } => "   Aspect ratio: ".spec_bytes()
                + utf8::encode_utf8(measured.aspect_ratio@) + "\n".spec_bytes(),
            ReportLine::HistogramLen(
                len,
            ) => " Histogram (hIST)     : [Large Block - Elements: ".spec_bytes()
                + netpbm::decimal(len as nat) + "]\n".spec_bytes(),
            ReportLine::Background => " Background (bKGD)    : Raw Payload Bytes [".spec_bytes()
                + byte_list(self.bkgd_bytes@) + "]\n".spec_bytes(),
            ReportLine::Modified(epoch) => modified_text(
                epoch,
                match measured.modified {
                    Some(time) => Some(time@),
                    None => None,
                },
            ),
            ReportLine::TextHeading => " Text Content Fields  :\n".spec_bytes(),
            ReportLine::Text(i) => if i < self.text_chunks@.len() {
                chunk_text(i as nat, self.text_chunks@[i as int])
            } else {
                Seq::empty()
            },
        }
    }

    /// Adds the text of an entry of the report.
    pub fn write_line(&self, out: &mut Vec<u8>, line: ReportLine, measured: &Measured)
        ensures
            final(out)@ == old(out)@ + self.line_text(line, *measured),
    {
        let mut text: Vec<u8> = Vec::new();
        match line {
            ReportLine::Gamma(gamma) => {
                push_text(&mut text, " Gamma (gAMA)         : ");
                assert(text@ =~= " Gamma (gAMA)         : ".spec_bytes());
                push_hundred_thousandths(&mut text, gamma);
                push_text(&mut text, "\n");
            },
            ReportLine::Intent(intent) => {
                push_text(&mut text, " sRGB Intent          : ");
                assert(text@ =~= " sRGB Intent          : ".spec_bytes());
                push_text(&mut text, intent_name(intent));
                push_text(&mut text, " (");
                push_decimal(&mut text, intent as u64);
                push_text(&mut text, ")\n");
            },
            ReportLine::Chromaticities(data) => {
                push_chromaticities(&mut text, &data);
                assert(text@ =~= chromaticities_text(data));
            },
            ReportLine::Resolution { x, y, unit } => {
                push_text(&mut text, "  Physical pixel dimensions (pHYs):\n   Resolution: ");
                assert(text@
                    =~= "  Physical pixel dimensions (pHYs):\n   Resolution: ".spec_bytes());
                push_decimal(&mut text, x as u64);
                push_text(&mut text, " x ");
                push_decimal(&mut text, y as u64);
                push_text(&mut text, " ");
                push_text(&mut text, unit_name(unit));
                push_text(&mut text, "\n");
            },
            ReportLine::Size { .. } => {
                push_text(&mut text, "   Size: ");
                assert(text@ =~= "   Size: ".spec_bytes());
                push_text(&mut text, measured.width_cm.as_str());
                push_text(&mut text, " cm x ");
                push_text(&mut text, measured.height_cm.as_str());
                push_text(&mut text, " cm\n");
            },
            ReportLine::AspectRatio { .. } => {
                push_text(&mut text, "   Aspect ratio: ");
                assert(text@ =~= "   Aspect ratio: ".spec_bytes());
                push_text(&mut text, measured.aspect_ratio.as_str());
                push_text(&mut text, "\n");
            },
            ReportLine::HistogramLen(len) => {
                push_text(&mut text, " Histogram (hIST)     : [Large Block - Elements: ");
                assert(text@
                    =~= " Histogram (hIST)     : [Large Block - Elements: ".spec_bytes());
                push_decimal(&mut text, len as u64);
                push_text(&mut text, "]\n");
            },
            ReportLine::Background => {
                push_text(&mut text, " Background (bKGD)    : Raw Payload Bytes [");
                assert(text@ =~= " Background (bKGD)    : Raw Payload Bytes [".spec_bytes());
                push_byte_list(&mut text, self.bkgd_bytes.as_slice());
                push_text(&mut text, "]\n");
            },
            ReportLine::Modified(epoch) => {
                let local: Option<&str> = match &measured.modified {
                    Some(time) => Some(time.as_str()),
                    None => None,
                };
                write_modified(&mut text, epoch, local);
                assert(text@ =~= self.line_text(line, *measured));
            },
            ReportLine::TextHeading => {
                push_text(&mut text, " Text Content Fields  :\n");
                assert(text@ =~= " Text Content Fields  :\n".spec_bytes());
            },
            ReportLine::Text(i) => {
                if i < self.text_chunks.len() {
                    text_lines(&mut text, i, &self.text_chunks[i]);
                }
                assert(text@ =~= self.line_text(line, *measured));
            },
        }
        push_bytes(out, text.as_slice());
    }

    /// The texts of entries of the report, end to end.
    pub open spec fn lines_text(self, lines: Seq<ReportLine>, measured: Measured) -> Seq<u8>
        decreases lines.len(),
    {
        if lines.len() == 0 {
            Seq::empty()
        } else {
            self.lines_text(lines.drop_last(), measured) + self.line_text(lines.last(), measured)
        }
    }

    /// The text of the report on an image of the given size.
    pub open spec fn report_text(self, width: u32, height: u32, measured: Measured) -> Seq<u8> {
        "\n================= PNG METADATA REPORT =================\n".spec_bytes()
            + self.lines_text(self.full_report(width, height), measured)
            + "=======================================================\n\n".spec_bytes()
    }

    /// Adds the text of the report on an image of the given size.
    pub fn write_report(&self, out: &mut Vec<u8>, width: u32, height: u32, measured: &Measured)
        ensures
            final(out)@ == old(out)@ + self.report_text(width, height, *measured),
    {
        let lines: Vec<ReportLine> = self.report(width, height);
        let mut text: Vec<u8> = Vec::new();
        let mut i: usize = 0;
        assert(text@ =~= self.lines_text(lines@.take(0), *measured));
        while i < lines.len()
            invariant
                i <= lines@.len(),
                text@ == self.lines_text(lines@.take(i as int), *measured),
            decreases lines@.len() - i,
        {
            self.write_line(&mut text, lines[i], measured);
            i += 1;
            assert(lines@.take(i as int).drop_last() =~= lines@.take(i - 1));
        }
        assert(lines@.take(i as int) =~= lines@);
        push_text(out, "\n================= PNG METADATA REPORT =================\n");
        push_bytes(out, text.as_slice());
        push_text(out, "=======================================================\n\n");
        assert(out@ =~= old(out)@ + self.report_text(width, height, *measured));
    }
}

/// Law: the texts in the report are not cut short: each line of a text chunk
/// holds its keyword and its text whole.
pub proof fn law_texts_reported_whole(
    meta: AuxiliaryMetadata,
    width: u32,
    height: u32,
    measured: Measured,
    i: int,
)
    requires
        0 <= i < meta.text_chunks@.len() <= usize::MAX,
    ensures
        ({
            let report = meta.full_report(width, height);
            let line = report[report.len() - meta.text_chunks@.len() + i];
            meta.line_text(line, measured) == chunk_text(i as nat, meta.text_chunks@[i])
        }),
{
    metadata::law_every_text_reported(meta, width, height, i);
}

} // verus!
