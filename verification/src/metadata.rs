//! What a PNG image can say of itself besides its pixels, and the report on
//! it.

use vstd::prelude::*;

verus! {

/// A keyword with its text.
#[derive(Debug)]
pub struct TextChunk {
    pub keyword: String,
    pub text: String,
}

/// The contents of the ancillary chunks of an image.
#[derive(Debug)]
pub struct AuxiliaryMetadata {
    pub has_gamma: bool,
    /// In hundred thousandths.
    pub gamma: u32,
    pub has_srgb: bool,
    pub srgb_intent: u8,
    pub has_chrm: bool,
    /// White, red, green and blue, each x before y, in hundred thousandths.
    pub chrm_data: [u32; 8],
    pub has_phys: bool,
    pub phys_x: u32,
    pub phys_y: u32,
    pub phys_unit: u8,
    pub histogram: Vec<u16>,
    pub bkgd_bytes: Vec<u8>,
    pub has_time: bool,
    /// In seconds.
    pub unix_epoch: i64,
    pub text_chunks: Vec<TextChunk>,
}

/// An entry of the report.
#[derive(Clone, Copy, Debug, PartialEq, Eq)]
pub enum ReportLine {
    Gamma(u32),
    Intent(u8),
    Chromaticities([u32; 8]),
    Resolution { x: u32, y: u32, unit: u8 },
    /// The image measures `width / x` by `height / y` meters.
    Size { width: u32, height: u32, x: u32, y: u32 },
    AspectRatio { x: u32, y: u32 },
    HistogramLen(usize),
    Background,
    Modified(i64),
    TextHeading,
    /// The text chunk of that index.
    Text(usize),
}

impl AuxiliaryMetadata {
    /// Nothing is said besides the pixels.
    pub open spec fn is_empty(self) -> bool {
        &&& !self.has_gamma
        &&& !self.has_srgb
        &&& !self.has_chrm
        &&& !self.has_phys
        &&& self.histogram@.len() == 0
        &&& self.bkgd_bytes@.len() == 0
        &&& !self.has_time
        &&& self.text_chunks@.len() == 0
    }

    /// Nothing is said besides the pixels.
    pub fn new() -> (meta: AuxiliaryMetadata)
        ensures
            meta.is_empty(),
            meta.gamma == 0,
            meta.srgb_intent == 0,
            forall|i: int| 0 <= i < 8 ==> #[trigger] meta.chrm_data@[i] == 0,
            meta.phys_x == 0,
            meta.phys_y == 0,
            meta.phys_unit == 0,
            meta.unix_epoch == 0,
    {
        AuxiliaryMetadata {
            has_gamma: false,
            gamma: 0,
            has_srgb: false,
            srgb_intent: 0,
            has_chrm: false,
            chrm_data: [0, 0, 0, 0, 0, 0, 0, 0],
            has_phys: false,
            phys_x: 0,
            phys_y: 0,
            phys_unit: 0,
            histogram: Vec::new(),
            bkgd_bytes: Vec::new(),
            has_time: false,
            unix_epoch: 0,
            text_chunks: Vec::new(),
        }
    }

    /// The report on gamma, rendering intent and chromaticities.
    pub open spec fn color_report(self) -> Seq<ReportLine> {
        (if self.has_gamma {
            seq![ReportLine::Gamma(self.gamma)]
        } else {
            seq![]
        }) + (if self.has_srgb {
            seq![ReportLine::Intent(self.srgb_intent)]
        } else {
            seq![]
        }) + (if self.has_chrm {
            seq![ReportLine::Chromaticities(self.chrm_data)]
        } else {
            seq![]
        })
    }

    /// The report on the size of a pixel. The size of the image needs the unit
    /// and both resolutions, the aspect ratio the vertical one.
    pub open spec fn size_report(self, width: u32, height: u32) -> Seq<ReportLine> {
        let (x, y) = (self.phys_x, self.phys_y);
        if self.has_phys {
            seq![ReportLine::Resolution { x, y, unit: self.phys_unit }] + (if self.phys_unit == 1
                && x > 0 && y > 0 {
                seq![ReportLine::Size { width, height, x, y }]
            } else {
                seq![]
            }) + (if y > 0 {
                seq![ReportLine::AspectRatio { x, y }]
            } else {
                seq![]
            })
        } else {
            seq![]
        }
    }

    /// The report on histogram, background and time. Of the histogram only the
    /// length is given.
    pub open spec fn content_report(self) -> Seq<ReportLine> {
        (if self.histogram@.len() > 0 {
            seq![ReportLine::HistogramLen(self.histogram@.len() as usize)]
        } else {
            seq![]
        }) + (if self.bkgd_bytes@.len() > 0 {
            seq![ReportLine::Background]
        } else {
            seq![]
        }) + (if self.has_time {
            seq![ReportLine::Modified(self.unix_epoch)]
        } else {
            seq![]
        })
    }

    /// The report on the texts: every one of them, in order.
    pub open spec fn text_report(self) -> Seq<ReportLine> {
        if self.text_chunks@.len() > 0 {
            seq![ReportLine::TextHeading] + Seq::new(
                self.text_chunks@.len(),
                |i: int| ReportLine::Text(i as usize),
            )
        } else {
            seq![]
        }
    }

    /// The report on an image of the given size.
    pub open spec fn full_report(self, width: u32, height: u32) -> Seq<ReportLine> {
        self.color_report() + self.size_report(width, height) + self.content_report()
            + self.text_report()
    }

    /// Adds the report on gamma, rendering intent and chromaticities.
    fn add_color_report(&self, lines: &mut Vec<ReportLine>)
        ensures
            final(lines)@ == old(lines)@ + self.color_report(),
    {
        if self.has_gamma {
            lines.push(ReportLine::Gamma(self.gamma));
        }
        if self.has_srgb {
            lines.push(ReportLine::Intent(self.srgb_intent));
        }
        if self.has_chrm {
            lines.push(ReportLine::Chromaticities(self.chrm_data));
        }
        assert(lines@ =~= old(lines)@ + self.color_report());
    }

    /// Adds the report on the size of a pixel.
    fn add_size_report(&self, lines: &mut Vec<ReportLine>, width: u32, height: u32)
        ensures
            final(lines)@ == old(lines)@ + self.size_report(width, height),
    {
        if self.has_phys {
            let x: u32 = self.phys_x;
            let y: u32 = self.phys_y;
            lines.push(ReportLine::Resolution { x, y, unit: self.phys_unit });
            if self.phys_unit == 1 && x > 0 && y > 0 {
                lines.push(ReportLine::Size { width, height, x, y });
            }
            if y > 0 {
                lines.push(ReportLine::AspectRatio { x, y });
            }
        }
        assert(lines@ =~= old(lines)@ + self.size_report(width, height));
    }

    /// Adds the report on histogram, background and time.
    fn add_content_report(&self, lines: &mut Vec<ReportLine>)
        ensures
            final(lines)@ == old(lines)@ + self.content_report(),
    {
        if self.histogram.len() > 0 {
            lines.push(ReportLine::HistogramLen(self.histogram.len()));
        }
        if self.bkgd_bytes.len() > 0 {
            lines.push(ReportLine::Background);
        }
        if self.has_time {
            lines.push(ReportLine::Modified(self.unix_epoch));
        }
        assert(lines@ =~= old(lines)@ + self.content_report());
    }

    /// Adds the report on the texts.
    fn add_text_report(&self, lines: &mut Vec<ReportLine>)
        ensures
            final(lines)@ == old(lines)@ + self.text_report(),
    {
        let ghost texts = self.text_report();
        if self.text_chunks.len() > 0 {
            lines.push(ReportLine::TextHeading);
            assert(lines@ =~= old(lines)@ + texts.take(1));
            let mut i: usize = 0;
            while i < self.text_chunks.len()
                invariant
                    i <= self.text_chunks@.len(),
                    0 < self.text_chunks@.len(),
                    texts == self.text_report(),
                    lines@ == old(lines)@ + texts.take(1 + i),
                decreases self.text_chunks@.len() - i,
            {
                lines.push(ReportLine::Text(i));
                i += 1;
                assert(lines@ =~= old(lines)@ + texts.take(1 + i));
            }
            assert(texts.take(1 + i) =~= texts);
        }
        assert(lines@ =~= old(lines)@ + texts);
    }

    /// The report on an image of the given size.
    pub fn report(&self, width: u32, height: u32) -> (lines: Vec<ReportLine>)
        ensures
            lines@ == self.full_report(width, height),
    {
        let mut lines: Vec<ReportLine> = Vec::new();
        self.add_color_report(&mut lines);
        self.add_size_report(&mut lines, width, height);
        self.add_content_report(&mut lines);
        self.add_text_report(&mut lines);
        assert(lines@ =~= self.full_report(width, height));
        lines
    }
}

/// The name of a rendering intent.
pub open spec fn intent_text(intent: u8) -> &'static str {
    if intent == 0 {
        "Perceptual"
    } else if intent == 1 {
        "Relative Colorimetric"
    } else if intent == 2 {
        "Saturation"
    } else if intent == 3 {
        "Absolute Colorimetric"
    } else {
        "Unknown/Reserved"
    }
}

/// The name of a rendering intent.
pub fn intent_name(intent: u8) -> (name: &'static str)
    ensures
        name@ == intent_text(intent)@,
{
    match intent {
        0 => "Perceptual",
        1 => "Relative Colorimetric",
        2 => "Saturation",
        3 => "Absolute Colorimetric",
        _ => "Unknown/Reserved",
    }
}

/// The name of the unit that resolutions are given in.
pub open spec fn unit_text(unit: u8) -> &'static str {
    if unit == 1 {
        "pixels/meter"
    } else {
        "unknown"
    }
}

/// The name of the unit that resolutions are given in.
pub fn unit_name(unit: u8) -> (name: &'static str)
    ensures
        name == unit_text(unit),
{
    if unit == 1 {
        "pixels/meter"
    } else {
        "unknown"
    }
}

/// Law: an image that says nothing besides its pixels has an empty report.
pub proof fn law_nothing_to_report(meta: AuxiliaryMetadata, width: u32, height: u32)
    ensures
        meta.full_report(width, height).len() == 0 <==> meta.is_empty(),
{
}

/// Law: every text is in the report, at its own place and none twice.
pub proof fn law_every_text_reported(meta: AuxiliaryMetadata, width: u32, height: u32, i: int)
    requires
        0 <= i < meta.text_chunks@.len() <= usize::MAX,
    ensures
        meta.full_report(width, height)[meta.full_report(width, height).len()
            - meta.text_chunks@.len() + i] == ReportLine::Text(i as usize),
        forall|j: int|
            0 <= j < meta.full_report(width, height).len() && j != meta.full_report(
                width,
                height,
            ).len() - meta.text_chunks@.len() + i ==> #[trigger] meta.full_report(
                width,
                height,
            )[j] != ReportLine::Text(i as usize),
{
    let r = meta.full_report(width, height);
    let texts = meta.text_report();
    let front = meta.color_report() + meta.size_report(width, height) + meta.content_report();
    assert(r == front + texts);
    lemma_no_text_in_front(meta, width, height);
    assert forall|j: int| 0 <= j < r.len() && j != front.len() + 1 + i implies r[j]
        != ReportLine::Text(i as usize) by {
        if j < front.len() {
            assert(r[j] == front[j]);
        } else {
            assert(r[j] == texts[j - front.len()]);
        }
    }
}

/// Only the report on the texts holds texts.
proof fn lemma_no_text_in_front(meta: AuxiliaryMetadata, width: u32, height: u32)
    ensures
        ({
            let front = meta.color_report() + meta.size_report(width, height)
                + meta.content_report();
            forall|j: int| 0 <= j < front.len() ==> !(#[trigger] front[j] is Text)
        }),
{
    assert(forall|j: int|
        0 <= j < meta.color_report().len() ==> !(#[trigger] meta.color_report()[j] is Text));
    assert(forall|j: int|
        0 <= j < meta.size_report(width, height).len() ==> !(#[trigger] meta.size_report(
            width,
            height,
        )[j] is Text));
    assert(forall|j: int|
        0 <= j < meta.content_report().len() ==> !(#[trigger] meta.content_report()[j] is Text));
}

/// Law: the report does not depend on what the histogram holds, only on how
/// long it is.
pub proof fn law_histogram_contents_unreported(
    a: AuxiliaryMetadata,
    b: AuxiliaryMetadata,
    width: u32,
    height: u32,
)
    requires
        a.histogram@.len() == b.histogram@.len(),
        a == (AuxiliaryMetadata { histogram: a.histogram, ..b }),
    ensures
        a.full_report(width, height) == b.full_report(width, height),
{
}

} // verus!
