//! Opening a PNG stream: everything up to the first image data chunk.

use crate::checksum;
use crate::checksum::chunk_crc;
use crate::decoder::{DecoderView, PngDecoder};
use crate::error::PngError;
use crate::header;
use crate::header::{
    add_palette_entries,
    crc_matches,
    is_png_magic,
    kind_of,
    parse_ihdr,
    ChunkKind,
    Header,
};
use crate::stream::Reply;
use vstd::prelude::*;

verus! {

/// What is awaited while a stream is opened.
#[derive(Clone, Copy, Debug, PartialEq, Eq, Structural)]
pub enum OpenStage {
    Magic,
    IhdrHead,
    IhdrData,
    IhdrCrc,
    ChunkHead,
    PlteData,
    PlteCrc,
    TrnsData,
    TrnsCrc,
    SkippedData,
    SkippedCrc,
}

/// A PNG stream being opened.
#[derive(Debug)]
pub struct Opening {
    stage: OpenStage,
    wanted: usize,
    held: Vec<u8>,
    header: Header,
    palette: Vec<[u8; 3]>,
    transparency: Vec<u8>,
}

/// An opening as a value.
pub struct OpeningView {
    pub stage: OpenStage,
    /// How many bytes are asked for.
    pub wanted: nat,
    /// The data of a chunk whose checksum is awaited.
    pub held: Seq<u8>,
    pub header: Header,
    pub palette: Seq<[u8; 3]>,
    pub transparency: Seq<u8>,
}

/// How the opening of a stream goes on.
pub enum OpenStep {
    /// More of the stream is needed.
    Need(Opening),
    /// The stream is open, at its first image data chunk.
    Opened(PngDecoder),
    /// The stream is refused.
    Failed(PngError),
    /// A size is out of the machine's range.
    TooLarge,
}

/// How the opening of a stream goes on, as a value.
pub enum OpenNext {
    Need(OpeningView),
    Opened(DecoderView),
    Failed(PngError),
    TooLarge,
}

impl View for Opening {
    type V = OpeningView;

    closed spec fn view(&self) -> OpeningView {
        OpeningView {
            stage: self.stage,
            wanted: self.wanted as nat,
            held: self.held@,
            header: self.header,
            palette: self.palette@,
            transparency: self.transparency@,
        }
    }
}

impl View for OpenStep {
    type V = OpenNext;

    open spec fn view(&self) -> OpenNext {
        match self {
            OpenStep::Need(opening) => OpenNext::Need(opening@),
            OpenStep::Opened(decoder) => OpenNext::Opened(decoder@),
            OpenStep::Failed(error) => OpenNext::Failed(*error),
            OpenStep::TooLarge => OpenNext::TooLarge,
        }
    }
}

impl OpeningView {
    /// The opening of a stream of which nothing is read.
    pub open spec fn start() -> OpeningView {
        OpeningView {
            stage: OpenStage::Magic,
            wanted: 8,
            held: Seq::empty(),
            header: Header { width: 0, height: 0, bit_depth: 0, color_type: 0 },
            palette: Seq::empty(),
            transparency: Seq::empty(),
        }
    }

    /// A state that an opening can be in.
    pub open spec fn wf(self) -> bool {
        match self.stage {
            OpenStage::Magic | OpenStage::IhdrHead | OpenStage::ChunkHead => self.wanted == 8,
            OpenStage::IhdrData => self.wanted == header::IHDR_LEN,
            OpenStage::IhdrCrc => self.wanted == 4 && self.held.len() == header::IHDR_LEN,
            OpenStage::PlteCrc | OpenStage::TrnsCrc | OpenStage::SkippedCrc => self.wanted == 4,
            OpenStage::PlteData | OpenStage::TrnsData | OpenStage::SkippedData => true,
        }
    }

    /// Whether `reply` answers what is asked for.
    pub open spec fn answers(self, reply: Option<Seq<u8>>) -> bool {
        reply matches Some(bytes) ==> bytes.len() == self.wanted
    }

    /// `len` bytes are asked for.
    pub open spec fn asking(self, stage: OpenStage, len: nat) -> OpenNext {
        OpenNext::Need(OpeningView { stage, wanted: len, ..self })
    }

    /// `data` is kept until its checksum, which is asked for.
    pub open spec fn holding(self, stage: OpenStage, data: Seq<u8>) -> OpenNext {
        OpenNext::Need(OpeningView { stage, wanted: 4, held: data, ..self })
    }

    /// A chunk of type `name` begins, with `len` bytes of data.
    pub open spec fn at_chunk(self, len: nat, name: Seq<u8>) -> OpenNext {
        match header::chunk_kind(name) {
            ChunkKind::Plte => self.asking(OpenStage::PlteData, len),
            ChunkKind::Trns => self.asking(OpenStage::TrnsData, len),
            ChunkKind::Idat => if self.header.measurable(self.transparency.len() > 0) {
                OpenNext::Opened(
                    DecoderView::fresh(self.header, self.palette, self.transparency, len),
                )
            } else {
                OpenNext::TooLarge
            },
            _ => self.asking(OpenStage::SkippedData, len),
        }
    }

    /// The image header is held, and its checksum is stored as `stored`.
    pub open spec fn with_header(self, stored: Seq<u8>) -> OpenNext {
        let sum = checksum::crc32(header::ihdr_type() + self.held);
        match header::header_in(self.held, stored, sum) {
            Ok(header) => (OpeningView { header, ..self }).asking(OpenStage::ChunkHead, 8),
            Err(error) => OpenNext::Failed(error),
        }
    }

    /// The data of a palette chunk is held, and its checksum is stored as
    /// `stored`.
    pub open spec fn with_palette(self, stored: Seq<u8>) -> OpenNext {
        if checksum::crc32(header::plte_type() + self.held) == header::be_u32(stored, 0) {
            (OpeningView {
                palette: self.palette + header::palette_entries(self.held),
                ..self
            }).asking(OpenStage::ChunkHead, 8)
        } else {
            OpenNext::Failed(PngError::PlteCorrupt)
        }
    }

    /// The data of a transparency chunk is held, and its checksum is stored as
    /// `stored`. A corrupt one is passed over.
    pub open spec fn with_transparency(self, stored: Seq<u8>) -> OpenNext {
        if checksum::crc32(header::trns_type() + self.held) == header::be_u32(stored, 0) {
            (OpeningView { transparency: self.held, ..self }).asking(OpenStage::ChunkHead, 8)
        } else {
            self.asking(OpenStage::ChunkHead, 8)
        }
    }

    /// The stream answers with `reply`.
    pub open spec fn resumed(self, reply: Option<Seq<u8>>) -> OpenNext {
        match (self.stage, reply) {
            (OpenStage::Magic, Some(magic)) => if magic == header::PNG_MAGIC@ {
                self.asking(OpenStage::IhdrHead, 8)
            } else {
                OpenNext::Failed(PngError::NotPng)
            },
            (OpenStage::Magic, None) => OpenNext::Failed(PngError::MagicUnreadable),
            (OpenStage::IhdrHead, Some(head)) => if header::chunk_kind(head.subrange(4, 8))
                == ChunkKind::Ihdr && header::be_u32(head, 0) == header::IHDR_LEN {
                self.asking(OpenStage::IhdrData, header::IHDR_LEN as nat)
            } else {
                OpenNext::Failed(PngError::IhdrMissing)
            },
            (OpenStage::IhdrHead, None) => OpenNext::Failed(PngError::EndOfFile),
            (OpenStage::IhdrData, Some(ihdr)) => self.holding(OpenStage::IhdrCrc, ihdr),
            (OpenStage::IhdrData, None) => OpenNext::Failed(PngError::IhdrUnreadable),
            (OpenStage::IhdrCrc, Some(stored)) => self.with_header(stored),
            (OpenStage::IhdrCrc, None) => OpenNext::Failed(PngError::IhdrCrcUnreadable),
            (OpenStage::ChunkHead, Some(head)) => self.at_chunk(
                header::be_u32(head, 0) as nat,
                head.subrange(4, 8),
            ),
            (OpenStage::ChunkHead, None) => OpenNext::Failed(PngError::EndOfFile),
            (OpenStage::PlteData, Some(data)) => self.holding(OpenStage::PlteCrc, data),
            (OpenStage::PlteData, None) => OpenNext::Failed(PngError::PlteUnreadable),
            (OpenStage::PlteCrc, Some(stored)) => self.with_palette(stored),
            (OpenStage::PlteCrc, None) => OpenNext::Failed(PngError::PlteCrcUnreadable),
            (OpenStage::TrnsData, Some(data)) => self.holding(OpenStage::TrnsCrc, data),
            (OpenStage::TrnsData, None) => OpenNext::Failed(PngError::TrnsUnreadable),
            (OpenStage::TrnsCrc, Some(stored)) => self.with_transparency(stored),
            (OpenStage::TrnsCrc, None) => OpenNext::Failed(PngError::TrnsCrcUnreadable),
            (OpenStage::SkippedData, _) => self.asking(OpenStage::SkippedCrc, 4),
            (OpenStage::SkippedCrc, _) => self.asking(OpenStage::ChunkHead, 8),
        }
    }
}

impl OpenNext {
    /// What an opening comes to is sound.
    pub open spec fn wf(self) -> bool {
        match self {
            OpenNext::Need(opening) => opening.wf(),
            OpenNext::Opened(decoder) => decoder.wf(),
            _ => true,
        }
    }
}

impl PngDecoder {
    /// Starts to open a stream. How many bytes of it are needed next is
    /// `Opening::wanted`, and they are handed to `Opening::resume`.
    pub fn new() -> (opening: Opening)
        ensures
            opening@ == OpeningView::start(),
            opening@.wf(),
    {
        let opening = Opening {
            stage: OpenStage::Magic,
            wanted: 8,
            held: Vec::new(),
            header: Header { width: 0, height: 0, bit_depth: 0, color_type: 0 },
            palette: Vec::new(),
            transparency: Vec::new(),
        };
        assert(opening@.palette =~= Seq::empty());
        opening
    }
}

impl Opening {
    /// How many bytes of the stream are needed next.
    pub fn wanted(&self) -> (len: usize)
        ensures
            len == self@.wanted,
    {
        self.wanted
    }

    fn ask(self, stage: OpenStage, len: usize) -> (step: OpenStep)
        ensures
            step@ == self@.asking(stage, len as nat),
    {
        let mut opening = self;
        opening.stage = stage;
        opening.wanted = len;
        OpenStep::Need(opening)
    }

    fn hold(self, stage: OpenStage, data: Vec<u8>) -> (step: OpenStep)
        ensures
            step@ == self@.holding(stage, data@),
    {
        let mut opening = self;
        opening.stage = stage;
        opening.wanted = 4;
        opening.held = data;
        OpenStep::Need(opening)
    }

    fn enter_chunk(self, len: usize, name: &[u8]) -> (step: OpenStep)
        ensures
            step@ == self@.at_chunk(len as nat, name@),
            step@.wf(),
    {
        match kind_of(name) {
            ChunkKind::Plte => self.ask(OpenStage::PlteData, len),
            ChunkKind::Trns => self.ask(OpenStage::TrnsData, len),
            ChunkKind::Idat => {
                match PngDecoder::at_image_data(
                    self.header,
                    self.palette,
                    self.transparency,
                    len,
                ) {
                    Some(decoder) => OpenStep::Opened(decoder),
                    None => OpenStep::TooLarge,
                }
            },
            _ => self.ask(OpenStage::SkippedData, len),
        }
    }

    fn take_header(self, stored: &[u8]) -> (step: OpenStep)
        requires
            self@.held.len() == header::IHDR_LEN,
            stored@.len() == 4,
        ensures
            step@ == self@.with_header(stored@),
            step@.wf(),
    {
        let mut opening = self;
        let name: [u8; 4] = [73u8, 72u8, 68u8, 82u8];
        assert(name@ =~= header::ihdr_type());
        let sum: u32 = chunk_crc(name.as_slice(), opening.held.as_slice());
        match parse_ihdr(opening.held.as_slice(), stored, sum) {
            Ok(header) => {
                opening.header = header;
                opening.ask(OpenStage::ChunkHead, 8)
            },
            Err(error) => OpenStep::Failed(error),
        }
    }

    fn take_palette(self, stored: &[u8]) -> (step: OpenStep)
        requires
            stored@.len() == 4,
        ensures
            step@ == self@.with_palette(stored@),
            step@.wf(),
    {
        let mut opening = self;
        let name: [u8; 4] = [80u8, 76u8, 84u8, 69u8];
        assert(name@ =~= header::plte_type());
        let sum: u32 = chunk_crc(name.as_slice(), opening.held.as_slice());
        if crc_matches(stored, sum) {
            add_palette_entries(&mut opening.palette, opening.held.as_slice());
            opening.ask(OpenStage::ChunkHead, 8)
        } else {
            OpenStep::Failed(PngError::PlteCorrupt)
        }
    }

    fn take_transparency(self, stored: &[u8]) -> (step: OpenStep)
        requires
            stored@.len() == 4,
        ensures
            step@ == self@.with_transparency(stored@),
            step@.wf(),
    {
        let mut opening = self;
        let name: [u8; 4] = [116u8, 82u8, 78u8, 83u8];
        assert(name@ =~= header::trns_type());
        let sum: u32 = chunk_crc(name.as_slice(), opening.held.as_slice());
        if crc_matches(stored, sum) {
            opening.transparency = opening.held.clone();
        }
        opening.ask(OpenStage::ChunkHead, 8)
    }

    /// Goes on with the opening, now that the stream has answered.
    pub fn resume(self, reply: Reply) -> (step: OpenStep)
        requires
            self@.wf(),
            self@.answers(reply.bytes()),
        ensures
            step@ == self@.resumed(reply.bytes()),
            step@.wf(),
    {
        match self.stage {
            OpenStage::Magic => match reply {
                Reply::Bytes(magic) => {
                    if is_png_magic(magic.as_slice()) {
                        self.ask(OpenStage::IhdrHead, 8)
                    } else {
                        OpenStep::Failed(PngError::NotPng)
                    }
                },
                Reply::Failed => OpenStep::Failed(PngError::MagicUnreadable),
            },
            OpenStage::IhdrHead => match PngDecoder::read_chunk_header(&reply) {
                Ok((len, name)) => {
                    if kind_of(name.as_slice()) == ChunkKind::Ihdr && len == header::IHDR_LEN {
                        self.ask(OpenStage::IhdrData, header::IHDR_LEN)
                    } else {
                        OpenStep::Failed(PngError::IhdrMissing)
                    }
                },
                Err(error) => OpenStep::Failed(error),
            },
            OpenStage::IhdrData => match reply {
                Reply::Bytes(ihdr) => self.hold(OpenStage::IhdrCrc, ihdr),
                Reply::Failed => OpenStep::Failed(PngError::IhdrUnreadable),
            },
            OpenStage::IhdrCrc => match reply {
                Reply::Bytes(stored) => self.take_header(stored.as_slice()),
                Reply::Failed => OpenStep::Failed(PngError::IhdrCrcUnreadable),
            },
            OpenStage::ChunkHead => match PngDecoder::read_chunk_header(&reply) {
                Ok((len, name)) => self.enter_chunk(len, name.as_slice()),
                Err(error) => OpenStep::Failed(error),
            },
            OpenStage::PlteData => match reply {
                Reply::Bytes(data) => self.hold(OpenStage::PlteCrc, data),
                Reply::Failed => OpenStep::Failed(PngError::PlteUnreadable),
            },
            OpenStage::PlteCrc => match reply {
                Reply::Bytes(stored) => self.take_palette(stored.as_slice()),
                Reply::Failed => OpenStep::Failed(PngError::PlteCrcUnreadable),
            },
            OpenStage::TrnsData => match reply {
                Reply::Bytes(data) => self.hold(OpenStage::TrnsCrc, data),
                Reply::Failed => OpenStep::Failed(PngError::TrnsUnreadable),
            },
            OpenStage::TrnsCrc => match reply {
                Reply::Bytes(stored) => self.take_transparency(stored.as_slice()),
                Reply::Failed => OpenStep::Failed(PngError::TrnsCrcUnreadable),
            },
            // Chunks that do not matter are passed over, whatever became of them.
            OpenStage::SkippedData => self.ask(OpenStage::SkippedCrc, 4),
            OpenStage::SkippedCrc => self.ask(OpenStage::ChunkHead, 8),
        }
    }
}

} // verus!
