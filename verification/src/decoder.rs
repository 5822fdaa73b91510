//! The decoder of an opened PNG stream. It hands out rows in batches, and asks
//! for a piece of the stream whenever it needs one.

use crate::checksum;
use crate::error::PngError;
use crate::header;
use crate::header::{crc_matches, kind_of, read_be_u32, ChunkKind, Header};
use crate::inflate;
use crate::inflate::{inflate_piece, new_inflater, InflateEnd};
use crate::scanlines;
use crate::scanlines::{deliver_lines, Layout};
use crate::stream::Reply;
use flate2::{Crc, Decompress};
use vstd::prelude::*;

verus! {

/// The most bytes of image data that are asked for at a time.
pub const PIECE_LEN: usize = 8192;

/// Where a decoder stands between two answers.
#[derive(Clone, Copy, Debug, PartialEq, Eq, Structural)]
pub enum Stage {
    /// No batch is under way.
    Idle,
    /// The checksum behind an image data chunk is awaited.
    IdatCrc,
    /// The header of the next chunk is awaited.
    ChunkHead,
    /// The data of a chunk that is passed over is awaited.
    SkippedData,
    /// The checksum of a chunk that is passed over is awaited.
    SkippedCrc,
    /// A piece of image data is awaited.
    ImageData,
    /// The image cannot be decoded any further.
    Halted,
}

/// Why a decoder halts.
#[derive(Clone, Copy, Debug, PartialEq, Eq, Structural)]
pub enum Halt {
    /// A size is out of the machine's range.
    TooLarge,
    /// The rows do not fit the place that their layout gives them.
    BadLayout,
    /// Image data is left behind the end of the compressed stream.
    Stalled,
}

/// What a decoder needs next.
#[derive(Clone, Copy, Debug, PartialEq, Eq, Structural)]
pub enum Action {
    /// Exactly so many bytes of the stream.
    ReadExact(usize),
    /// Up to so many bytes of the stream, as many as one read gives.
    Read(usize),
    /// Nothing: the batch is ready.
    Done,
    /// Nothing: the image cannot be decoded any further.
    Halt(Halt),
}

/// A batch of rows.
#[derive(Debug)]
pub struct ScanlinesResult<'a> {
    /// The rows, end to end; nothing once the image has ended.
    pub data: Option<&'a [u8]>,
    /// The length of the rows in bytes.
    pub size: usize,
}

/// What is told of an image when it is opened.
#[derive(Clone, Copy, Debug, PartialEq, Eq, Structural)]
pub struct ImageInfo {
    pub width: u32,
    pub height: u32,
    pub bit_depth: u8,
    pub color_type: u8,
    /// The bytes of a row as it is handed out.
    pub bytes_per_scanline: usize,
}

/// A PNG image being decoded.
#[derive(Debug)]
pub struct PngDecoder {
    decompressor: Decompress,
    pub width: u32,
    pub height: u32,
    pub bit_depth: u8,
    pub color_type: u8,
    bytes_per_pixel: usize,
    /// The bytes of a scanline as it is stored.
    pub bytes_per_scanline: usize,
    /// The bytes of a row as it is handed out.
    pub output_stride: usize,
    current_y: u32,
    idat_remaining: usize,
    uncompressed_buffer: Vec<u8>,
    prev_scanline: Vec<u8>,
    /// The bytes at the front of the buffer that the last batch has used up.
    pending_drain: usize,
    palette: Vec<[u8; 3]>,
    transparency: Vec<u8>,
    idat_crc: Crc,
    idat_corrupted: bool,
    stage: Stage,
    wanted: usize,
    requested: u32,
    answer: Option<usize>,
}

/// A decoder as a value.
pub struct DecoderView {
    pub header: Header,
    pub layout: Layout,
    pub palette: Seq<[u8; 3]>,
    pub transparency: Seq<u8>,
    /// How many rows are handed out.
    pub current_y: nat,
    /// How much of the current image data chunk is still to be read.
    pub idat_remaining: nat,
    /// Inflated bytes; at its front the rows of the last batch.
    pub buffer: Seq<u8>,
    /// The row that the next scanline is predicted from.
    pub prev: Seq<u8>,
    /// How much of the front of the buffer the last batch has used up.
    pub pending_drain: nat,
    /// What the checksum of the current image data chunk has taken in.
    pub crc_fed: Seq<u8>,
    /// The inflater is one for a zlib stream.
    pub zlib: bool,
    /// What the inflater has been offered.
    pub calls: Seq<(Seq<u8>, nat)>,
    /// Image data was found corrupt.
    pub corrupted: bool,
    pub stage: Stage,
    /// How many bytes are asked for.
    pub wanted: nat,
    /// How many rows the batch under way is to have.
    pub requested: nat,
    /// The length of the last batch; nothing where the image had ended.
    pub answer: Option<nat>,
}

impl DecoderView {
    /// The layout is the one that the header gives.
    pub open spec fn laid_out(self) -> bool {
        &&& self.header.measurable(self.transparency.len() > 0)
        &&& self.layout.wf()
        &&& self.layout.color_type == self.header.color_type
        &&& self.layout.bit_depth == self.header.bit_depth
        &&& self.layout.bytes_per_pixel == self.header.bytes_per_pixel()
        &&& self.layout.bytes_per_scanline == self.header.bytes_per_scanline()
        &&& self.layout.output_stride == self.header.output_stride(self.transparency.len() > 0)
    }

    /// What holds in every state.
    pub open spec fn sound(self) -> bool {
        &&& self.laid_out()
        &&& self.zlib
        &&& self.prev.len() == self.layout.bytes_per_scanline
        &&& self.buffer.len() <= usize::MAX
        &&& self.pending_drain <= self.buffer.len()
        &&& self.current_y <= self.header.height
    }

    /// A batch is under way.
    pub open spec fn working(self) -> bool {
        &&& self.sound()
        &&& self.pending_drain == 0
        &&& !self.corrupted
        &&& self.current_y + self.requested <= self.header.height
        &&& self.requested * self.layout.line_len() <= usize::MAX
    }

    /// A batch is under way, and `wanted` bytes of the stream are awaited.
    pub open spec fn busy(self) -> bool {
        &&& self.working()
        &&& match self.stage {
            Stage::IdatCrc => self.idat_remaining == 0 && self.wanted == 4,
            Stage::ChunkHead => self.idat_remaining == 0 && self.wanted == 8,
            Stage::SkippedData => self.idat_remaining == 0,
            Stage::SkippedCrc => self.idat_remaining == 0 && self.wanted == 4,
            Stage::ImageData => self.idat_remaining > 0 && self.wanted == piece_len(
                self.idat_remaining,
            ),
            _ => false,
        }
    }

    /// A state that a decoder can be in.
    pub open spec fn wf(self) -> bool {
        &&& self.sound()
        &&& match self.stage {
            Stage::Idle => self.answer matches Some(size) ==> size <= self.buffer.len(),
            Stage::Halted => true,
            _ => self.busy(),
        }
    }

    /// Whether `reply` answers what is asked for.
    pub open spec fn answers(self, reply: Option<Seq<u8>>) -> bool {
        match reply {
            Some(bytes) => if self.stage == Stage::ImageData {
                bytes.len() <= self.wanted
            } else {
                bytes.len() == self.wanted
            },
            None => true,
        }
    }

    /// The decoder halts.
    pub open spec fn halted(self, why: Halt) -> (DecoderView, Action) {
        (DecoderView { stage: Stage::Halted, ..self }, Action::Halt(why))
    }

    /// Exactly `len` bytes are asked for.
    pub open spec fn asking(self, stage: Stage, len: nat) -> (DecoderView, Action) {
        (DecoderView { stage, wanted: len, ..self }, Action::ReadExact(len as usize))
    }

    /// A batch of `lines` rows of zeroes stands in for corrupt image data.
    pub open spec fn blanked(self, lines: nat) -> (DecoderView, Action) {
        let size = lines * self.layout.output_stride as nat;
        if size > usize::MAX {
            self.halted(Halt::TooLarge)
        } else {
            (
                DecoderView {
                    buffer: Seq::new(size, |j: int| 0u8),
                    current_y: self.current_y + lines,
                    pending_drain: size,
                    stage: Stage::Idle,
                    answer: Some(size),
                    ..self
                },
                Action::Done,
            )
        }
    }

    /// Image data turns out to be corrupt.
    pub open spec fn spoiled(self) -> (DecoderView, Action) {
        (DecoderView { corrupted: true, ..self }).blanked(self.requested)
    }

    /// How many rows can be handed out for the batch under way.
    pub open spec fn ready_lines(self) -> nat {
        self.layout.whole_lines(self.buffer.len(), self.requested)
    }

    /// The batch is handed out, with the rows that are there.
    pub open spec fn delivered(self) -> (DecoderView, Action) {
        let lines = self.ready_lines();
        if self.layout.deliverable(self.transparency, self.buffer, lines) {
            (
                DecoderView {
                    buffer: self.layout.delivered_buffer(
                        self.palette,
                        self.transparency,
                        self.buffer,
                        self.prev,
                        lines,
                    ),
                    prev: scanlines::row_above(
                        self.buffer,
                        self.prev,
                        self.layout.bytes_per_pixel as nat,
                        self.layout.bytes_per_scanline as nat,
                        lines,
                    ),
                    pending_drain: self.layout.spent(lines),
                    current_y: self.current_y + lines,
                    stage: Stage::Idle,
                    answer: Some(lines * self.layout.output_stride as nat),
                    ..self
                },
                Action::Done,
            )
        } else {
            self.halted(Halt::BadLayout)
        }
    }

    /// The next piece of image data is asked for.
    pub open spec fn asking_for_data(self) -> (DecoderView, Action) {
        let len = piece_len(self.idat_remaining);
        (
            DecoderView { stage: Stage::ImageData, wanted: len, ..self },
            Action::Read(len as usize),
        )
    }

    /// The batch under way goes on: it is handed out when enough is inflated,
    /// and else more of the stream is asked for. Behind an image data chunk
    /// comes its checksum, unless nothing at all was inflated so far.
    pub open spec fn advanced(self) -> (DecoderView, Action) {
        if self.requested * self.layout.line_len() <= self.buffer.len() {
            self.delivered()
        } else if self.idat_remaining > 0 {
            self.asking_for_data()
        } else if self.current_y > 0 || self.buffer.len() > 0 {
            self.asking(Stage::IdatCrc, 4)
        } else {
            self.asking(Stage::ChunkHead, 8)
        }
    }

    /// The last batch is dropped.
    pub open spec fn drained(self) -> DecoderView {
        DecoderView {
            buffer: self.buffer.skip(self.pending_drain as int),
            pending_drain: 0,
            answer: None,
            ..self
        }
    }

    /// How many rows a batch of up to `num_scanlines` rows has, where the image
    /// has not ended.
    pub open spec fn lines_of(self, num_scanlines: nat) -> nat {
        if self.current_y + num_scanlines > self.header.height {
            (self.header.height - self.current_y) as nat
        } else {
            num_scanlines
        }
    }

    /// A batch of up to `num_scanlines` rows is to be had.
    pub open spec fn readied(self, num_scanlines: nat) -> DecoderView {
        DecoderView { requested: self.lines_of(num_scanlines), ..self.drained() }
    }

    /// A batch of up to `num_scanlines` rows is asked for.
    pub open spec fn begun(self, num_scanlines: nat) -> (DecoderView, Action) {
        let ready = self.readied(num_scanlines);
        if self.current_y >= self.header.height {
            (self.drained(), Action::Done)
        } else if self.corrupted {
            ready.blanked(ready.requested)
        } else if ready.requested * self.layout.line_len() > usize::MAX {
            ready.halted(Halt::TooLarge)
        } else {
            ready.advanced()
        }
    }

    /// A chunk of type `name` begins, with `len` bytes of data.
    pub open spec fn at_chunk(self, len: nat, name: Seq<u8>) -> (DecoderView, Action) {
        let kind = header::chunk_kind(name);
        if kind == ChunkKind::Iend {
            self.delivered()
        } else if kind == ChunkKind::Idat {
            let entered = DecoderView {
                idat_remaining: len,
                crc_fed: header::idat_type(),
                ..self
            };
            if len == 0 {
                entered.delivered()
            } else {
                entered.asking_for_data()
            }
        } else {
            self.asking(Stage::SkippedData, len)
        }
    }

    /// What inflating a piece of image data leaves.
    pub open spec fn inflating(self, piece: Seq<u8>) -> DecoderView {
        let run = inflate::inflate_run(self.calls, piece, self.buffer);
        DecoderView {
            idat_remaining: (self.idat_remaining - piece.len()) as nat,
            crc_fed: self.crc_fed + piece,
            calls: run.calls,
            buffer: run.out,
            ..self
        }
    }

    /// A piece of image data is read.
    pub open spec fn fed(self, piece: Seq<u8>) -> (DecoderView, Action) {
        self.inflating(piece).settled(
            inflate::inflate_run(self.calls, piece, self.buffer).end,
        )
    }

    /// A piece of image data is inflated, with the given end.
    pub open spec fn settled(self, end: InflateEnd) -> (DecoderView, Action) {
        match end {
            InflateEnd::Taken => self.advanced(),
            InflateEnd::Corrupt => self.spoiled(),
            InflateEnd::Stalled => self.halted(Halt::Stalled),
            InflateEnd::Exhausted => self.halted(Halt::TooLarge),
        }
    }

    /// The stream answers with `reply`.
    pub open spec fn resumed(self, reply: Option<Seq<u8>>) -> (DecoderView, Action) {
        match (self.stage, reply) {
            (Stage::IdatCrc, Some(stored)) => if checksum::crc32(self.crc_fed) == header::be_u32(
                stored,
                0,
            ) {
                self.asking(Stage::ChunkHead, 8)
            } else {
                self.spoiled()
            },
            (Stage::IdatCrc, None) => self.spoiled(),
            (Stage::ChunkHead, Some(head)) => self.at_chunk(
                header::be_u32(head, 0) as nat,
                head.subrange(4, 8),
            ),
            (Stage::ChunkHead, None) => self.spoiled(),
            (Stage::SkippedData, Some(data)) => self.asking(Stage::SkippedCrc, 4),
            (Stage::SkippedData, None) => self.delivered(),
            (Stage::SkippedCrc, Some(stored)) => self.asking(Stage::ChunkHead, 8),
            (Stage::SkippedCrc, None) => self.delivered(),
            (Stage::ImageData, Some(piece)) => if piece.len() == 0 {
                self.spoiled()
            } else {
                self.fed(piece)
            },
            (Stage::ImageData, None) => self.spoiled(),
            _ => (self, Action::Done),
        }
    }
}

/// How much of `remaining` image data is asked for at a time.
pub open spec fn piece_len(remaining: nat) -> nat {
    if remaining < PIECE_LEN {
        remaining
    } else {
        PIECE_LEN as nat
    }
}

impl View for PngDecoder {
    type V = DecoderView;

    closed spec fn view(&self) -> DecoderView {
        DecoderView {
            header: Header {
                width: self.width,
                height: self.height,
                bit_depth: self.bit_depth,
                color_type: self.color_type,
            },
            layout: self.spec_layout(),
            palette: self.palette@,
            transparency: self.transparency@,
            current_y: self.current_y as nat,
            idat_remaining: self.idat_remaining as nat,
            buffer: self.uncompressed_buffer@,
            prev: self.prev_scanline@,
            pending_drain: self.pending_drain as nat,
            crc_fed: checksum::crc_fed(self.idat_crc),
            zlib: inflate::zlib_format(self.decompressor),
            calls: inflate::inflate_calls(self.decompressor),
            corrupted: self.idat_corrupted,
            stage: self.stage,
            wanted: self.wanted as nat,
            requested: self.requested as nat,
            answer: match self.answer {
                Some(size) => Some(size as nat),
                None => None,
            },
        }
    }
}

impl PngDecoder {
    closed spec fn spec_layout(&self) -> Layout {
        Layout {
            color_type: self.color_type,
            bit_depth: self.bit_depth,
            bytes_per_pixel: self.bytes_per_pixel,
            bytes_per_scanline: self.bytes_per_scanline,
            output_stride: self.output_stride,
        }
    }

    fn layout(&self) -> (layout: Layout)
        ensures
            layout == self@.layout,
    {
        Layout {
            color_type: self.color_type,
            bit_depth: self.bit_depth,
            bytes_per_pixel: self.bytes_per_pixel,
            bytes_per_scanline: self.bytes_per_scanline,
            output_stride: self.output_stride,
        }
    }

    fn halt(&mut self, why: Halt) -> (action: Action)
        requires
            old(self)@.sound(),
        ensures
            (final(self)@, action) == old(self)@.halted(why),
            final(self)@.wf(),
    {
        self.stage = Stage::Halted;
        Action::Halt(why)
    }

    fn ask(&mut self, stage: Stage, len: usize) -> (action: Action)
        ensures
            (final(self)@, action) == old(self)@.asking(stage, len as nat),
    {
        self.stage = stage;
        self.wanted = len;
        Action::ReadExact(len)
    }

    fn ask_for_data(&mut self) -> (action: Action)
        ensures
            (final(self)@, action) == old(self)@.asking_for_data(),
    {
        let len: usize = if self.idat_remaining < PIECE_LEN {
            self.idat_remaining
        } else {
            PIECE_LEN
        };
        self.stage = Stage::ImageData;
        self.wanted = len;
        Action::Read(len)
    }

    fn blank(&mut self, lines: u32) -> (action: Action)
        requires
            old(self)@.sound(),
            old(self)@.current_y + lines <= old(self)@.header.height,
        ensures
            (final(self)@, action) == old(self)@.blanked(lines as nat),
            final(self)@.wf(),
    {
        let size: usize = match (lines as usize).checked_mul(self.output_stride) {
            Some(size) => size,
            None => {
                return self.halt(Halt::TooLarge);
            },
        };
        self.uncompressed_buffer.clear();
        self.uncompressed_buffer.resize(size, 0);
        self.current_y = self.current_y + lines;
        self.pending_drain = size;
        self.stage = Stage::Idle;
        self.answer = Some(size);
        assert(self@.buffer =~= Seq::new(size as nat, |j: int| 0u8));
        Action::Done
    }

    fn spoil(&mut self) -> (action: Action)
        requires
            old(self)@.working(),
        ensures
            (final(self)@, action) == old(self)@.spoiled(),
            final(self)@.wf(),
    {
        self.idat_corrupted = true;
        let lines: u32 = self.requested;
        self.blank(lines)
    }

    fn deliver(&mut self) -> (action: Action)
        requires
            old(self)@.working(),
        ensures
            (final(self)@, action) == old(self)@.delivered(),
            final(self)@.wf(),
    {
        let layout: Layout = self.layout();
        let delivery = deliver_lines(
            &layout,
            self.palette.as_slice(),
            self.transparency.as_slice(),
            &mut self.uncompressed_buffer,
            &mut self.prev_scanline,
            self.requested as usize,
        );
        assert(self.uncompressed_buffer.len() == self@.buffer.len());
        match delivery {
            Some(delivery) => {
                self.pending_drain = delivery.spent;
                self.current_y = self.current_y + delivery.lines as u32;
                self.stage = Stage::Idle;
                self.answer = Some(delivery.size);
                Action::Done
            },
            None => self.halt(Halt::BadLayout),
        }
    }

    fn advance(&mut self) -> (action: Action)
        requires
            old(self)@.working(),
        ensures
            (final(self)@, action) == old(self)@.advanced(),
            final(self)@.wf(),
    {
        let total_bytes_needed: usize = self.requested as usize * (self.bytes_per_scanline + 1);
        if self.uncompressed_buffer.len() >= total_bytes_needed {
            self.deliver()
        } else if self.idat_remaining > 0 {
            self.ask_for_data()
        } else if self.current_y > 0 || self.uncompressed_buffer.len() > 0 {
            self.ask(Stage::IdatCrc, 4)
        } else {
            self.ask(Stage::ChunkHead, 8)
        }
    }

    fn enter_chunk(&mut self, len: usize, name: &[u8]) -> (action: Action)
        requires
            old(self)@.working(),
            old(self)@.idat_remaining == 0,
        ensures
            (final(self)@, action) == old(self)@.at_chunk(len as nat, name@),
            final(self)@.wf(),
    {
        match kind_of(name) {
            ChunkKind::Iend => self.deliver(),
            ChunkKind::Idat => {
                self.idat_remaining = len;
                let mut crc: Crc = Crc::new();
                let name: [u8; 4] = [73u8, 68u8, 65u8, 84u8];
                crc.update(name.as_slice());
                self.idat_crc = crc;
                assert(self@.crc_fed =~= header::idat_type());
                if len == 0 {
                    self.deliver()
                } else {
                    self.ask_for_data()
                }
            },
            _ => self.ask(Stage::SkippedData, len),
        }
    }

    fn feed(&mut self, piece: &[u8]) -> (action: Action)
        requires
            old(self)@.working(),
            piece@.len() <= old(self)@.idat_remaining,
        ensures
            (final(self)@, action) == old(self)@.fed(piece@),
            final(self)@.wf(),
    {
        self.idat_remaining = self.idat_remaining - piece.len();
        self.idat_crc.update(piece);
        let end: InflateEnd = inflate_piece(
            &mut self.decompressor,
            piece,
            &mut self.uncompressed_buffer,
        );
        assert(self.uncompressed_buffer.len() == self@.buffer.len());
        self.settle(end)
    }

    /// Goes on with the batch once a piece of image data is inflated, with the
    /// given end.
    pub fn settle(&mut self, end: InflateEnd) -> (action: Action)
        requires
            old(self)@.working(),
        ensures
            (final(self)@, action) == old(self)@.settled(end),
            final(self)@.wf(),
    {
        match end {
            InflateEnd::Taken => self.advance(),
            InflateEnd::Corrupt => self.spoil(),
            InflateEnd::Stalled => self.halt(Halt::Stalled),
            InflateEnd::Exhausted => self.halt(Halt::TooLarge),
        }
    }

    /// Goes on with the batch under way, now that the stream has answered.
    pub fn resume(&mut self, reply: Reply) -> (action: Action)
        requires
            old(self)@.wf(),
            old(self)@.busy(),
            old(self)@.answers(reply.bytes()),
        ensures
            (final(self)@, action) == old(self)@.resumed(reply.bytes()),
            final(self)@.wf(),
    {
        match self.stage {
            Stage::IdatCrc => match reply {
                Reply::Bytes(stored) => {
                    let sum: u32 = self.idat_crc.sum();
                    if crc_matches(stored.as_slice(), sum) {
                        self.ask(Stage::ChunkHead, 8)
                    } else {
                        self.spoil()
                    }
                },
                Reply::Failed => self.spoil(),
            },
            Stage::ChunkHead => match Self::read_chunk_header(&reply) {
                Ok((len, name)) => self.enter_chunk(len, name.as_slice()),
                Err(_) => self.spoil(),
            },
            Stage::SkippedData => match reply {
                Reply::Bytes(_) => self.ask(Stage::SkippedCrc, 4),
                Reply::Failed => self.deliver(),
            },
            Stage::SkippedCrc => match reply {
                Reply::Bytes(_) => self.ask(Stage::ChunkHead, 8),
                Reply::Failed => self.deliver(),
            },
            _ => match reply {
                Reply::Bytes(piece) => {
                    if piece.len() == 0 {
                        self.spoil()
                    } else {
                        self.feed(piece.as_slice())
                    }
                },
                Reply::Failed => self.spoil(),
            },
        }
    }

    /// The last batch.
    pub fn result(&self) -> (result: ScanlinesResult<'_>)
        requires
            self@.wf(),
            self@.stage == Stage::Idle,
        ensures
            match self@.answer {
                Some(size) => {
                    &&& result.data matches Some(data) && data@ == self@.buffer.take(size as int)
                    &&& result.size == size
                },
                None => result.data is None && result.size == 0,
            },
    {
        match self.answer {
            Some(size) => {
                let data: &[u8] = &self.uncompressed_buffer.as_slice()[0..size];
                ScanlinesResult { data: Some(data), size }
            },
            None => ScanlinesResult { data: None, size: 0 },
        }
    }

    /// What is told of the image when it is opened.
    pub fn info(&self) -> (info: ImageInfo)
        ensures
            info.width == self@.header.width,
            info.height == self@.header.height,
            info.bit_depth == self@.header.bit_depth,
            info.color_type == self@.header.color_type,
            info.bytes_per_scanline == self@.layout.output_stride,
    {
        ImageInfo {
            width: self.width,
            height: self.height,
            bit_depth: self.bit_depth,
            color_type: self.color_type,
            bytes_per_scanline: self.output_stride,
        }
    }

    /// Whether a batch can be asked for: none is under way, and the decoder has
    /// not halted.
    pub fn is_idle(&self) -> (idle: bool)
        ensures
            idle == (self@.stage == Stage::Idle),
    {
        self.stage == Stage::Idle
    }

    /// How many rows are handed out.
    pub fn current_y(&self) -> (y: u32)
        ensures
            y == self@.current_y,
    {
        self.current_y
    }

    /// The length and the type of the chunk whose header was read.
    pub fn read_chunk_header(reply: &Reply) -> (head: Result<(usize, [u8; 4]), PngError>)
        requires
            reply.bytes() matches Some(bytes) ==> bytes.len() == 8,
        ensures
            match reply.bytes() {
                Some(bytes) => head matches Ok((len, name)) && len == header::be_u32(bytes, 0)
                    && name@ == bytes.subrange(4, 8),
                None => head == Err::<(usize, [u8; 4]), PngError>(PngError::EndOfFile),
            },
    {
        match reply {
            Reply::Bytes(bytes) => {
                let len: usize = read_be_u32(bytes.as_slice(), 0) as usize;
                let name: [u8; 4] = [bytes[4], bytes[5], bytes[6], bytes[7]];
                assert(name@ =~= bytes@.subrange(4, 8));
                Ok((len, name))
            },
            Reply::Failed => Err(PngError::EndOfFile),
        }
    }

    /// A decoder at the first image data chunk of a stream, `idat_len` bytes
    /// long; nothing where a size is out of the machine's range.
    pub(crate) fn at_image_data(
        header: Header,
        palette: Vec<[u8; 3]>,
        transparency: Vec<u8>,
        idat_len: usize,
    ) -> (decoder: Option<PngDecoder>)
        ensures
            decoder is Some == header.measurable(transparency@.len() > 0),
            decoder matches Some(d) ==> d@ == DecoderView::fresh(
                header,
                palette@,
                transparency@,
                idat_len as nat,
            ) && d@.wf(),
    {
        let layout: Layout = match header.layout(transparency.len() > 0) {
            Some(layout) => layout,
            None => {
                return None;
            },
        };
        let mut idat_crc: Crc = Crc::new();
        let name: [u8; 4] = [73u8, 68u8, 65u8, 84u8];
        idat_crc.update(name.as_slice());
        let decoder = PngDecoder {
            decompressor: new_inflater(),
            width: header.width,
            height: header.height,
            bit_depth: header.bit_depth,
            color_type: header.color_type,
            bytes_per_pixel: layout.bytes_per_pixel,
            bytes_per_scanline: layout.bytes_per_scanline,
            output_stride: layout.output_stride,
            current_y: 0,
            idat_remaining: idat_len,
            uncompressed_buffer: Vec::new(),
            prev_scanline: vec![0u8; layout.bytes_per_scanline],
            pending_drain: 0,
            palette,
            transparency,
            idat_crc,
            idat_corrupted: false,
            stage: Stage::Idle,
            wanted: 0,
            requested: 0,
            answer: None,
        };
        assert(decoder@.crc_fed =~= header::idat_type());
        assert(decoder@.prev =~= Seq::new(header.bytes_per_scanline(), |j: int| 0u8));
        Some(decoder)
    }
}

impl DecoderView {
    /// A decoder at the first image data chunk of a stream, `idat_len` bytes
    /// long.
    pub open spec fn fresh(
        header: Header,
        palette: Seq<[u8; 3]>,
        transparency: Seq<u8>,
        idat_len: nat,
    ) -> DecoderView {
        DecoderView {
            header,
            layout: Layout {
                color_type: header.color_type,
                bit_depth: header.bit_depth,
                bytes_per_pixel: header.bytes_per_pixel() as usize,
                bytes_per_scanline: header.bytes_per_scanline() as usize,
                output_stride: header.output_stride(transparency.len() > 0) as usize,
            },
            palette,
            transparency,
            current_y: 0,
            idat_remaining: idat_len,
            buffer: Seq::empty(),
            prev: Seq::new(header.bytes_per_scanline(), |j: int| 0u8),
            pending_drain: 0,
            crc_fed: header::idat_type(),
            zlib: true,
            calls: Seq::empty(),
            corrupted: false,
            stage: Stage::Idle,
            wanted: 0,
            requested: 0,
            answer: None,
        }
    }
}

/// Asks for a batch of up to `num_scanlines` rows; fewer where the image ends
/// first. Until the answer is `Done`, the stream's answers are handed to
/// `PngDecoder::resume`; then `PngDecoder::result` is the batch.
pub fn decode_scanlines(decoder: &mut PngDecoder, num_scanlines: u32) -> (action: Action)
    requires
        old(decoder)@.wf(),
        old(decoder)@.stage == Stage::Idle,
        old(decoder)@.current_y < old(decoder)@.header.height ==> old(decoder)@.current_y
            + num_scanlines <= u32::MAX,
    ensures
        (final(decoder)@, action) == old(decoder)@.begun(num_scanlines as nat),
        final(decoder)@.wf(),
{
    let ghost before = decoder@;
    if decoder.pending_drain > 0 {
        let rest: Vec<u8> = decoder.uncompressed_buffer.split_off(decoder.pending_drain);
        decoder.uncompressed_buffer = rest;
        decoder.pending_drain = 0;
    }
    decoder.answer = None;
    assert(decoder.uncompressed_buffer.len() == decoder@.buffer.len());
    assert(decoder@.buffer =~= before.buffer.skip(before.pending_drain as int));
    if decoder.current_y >= decoder.height {
        return Action::Done;
    }
    let lines: u32 = if decoder.current_y + num_scanlines > decoder.height {
        decoder.height - decoder.current_y
    } else {
        num_scanlines
    };
    decoder.requested = lines;
    if decoder.idat_corrupted {
        return decoder.blank(lines);
    }
    if (lines as usize).checked_mul(decoder.bytes_per_scanline + 1).is_none() {
        return decoder.halt(Halt::TooLarge);
    }
    decoder.advance()
}

/// Gives a decoder up. Answers whether there was one.
pub fn close_png(decoder: Option<PngDecoder>) -> (closed: bool)
    ensures
        closed == (decoder is Some),
{
    decoder.is_some()
}

} // verus!
