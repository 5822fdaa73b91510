//! Why a stream cannot be opened as a PNG image.

use vstd::prelude::*;

verus! {

/// The reasons for which opening a stream fails.
#[derive(Clone, Copy, Debug, PartialEq, Eq, Structural)]
pub enum PngError {
    MagicUnreadable,
    NotPng,
    EndOfFile,
    IhdrMissing,
    IhdrUnreadable,
    IhdrCrcUnreadable,
    IhdrCorrupt,
    Interlaced,
    UnknownColorType,
    PlteUnreadable,
    PlteCrcUnreadable,
    PlteCorrupt,
    TrnsUnreadable,
    TrnsCrcUnreadable,
}

impl PngError {
    /// The text that callers are shown.
    pub open spec fn text(self) -> Seq<char> {
        match self {
            PngError::MagicUnreadable => "Failed to read magic"@,
            PngError::NotPng => "Not a valid PNG file"@,
            PngError::EndOfFile => "EOF reached"@,
            PngError::IhdrMissing => "First chunk must be IHDR"@,
            PngError::IhdrUnreadable => "Failed to read IHDR payload"@,
            PngError::IhdrCrcUnreadable => "Failed to read IHDR CRC"@,
            PngError::IhdrCorrupt => "Corrupt IHDR chunk (CRC mismatch)"@,
            PngError::Interlaced => "Adam7 Interlacing is not supported"@,
            PngError::UnknownColorType => "Unknown color type"@,
            PngError::PlteUnreadable => "Failed to read PLTE"@,
            PngError::PlteCrcUnreadable => "Failed to read PLTE CRC"@,
            PngError::PlteCorrupt => "Corrupt PLTE chunk (CRC mismatch)"@,
            PngError::TrnsUnreadable => "Failed to read tRNS"@,
            PngError::TrnsCrcUnreadable => "Failed to read tRNS CRC"@,
        }
    }

    /// The text that callers are shown.
    pub fn message(&self) -> (message: &'static str)
        ensures
            message@ == self.text(),
    {
        match self {
            PngError::MagicUnreadable => "Failed to read magic",
            PngError::NotPng => "Not a valid PNG file",
            PngError::EndOfFile => "EOF reached",
            PngError::IhdrMissing => "First chunk must be IHDR",
            PngError::IhdrUnreadable => "Failed to read IHDR payload",
            PngError::IhdrCrcUnreadable => "Failed to read IHDR CRC",
            PngError::IhdrCorrupt => "Corrupt IHDR chunk (CRC mismatch)",
            PngError::Interlaced => "Adam7 Interlacing is not supported",
            PngError::UnknownColorType => "Unknown color type",
            PngError::PlteUnreadable => "Failed to read PLTE",
            PngError::PlteCrcUnreadable => "Failed to read PLTE CRC",
            PngError::PlteCorrupt => "Corrupt PLTE chunk (CRC mismatch)",
            PngError::TrnsUnreadable => "Failed to read tRNS",
            PngError::TrnsCrcUnreadable => "Failed to read tRNS CRC",
        }
    }
}

} // verus!
