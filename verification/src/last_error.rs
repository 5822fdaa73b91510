//! The message of the last failure, kept for callers that are handed no error
//! value.

use crate::error::PngError;
use vstd::prelude::*;

verus! {

/// The message of the last failure; empty before the first.
#[derive(Debug)]
pub struct LastError {
    message: String,
}

impl View for LastError {
    type V = Seq<char>;

    closed spec fn view(&self) -> Seq<char> {
        self.message@
    }
}

impl LastError {
    /// Nothing has failed yet.
    pub fn new() -> (last: LastError)
        ensures
            last@ == Seq::<char>::empty(),
    {
        proof {
            reveal_strlit("");
        }
        let last = LastError { message: "".to_string() };
        assert(last@ =~= Seq::<char>::empty());
        last
    }
}

/// Keeps `msg` in place of the message before it.
pub fn set_last_error(last: &mut LastError, msg: &str)
    ensures
        final(last)@ == msg@,
{
    last.message = msg.to_string();
}

/// Keeps the message of a stream that is refused.
pub fn record_failure(last: &mut LastError, error: &PngError)
    ensures
        final(last)@ == error.text(),
{
    set_last_error(last, error.message());
}

/// The message kept last.
pub fn get_last_error(last: &LastError) -> (message: &str)
    ensures
        message@ == last@,
{
    last.message.as_str()
}

/// Law: no message of the decoder holds a NUL character, so each can be handed
/// on as a C string, and none is empty, so each can be told from "no failure".
pub proof fn law_messages_are_c_strings(error: PngError)
    ensures
        !error.text().contains('\0'),
        error.text().len() > 0,
{
    reveal_strlit("Failed to read magic");
    reveal_strlit("Not a valid PNG file");
    reveal_strlit("EOF reached");
    reveal_strlit("First chunk must be IHDR");
    reveal_strlit("Failed to read IHDR payload");
    reveal_strlit("Failed to read IHDR CRC");
    reveal_strlit("Corrupt IHDR chunk (CRC mismatch)");
    reveal_strlit("Adam7 Interlacing is not supported");
    reveal_strlit("Unknown color type");
    reveal_strlit("Failed to read PLTE");
    reveal_strlit("Failed to read PLTE CRC");
    reveal_strlit("Corrupt PLTE chunk (CRC mismatch)");
    reveal_strlit("Failed to read tRNS");
    reveal_strlit("Failed to read tRNS CRC");
}

} // verus!
