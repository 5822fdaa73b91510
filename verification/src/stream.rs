//! What the decoder asks of the stream that it reads, and what it is told.

use vstd::prelude::*;

verus! {

/// What a read gave: the bytes, or that it failed.
#[derive(Debug)]
pub enum Reply {
    Bytes(Vec<u8>),
    Failed,
}

impl Reply {
    pub open spec fn bytes(self) -> Option<Seq<u8>> {
        match self {
            Reply::Bytes(bytes) => Some(bytes@),
            Reply::Failed => None,
        }
    }
}

} // verus!
