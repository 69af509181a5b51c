use vstd::prelude::*;

verus! {

/// Why a decode attempt produced no record.
#[derive(Debug, Clone, Copy, PartialEq, Eq, Structural)]
pub enum DecodeError {
    /// No complete frame is buffered yet: receive more bytes and try again.
    UnexpectedEof,
    /// The delimited bytes break the encoding, or the table rejects the payload.
    Malformed,
}

} // verus!
