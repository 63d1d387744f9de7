use vstd::prelude::*;

verus! {

/// Why a byte block is not a well-formed comment header.
#[derive(Clone, Copy, Debug, PartialEq, Eq, Structural)]
pub enum DecodeError {
    /// The first seven bytes are not the comment header signature.
    BadSignature,
    /// The block ends before an announced length is satisfied.
    Truncated,
    /// The vendor text or an entry is not valid UTF-8.
    InvalidUtf8,
    /// An entry holds no `=` between key and value.
    MissingSeparator,
    /// The byte after the last entry is not 1.
    BadFraming,
}

/// Errors of the library.
#[derive(Clone, Copy, Debug, PartialEq, Eq, Structural)]
pub enum Error {
    /// A block could not be decoded.
    Decode(DecodeError),
    /// A length does not fit the 32-bit length field of the block.
    LengthOverflow,
    /// No packet of the primary stream holds a comment header.
    NotFound,
}

} // verus!
