//! The two ways in which handling a patch can fail.

use vstd::prelude::*;

verus! {

/// Why a byte stream is not a patch.
#[derive(Clone, Copy, Debug, PartialEq, Eq, Structural)]
pub enum FormatError {
    /// A read would go past the end of the bytes.
    Truncated,
    /// The bytes do not start with the format's magic.
    BadMagic,
    /// A number has no terminal group among its first ten groups.
    UnterminatedNumber,
    /// A number is larger than this machine can address.
    NumberTooLarge,
    /// A block moves a cursor below zero or past what this machine can address.
    CursorOutOfRange,
    /// The block records do not end exactly where the checksums begin.
    Misaligned,
}

/// A block reaches outside the source or the destination buffer.
#[derive(Clone, Copy, Debug, PartialEq, Eq, Structural)]
pub struct RangeError {
    /// Position of the offending block in the patch.
    pub block: usize,
}

} // verus!
