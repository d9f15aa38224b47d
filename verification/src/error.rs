use vstd::prelude::*;

verus! {

/// Everything that can go wrong while decoding a selector or loading an
/// export payload. Signature-text parse failures are deliberately absent:
/// they never surface as errors, the offending record is dropped instead.
#[derive(Debug, Clone, Copy, PartialEq, Eq, Structural)]
pub enum Error {
    /// A decoded byte sequence is neither 4 nor 32 bytes long; carries the
    /// offending length.
    InvalidLength(usize),
    /// A hex string does not start with the literal prefix `0x`.
    MissingPrefix,
    /// A hex string holds an odd number of digits after the prefix.
    OddLength,
    /// A two-digit group is not valid hexadecimal; carries the offset of the
    /// group's first character within the digit part (after the prefix).
    InvalidDigit(usize),
    /// A non-empty line of the export has no comma separator.
    MalformedRecord,
}

} // verus!
