use vstd::prelude::*;

verus! {

/// Everything that can go wrong while parsing a frame or decoding a field
/// value. Structural errors are raised by [`crate::FrameParser::new`];
/// the two `Incompatible*` variants are raised by the typed accessors.
#[derive(Debug, PartialEq, Eq)]
pub enum Error {
    /// The frame must start with a single format byte.
    IncompleteFrameFormat,
    /// The frame format byte must be a recognized format (currently only `0x01`).
    InvalidFrameFormat(u32),
    /// The frame must have a four-byte big-endian field count after the
    /// format byte.
    IncompleteFrameFieldCount,
    /// Each field must start with a two-byte big-endian tag and a four-byte
    /// big-endian length.
    IncompleteFieldTagOrLength,
    /// Each field must have a value that is exactly field-length bytes long.
    /// Carries the expected and the actual number of bytes.
    IncompleteFieldValue(usize, usize),
    /// A typed accessor found a value whose byte length does not match any
    /// encoding of the requested type. Carries the offending length.
    IncompatibleFieldLength(usize),
    /// A typed accessor found a value of a recognized length that cannot be
    /// represented in the requested type.
    IncompatibleFieldValue,
    /// Bytes remain in the frame after all declared fields were read.
    UnexpectedData,
}

} // verus!
