//! Failures of the decoders.
use vstd::prelude::*;

verus! {

/// Why a buffer could not be decoded.
#[derive(Clone, Copy, Debug, PartialEq, Eq, Structural)]
pub enum DecodeError {
    /// A section or palette does not start with its expected tag.
    BadMagic,
    /// A section, record or run extends past the end of the supplied buffer.
    TruncatedInput,
    /// A requested frame, palette or table entry has no corresponding record.
    IndexOutOfRange,
    /// An image's bounds are reversed (its last column or row lies before its first).
    BadDimensions,
    /// A size that the decoder must compute does not fit in the integer that holds it.
    TooLarge,
    /// The caller's output buffer is shorter than the decoded image.
    OutputTooSmall,
}

} // verus!
