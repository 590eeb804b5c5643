//! The decode error taxonomy.

use vstd::prelude::*;

verus! {

/// Why a decode failed.
///
/// Every decoder returns a result; malformed input is reported through
/// one of these kinds and never through a panic. Errors propagate
/// unchanged from the innermost decoder to the top-level caller, and no
/// partial result is returned on failure.
#[derive(Debug, Clone, Copy, PartialEq, Eq)]
pub enum BencodeError {
    /// The next bytes match none of the four value-kind prefixes where a
    /// value (or a piece of its envelope) was expected. Trailing garbage
    /// after valid top-level values surfaces as this kind too.
    StructuralMismatch,
    /// An `i...e` envelope matched, but its digit content breaks the
    /// canonical form (a leading `+`, a redundant leading zero, `-0`) or
    /// the value does not fit in a signed 64-bit integer.
    InvalidInteger,
    /// A byte-string length is declared as zero, or exceeds the bytes
    /// actually remaining in the buffer.
    InvalidBytesLength,
    /// A list or dictionary ran out of input before its `e` terminator.
    UnterminatedComposite,
    /// Composite values are nested deeper than [`crate::MAX_DEPTH`].
    DepthExceeded,
}

} // verus!
