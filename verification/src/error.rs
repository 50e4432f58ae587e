//! Failures reported by the codec.

use vstd::prelude::*;

verus! {

/// What went wrong while reading a header or a block.
#[derive(Clone, Copy, Debug, PartialEq, Eq, Structural)]
pub enum Error {
    /// The header's version tag lies outside the supported range.
    UnsupportedVersion,
    /// A header code names a format family that does not exist: the header is corrupt.
    UnknownFormat,
    /// A header code names a family and width that no layout implements: the header is corrupt.
    UnsupportedLayout,
    /// The input ended, or a seek target lay beyond its end, before the read was complete.
    UnexpectedEof,
    /// A variable-length integer ran over more bits than fit in 32.
    InvalidVInt,
    /// A block starts with a marker byte that is no width between 0 and 32.
    InvalidMarker,
}

} // verus!
