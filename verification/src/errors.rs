//! The error taxonomy shared by the header codec and the two engines.

use vstd::prelude::*;

verus! {

/// Why a header failed to decode.
#[derive(Clone, Copy, Debug, PartialEq, Eq, Structural)]
pub enum FormatFault {
    /// The first two bytes were not the magic `0x53 0x46`.
    BadMagic,
    /// The version byte was not 1.
    BadVersion,
    /// One of the reserved high bits (4..7) of the options byte was set.
    ReservedOptions,
    /// A field ended before all of its bytes could be read.
    Truncated,
    /// A variable-length offset does not fit in this machine's `usize`.
    Oversize,
}

/// Which reference field a candidate share's header disagreed on.
#[derive(Clone, Copy, Debug, PartialEq, Eq, Structural)]
pub enum MismatchField {
    Quorum,
    Width,
    ChunkStart,
    ChunkNext,
}

/// Everything that can go wrong while splitting or combining.
#[derive(Clone, Copy, Debug, PartialEq, Eq, Structural)]
pub enum IdaError {
    /// A malformed header; never retried.
    Format(FormatFault),
    /// Candidate share `share` disagrees with the first share on `field`.
    Mismatch { field: MismatchField, share: usize },
    /// Too few candidate shares, or `k`/`n` exceed the one-byte field capacity.
    Quorum,
    /// The quorum submatrix has no inverse (duplicate or dependent shares).
    Uninvertible,
    /// Share `share` ended after `got` of the `expected` data bytes.
    PrematureEof { share: usize, got: usize, expected: usize },
    /// A well-formed header that these engines do not handle: a symbol width
    /// other than one byte, a nonzero chunk start, a zero quorum, or a
    /// missing transform row.
    Unsupported,
}

} // verus!
