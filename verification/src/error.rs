//! The ways in which decoding can fail.

use vstd::prelude::*;

verus! {

/// Why a stream could not be decoded. Every failure ends the decode; nothing of
/// the output is handed back.
#[derive(Copy, Clone, Debug, PartialEq, Eq, Structural)]
pub enum DecodeError {
    /// The input ended before all bits of a code could be read.
    TruncatedStream,
    /// The first code of the stream is not the reset command.
    MissingStartMarker,
    /// The first code of a segment is not a literal byte.
    ExpectedLiteral,
    /// The code after the end-of-stream command is not a literal byte.
    ExpectedFinalLiteral,
    /// A code does not lead through the dictionary to a literal byte.
    CorruptChain,
    /// A widen command arrived when codes were already 32 bits wide.
    WidthOverflow,
}

} // verus!
