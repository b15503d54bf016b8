//! The failure taxonomy of a run.

use vstd::prelude::*;

verus! {

/// Why a run, or one step of it, could not produce its result.
#[derive(Clone, Copy, Debug, PartialEq, Eq, Structural)]
pub enum DumpError {
    /// An input file could not be read.
    Io,
    /// The companion index resource could not be located.
    MissingCompanionIndex,
    /// A companion-index line has no separator or a non-integer prefix.
    MalformedIndexLine,
    /// A cache-artifact line is not an unsigned integer.
    MalformedCache,
    /// A segment's bytes are not a valid standalone compressed stream.
    Decompression,
}

} // verus!
