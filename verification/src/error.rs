use vstd::prelude::*;

verus! {

/// Every failure that the core can report.  All of them are fatal for the
/// process: the caller prints a diagnostic and exits non-zero.
#[derive(Clone, Copy, Debug, PartialEq, Eq, Structural)]
pub enum Error {
    /// The input and output paths name the same resource.
    SamePaths,
    /// `max_len` is below `min_len`.
    MaxBelowMin,
    /// `min_len` equals `usize::MAX`, which would keep nothing.
    MinLenNoOp,
    /// `max_len` equals zero, which would keep nothing.
    MaxLenNoOp,
    /// No manipulation option was requested.
    NoOperation,
    /// Appending was requested without an output file.
    AppendWithoutOutput,
    /// Sorting cannot be combined with streaming.
    PipeWithSort,
    /// The memory oracle denied a planned allocation.
    LowMemory,
    /// The input file has size zero.
    EmptyInput,
    /// The input bytes are not valid UTF-8.
    InvalidUtf8,
}

} // verus!
