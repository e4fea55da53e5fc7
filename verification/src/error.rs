use vstd::prelude::*;

verus! {

/// The error taxonomy of the engine.
///
/// `EndOfIteration` is an internal control sentinel: the diff-application
/// loop raises it to signal normal completion, and the driving function
/// converts it into success; it must never escape to a caller.
#[derive(Debug, Clone, Copy, PartialEq, Eq, Structural)]
pub enum Error {
    /// No more diffs remain; normal completion of the replacement loop.
    EndOfIteration,
    /// The pattern sequence is empty, holds an empty pattern, or cannot fit
    /// in the scan buffer together with the maximal block span.
    BadPattern,
    /// A path cannot be represented in the string form needed to build a
    /// temporary-file name.
    PathError,
    /// An underlying read, write, open or rename failed.
    IoError,
    /// A per-entry failure while enumerating a file glob.
    GlobError,
    /// A malformed glob expression.
    PatternError,
    /// A concurrent per-file unit of work faulted.
    ThreadPanic,
}

} // verus!
