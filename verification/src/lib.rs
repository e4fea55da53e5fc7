//! A streaming, bounded-memory search-and-replace engine for literal byte
//! patterns, including multi-line block patterns whose parts must appear on
//! consecutive lines at the same column.
//!
//! The pipeline: a dual-cursor splitter (`teereader`) lets the scanner
//! (`bufsearcher`) look ahead of the copier (`replacer`) over one byte
//! source; the scanner yields substitution records (`diff`) ordered by a
//! position-keyed priority queue (`diffheap`); the copier reconstructs the
//! output from the original bytes plus the diffs.
//!
//! The `matching` module is the mathematical account every contract is
//! stated against, and `laws` proves the engine's global guarantees over
//! it: the no-match identity, the soundness of every substitution, and
//! the completeness of replacement for non-overlapping occurrences.

pub mod diff;
pub mod diffheap;
pub mod error;
pub mod matching;
pub mod teereader;
pub mod bufsearcher;
pub mod replacer;
pub mod laws;
