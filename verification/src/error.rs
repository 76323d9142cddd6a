//! Error types shared by the parser, the index, and the query engine.

use vstd::prelude::*;

verus! {

/// The error type for every fallible operation of this crate.
#[derive(Debug, Clone)]
pub enum PgToolsError {
    /// An input/output failure, described in text.
    Io(String),
    /// A malformed record in the graph text format, carrying the 1-based
    /// line number of the offending line.
    GfaParse { line: usize, message: String },
    /// A defect in a persisted index container: bad magic or an
    /// unsupported version.
    Index(String),
    /// An index payload that could not be decoded.
    Serialization(String),
    /// An argument that no operation accepts, such as an unknown index
    /// variant name or a bad orientation character.
    InvalidInput(String),
    /// A path that names no file.
    FileNotFound(String),
}

} // verus!
