//! Tools for pangenome graphs in the tab-delimited graph-fragment text format:
//! an in-memory graph model with a line-oriented parser, topology and sequence
//! statistics, and a persisted, versioned binary index supporting lookup by
//! segment name, path name, and genomic coordinate.

pub mod codec;
pub mod components;
pub mod error;
pub mod gfa;
pub mod index;
pub mod samples;
pub mod scan;
pub mod stats;
pub mod stream;
pub mod text;
pub mod validate;

pub use gfa::GfaGraph;
pub use index::{GfaIndex, IndexType, IndexedReader};

pub use error::PgToolsError;
