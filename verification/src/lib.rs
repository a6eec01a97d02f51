//! A recursive plain-text search library: literal substring matching over the
//! lines of a file, with extension filtering, in-place match highlighting, and
//! deterministic aggregation of per-file results.

pub mod collect;
pub mod highlight;
pub mod linesplit;
pub mod matchset;
pub mod report;
pub mod session;
pub mod style;
pub mod text;
pub mod utf8;
