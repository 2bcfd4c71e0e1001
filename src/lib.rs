//! File records and the identifier-keyed file table used to map byte offsets
//! of source text to line numbers and line ranges.

pub mod file;
pub mod lines;
pub mod table;
pub mod walker;
