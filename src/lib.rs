//! Strips the annotation column from tab-separated variant-call text.
//!
//! The library decompresses a multi-member gzip stream into lines, rewrites
//! each data line so that its annotation field becomes `.`, counts what it
//! did with every line, and recompresses the result as BGZF.

pub mod fields;
pub mod rewrite;
pub mod lines;
pub mod codec;
pub mod pipeline;
pub mod laws;
pub mod benchmark;
