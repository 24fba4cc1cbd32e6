//! A deterministic, chunkable synthetic-table data generator.
//!
//! Given a table description (a row count and an ordered list of column
//! samplers) and a 64-bit seed, the library renders rows of delimited text.
//! The stream of rows is a pure function of the seed and the description, and
//! it can be produced in chunks: every column consumes a fixed number of
//! draws from the primary random stream per row, so the generator can be
//! fast-forwarded to any chunk boundary and the concatenation of all chunks
//! equals the single unchunked run.

pub mod chunking;
pub mod columns;
pub mod dates;
pub mod generate;
pub mod numfmt;
pub mod parse;
pub mod render;
pub mod rng;
pub mod strutil;
