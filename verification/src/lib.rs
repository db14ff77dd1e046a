//! A verified CSV writer for in-memory columnar tables.
//!
//! The crate serializes a [`table::Table`] (named, typed columns of equal
//! length) into RFC-4180-flavored delimited text: each cell is formatted
//! according to its type and the configured [`options::CsvWriterOptions`],
//! escaped with minimal quoting, joined with the delimiter, and emitted in
//! fixed-size row batches.  The byte output of every public entry point is
//! pinned down exactly by spec functions, and the quoting, escaping and
//! round-trip laws are proved in [`laws`].

pub mod digits;
pub mod escape;
pub mod field;
pub mod float_fmt;
pub mod laws;
pub mod options;
pub mod pattern;
pub mod table;
pub mod write_impl;
pub mod writer;

pub use options::CsvWriterOptions;
pub use write_impl::CsvError;
pub use writer::CsvWriter;
