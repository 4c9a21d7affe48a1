//! Filtering of gzip-compressed, line-oriented text.
//!
//! A worker takes one compressed file at a time. The file is decoded in
//! memory ([`decoder`]), split into lines that keep their terminators
//! ([`lines`]), and every line that contains a given byte string
//! ([`line_filter`]) is collected in a buffer ([`accumulator`]) that is handed
//! to a bounded channel whenever it has grown to a threshold ([`handoff`]).
//! [`pipeline`] puts the steps together; [`laws`] states what follows for the
//! output as a whole.

pub mod accumulator;
pub mod decoder;
pub mod handoff;
pub mod laws;
pub mod line_filter;
pub mod lines;
pub mod pipeline;
