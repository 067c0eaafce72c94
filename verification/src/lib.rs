//! Verified core of a lyric-annotation tool.
//!
//! The library parses a small section-selection language
//! (`[header](n)` or `[header](n..m)` tokens separated by spaces),
//! validates URLs against a closed registry of supported content
//! sources, and composes enumerated text lines into a labeled
//! document.  Fetching pages and all other I/O live outside this
//! crate; the core is pure and fully verified.

pub mod compose;
pub mod models;
pub mod parse;
pub mod text;
