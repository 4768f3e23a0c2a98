//! Unigram vocabulary counting and reduction.
//!
//! The library accumulates whitespace-delimited token frequencies over a
//! sequence of text lines, reduces the resulting vocabulary by a minimum
//! occurrence count and/or a maximum vocabulary size, and serializes the
//! result one `<token> <count>` line per entry.

pub mod counts;
pub mod freq;
pub mod lines;
pub mod reduce;
pub mod tokens;
