//! Character census: a histogram of the Unicode characters found in a set of
//! texts, with each character classified and split into ASCII and non-ASCII.
//!
//! Each text is decoded as UTF-8, brought to Normalization Form C, cut into
//! extended grapheme clusters, and the leading scalar value of every cluster
//! that is not a control character is tallied.

pub mod category;
pub mod text;
pub mod tally;
pub mod report;
pub mod census;
