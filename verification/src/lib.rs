//! Splitting a newline-delimited byte stream into numbered part files that
//! hold a fixed number of lines each.

pub mod error;
pub mod lines;
pub mod naming;
pub mod parts;
pub mod split;
pub mod splitter;
