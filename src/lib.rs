//! Canonicalization of filesystem paths: lexical normalization of `.` and
//! `..` segments, and a step-by-step symbolic link resolver whose filesystem
//! queries are answered by the caller.
pub mod laws;
pub mod normalize;
pub mod output;
pub mod resolve;
