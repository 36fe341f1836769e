//! Side-channel ledger for tracking the translation status of files in a
//! version-controlled project.
//!
//! The core of the crate is the [`records::Records`] state: one entry per
//! tracked file, each carrying the upstream revision it was translated
//! against, its workflow progress, a cached sync flag and an advisory lock.
//! The persisted document format, path normalization and the decision logic
//! around diffing and covering are all verified; subprocess and filesystem
//! work stays with the caller.

pub mod clock;
pub mod codec;
pub mod git;
pub mod ops;
pub mod utils;
pub mod records;
