//! Conversion of declarative monitoring-source records into per-job,
//! `file_sd`-compatible target-group documents.
//!
//! The crate accumulates `Source` records into per-job `TargetFile`s,
//! merges `TargetGroup`s that share a structural identity (job plus label
//! set), and renders the result deterministically for one of several
//! output destinations (stdout, a single file, or per-job files in a
//! directory).

pub mod error;
pub mod input;
pub mod jsondoc;
pub mod labels;
pub mod output;
pub mod source;
pub mod strutil;
pub mod target;
pub mod yamlconv;
