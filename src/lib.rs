//! Pivot-and-render pipeline for job accounting output: parse delimited
//! records, turn each column into a labelled row, sort and wrap the rows,
//! and draw them as a table.
use vstd::prelude::*;

pub mod job;
pub mod layout;
pub mod pivot;
pub mod render;
pub mod table;
pub mod text;

verus! {

/// The arguments of the job-information command: a job, and one of its
/// steps (`0` unless given).
pub struct JobInfo {
    pub jobid: u32,
    pub step: String,
}

/// The arguments of the start-time estimate: the batch script to read.
pub struct StartTime {
    pub script: std::path::PathBuf,
}

/// Declares std's `PathBuf` so that `StartTime` can hold the script's
/// path; nothing is assumed of it, and no verified code reads it.
#[verifier::external_type_specification]
#[verifier::external_body]
pub struct ExPathBuf(std::path::PathBuf);

/// The ways the pipeline fails.
#[derive(Debug, Clone, Copy, PartialEq, Eq, Structural)]
pub enum RsiError {
    /// An external command exited with a failure status.
    ExternalCommandFailed,
    /// The text to parse was not valid, or its records differ in length.
    MalformedInput,
    /// No header field has the key's name.
    KeyColumnNotFound,
    /// The width of the terminal could not be determined.
    TerminalSizeUnavailable,
}

} // verus!
