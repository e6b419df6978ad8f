//! The ways in which a completion run can fail.
use vstd::prelude::*;

verus! {

/// A failure of a completion run.
#[derive(Debug)]
pub enum Error {
    /// A failure described only by its message.
    RawMessage(String),
    /// The parser could not be set up at all; the message says why.
    ParseSetupError(String),
    /// A source file could not be parsed; the message says why.
    ParseError(String),
    /// A worker ended without handing back its shard.
    WorkerFailure,
    /// A glob pattern was not well-formed.
    PatternError(glob::PatternError),
    /// A row of a database gave its arguments in neither or in both of
    /// the two accepted ways.
    MissingCommandField,
    /// Work was to be divided among zero workers.
    ShardCountError,
}

} // verus!
