//! The error kinds of the store and its front-ends.

use vstd::prelude::*;

use crate::engine_sel::KvsEngineSel;

verus! {

/// The errors of the store, its engines and its front-ends.
#[derive(Debug, Clone, PartialEq, Eq)]
pub enum KvsError {
    /// A malformed command line.
    CommandError(String),
    /// A failure while compacting; the engine state is unchanged.
    CompactionError(String),
    /// Any other failure: I/O, decoding, a broken internal invariant.
    Inner(String),
    /// An engine name that is neither `kvs` nor `sled`.
    InvalidEngine(String),
    /// The engine asked for differs from the one the directory was made with.
    MisMatchEngine { e_disk: KvsEngineSel, e_cli: KvsEngineSel },
    /// `remove` of a key that is not stored.
    KeyNotFound { key: String },
}

pub type KvsResult<T> = Result<T, KvsError>;

/// The text that describes an error.
pub open spec fn message_of(e: KvsError) -> Seq<char> {
    match e {
        KvsError::CommandError(s) => "kvs-cli: "@ + s@,
        KvsError::CompactionError(s) => "kvs-compact: "@ + s@,
        KvsError::Inner(s) => "kvs-inner: "@ + s@,
        KvsError::InvalidEngine(s) => "kvs: invalid engine `"@ + s@
            + "`, choose either `kvs` or `sled`"@,
        KvsError::MisMatchEngine { e_disk, e_cli } => "engine from cli `"@
            + e_cli.spec_name() + "` is different from engine on disk `"@ + e_disk.spec_name()
            + "`"@,
        KvsError::KeyNotFound { key } => key@,
    }
}

impl KvsError {
    /// The text that describes this error.
    pub fn message(&self) -> (r: String)
        ensures
            r@ == message_of(*self),
    {
        match self {
            KvsError::CommandError(s) => "kvs-cli: ".to_owned().concat(s.as_str()),
            KvsError::CompactionError(s) => "kvs-compact: ".to_owned().concat(s.as_str()),
            KvsError::Inner(s) => "kvs-inner: ".to_owned().concat(s.as_str()),
            KvsError::InvalidEngine(s) => "kvs: invalid engine `".to_owned().concat(
                s.as_str(),
            ).concat("`, choose either `kvs` or `sled`"),
            KvsError::MisMatchEngine { e_disk, e_cli } => "engine from cli `".to_owned().concat(
                e_cli.name(),
            ).concat("` is different from engine on disk `").concat(e_disk.name()).concat("`"),
            KvsError::KeyNotFound { key } => key.clone(),
        }
    }
}

} // verus!
