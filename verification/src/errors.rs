//! The store's error taxonomy: domain errors are kept apart from wrapped
//! platform failures.

use vstd::prelude::*;

verus! {

/// Everything that can go wrong inside the store.
#[derive(Debug, Clone, Copy, PartialEq, Eq, Structural)]
pub enum KvsError {
    /// An attempt was made to open the store in a path that is not a directory.
    NotADirectory,
    /// A key was not found in the store.
    KeyNotFound,
    /// An unexpected command was found in the log: the index pointed at a
    /// tombstone where a put was required.
    UnexpectedCommand,
    /// An unexpected key was found in the log: the index pointed at a record
    /// for a different key.
    UnexpectedKey,
    /// A file in the log directory had the log extension but not an integer stem.
    UnexpectedFileName,
    /// A record in the log could not be decoded.
    CorruptLog,
    /// A platform I/O failure, wrapped without further detail.
    Io,
}

impl KvsError {
    /// A short human-readable description, for front ends that print errors.
    pub fn message(&self) -> (r: &'static str)
        ensures
            r@.len() > 0,
    {
        let r = match self {
            KvsError::NotADirectory => "Not a directory",
            KvsError::KeyNotFound => "Key not found",
            KvsError::UnexpectedCommand => "Unexpected command found in log",
            KvsError::UnexpectedKey => "Unexpected key found in log",
            KvsError::UnexpectedFileName => "Unexpected file name, should be an integer",
            KvsError::CorruptLog => "Corrupt record found in log",
            KvsError::Io => "I/O error",
        };
        proof {
            reveal_strlit("Not a directory");
            reveal_strlit("Key not found");
            reveal_strlit("Unexpected command found in log");
            reveal_strlit("Unexpected key found in log");
            reveal_strlit("Unexpected file name, should be an integer");
            reveal_strlit("Corrupt record found in log");
            reveal_strlit("I/O error");
        }
        r
    }
}

} // verus!
