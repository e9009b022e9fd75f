//! All error types.

use vstd::prelude::*;

verus! {

/// The standard I/O error, carried unopened by the error enums below.
#[verifier::external_type_specification]
#[verifier::external_body]
pub struct ExIoError(std::io::Error);

/// Errors of the map operations.
#[derive(Debug)]
pub enum MapError {
    /// Write log error.
    WriteLog,
    /// Key is not allowed.
    KeyNotAllow,
    /// Io errors.
    Io(std::io::Error),
    /// Read lock error.
    ReadLock,
    /// Write lock error.
    WriteLock,
}

/// Errors met while recovering the memtable.
#[derive(Debug)]
pub enum MemtableError {
    /// Io errors.
    Io(std::io::Error),
    /// A log file whose name does not start with an integer id.
    ParseLogId(String),
}

/// Errors of opening a store.
#[derive(Debug)]
pub enum Error {
    /// Io errors.
    Io(std::io::Error),
    /// A file name that is not valid UTF-8, shown lossily.
    InvalidLogFileName(String),
    /// Memtable errors.
    Memtable(MemtableError),
    /// A segment file whose name does not start with an integer id.
    ParseSegemntId(String),
}

} // verus!
