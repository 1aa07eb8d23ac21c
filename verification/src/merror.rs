//! Error taxonomy of the database: store and facade errors, vector-index
//! errors, and the write-ahead log's file and payload errors.

use vstd::prelude::*;

verus! {

/// Errors surfaced by the scalar store and the database facade.
#[derive(Debug, Clone)]
pub enum DBError {
    CreateError(String),
    CloseError(String),
    GetError(String),
    PutError(String),
    SyncError(String),
    DeleteDataError(String),
}

/// Errors internal to the vector-index layer; the facade promotes them to
/// `DBError::PutError` or `DBError::GetError`.
#[derive(Debug, Clone)]
pub enum IndexError {
    InitializationError(String),
    InsertionError(String),
    QueryError(String),
    UnexpectedError(String),
}

/// A write-ahead-log file error: the log could not be set up or appended to.
#[derive(Debug, Clone)]
pub struct FileError(pub String);

/// A write-ahead-log payload error: a record could not be encoded or decoded.
#[derive(Debug, Clone)]
pub struct DataError(pub String);

} // verus!
