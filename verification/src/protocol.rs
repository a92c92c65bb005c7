//! The response envelope every command prints: one versioned object that either
//! carries the command's data or a failure with a stable code.

use vstd::prelude::*;

use crate::error::Error;

verus! {

/// The version of the response protocol.
pub const SCHEMA_VERSION: u32 = 4;

/// A successful response carrying `data`.
#[derive(Debug, Clone)]
pub struct Success<T> {
    pub schema: u32,
    pub ok: bool,
    pub command: &'static str,
    pub data: T,
}

impl<T> Success<T> {
    /// The successful response of `command`.
    pub fn new(command: &'static str, data: T) -> (res: Success<T>)
        ensures
            res.schema == SCHEMA_VERSION,
            res.ok,
            res.command == command,
            res.data == data,
    {
        Success { schema: SCHEMA_VERSION, ok: true, command, data }
    }
}

/// A failed response.
#[derive(Debug, Clone)]
pub struct Failure<'a> {
    pub schema: u32,
    pub ok: bool,
    pub command: &'a str,
    pub error: FailureBody,
}

/// What failed: a stable code, a human-readable message, and whether retrying
/// may help.
#[derive(Debug, Clone)]
pub struct FailureBody {
    pub code: &'static str,
    pub message: String,
    pub retryable: bool,
}

impl<'a> Failure<'a> {
    /// The failed response of `command` reporting `error`.
    pub fn from_error(command: &'a str, error: &Error) -> (res: Failure<'a>)
        ensures
            res.schema == SCHEMA_VERSION,
            !res.ok,
            res.command == command,
            res.error.code == error.spec_code(),
            res.error.message@ == error.spec_message(),
            res.error.retryable == (*error is Io),
    {
        Failure {
            schema: SCHEMA_VERSION,
            ok: false,
            command,
            error: FailureBody { code: error.code(), message: error.message(), retryable: error.is_retryable() },
        }
    }
}

} // verus!
