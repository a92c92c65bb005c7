//! The library's error type and its stable machine-readable codes.

use vstd::prelude::*;

use crate::text::{concat2, concat3, concat4, decimal, decimal_string};

verus! {

/// Every failure the library reports. Each variant has one stable code.
#[derive(Debug, Clone, PartialEq, Eq)]
pub enum Error {
    /// A file could not be read; `message` is the operating system's description.
    Io { path: String, message: String },
    /// The minidump container itself could not be parsed.
    Minidump(String),
    UnsupportedTarget(String),
    MissingMemory,
    InvalidSpec(String),
    UnresolvedScope(String),
    ScopeMetadataUnavailable(String),
    InvalidArgument(String),
    HomeDirectoryUnavailable(String),
    SourceInvariant(String),
    SourceTooLarge(String),
    UnsupportedHost(String),
    ProcessNotFound(u32),
    ProcessAccessDenied(String),
    ProcessQueryFailed(String),
    CaptureFailed(String),
    Json(String),
}

pub type Result<T> = core::result::Result<T, Error>;

impl Error {
    /// The stable code of each variant.
    pub open spec fn spec_code(&self) -> &'static str {
        match self {
            Error::Io { .. } => "IO_ERROR",
            Error::Minidump(_) => "INVALID_MINIDUMP",
            Error::UnsupportedTarget(_) => "UNSUPPORTED_TARGET",
            Error::MissingMemory => "MISSING_MEMORY",
            Error::InvalidSpec(_) => "INVALID_SCAN_SPEC",
            Error::UnresolvedScope(_) => "UNRESOLVED_SCOPE",
            Error::ScopeMetadataUnavailable(_) => "SCOPE_METADATA_UNAVAILABLE",
            Error::InvalidArgument(_) => "INVALID_ARGUMENT",
            Error::HomeDirectoryUnavailable(_) => "HOME_DIRECTORY_UNAVAILABLE",
            Error::SourceInvariant(_) => "SOURCE_INVARIANT",
            Error::SourceTooLarge(_) => "SOURCE_TOO_LARGE",
            Error::UnsupportedHost(_) => "UNSUPPORTED_HOST",
            Error::ProcessNotFound(_) => "PROCESS_NOT_FOUND",
            Error::ProcessAccessDenied(_) => "PROCESS_ACCESS_DENIED",
            Error::ProcessQueryFailed(_) => "PROCESS_QUERY_FAILED",
            Error::CaptureFailed(_) => "CAPTURE_FAILED",
            Error::Json(_) => "INVALID_JSON",
        }
    }

    /// Returns the stable code of this error.
    pub fn code(&self) -> (res: &'static str)
        ensures
            res == self.spec_code(),
    {
        match self {
            Error::Io { .. } => "IO_ERROR",
            Error::Minidump(_) => "INVALID_MINIDUMP",
            Error::UnsupportedTarget(_) => "UNSUPPORTED_TARGET",
            Error::MissingMemory => "MISSING_MEMORY",
            Error::InvalidSpec(_) => "INVALID_SCAN_SPEC",
            Error::UnresolvedScope(_) => "UNRESOLVED_SCOPE",
            Error::ScopeMetadataUnavailable(_) => "SCOPE_METADATA_UNAVAILABLE",
            Error::InvalidArgument(_) => "INVALID_ARGUMENT",
            Error::HomeDirectoryUnavailable(_) => "HOME_DIRECTORY_UNAVAILABLE",
            Error::SourceInvariant(_) => "SOURCE_INVARIANT",
            Error::SourceTooLarge(_) => "SOURCE_TOO_LARGE",
            Error::UnsupportedHost(_) => "UNSUPPORTED_HOST",
            Error::ProcessNotFound(_) => "PROCESS_NOT_FOUND",
            Error::ProcessAccessDenied(_) => "PROCESS_ACCESS_DENIED",
            Error::ProcessQueryFailed(_) => "PROCESS_QUERY_FAILED",
            Error::CaptureFailed(_) => "CAPTURE_FAILED",
            Error::Json(_) => "INVALID_JSON",
        }
    }

    /// Whether retrying the same command may succeed: only a failed file read is
    /// transient.
    pub fn is_retryable(&self) -> (res: bool)
        ensures
            res == (self is Io),
    {
        match self {
            Error::Io { .. } => true,
            _ => false,
        }
    }

    /// The human-readable text of each variant.
    pub open spec fn spec_message(&self) -> Seq<char> {
        match self {
            Error::Io { path, message } => "failed to read "@ + path@ + ": "@ + message@,
            Error::Minidump(s) => "invalid minidump: "@ + s@,
            Error::UnsupportedTarget(s) => "unsupported target: "@ + s@,
            Error::MissingMemory => "the minidump contains no process memory"@,
            Error::InvalidSpec(s) => "invalid scan specification: "@ + s@,
            Error::UnresolvedScope(s) => "unresolved scan scope: "@ + s@,
            Error::ScopeMetadataUnavailable(s) => "scan scope requires unavailable source metadata: "@
                + s@,
            Error::InvalidArgument(s) => "invalid argument: "@ + s@,
            Error::HomeDirectoryUnavailable(s) => "could not determine the user home directory: "@
                + s@,
            Error::SourceInvariant(s) => "memory source invariant failed: "@ + s@,
            Error::SourceTooLarge(s) => "minidump source exceeds a processing limit: "@ + s@,
            Error::UnsupportedHost(s) => "unsupported host: "@ + s@,
            Error::ProcessNotFound(pid) => "process "@ + decimal(*pid as nat) + " was not found"@,
            Error::ProcessAccessDenied(s) => "process access denied: "@ + s@,
            Error::ProcessQueryFailed(s) => "process query failed: "@ + s@,
            Error::CaptureFailed(s) => "capture failed: "@ + s@,
            Error::Json(s) => "JSON error: "@ + s@,
        }
    }

    /// Renders the human-readable message of this error.
    pub fn message(&self) -> (res: String)
        ensures
            res@ == self.spec_message(),
    {
        let res = match self {
            Error::Io { path, message } => concat4("failed to read ", path.as_str(), ": ", message.as_str()),
            Error::Minidump(s) => concat2("invalid minidump: ", s.as_str()),
            Error::UnsupportedTarget(s) => concat2("unsupported target: ", s.as_str()),
            Error::MissingMemory => String::from_str("the minidump contains no process memory"),
            Error::InvalidSpec(s) => concat2("invalid scan specification: ", s.as_str()),
            Error::UnresolvedScope(s) => concat2("unresolved scan scope: ", s.as_str()),
            Error::ScopeMetadataUnavailable(s) => concat2("scan scope requires unavailable source metadata: ", s.as_str()),
            Error::InvalidArgument(s) => concat2("invalid argument: ", s.as_str()),
            Error::HomeDirectoryUnavailable(s) => concat2("could not determine the user home directory: ", s.as_str()),
            Error::SourceInvariant(s) => concat2("memory source invariant failed: ", s.as_str()),
            Error::SourceTooLarge(s) => concat2("minidump source exceeds a processing limit: ", s.as_str()),
            Error::UnsupportedHost(s) => concat2("unsupported host: ", s.as_str()),
            Error::ProcessNotFound(pid) => {
                let digits = decimal_string(*pid as u64);
                concat3("process ", digits.as_str(), " was not found")
            },
            Error::ProcessAccessDenied(s) => concat2("process access denied: ", s.as_str()),
            Error::ProcessQueryFailed(s) => concat2("process query failed: ", s.as_str()),
            Error::CaptureFailed(s) => concat2("capture failed: ", s.as_str()),
            Error::Json(s) => concat2("JSON error: ", s.as_str()),
        };
        res
    }
}

} // verus!
