//! Capturing a live Windows process into a full-memory minidump: the fixed dump
//! profile, the report of a capture, and the decisions around the platform call.

use vstd::prelude::*;

use crate::error::{Error, Result};
use crate::scan::search::copy_coverage;
use crate::source::minidump::MinidumpSource;
use crate::source::{Coverage, SourceInfo};
use crate::text::{push_decimal, push_str, string_from_chars};

verus! {

/// The `MiniDumpWriteDump` profile requested for every capture; it is part of the
/// observable capture response.
pub const CAPTURE_FLAG_NAMES: [&'static str; 6] = [
    "MiniDumpWithFullMemory",
    "MiniDumpWithFullMemoryInfo",
    "MiniDumpWithThreadInfo",
    "MiniDumpWithProcessThreadData",
    "MiniDumpWithUnloadedModules",
    "MiniDumpIgnoreInaccessibleMemory",
];

/// Conditions observed about the target process while capturing it.
#[derive(Debug, Clone, Copy, PartialEq, Eq)]
pub enum CaptureWarning {
    /// The target had already exited when its identity was queried, just before
    /// the dump was written.
    ProcessAlreadyExited,
}

impl CaptureWarning {
    /// The stable code of a warning.
    pub fn code(&self) -> (res: &'static str)
        ensures
            res@ == "PROCESS_ALREADY_EXITED"@,
    {
        match self {
            CaptureWarning::ProcessAlreadyExited => "PROCESS_ALREADY_EXITED",
        }
    }
}

/// The captured process.
#[derive(Debug, Clone)]
pub struct CapturedProcessIdentity {
    pub pid: u32,
    pub image_path: String,
    pub creation_time_unix_ms: u64,
}

/// When the dump was written.
#[derive(Debug, Clone)]
pub struct CaptureInterval {
    pub started_at_unix_ms: u64,
    pub completed_at_unix_ms: u64,
}

/// The result of a capture: who was captured and when, the dump profile, what
/// was observed, where the dump went, and what the written dump holds.
#[derive(Debug, Clone)]
pub struct CaptureReport {
    pub process: CapturedProcessIdentity,
    pub interval: CaptureInterval,
    pub flags: Vec<&'static str>,
    pub warnings: Vec<CaptureWarning>,
    pub output: String,
    pub source: SourceInfo,
    pub coverage: Coverage,
}

/// The answer of a host that cannot write minidumps: every capture fails with
/// `UNSUPPORTED_HOST`.
pub fn capture_minidump(pid: u32, output: &str, force: bool) -> (res: Result<CaptureReport>)
    ensures
        res matches Err(e) && e is UnsupportedHost,
{
    Err(Error::UnsupportedHost(String::from_str("minidump capture requires a Windows host")))
}

/// 100 ns ticks between the Windows `FILETIME` epoch (1601-01-01) and the Unix
/// epoch (1970-01-01).
pub const FILETIME_TO_UNIX_EPOCH_100NS: u64 = 116_444_736_000_000_000;

/// The Unix time in milliseconds of a `FILETIME` given as its high and low words,
/// or `None` before the Unix epoch.
pub open spec fn filetime_millis(high: u32, low: u32) -> Option<u64> {
    let ticks = high * 0x1_0000_0000int + low;
    if ticks < FILETIME_TO_UNIX_EPOCH_100NS {
        None
    } else {
        Some(((ticks - FILETIME_TO_UNIX_EPOCH_100NS) / 10_000) as u64)
    }
}

/// Converts a `FILETIME` into Unix milliseconds.
pub fn filetime_to_unix_millis(high: u32, low: u32) -> (res: Option<u64>)
    ensures
        res == filetime_millis(high, low),
{
    let ticks: u64 = ((high as u64) << 32u64) | (low as u64);
    proof {
        assert(((high as u64) << 32u64) | (low as u64) == (high as u64) * 0x1_0000_0000u64 + (low as u64)) by (bit_vector);
    }
    if ticks < FILETIME_TO_UNIX_EPOCH_100NS {
        None
    } else {
        Some((ticks - FILETIME_TO_UNIX_EPOCH_100NS) / 10_000)
    }
}

/// The file a capture writes before it is moved into place:
/// `.membridge-capture-<pid>-<output file name>`, `capture.dmp` standing in for a
/// missing file name.
pub fn staging_name(pid: u32, output_file_name: Option<&str>) -> (res: String)
    ensures
        res@ == ".membridge-capture-"@ + crate::text::decimal(pid as nat) + "-"@ + match output_file_name {
            Some(name) => name@,
            None => "capture.dmp"@,
        },
{
    let mut out: Vec<char> = Vec::new();
    push_str(&mut out, ".membridge-capture-");
    push_decimal(&mut out, pid as u64);
    push_str(&mut out, "-");
    match output_file_name {
        Some(name) => push_str(&mut out, name),
        None => push_str(&mut out, "capture.dmp"),
    }
    string_from_chars(out.as_slice())
}

/// A copy of a source description.
pub fn copy_source_info(info: &SourceInfo) -> (res: SourceInfo)
    ensures
        res.kind == info.kind,
        res.fingerprint == info.fingerprint,
        res.platform == info.platform,
        res.architecture == info.architecture,
        res.immutable == info.immutable,
{
    SourceInfo {
        kind: info.kind,
        fingerprint: info.fingerprint.clone(),
        platform: info.platform,
        architecture: info.architecture,
        immutable: info.immutable,
    }
}

/// The report of a capture of `identity` between `interval`, written to
/// `output` and reopened as `source`.
pub fn capture_report(
    identity: CapturedProcessIdentity,
    interval: CaptureInterval,
    already_exited: bool,
    output: String,
    source: &MinidumpSource,
) -> (res: CaptureReport)
    ensures
        res.process == identity,
        res.interval == interval,
        res.flags@ == CAPTURE_FLAG_NAMES@,
        res.warnings@ == (if already_exited { seq![CaptureWarning::ProcessAlreadyExited] } else { Seq::empty() }),
        res.output == output,
        res.source.fingerprint == source.info.fingerprint,
        res.source.kind == source.info.kind,
        res.coverage.expected_readable_bytes == source.process.coverage.expected_readable_bytes,
        res.coverage.captured_readable_bytes == source.process.coverage.captured_readable_bytes,
        res.coverage.unavailable_readable_bytes == source.process.coverage.unavailable_readable_bytes,
        res.coverage.limitations@ == source.process.coverage.limitations@,
        res.coverage.coverage_complete == source.process.coverage.coverage_complete,
        res.coverage.metadata_complete == source.process.coverage.metadata_complete,
        res.coverage.observation == source.process.coverage.observation,
{
    let mut flags: Vec<&'static str> = Vec::new();
    let mut i: usize = 0;
    while i < 6
        invariant
            0 <= i <= 6,
            flags@ == CAPTURE_FLAG_NAMES@.subrange(0, i as int),
        decreases 6 - i,
    {
        flags.push(CAPTURE_FLAG_NAMES[i]);
        i = i + 1;
        proof {
            assert(flags@ =~= CAPTURE_FLAG_NAMES@.subrange(0, i as int));
        }
    }
    proof {
        assert(CAPTURE_FLAG_NAMES@.subrange(0, 6) =~= CAPTURE_FLAG_NAMES@);
    }
    let mut warnings: Vec<CaptureWarning> = Vec::new();
    if already_exited {
        warnings.push(CaptureWarning::ProcessAlreadyExited);
    }
    proof {
        assert(warnings@ =~= (if already_exited { seq![CaptureWarning::ProcessAlreadyExited] } else { Seq::empty() }));
    }
    CaptureReport {
        process: identity,
        interval,
        flags,
        warnings,
        output,
        source: copy_source_info(&source.info),
        coverage: copy_coverage(&source.process.coverage),
    }
}

} // verus!
