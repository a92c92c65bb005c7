//! The read-only source model shared by every memory source: process identity,
//! memory regions and modules, coverage, and bounded reads.

pub mod dump_format;
pub mod hostfmt;
pub mod live;
pub mod minidump;
pub mod procfs;

pub use live::{LiveSource, MAX_LIVE_MODULES, MAX_LIVE_REGIONS};
pub use minidump::{MinidumpProcess, MinidumpSource, MAX_CAPTURED_SEGMENTS, MAX_MEMORY_REGIONS, MAX_MODULES};

use vstd::prelude::*;

use crate::error::{Error, Result};
use crate::text::{hex_lower, hex_prefixed, join_bar, join_with_bar, string_views, zero_padded};


verus! {

/// A virtual address in the inspected process.
#[derive(Debug, Clone, Copy, PartialEq, Eq)]
pub struct Address(pub u64);

impl Address {
    /// The fixed-width rendering used for every address: `0x` and sixteen lowercase
    /// hexadecimal digits, so an address never passes through a lossy number.
    pub fn render(&self) -> (res: String)
        ensures
            res@ == seq!['0', 'x'] + zero_padded(hex_lower(self.0 as nat), 16),
    {
        hex_prefixed(self.0, 16)
    }
}

/// What kind of source answered a command, and whether it can change underneath it.
#[derive(Debug, Clone)]
pub struct SourceInfo {
    pub kind: &'static str,
    pub fingerprint: String,
    pub platform: &'static str,
    pub architecture: &'static str,
    pub immutable: bool,
}

#[derive(Debug, Clone)]
pub struct ProcessInfo {
    pub id: String,
    pub display_name: String,
}

#[derive(Debug, Clone)]
pub struct ModuleInfo {
    pub name: String,
    pub base: Address,
    pub size: u64,
    /// The PE `TimeDateStamp` or Mach-O `LC_UUID` as lowercase hexadecimal, when the
    /// source can prove one.
    pub identity: Option<String>,
}

/// Whether `address` lies in the half-open span of `size` bytes starting at `base`.
pub open spec fn span_contains(base: u64, size: u64, address: u64) -> bool {
    base <= address && address - base < size
}

impl ModuleInfo {
    pub fn contains(&self, address: u64) -> (res: bool)
        ensures
            res == span_contains(self.base.0, self.size, address),
    {
        address >= self.base.0 && address - self.base.0 < self.size
    }
}

/// Portable access rights of a region.
#[derive(Debug, Clone, Copy, PartialEq, Eq)]
pub struct Access {
    pub read: bool,
    pub write: bool,
    pub execute: bool,
}

/// The access-right names that scope selectors accept, in rendering order.
pub const PROTECTION_NAMES: [&'static str; 3] = ["read", "write", "execute"];

/// Canonical normalized `MemoryRegion::kind` values. A region whose type metadata is
/// absent reports `"unknown"`, which is deliberately not selectable.
pub const TYPE_NAMES: [&'static str; 3] = ["private", "mapped", "image"];

/// The tokens naming the rights that `access` grants, in `read`, `write`, `execute`
/// order.
pub open spec fn access_tokens(access: Access) -> Seq<Seq<char>> {
    let a = if access.read { seq!["read"@] } else { Seq::empty() };
    let b = if access.write { a.push("write"@) } else { a };
    if access.execute { b.push("execute"@) } else { b }
}

/// The portable rendering of `access`: the granted rights joined by `" | "`, or
/// `none`.
pub open spec fn access_text(access: Access) -> Seq<char> {
    if access_tokens(access).len() == 0 {
        "none"@
    } else {
        join_bar(access_tokens(access))
    }
}

impl Access {
    pub fn none() -> (res: Access)
        ensures
            !res.read && !res.write && !res.execute,
    {
        Access { read: false, write: false, execute: false }
    }

    /// Renders the portable protection text of these rights.
    pub fn render(&self) -> (res: String)
        ensures
            res@ == access_text(*self),
    {
        let mut tokens: Vec<String> = Vec::new();
        if self.read {
            tokens.push(String::from_str("read"));
        }
        if self.write {
            tokens.push(String::from_str("write"));
        }
        if self.execute {
            tokens.push(String::from_str("execute"));
        }
        proof {
            assert(string_views(tokens@) =~= access_tokens(*self));
        }
        if tokens.len() == 0 {
            String::from_str("none")
        } else {
            join_with_bar(&tokens)
        }
    }
}

/// Lowercase names of the documented Windows page-protection flags; entry `i` names
/// the flag with value `1 << i`.
pub const WINDOWS_PROTECTION_NAMES: [&'static str; 11] = [
    "page_noaccess",
    "page_readonly",
    "page_readwrite",
    "page_writecopy",
    "page_execute",
    "page_execute_read",
    "page_execute_readwrite",
    "page_execute_writecopy",
    "page_guard",
    "page_nocache",
    "page_writecombine",
];

/// Bits outside the documented Windows flag set.
pub open spec fn windows_unknown_bits(bits: u32) -> u32 {
    bits & 0xffff_f800u32
}

/// The names of the first `n` documented flags that `bits` carries, in flag order.
pub open spec fn windows_flag_tokens(bits: u32, n: nat) -> Seq<Seq<char>>
    decreases n,
{
    if n == 0 {
        Seq::empty()
    } else {
        let prev = windows_flag_tokens(bits, (n - 1) as nat);
        if bits & (1u32 << ((n - 1) as u32)) != 0 {
            prev.push(WINDOWS_PROTECTION_NAMES@[n - 1]@)
        } else {
            prev
        }
    }
}

/// Every token of the native Windows rendering: the documented flags, then any
/// remaining bits as one `0x`-prefixed hexadecimal token.
pub open spec fn windows_native_tokens(bits: u32) -> Seq<Seq<char>> {
    let known = windows_flag_tokens(bits, 11);
    if windows_unknown_bits(bits) != 0 {
        known.push(seq!['0', 'x'] + hex_lower(windows_unknown_bits(bits) as nat))
    } else {
        known
    }
}

/// The native Windows protection rendering, e.g. `page_readwrite`, or `none`.
pub open spec fn windows_native_text(bits: u32) -> Seq<char> {
    if windows_native_tokens(bits).len() == 0 {
        "none"@
    } else {
        join_bar(windows_native_tokens(bits))
    }
}

/// Whether a Windows protection grants reads: a readable flag without `PAGE_GUARD`
/// (whose first access raises an exception in the target) or `PAGE_NOACCESS`.
pub open spec fn windows_readable(bits: u32) -> bool {
    bits & 0x100u32 == 0 && bits & 0x01u32 == 0 && bits & 0xeeu32 != 0
}

/// The portable rights of a Windows protection value.
pub open spec fn windows_access(bits: u32) -> Access {
    Access {
        read: windows_readable(bits),
        write: bits & 0xccu32 != 0,
        execute: bits & 0xf0u32 != 0,
    }
}

/// Renders the native Windows protection of `bits` as stable lowercase flag tokens
/// joined by `" | "`; bits outside the documented set are kept as hexadecimal.
pub fn windows_native_protection(bits: u32) -> (res: String)
    ensures
        res@ == windows_native_text(bits),
{
    let mut tokens: Vec<String> = Vec::new();
    let mut i: usize = 0;
    while i < 11
        invariant
            0 <= i <= 11,
            string_views(tokens@) =~= windows_flag_tokens(bits, i as nat),
        decreases 11 - i,
    {
        let flag: u32 = 1u32 << (i as u32);
        if bits & flag != 0 {
            tokens.push(String::from_str(WINDOWS_PROTECTION_NAMES[i]));
        }
        i = i + 1;
        proof {
            assert(string_views(tokens@) =~= windows_flag_tokens(bits, i as nat));
        }
    }
    let unknown = bits & 0xffff_f800u32;
    if unknown != 0 {
        tokens.push(hex_prefixed(unknown as u64, 0));
        proof {
            assert(zero_padded(hex_lower(unknown as nat), 0) =~= hex_lower(unknown as nat));
        }
    }
    proof {
        assert(string_views(tokens@) =~= windows_native_tokens(bits));
    }
    if tokens.len() == 0 {
        String::from_str("none")
    } else {
        join_with_bar(&tokens)
    }
}

/// The portable rights and native rendering of a Windows protection value.
pub fn windows_protection(bits: u32) -> (res: (Access, String))
    ensures
        res.0 == windows_access(bits),
        res.1@ == windows_native_text(bits),
{
    let access = Access {
        read: bits & 0x100u32 == 0 && bits & 0x01u32 == 0 && bits & 0xeeu32 != 0,
        write: bits & 0xccu32 != 0,
        execute: bits & 0xf0u32 != 0,
    };
    (access, windows_native_protection(bits))
}

#[derive(Debug, Clone)]
pub struct MemoryRegion {
    pub id: usize,
    pub base: Address,
    pub size: u64,
    /// Bytes of this region present in a capture; `None` for a live source, which
    /// captures nothing ahead of time.
    pub captured_bytes: Option<u64>,
    pub state: String,
    /// Portable rights joined by `" | "` (or `none`); what scope selectors name.
    pub protection: String,
    /// The platform's own rendering, verbatim.
    pub native_protection: String,
    pub kind: String,
    pub committed: bool,
    pub readable: bool,
}

impl MemoryRegion {
    pub fn contains(&self, address: u64) -> (res: bool)
        ensures
            res == span_contains(self.base.0, self.size, address),
    {
        address >= self.base.0 && address - self.base.0 < self.size
    }

    /// The exclusive end address of the region.
    pub fn end(&self) -> (res: Result<u64>)
        ensures
            res is Ok <==> self.base.0 + self.size <= u64::MAX,
            res matches Ok(end) ==> end == self.base.0 + self.size,
            res matches Err(e) ==> e is SourceInvariant,
    {
        match self.base.0.checked_add(self.size) {
            Some(end) => Ok(end),
            None => Err(Error::SourceInvariant(String::from_str("region address range overflow"))),
        }
    }
}

/// The most limitation codes one coverage report can carry.
pub const MAX_COVERAGE_LIMITATIONS: usize = 6;

#[derive(Debug, Clone, Copy, PartialEq, Eq)]
pub enum CoverageLimitation {
    MemoryMetadataMissing,
    MemoryMetadataUnusable,
    ExpectedReadableScopeUnproven,
    KnownReadableBytesMissing,
    ReadsNotAttempted,
    ReadableBytesUnreadable,
}

impl CoverageLimitation {
    pub open spec fn spec_code(&self) -> &'static str {
        match self {
            CoverageLimitation::MemoryMetadataMissing => "MEMORY_METADATA_MISSING",
            CoverageLimitation::MemoryMetadataUnusable => "MEMORY_METADATA_UNUSABLE",
            CoverageLimitation::ExpectedReadableScopeUnproven => "EXPECTED_READABLE_SCOPE_UNPROVEN",
            CoverageLimitation::KnownReadableBytesMissing => "KNOWN_READABLE_BYTES_MISSING",
            CoverageLimitation::ReadsNotAttempted => "READS_NOT_ATTEMPTED",
            CoverageLimitation::ReadableBytesUnreadable => "READABLE_BYTES_UNREADABLE",
        }
    }

    /// The stable code of this limitation.
    pub fn code(&self) -> (res: &'static str)
        ensures
            res == self.spec_code(),
    {
        match self {
            CoverageLimitation::MemoryMetadataMissing => "MEMORY_METADATA_MISSING",
            CoverageLimitation::MemoryMetadataUnusable => "MEMORY_METADATA_UNUSABLE",
            CoverageLimitation::ExpectedReadableScopeUnproven => "EXPECTED_READABLE_SCOPE_UNPROVEN",
            CoverageLimitation::KnownReadableBytesMissing => "KNOWN_READABLE_BYTES_MISSING",
            CoverageLimitation::ReadsNotAttempted => "READS_NOT_ATTEMPTED",
            CoverageLimitation::ReadableBytesUnreadable => "READABLE_BYTES_UNREADABLE",
        }
    }
}

/// The wall-clock window a live answer describes.
#[derive(Debug, Clone, Copy)]
pub struct ObservationInterval {
    pub started_at_unix_ms: u64,
    pub completed_at_unix_ms: u64,
}

#[derive(Debug, Clone)]
pub struct Coverage {
    pub expected_readable_bytes: u64,
    pub captured_readable_bytes: u64,
    pub unavailable_readable_bytes: u64,
    pub metadata_complete: bool,
    pub coverage_complete: bool,
    pub observation: Option<ObservationInterval>,
    pub limitations: Vec<CoverageLimitation>,
}

#[derive(Debug, Clone)]
pub struct ReadSegment {
    pub address: u64,
    pub bytes: Vec<u8>,
}

/// A memory source: what it is and the processes it holds.
pub trait MemorySource {
    fn info(&self) -> &SourceInfo;

    fn processes(&self) -> &Vec<ProcessInfo>;
}

/// One process of a memory source: what describes it.
pub trait ProcessMemory {
    fn process(&self) -> &ProcessInfo;

    fn regions(&self) -> &Vec<MemoryRegion>;

    fn modules(&self) -> &Vec<ModuleInfo>;
}

impl MemorySource for minidump::MinidumpSource {
    fn info(&self) -> (res: &SourceInfo)
        ensures
            res == &self.info,
    {
        &self.info
    }

    fn processes(&self) -> (res: &Vec<ProcessInfo>)
        ensures
            res == &self.processes,
    {
        &self.processes
    }
}

impl ProcessMemory for minidump::MinidumpProcess {
    fn process(&self) -> (res: &ProcessInfo)
        ensures
            res == &self.process,
    {
        &self.process
    }

    fn regions(&self) -> (res: &Vec<MemoryRegion>)
        ensures
            res == &self.regions,
    {
        &self.regions
    }

    fn modules(&self) -> (res: &Vec<ModuleInfo>)
        ensures
            res == &self.modules,
    {
        &self.modules
    }
}

impl MemorySource for live::LiveSource {
    fn info(&self) -> (res: &SourceInfo)
        ensures
            res == &self.info,
    {
        &self.info
    }

    fn processes(&self) -> (res: &Vec<ProcessInfo>)
        ensures
            res == &self.processes,
    {
        &self.processes
    }
}

impl ProcessMemory for live::LiveProcess {
    fn process(&self) -> (res: &ProcessInfo)
        ensures
            res == &self.process,
    {
        &self.process
    }

    fn regions(&self) -> (res: &Vec<MemoryRegion>)
        ensures
            res == &self.regions,
    {
        &self.regions
    }

    fn modules(&self) -> (res: &Vec<ModuleInfo>)
        ensures
            res == &self.modules,
    {
        &self.modules
    }
}

/// The rights a Windows protection grants, flag by flag: reads with any of
/// `PAGE_READONLY`, `PAGE_READWRITE`, `PAGE_WRITECOPY`, `PAGE_EXECUTE_READ`,
/// `PAGE_EXECUTE_READWRITE` or `PAGE_EXECUTE_WRITECOPY` unless `PAGE_GUARD` or
/// `PAGE_NOACCESS` is set; writes with a read-write or write-copy flag; execution
/// with any execute flag.
pub proof fn windows_rights_by_flag(bits: u32)
    ensures
        windows_access(bits).read <==> (bits & 0x100u32 == 0 && bits & 0x01u32 == 0 && (bits & 0x02u32 != 0
            || bits & 0x04u32 != 0 || bits & 0x08u32 != 0 || bits & 0x20u32 != 0 || bits & 0x40u32 != 0 || bits & 0x80u32 != 0)),
        windows_access(bits).write <==> (bits & 0x04u32 != 0 || bits & 0x08u32 != 0 || bits & 0x40u32 != 0 || bits & 0x80u32 != 0),
        windows_access(bits).execute <==> (bits & 0x10u32 != 0 || bits & 0x20u32 != 0 || bits & 0x40u32 != 0 || bits & 0x80u32 != 0),
{
    let a = windows_access(bits);
    assert(a.read == (bits & 0x100u32 == 0 && bits & 0x01u32 == 0 && bits & 0xeeu32 != 0));
    assert(a.write == (bits & 0xccu32 != 0));
    assert(a.execute == (bits & 0xf0u32 != 0));
    assert((bits & 0xeeu32 != 0) <==> (bits & 0x02u32 != 0 || bits & 0x04u32 != 0 || bits & 0x08u32 != 0
        || bits & 0x20u32 != 0 || bits & 0x40u32 != 0 || bits & 0x80u32 != 0)) by (bit_vector);
    assert((bits & 0xccu32 != 0) <==> (bits & 0x04u32 != 0 || bits & 0x08u32 != 0 || bits & 0x40u32 != 0
        || bits & 0x80u32 != 0)) by (bit_vector);
    assert((bits & 0xf0u32 != 0) <==> (bits & 0x10u32 != 0 || bits & 0x20u32 != 0 || bits & 0x40u32 != 0
        || bits & 0x80u32 != 0)) by (bit_vector);
}

} // verus!
