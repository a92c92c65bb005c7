//! A read-only live process as a memory source.
//!
//! A host backend supplies identity, region and module enumeration, and a
//! best-effort bounded read; this module holds every decision made over them:
//! region normalization and validation, readable runs, coverage accounting, the
//! chunking of scans with a carried overlap, and gap-aware reads. A live source is
//! never immutable: its answers describe an observation interval, and a byte that
//! could not be read is reported as unproven rather than absent.

use vstd::prelude::*;

use crate::error::{Error, Result};
use crate::source::dump_format::{blake3_digest, blake3_hash};
use vstd::utf8::encode_utf8;
use crate::source::minidump::{dump_limitations, hex_bytes, hex_text};
use crate::source::{
    access_text, Access, Address, Coverage, CoverageLimitation, MemoryRegion, ModuleInfo, ObservationInterval,
    ProcessInfo, ReadSegment, SourceInfo,
};
use crate::scan::pattern::{le_bytes, le_bytes_of};
use crate::text::{decimal, decimal_string, host_file_name, joined, plain_file_name, push_decimal, str_chars, string_from_chars};

verus! {

/// Bytes read per scan chunk.
pub const SCAN_CHUNK_BYTES: usize = 4_194_304;

/// Hard caps on live enumeration: enumeration fails closed with
/// `SOURCE_TOO_LARGE` instead of degrading without bound.
pub const MAX_LIVE_REGIONS: usize = 262_144;
pub const MAX_LIVE_MODULES: usize = 32_768;

/// Region metadata as a host backend reports it, before ids are assigned.
#[derive(Debug, Clone)]
pub struct RawRegion {
    pub base: u64,
    pub size: u64,
    pub access: Access,
    /// The platform's own protection rendering, kept verbatim.
    pub native: String,
    /// One of the selectable memory types, or `"unknown"`.
    pub kind: &'static str,
    pub state: &'static str,
    pub committed: bool,
}

/// The identity a live source binds to: a PID is reused, so the start time and
/// image path are part of it.
#[derive(Debug, Clone)]
pub struct TargetIdentity {
    pub pid: u32,
    pub image_path: String,
    pub start_time_unix_ms: u64,
}

/// One contiguous run of readable address space, merged from adjacent readable
/// regions so a pattern spanning two neighbouring regions is still found.
#[derive(Debug, Clone, Copy)]
pub struct ReadableRun {
    pub start: u64,
    pub end: u64,
}

/// The region a raw region becomes as region `id`.
pub open spec fn normalized(r: MemoryRegion, id: int, raw: RawRegion) -> bool {
    &&& r.id == id
    &&& r.base.0 == raw.base
    &&& r.size == raw.size
    &&& r.captured_bytes is None
    &&& r.state@ == raw.state@
    &&& r.protection@ == access_text(raw.access)
    &&& r.native_protection@ == raw.native@
    &&& r.kind@ == raw.kind@
    &&& r.committed == raw.committed
    &&& r.readable == (raw.committed && raw.access.read)
}

/// Assigns ids to the raw regions, in order, and normalizes them. A live source
/// captures nothing ahead of time: readability is proven only by reading.
pub fn normalize_regions(raw: &Vec<RawRegion>) -> (res: Vec<MemoryRegion>)
    ensures
        res@.len() == raw@.len(),
        forall|i: int| 0 <= i < res@.len() ==> normalized(#[trigger] res@[i], i, raw@[i]),
{
    let mut out: Vec<MemoryRegion> = Vec::new();
    let mut i: usize = 0;
    while i < raw.len()
        invariant
            0 <= i <= raw@.len(),
            out@.len() == i,
            forall|k: int| 0 <= k < i ==> normalized(#[trigger] out@[k], k, raw@[k]),
        decreases raw@.len() - i,
    {
        let r = &raw[i];
        out.push(MemoryRegion {
            id: i,
            base: Address(r.base),
            size: r.size,
            captured_bytes: None,
            state: String::from_str(r.state),
            protection: r.access.render(),
            native_protection: r.native.clone(),
            kind: String::from_str(r.kind),
            committed: r.committed,
            readable: r.committed && r.access.read,
        });
        i = i + 1;
    }
    out
}

/// Consecutive raw regions are ordered and do not overlap.
pub open spec fn raw_regions_valid(raw: Seq<RawRegion>) -> bool {
    forall|i: int| 0 <= i < raw.len() - 1 ==> #[trigger] raw[i].base + raw[i].size <= u64::MAX
        && raw[i].base + raw[i].size <= raw[i + 1].base
}

/// The bytes of the raw regions that are committed and readable.
pub open spec fn raw_readable_sum(raw: Seq<RawRegion>) -> int
    decreases raw.len(),
{
    if raw.len() == 0 {
        0
    } else {
        raw_readable_sum(raw.drop_last()) + if raw.last().committed && raw.last().access.read { raw.last().size as int } else { 0 }
    }
}

/// Every committed readable raw region fits in the address space.
pub open spec fn raw_readable_fit(raw: Seq<RawRegion>) -> bool {
    forall|i: int| 0 <= i < raw.len() && (#[trigger] raw[i]).committed && raw[i].access.read ==> raw[i].base + raw[i].size <= u64::MAX
}

/// Whether a live source can be built from what a backend enumerated.
pub open spec fn live_source_builds(raw: Seq<RawRegion>, module_count: nat) -> bool {
    &&& raw.len() <= MAX_LIVE_REGIONS
    &&& module_count <= MAX_LIVE_MODULES
    &&& raw_regions_valid(raw)
    &&& raw_readable_sum(raw) <= u64::MAX
    &&& raw_readable_fit(raw)
}

proof fn lemma_normalized_facts(regions: Seq<MemoryRegion>, raw: Seq<RawRegion>)
    requires
        regions.len() == raw.len(),
        forall|i: int| 0 <= i < regions.len() ==> normalized(#[trigger] regions[i], i, raw[i]),
    ensures
        regions_valid(regions) <==> raw_regions_valid(raw),
        readable_sum(regions) == raw_readable_sum(raw),
        (forall|i: int| 0 <= i < regions.len() && (#[trigger] regions[i]).readable ==> regions[i].base.0 + regions[i].size <= u64::MAX)
            <==> raw_readable_fit(raw),
    decreases regions.len(),
{
    if regions.len() > 0 {
        assert forall|i: int| 0 <= i < regions.len() - 1 implies normalized(#[trigger] regions.drop_last()[i], i, raw.drop_last()[i]) by {
            assert(regions.drop_last()[i] == regions[i]);
            assert(raw.drop_last()[i] == raw[i]);
        }
        lemma_normalized_facts(regions.drop_last(), raw.drop_last());
        assert(normalized(regions.last(), regions.len() - 1, raw.last()));
    }
    if regions_valid(regions) {
        assert forall|i: int| 0 <= i < raw.len() - 1 implies #[trigger] raw[i].base + raw[i].size <= u64::MAX
            && raw[i].base + raw[i].size <= raw[i + 1].base by {
            assert(normalized(regions[i], i, raw[i]));
            assert(normalized(regions[i + 1], i + 1, raw[i + 1]));
            assert(regions[i].base.0 + regions[i].size <= u64::MAX);
        }
    }
    if raw_regions_valid(raw) {
        assert forall|i: int| 0 <= i < regions.len() - 1 implies #[trigger] regions[i].base.0 + regions[i].size <= u64::MAX
            && regions[i].base.0 + regions[i].size <= regions[i + 1].base.0 by {
            assert(normalized(regions[i], i, raw[i]));
            assert(normalized(regions[i + 1], i + 1, raw[i + 1]));
            assert(raw[i].base + raw[i].size <= u64::MAX);
        }
    }
    if raw_readable_fit(raw) {
        assert forall|i: int| 0 <= i < regions.len() && (#[trigger] regions[i]).readable implies regions[i].base.0 + regions[i].size <= u64::MAX by {
            assert(normalized(regions[i], i, raw[i]));
        }
    }
    if forall|i: int| 0 <= i < regions.len() && (#[trigger] regions[i]).readable ==> regions[i].base.0 + regions[i].size <= u64::MAX {
        assert forall|i: int| 0 <= i < raw.len() && (#[trigger] raw[i]).committed && raw[i].access.read implies raw[i].base + raw[i].size <= u64::MAX by {
            assert(normalized(regions[i], i, raw[i]));
        }
    }
}

/// Consecutive regions are ordered and do not overlap.
pub open spec fn regions_valid(regions: Seq<MemoryRegion>) -> bool {
    forall|i: int| 0 <= i < regions.len() - 1 ==> #[trigger] regions[i].base.0 + regions[i].size <= u64::MAX
        && regions[i].base.0 + regions[i].size <= regions[i + 1].base.0
}

/// Rejects overlapping or unordered enumeration, which would make region
/// attribution and scope intersection ambiguous.
pub fn validate_regions(regions: &Vec<MemoryRegion>) -> (res: Result<()>)
    ensures
        res is Ok <==> regions_valid(regions@),
        res matches Err(e) ==> e is SourceInvariant,
{
    if regions.len() < 2 {
        return Ok(());
    }
    let mut i: usize = 0;
    let last = regions.len() - 1;
    while i < last
        invariant
            0 <= i <= last,
            last == regions@.len() - 1,
            forall|k: int| 0 <= k < i ==> #[trigger] regions@[k].base.0 + regions@[k].size <= u64::MAX
                && regions@[k].base.0 + regions@[k].size <= regions@[k + 1].base.0,
        decreases regions@.len() - i,
    {
        let end = regions[i].end()?;
        if end > regions[i + 1].base.0 {
            return Err(Error::SourceInvariant(String::from_str("overlapping memory regions are unsupported")));
        }
        i = i + 1;
    }
    Ok(())
}

/// The bytes of the readable regions.
pub open spec fn readable_sum(regions: Seq<MemoryRegion>) -> int
    decreases regions.len(),
{
    if regions.len() == 0 {
        0
    } else {
        readable_sum(regions.drop_last()) + if regions.last().readable { regions.last().size as int } else { 0 }
    }
}

/// The bytes of the readable regions; more than `u64::MAX` fails with
/// `SOURCE_INVARIANT`.
pub fn expected_readable_bytes(regions: &Vec<MemoryRegion>) -> (res: Result<u64>)
    ensures
        res is Ok <==> readable_sum(regions@) <= u64::MAX,
        res matches Ok(n) ==> n == readable_sum(regions@),
        res matches Err(e) ==> e is SourceInvariant,
{
    let mut total: u64 = 0;
    let mut i: usize = 0;
    while i < regions.len()
        invariant
            0 <= i <= regions@.len(),
            total == readable_sum(regions@.subrange(0, i as int)),
        decreases regions@.len() - i,
    {
        proof {
            assert(regions@.subrange(0, i as int + 1).drop_last() =~= regions@.subrange(0, i as int));
        }
        if regions[i].readable {
            match total.checked_add(regions[i].size) {
                Some(t) => total = t,
                None => {
                    proof {
                        lemma_readable_sum_grows(regions@, i as int + 1);
                    }
                    return Err(Error::SourceInvariant(String::from_str("readable byte count overflow")));
                },
            }
        }
        i = i + 1;
    }
    proof {
        assert(regions@.subrange(0, regions@.len() as int) =~= regions@);
    }
    Ok(total)
}

proof fn lemma_readable_sum_grows(regions: Seq<MemoryRegion>, n: int)
    requires
        0 <= n <= regions.len(),
    ensures
        readable_sum(regions.subrange(0, n)) <= readable_sum(regions),
    decreases regions.len() - n,
{
    if n < regions.len() {
        lemma_readable_sum_grows(regions, n + 1);
        assert(regions.subrange(0, n + 1).drop_last() =~= regions.subrange(0, n));
    } else {
        assert(regions.subrange(0, n) =~= regions);
    }
}

/// Runs are ascending and separated by gaps: no run ends where the next begins.
pub open spec fn runs_separated(runs: Seq<ReadableRun>) -> bool {
    forall|j: int, k: int| 0 <= j < k < runs.len() ==> (#[trigger] runs[j]).end < (#[trigger] runs[k]).start
}

/// Merges adjacent readable regions into runs, in order. Over regions in address
/// order that do not overlap, the runs come out ascending and separated by gaps,
/// so readable regions that touch end up in one run.
pub fn merge_readable_runs(regions: &Vec<MemoryRegion>) -> (res: Result<Vec<ReadableRun>>)
    ensures
        res is Ok <==> forall|i: int| 0 <= i < regions@.len() && (#[trigger] regions@[i]).readable ==> regions@[i].base.0 + regions@[i].size <= u64::MAX,
        res matches Err(e) ==> e is SourceInvariant,
        res matches Ok(runs) ==> forall|a: int| #[trigger] in_runs(runs@, a) <==> readable_region_at(regions@, a),
        res matches Ok(runs) ==> forall|k: int| 0 <= k < runs@.len() ==> (#[trigger] runs@[k]).start < runs@[k].end,
        regions_valid(regions@) ==> (res matches Ok(runs) ==> runs_separated(runs@)),
{
    let mut runs: Vec<ReadableRun> = Vec::new();
    let mut i: usize = 0;
    while i < regions.len()
        invariant
            0 <= i <= regions@.len(),
            forall|k: int| 0 <= k < i && (#[trigger] regions@[k]).readable ==> regions@[k].base.0 + regions@[k].size <= u64::MAX,
            forall|a: int| #[trigger] in_runs(runs@, a) <==> readable_region_at(regions@.subrange(0, i as int), a),
            forall|k: int| 0 <= k < runs@.len() ==> (#[trigger] runs@[k]).start <= runs@[k].end,
            regions_valid(regions@) ==> runs_separated(runs@),
            regions_valid(regions@) && i > 0 && runs@.len() > 0 ==> runs@.last().end <= regions@[i - 1].base.0 + regions@[i - 1].size,
            i == 0 ==> runs@.len() == 0,
        decreases regions@.len() - i,
    {
        let r = &regions[i];
        let ghost before = runs@;
        let ghost prefix = regions@.subrange(0, i as int);
        let ghost next = regions@.subrange(0, i as int + 1);
        proof {
            assert(next =~= prefix.push(regions@[i as int]));
        }
        if r.readable {
            let end = r.end()?;
            let n = runs.len();
            if n > 0 && runs[n - 1].end == r.base.0 {
                let last = runs[n - 1];
                runs.set(n - 1, ReadableRun { start: last.start, end });
                proof {
                    assert forall|a: int| #[trigger] in_runs(runs@, a) <==> readable_region_at(next, a) by {
                        lemma_readable_push(prefix, regions@[i as int], a);
                        lemma_runs_extend(before, end as int, a);
                    }
                }
            } else {
                runs.push(ReadableRun { start: r.base.0, end });
                proof {
                    assert forall|a: int| #[trigger] in_runs(runs@, a) <==> readable_region_at(next, a) by {
                        lemma_readable_push(prefix, regions@[i as int], a);
                        lemma_runs_push(before, ReadableRun { start: r.base.0, end }, a);
                    }
                }
            }
        } else {
            proof {
                assert forall|a: int| #[trigger] in_runs(runs@, a) <==> readable_region_at(next, a) by {
                    lemma_readable_push(prefix, regions@[i as int], a);
                }
            }
        }
        i = i + 1;
    }
    proof {
        assert(regions@.subrange(0, regions@.len() as int) =~= regions@);
    }
    let mut kept: Vec<ReadableRun> = Vec::new();
    let mut k: usize = 0;
    while k < runs.len()
        invariant
            0 <= k <= runs@.len(),
            forall|j: int| 0 <= j < runs@.len() ==> (#[trigger] runs@[j]).start <= runs@[j].end,
            forall|j: int| 0 <= j < kept@.len() ==> (#[trigger] kept@[j]).start < kept@[j].end,
            forall|a: int| #[trigger] in_runs(kept@, a) <==> in_runs(runs@.subrange(0, k as int), a),
            regions_valid(regions@) ==> runs_separated(runs@),
            regions_valid(regions@) ==> runs_separated(kept@),
            regions_valid(regions@) && k < runs@.len() && kept@.len() > 0 ==> kept@.last().end < runs@[k as int].start,
        decreases runs@.len() - k,
    {
        let run = runs[k];
        let ghost before = kept@;
        proof {
            assert(runs@.subrange(0, k as int + 1) =~= runs@.subrange(0, k as int).push(run));
        }
        if run.start < run.end {
            kept.push(run);
            proof {
                assert forall|a: int| #[trigger] in_runs(kept@, a) <==> in_runs(runs@.subrange(0, k as int + 1), a) by {
                    lemma_runs_push(before, run, a);
                    lemma_runs_push(runs@.subrange(0, k as int), run, a);
                }
            }
        } else {
            proof {
                assert forall|a: int| #[trigger] in_runs(kept@, a) <==> in_runs(runs@.subrange(0, k as int + 1), a) by {
                    lemma_runs_push(runs@.subrange(0, k as int), run, a);
                }
            }
        }
        k = k + 1;
    }
    proof {
        assert(runs@.subrange(0, runs@.len() as int) =~= runs@);
    }
    Ok(kept)
}

/// Some run holds address `a`.
pub open spec fn in_runs(runs: Seq<ReadableRun>, a: int) -> bool {
    exists|k: int| 0 <= k < runs.len() && #[trigger] runs[k].start <= a && a < runs[k].end
}

/// Some readable region holds address `a`.
pub open spec fn readable_region_at(regions: Seq<MemoryRegion>, a: int) -> bool {
    exists|k: int| 0 <= k < regions.len() && (#[trigger] regions[k]).readable && regions[k].base.0 <= a && a < regions[k].base.0 + regions[k].size
}

proof fn lemma_readable_push(s: Seq<MemoryRegion>, r: MemoryRegion, a: int)
    ensures
        readable_region_at(s.push(r), a) <==> readable_region_at(s, a) || (r.readable && r.base.0 <= a && a < r.base.0 + r.size),
{
    let t = s.push(r);
    if readable_region_at(t, a) {
        let k = choose|k: int| 0 <= k < t.len() && (#[trigger] t[k]).readable && t[k].base.0 <= a && a < t[k].base.0 + t[k].size;
        if k < s.len() {
            assert(t[k] == s[k]);
        }
    }
    if readable_region_at(s, a) {
        let k = choose|k: int| 0 <= k < s.len() && (#[trigger] s[k]).readable && s[k].base.0 <= a && a < s[k].base.0 + s[k].size;
        assert(t[k] == s[k]);
    }
    if r.readable && r.base.0 <= a && a < r.base.0 + r.size {
        assert(t[s.len() as int] == r);
    }
}

proof fn lemma_runs_push(s: Seq<ReadableRun>, r: ReadableRun, a: int)
    ensures
        in_runs(s.push(r), a) <==> in_runs(s, a) || (r.start <= a && a < r.end),
{
    let t = s.push(r);
    if in_runs(t, a) {
        let k = choose|k: int| 0 <= k < t.len() && #[trigger] t[k].start <= a && a < t[k].end;
        if k < s.len() {
            assert(t[k] == s[k]);
        }
    }
    if in_runs(s, a) {
        let k = choose|k: int| 0 <= k < s.len() && #[trigger] s[k].start <= a && a < s[k].end;
        assert(t[k] == s[k]);
    }
    if r.start <= a && a < r.end {
        assert(t[s.len() as int] == r);
    }
}

proof fn lemma_runs_extend(s: Seq<ReadableRun>, end: int, a: int)
    requires
        s.len() > 0,
        s.last().start <= s.last().end,
        s.last().end <= end <= u64::MAX,
    ensures
        in_runs(s.update(s.len() - 1, ReadableRun { start: s.last().start, end: end as u64 }), a)
            <==> in_runs(s, a) || (s.last().end <= a && a < end),
{
    let n = s.len() - 1;
    let t = s.update(n, ReadableRun { start: s.last().start, end: end as u64 });
    if in_runs(t, a) {
        let k = choose|k: int| 0 <= k < t.len() && #[trigger] t[k].start <= a && a < t[k].end;
        if k < n {
            assert(t[k] == s[k]);
        } else if a < s.last().end {
            assert(s[n].start <= a && a < s[n].end);
        }
    }
    if in_runs(s, a) {
        let k = choose|k: int| 0 <= k < s.len() && #[trigger] s[k].start <= a && a < s[k].end;
        if k < n {
            assert(t[k] == s[k]);
        } else {
            assert(t[n].start <= a && a < t[n].end);
        }
    }
    if s.last().end <= a && a < end {
        assert(t[n].start <= a && a < t[n].end);
    }
}

// ---------------------------------------------------------------------------
// Identity
// ---------------------------------------------------------------------------

/// The id a live process is known by: `pid:` and its decimal PID.
pub open spec fn live_process_id(pid: u32) -> Seq<char> {
    "pid:"@ + decimal(pid as nat)
}

/// What a live source's fingerprint hashes: the platform name, the PID and the
/// start time (little-endian), and the image path. It identifies the observed
/// process, never the bytes it holds.
pub open spec fn fingerprint_input(platform: Seq<char>, identity: TargetIdentity) -> Seq<u8> {
    encode_utf8(platform) + le_bytes(identity.pid as nat, 4) + le_bytes(identity.start_time_unix_ms as nat, 8)
        + encode_utf8(identity.image_path@)
}

fn append_bytes(out: &mut Vec<u8>, bytes: &[u8])
    ensures
        final(out)@ == old(out)@ + bytes@,
{
    let mut i: usize = 0;
    while i < bytes.len()
        invariant
            0 <= i <= bytes@.len(),
            out@ == old(out)@ + bytes@.subrange(0, i as int),
        decreases bytes@.len() - i,
    {
        out.push(bytes[i]);
        i = i + 1;
        proof {
            assert(out@ =~= old(out)@ + bytes@.subrange(0, i as int));
        }
    }
    proof {
        assert(bytes@.subrange(0, bytes@.len() as int) =~= bytes@);
    }
}

/// The fingerprint of a live process: the lowercase hexadecimal BLAKE3 digest of
/// its identity.
pub fn live_fingerprint(platform: &str, identity: &TargetIdentity) -> (res: String)
    ensures
        res@ == hex_bytes(blake3_digest(fingerprint_input(platform@, *identity))),
        res@.len() == 64,
{
    let mut input: Vec<u8> = Vec::new();
    append_bytes(&mut input, platform.as_bytes());
    let pid = le_bytes_of(identity.pid as u64, 4);
    append_bytes(&mut input, pid.as_slice());
    let start = le_bytes_of(identity.start_time_unix_ms, 8);
    append_bytes(&mut input, start.as_slice());
    append_bytes(&mut input, identity.image_path.as_str().as_bytes());
    let digest = blake3_hash(input.as_slice());
    proof {
        crate::source::minidump::hex_bytes_length(digest@);
        assert(input@ =~= fingerprint_input(platform@, *identity));
    }
    hex_text(&digest)
}

/// The process a live source describes.
pub fn live_process_info(identity: &TargetIdentity) -> (res: ProcessInfo)
    ensures
        res.id@ == live_process_id(identity.pid),
        plain_file_name(identity.image_path@) ==> res.display_name@ == identity.image_path@,
{
    let mut id: Vec<char> = Vec::new();
    crate::text::push_str(&mut id, "pid:");
    push_decimal(&mut id, identity.pid as u64);
    proof {
        assert(id@ =~= live_process_id(identity.pid));
    }
    let display_name = match host_file_name(identity.image_path.as_str()) {
        Some(name) => name,
        None => String::from_str("live-process"),
    };
    ProcessInfo { id: string_from_chars(id.as_slice()), display_name }
}

// ---------------------------------------------------------------------------
// The source
// ---------------------------------------------------------------------------

/// A live process as enumerated: what describes it and its readable runs.
#[derive(Debug)]
pub struct LiveProcess {
    pub process: ProcessInfo,
    pub regions: Vec<MemoryRegion>,
    pub modules: Vec<ModuleInfo>,
    pub runs: Vec<ReadableRun>,
    pub expected_readable_bytes: u64,
    pub started_at_unix_ms: u64,
}

/// A live process opened as a memory source.
#[derive(Debug)]
pub struct LiveSource {
    pub info: SourceInfo,
    pub processes: Vec<ProcessInfo>,
    pub process: LiveProcess,
}

impl LiveSource {
    /// Builds the source from what a host backend enumerated about the process
    /// `identity` names, observed since `started_at_unix_ms`.
    pub fn assemble(
        identity: &TargetIdentity,
        raw: &Vec<RawRegion>,
        modules: Vec<ModuleInfo>,
        platform: &'static str,
        architecture: &'static str,
        started_at_unix_ms: u64,
    ) -> (res: Result<LiveSource>)
        ensures
            raw@.len() > MAX_LIVE_REGIONS ==> (res matches Err(e) && e is SourceTooLarge),
            raw@.len() <= MAX_LIVE_REGIONS && modules@.len() > MAX_LIVE_MODULES ==> (res matches Err(e) && e is SourceTooLarge),
            res is Ok <==> live_source_builds(raw@, modules@.len()),
            res matches Ok(src) ==> {
                &&& raw@.len() <= MAX_LIVE_REGIONS
                &&& src.process.modules@ == modules@
                &&& src.process.regions@.len() == raw@.len()
                &&& forall|i: int| 0 <= i < raw@.len() ==> normalized(#[trigger] src.process.regions@[i], i, raw@[i])
                &&& regions_valid(src.process.regions@)
                &&& src.process.expected_readable_bytes == readable_sum(src.process.regions@)
                &&& forall|a: int| #[trigger] in_runs(src.process.runs@, a) <==> readable_region_at(src.process.regions@, a)
                &&& forall|k: int| 0 <= k < src.process.runs@.len() ==> (#[trigger] src.process.runs@[k]).start < src.process.runs@[k].end
                &&& src.process.process.id@ == live_process_id(identity.pid)
                &&& plain_file_name(identity.image_path@) ==> src.process.process.display_name@ == identity.image_path@
                &&& src.processes@ == seq![src.process.process]
                &&& src.process.started_at_unix_ms == started_at_unix_ms
                &&& src.info.kind@ == "live"@
                &&& src.info.fingerprint@ == hex_bytes(blake3_digest(fingerprint_input(platform@, *identity)))
                &&& src.info.fingerprint@.len() == 64
                &&& src.info.platform == platform
                &&& src.info.architecture == architecture
                &&& !src.info.immutable
            },
            res matches Err(e) ==> e is SourceTooLarge || e is SourceInvariant,
    {
        if raw.len() > MAX_LIVE_REGIONS {
            let count = decimal_string(raw.len() as u64);
            return Err(Error::SourceTooLarge(joined(&["memory region count ", count.as_str(), " exceeds the 262144 limit"])));
        }
        if modules.len() > MAX_LIVE_MODULES {
            let count = decimal_string(modules.len() as u64);
            return Err(Error::SourceTooLarge(joined(&["module count ", count.as_str(), " exceeds the 32768 limit"])));
        }
        let regions = normalize_regions(raw);
        proof {
            lemma_normalized_facts(regions@, raw@);
        }
        validate_regions(&regions)?;
        let expected = expected_readable_bytes(&regions)?;
        let runs = merge_readable_runs(&regions)?;
        let listed = live_process_info(identity);
        let process = live_process_info(identity);
        proof {
            assert(listed.id@ == process.id@);
        }
        let fingerprint = live_fingerprint(platform, identity);
        let mut processes: Vec<ProcessInfo> = Vec::new();
        processes.push(ProcessInfo { id: process.id.clone(), display_name: process.display_name.clone() });
        let src = LiveSource {
            info: SourceInfo { kind: "live", fingerprint, platform, architecture, immutable: false },
            processes,
            process: LiveProcess { process, regions, modules, runs, expected_readable_bytes: expected, started_at_unix_ms },
        };
        proof {
            reveal_strlit("live");
            assert(src.processes@ =~= seq![src.process.process]);
        }
        Ok(src)
    }

    /// The process with id `id`; a live source holds only the process it opened.
    pub fn open_process(&self, id: &str) -> (res: Result<&LiveProcess>)
        ensures
            res is Ok <==> id@ == self.process.process.id@,
            res matches Ok(p) ==> p == &self.process,
            res matches Err(e) ==> e is InvalidArgument,
    {
        let given = str_chars(id);
        let own = str_chars(self.process.process.id.as_str());
        let mut same = given.len() == own.len();
        let mut i: usize = 0;
        while same && i < given.len()
            invariant
                0 <= i <= given@.len(),
                given@ == id@,
                own@ == self.process.process.id@,
                same ==> given@.len() == own@.len(),
                same ==> forall|k: int| 0 <= k < i ==> given@[k] == own@[k],
                !same ==> id@ != self.process.process.id@,
            decreases given@.len() - i,
        {
            if given[i] != own[i] {
                same = false;
            }
            i = i + 1;
        }
        if same {
            proof {
                assert(given@ =~= own@);
            }
            Ok(&self.process)
        } else {
            let quoted = crate::text::debug_quoted(id);
            let expected = crate::text::debug_quoted(self.process.process.id.as_str());
            Err(Error::InvalidArgument(joined(&["unknown process id ", quoted.as_str(), "; expected ", expected.as_str()])))
        }
    }
}

/// The limitations of a live source's coverage, in order: no read was attempted;
/// some expected readable byte was not read; some read was refused.
pub open spec fn live_limitations(read: u64, refused: u64, unavailable: int) -> Seq<CoverageLimitation> {
    let a = if read == 0 && refused == 0 { seq![CoverageLimitation::ReadsNotAttempted] } else { Seq::empty() };
    let b = if unavailable != 0 { a.push(CoverageLimitation::ExpectedReadableScopeUnproven) } else { a };
    if refused != 0 { b.push(CoverageLimitation::ReadableBytesUnreadable) } else { b }
}

/// Before any read of a process that has readable memory, its coverage says so:
/// no read was attempted and the expected readable scope is unproven, in that
/// order and nothing else.
pub proof fn unread_coverage_limitations(expected: u64)
    requires
        expected > 0,
    ensures
        live_limitations(0, 0, expected as int) == seq![CoverageLimitation::ReadsNotAttempted, CoverageLimitation::ExpectedReadableScopeUnproven],
{
    assert(live_limitations(0, 0, expected as int) =~= seq![CoverageLimitation::ReadsNotAttempted, CoverageLimitation::ExpectedReadableScopeUnproven]);
}

/// The coverage of a live source after `read` readable bytes were read and
/// `refused` were refused, observed from `started` to `completed`. Every expected
/// readable byte not read is unavailable, whether refused or never attempted.
pub fn live_coverage(expected: u64, read: u64, refused: u64, started: u64, completed: u64) -> (res: Coverage)
    ensures
        res.expected_readable_bytes == expected,
        res.captured_readable_bytes == read,
        res.unavailable_readable_bytes == (if expected >= read { expected - read } else { 0 }),
        res.metadata_complete,
        res.coverage_complete == (res.unavailable_readable_bytes == 0 && refused == 0),
        res.observation == Some(ObservationInterval { started_at_unix_ms: started, completed_at_unix_ms: completed }),
        res.limitations@ == live_limitations(read, refused, res.unavailable_readable_bytes as int),
{
    let unavailable = if expected >= read { expected - read } else { 0 };
    let mut limitations: Vec<CoverageLimitation> = Vec::new();
    if read == 0 && refused == 0 {
        limitations.push(CoverageLimitation::ReadsNotAttempted);
    }
    if unavailable != 0 {
        limitations.push(CoverageLimitation::ExpectedReadableScopeUnproven);
    }
    if refused != 0 {
        limitations.push(CoverageLimitation::ReadableBytesUnreadable);
    }
    proof {
        assert(limitations@ =~= live_limitations(read, refused, unavailable as int));
    }
    Coverage {
        expected_readable_bytes: expected,
        captured_readable_bytes: read,
        unavailable_readable_bytes: unavailable,
        metadata_complete: true,
        coverage_complete: unavailable == 0 && refused == 0,
        observation: Some(ObservationInterval { started_at_unix_ms: started, completed_at_unix_ms: completed }),
        limitations,
    }
}

// ---------------------------------------------------------------------------
// Sweeping and reading
// ---------------------------------------------------------------------------

/// How far past a refused byte a sweep or read skips: to the next page
/// boundary, but not past `end`.
pub open spec fn skip_len(stopped_at: int, page: int, end: int) -> int {
    let to_page = page - stopped_at % page;
    if to_page < end - stopped_at { to_page } else { end - stopped_at }
}

/// Bytes to skip after a read stopped at `stopped_at`: the rest of that page,
/// clipped to `end`.
pub fn refused_skip(stopped_at: u64, page: u64, end: u64) -> (res: u64)
    requires
        page >= 1,
        stopped_at < end,
    ensures
        res == skip_len(stopped_at as int, page as int, end as int),
        1 <= res <= end - stopped_at,
{
    let to_page = page - stopped_at % page;
    if to_page < end - stopped_at { to_page } else { end - stopped_at }
}

/// What a read of `[cursor, end)` does after the host returned `filled` bytes.
#[derive(Debug, Clone, Copy)]
pub struct ReadStep {
    /// Where the read resumes, or `None` when the range is done.
    pub next: Option<u64>,
    /// Bytes counted as refused and skipped.
    pub refused: u64,
}

/// The step a read takes after asking for `[cursor, end)` and getting the first
/// `filled` bytes: when every byte came the range is done; otherwise the bytes
/// from where the host stopped to the next page boundary (not past `end`) are
/// refused, and the read resumes after them while any of the range is left.
pub fn read_step(cursor: u64, end: u64, filled: usize, page: u64) -> (res: ReadStep)
    requires
        cursor < end,
        filled <= end - cursor,
        page >= 1,
    ensures
        filled == end - cursor ==> res.next is None && res.refused == 0,
        filled < end - cursor ==> {
            &&& res.refused == skip_len(cursor + filled, page as int, end as int)
            &&& res.next == (if cursor + filled + res.refused < end { Some((cursor + filled + res.refused) as u64) } else { None::<u64> })
        },
{
    if filled as u64 == end - cursor {
        return ReadStep { next: None, refused: 0 };
    }
    let stopped_at = cursor + filled as u64;
    let skip = refused_skip(stopped_at, page, end);
    let resume = stopped_at + skip;
    ReadStep { next: if resume < end { Some(resume) } else { None }, refused: skip }
}

/// The next page-sized step of a read that resumes at `at` with `remaining`
/// bytes left: up to the next page boundary.
pub fn page_step(at: u64, page: usize, remaining: usize) -> (res: usize)
    requires
        page >= 1,
    ensures
        res == (if (page - at % (page as u64)) < remaining { page - at % (page as u64) } else { remaining as int }),
{
    let to_page = page - (at % (page as u64)) as usize;
    if to_page < remaining { to_page } else { remaining }
}

/// A chunk a sweep hands on: `length` bytes at `base`, the first `carry` of them
/// repeated from the previous chunk.
#[derive(Debug, Clone, Copy)]
pub struct ChunkPlan {
    pub base: u64,
    pub length: usize,
    pub carry: usize,
    /// No later chunk carries bytes over from this one.
    pub last_in_run: bool,
}

/// What a sweep step decided: the chunk to hand on, how many trailing bytes to
/// keep as the next carry, and how many expected readable bytes were refused.
#[derive(Debug, Clone, Copy)]
pub struct SweepStep {
    pub chunk: Option<ChunkPlan>,
    pub keep: usize,
    pub refused: u64,
}

/// A sweep of `[start, end)` in chunks of at most `SCAN_CHUNK_BYTES`, each
/// repeating up to `overlap` trailing bytes of the one before, so a pattern can
/// straddle a chunk boundary. The carry restarts at every refused page, because a
/// pattern cannot span bytes that were never read.
#[derive(Debug, Clone, Copy)]
pub struct Sweep {
    pub start: u64,
    pub cursor: u64,
    pub end: u64,
    pub carry: usize,
}

impl Sweep {
    /// The sweep's invariant: the cursor lies in the range and the carried bytes
    /// were read inside it.
    pub open spec fn wf(&self) -> bool {
        &&& self.start <= self.cursor <= self.end
        &&& self.carry <= self.cursor - self.start
    }

    /// A sweep of `[start, end)`.
    pub fn new(start: u64, end: u64) -> (res: Sweep)
        requires
            start <= end,
        ensures
            res.wf(),
            res.start == start && res.cursor == start && res.end == end && res.carry == 0,
    {
        Sweep { start, cursor: start, end, carry: 0 }
    }

    /// How many bytes to read next, after the carry; `None` when the sweep is done.
    pub fn want(&self) -> (res: Option<usize>)
        requires
            self.wf(),
        ensures
            self.cursor >= self.end ==> res is None,
            self.cursor < self.end ==> res == Some((if self.end - self.cursor < SCAN_CHUNK_BYTES { self.end - self.cursor } else { SCAN_CHUNK_BYTES as int }) as usize),
    {
        if self.cursor >= self.end {
            None
        } else if self.end - self.cursor < SCAN_CHUNK_BYTES as u64 {
            Some((self.end - self.cursor) as usize)
        } else {
            Some(SCAN_CHUNK_BYTES)
        }
    }

    /// Advances past a read of `want` bytes at the cursor that proved the first
    /// `filled` of them readable. A short read skips the rest of the refused page
    /// and restarts the carry.
    pub fn advance(&mut self, want: usize, filled: usize, page: u64, overlap: usize) -> (res: SweepStep)
        requires
            old(self).wf(),
            old(self).cursor < old(self).end,
            1 <= want <= old(self).end - old(self).cursor,
            old(self).carry + want <= usize::MAX,
            filled <= want,
            page >= 1,
        ensures
            final(self).wf(),
            final(self).start == old(self).start,
            final(self).end == old(self).end,
            final(self).cursor > old(self).cursor,
            filled == 0 ==> res.chunk is None,
            filled > 0 ==> res.chunk == Some(ChunkPlan {
                base: (old(self).cursor - old(self).carry) as u64,
                length: (old(self).carry + filled) as usize,
                carry: old(self).carry,
                last_in_run: filled < want || old(self).cursor + want == old(self).end,
            }),
            filled == want ==> {
                &&& final(self).cursor == old(self).cursor + want
                &&& final(self).carry == (if overlap < old(self).carry + filled { overlap as int } else { old(self).carry + filled })
                &&& res.keep == final(self).carry
                &&& res.refused == 0
            },
            filled < want ==> {
                &&& res.refused == skip_len(old(self).cursor + filled, page as int, old(self).end as int)
                &&& final(self).cursor == old(self).cursor + filled + res.refused
                &&& final(self).carry == 0
                &&& res.keep == 0
            },
    {
        let chunk = if filled != 0 {
            Some(ChunkPlan {
                base: self.cursor - self.carry as u64,
                length: self.carry + filled,
                carry: self.carry,
                last_in_run: filled < want || self.cursor + want as u64 == self.end,
            })
        } else {
            None
        };
        if filled == want {
            let total = self.carry + filled;
            let next_carry = if overlap < total { overlap } else { total };
            self.cursor = self.cursor + want as u64;
            self.carry = next_carry;
            SweepStep { chunk, keep: next_carry, refused: 0 }
        } else {
            let stopped_at = self.cursor + filled as u64;
            let skip = refused_skip(stopped_at, page, self.end);
            self.cursor = stopped_at + skip;
            self.carry = 0;
            SweepStep { chunk, keep: 0, refused: skip }
        }
    }
}

/// The readable regions' parts of `[address, end)`, in region order.
pub open spec fn read_targets(regions: Seq<MemoryRegion>, address: int, end: int) -> Seq<(u64, u64)>
    decreases regions.len(),
{
    if regions.len() == 0 {
        Seq::empty()
    } else {
        let prev = read_targets(regions.drop_last(), address, end);
        let r = regions.last();
        let lo = if address > r.base.0 { address } else { r.base.0 as int };
        let hi = if end < r.base.0 + r.size { end } else { r.base.0 + r.size };
        if r.readable && lo < hi {
            prev.push((lo as u64, hi as u64))
        } else {
            prev
        }
    }
}

/// The ranges a live read of `length` bytes at `address` must read: its overlap
/// with each readable region, in order. A range passing the end of the address
/// space fails with `INVALID_ARGUMENT`; a readable region that does, with
/// `SOURCE_INVARIANT`.
pub fn read_ranges(regions: &Vec<MemoryRegion>, address: u64, length: usize) -> (res: Result<Vec<(u64, u64)>>)
    ensures
        address + length > u64::MAX ==> (res matches Err(e) && e is InvalidArgument),
        res is Ok <==> address + length <= u64::MAX
            && forall|i: int| 0 <= i < regions@.len() && (#[trigger] regions@[i]).readable ==> regions@[i].base.0 + regions@[i].size <= u64::MAX,
        res matches Ok(ranges) ==> ranges@ == read_targets(regions@, address as int, address + length),
        res matches Err(e) ==> e is InvalidArgument || e is SourceInvariant,
{
    let end = match address.checked_add(length as u64) {
        Some(end) => end,
        None => {
            return Err(Error::InvalidArgument(String::from_str("read range overflows u64")));
        },
    };
    let mut out: Vec<(u64, u64)> = Vec::new();
    let mut i: usize = 0;
    while i < regions.len()
        invariant
            0 <= i <= regions@.len(),
            end == address + length,
            forall|k: int| 0 <= k < i && (#[trigger] regions@[k]).readable ==> regions@[k].base.0 + regions@[k].size <= u64::MAX,
            out@ == read_targets(regions@.subrange(0, i as int), address as int, end as int),
        decreases regions@.len() - i,
    {
        proof {
            assert(regions@.subrange(0, i as int + 1).drop_last() =~= regions@.subrange(0, i as int));
        }
        let r = &regions[i];
        if r.readable {
            let region_end = r.end()?;
            let lo = if address > r.base.0 { address } else { r.base.0 };
            let hi = if end < region_end { end } else { region_end };
            if lo < hi {
                out.push((lo, hi));
            }
        }
        i = i + 1;
    }
    proof {
        assert(regions@.subrange(0, regions@.len() as int) =~= regions@);
    }
    Ok(out)
}

/// Appends bytes read at `cursor` to a read's segments: bytes that continue the
/// last segment join it, so the caller sees gaps, not enumeration artifacts.
pub fn append_read(out: &mut Vec<ReadSegment>, cursor: u64, bytes: &[u8])
    requires
        bytes@.len() > 0,
    ensures
        old(out)@.len() > 0 && old(out)@.last().address + old(out)@.last().bytes@.len() == cursor ==> {
            &&& final(out)@.len() == old(out)@.len()
            &&& final(out)@.subrange(0, old(out)@.len() - 1) == old(out)@.subrange(0, old(out)@.len() - 1)
            &&& final(out)@.last().address == old(out)@.last().address
            &&& final(out)@.last().bytes@ == old(out)@.last().bytes@ + bytes@
        },
        !(old(out)@.len() > 0 && old(out)@.last().address + old(out)@.last().bytes@.len() == cursor) ==> {
            &&& final(out)@.len() == old(out)@.len() + 1
            &&& final(out)@.subrange(0, old(out)@.len() as int) == old(out)@
            &&& final(out)@.last().address == cursor
            &&& final(out)@.last().bytes@ == bytes@
        },
{
    let n = out.len();
    if n > 0 && out[n - 1].address as u128 + out[n - 1].bytes.len() as u128 == cursor as u128 {
        let mut last = out.pop().unwrap();
        let ghost kept = out@;
        proof {
            assert(last == old(out)@.last());
            assert(kept =~= old(out)@.subrange(0, n - 1));
        }
        let mut i: usize = 0;
        let ghost first = last.bytes@;
        while i < bytes.len()
            invariant
                0 <= i <= bytes@.len(),
                last.bytes@ == first + bytes@.subrange(0, i as int),
                last.address == old(out)@.last().address,
            decreases bytes@.len() - i,
        {
            last.bytes.push(bytes[i]);
            i = i + 1;
            proof {
                assert(last.bytes@ =~= first + bytes@.subrange(0, i as int));
            }
        }
        proof {
            assert(bytes@.subrange(0, bytes@.len() as int) =~= bytes@);
        }
        out.push(last);
        proof {
            assert(out@.subrange(0, n - 1) =~= kept);
        }
    } else {
        let copy = vstd::slice::slice_to_vec(bytes);
        out.push(ReadSegment { address: cursor, bytes: copy });
        proof {
            assert(out@.subrange(0, n as int) =~= old(out)@);
        }
    }
}

/// Every coverage record carries at most `MAX_COVERAGE_LIMITATIONS` limitations,
/// whichever source produced it and whatever it observed.
pub proof fn limitations_are_bounded(
    metadata: Option<CoverageLimitation>,
    unavailable: int,
    read: u64,
    refused: u64,
    live_unavailable: int,
)
    ensures
        dump_limitations(metadata, unavailable).len() <= crate::source::MAX_COVERAGE_LIMITATIONS,
        live_limitations(read, refused, live_unavailable).len() <= crate::source::MAX_COVERAGE_LIMITATIONS,
{
}

} // verus!
