//! An immutable Windows x64 minidump as a memory source.
//!
//! Opening a dump copies its captured memory ranges into one buffer, in address
//! order, normalizes the memory-info list into regions, accounts for coverage, and
//! precomputes the scannable extents: captured bytes inside committed readable
//! regions.

use vstd::prelude::*;

use crate::error::{Error, Result};
use crate::scan::interval::{canonical, covers, intersect, merge, Interval};
use crate::source::dump_format::{
    blake3_digest, blake3_hash, dump_memory, dump_memory_info, dump_modules, dump_system, read_memory,
    read_memory_info, read_modules, read_system, MemoryInfoStream, RawModule, RawRegionInfo,
};
use crate::source::{
    access_text, windows_access, windows_native_text, windows_readable, Address, Coverage, CoverageLimitation,
    MemoryRegion, ModuleInfo, ProcessInfo, ReadSegment, SourceInfo,
};
use crate::text::{hex_lower, host_file_name, joined, plain_file_name, push_hex_padded, str_chars, string_from_chars, zero_padded};

verus! {

/// Hard caps on minidump-derived structure counts: a crafted dump can describe a
/// memory range in a few bytes, and region and extent work grows with these
/// counts, so a source past them fails closed with `SOURCE_TOO_LARGE`.
pub const MAX_CAPTURED_SEGMENTS: usize = 32_768;
pub const MAX_MEMORY_REGIONS: usize = 32_768;
pub const MAX_MODULES: usize = 32_768;

/// The one process a minidump holds.
pub const PROCESS_ID: &'static str = "process:0";

/// A captured memory range: its address, length, and where its bytes start in
/// the source's memory buffer.
#[derive(Debug, Clone, Copy)]
pub struct CapturedSegment {
    pub address: u64,
    pub length: u64,
    pub offset: usize,
}

/// A contiguous stretch of captured readable memory: its address, length, and
/// where its bytes start in the source's memory buffer.
#[derive(Debug, Clone, Copy)]
pub struct Extent {
    pub address: u64,
    pub length: usize,
    pub offset: usize,
}

/// The address end of a segment.
pub open spec fn segment_end(s: CapturedSegment) -> int {
    s.address + s.length
}

/// Segments are ascending and do not overlap, and each one's bytes lie in the
/// buffer right after the previous one's.
pub open spec fn segments_laid_out(segments: Seq<CapturedSegment>, memory_len: int) -> bool {
    &&& forall|i: int| 0 <= i < segments.len() ==> segment_end(#[trigger] segments[i]) <= u64::MAX
    &&& forall|i: int, j: int| 0 <= i < j < segments.len() ==> segment_end(#[trigger] segments[i]) <= (#[trigger] segments[j]).address
    &&& forall|i: int| 0 <= i < segments.len() ==> (#[trigger] segments[i]).offset + segments[i].length <= memory_len
    &&& forall|i: int| 0 < i < segments.len() ==> (#[trigger] segments[i]).offset == segments[i - 1].offset + segments[i - 1].length
}

/// The captured ranges in order, with their buffer offsets, before validation.
pub open spec fn concatenated_offsets(ranges: Seq<(u64, Seq<u8>)>, i: int) -> int
    decreases i,
{
    if i <= 0 {
        0
    } else {
        concatenated_offsets(ranges, i - 1) + ranges[i - 1].1.len()
    }
}

/// Every consecutive pair of ranges is ordered and disjoint, and no range passes
/// the end of the address space.
pub open spec fn ranges_disjoint(ranges: Seq<(u64, Seq<u8>)>) -> bool {
    forall|i: int| 0 <= i < ranges.len() - 1 ==> #[trigger] ranges[i].0 + ranges[i].1.len() <= u64::MAX
        && ranges[i].0 + ranges[i].1.len() <= ranges[i + 1].0
}

/// Whether the last range passes the end of the address space.
pub open spec fn last_range_fits(ranges: Seq<(u64, Seq<u8>)>) -> bool {
    ranges.len() == 0 || ranges.last().0 + ranges.last().1.len() <= u64::MAX
}

/// Checks the captured ranges before anything else is read: more than
/// `MAX_CAPTURED_SEGMENTS` fail with `SOURCE_TOO_LARGE`, and a range that passes
/// the end of the address space or the start of the next one fails with
/// `SOURCE_INVARIANT`. The last range's end is not checked here.
pub fn check_range_order(ranges: &Vec<(u64, Vec<u8>)>) -> (res: Result<()>)
    ensures
        ranges@.len() > MAX_CAPTURED_SEGMENTS ==> (res matches Err(e) && e is SourceTooLarge),
        ranges@.len() <= MAX_CAPTURED_SEGMENTS ==> {
            &&& res is Ok <==> ranges_disjoint(ranges@.map_values(|r: (u64, Vec<u8>)| (r.0, r.1@)))
            &&& res matches Err(e) ==> e is SourceInvariant
        },
{
    if ranges.len() > MAX_CAPTURED_SEGMENTS {
        return Err(Error::SourceTooLarge(String::from_str("captured memory range count exceeds the 32768 limit")));
    }
    let ghost views = ranges@.map_values(|r: (u64, Vec<u8>)| (r.0, r.1@));
    let mut i: usize = 1;
    while i < ranges.len()
        invariant
            1 <= i,
            i <= ranges@.len() || ranges@.len() == 0,
            ranges@.len() <= MAX_CAPTURED_SEGMENTS,
            views == ranges@.map_values(|r: (u64, Vec<u8>)| (r.0, r.1@)),
            forall|k: int| 0 <= k < i - 1 && k < ranges@.len() - 1 ==> #[trigger] views[k].0 + views[k].1.len() <= u64::MAX
                && views[k].0 + views[k].1.len() <= views[k + 1].0,
        decreases ranges@.len() - i,
    {
        let prev_address = ranges[i - 1].0;
        let prev_length = ranges[i - 1].1.len() as u64;
        match prev_address.checked_add(prev_length) {
            None => {
                proof {
                    assert(!ranges_disjoint(views)) by {
                        assert(views[i - 1].0 + views[i - 1].1.len() > u64::MAX);
                    }
                }
                return Err(Error::SourceInvariant(String::from_str("captured address range overflow")));
            },
            Some(end) => {
                if end > ranges[i].0 {
                    proof {
                        assert(!ranges_disjoint(views)) by {
                            assert(views[i - 1].0 + views[i - 1].1.len() > views[i as int].0);
                        }
                    }
                    return Err(Error::SourceInvariant(String::from_str("overlapping captured memory ranges are unsupported")));
                }
            },
        }
        i = i + 1;
    }
    Ok(())
}

/// Copies the captured ranges into one buffer, in order, and records where each
/// one lies. More than `MAX_CAPTURED_SEGMENTS` ranges fail with `SOURCE_TOO_LARGE`;
/// ranges out of order, overlapping, or passing the end of the address space fail
/// with `SOURCE_INVARIANT`.
#[verifier::rlimit(40)]
pub fn collect_segments(ranges: &Vec<(u64, Vec<u8>)>) -> (res: Result<(Vec<u8>, Vec<CapturedSegment>)>)
    ensures
        ranges@.len() > MAX_CAPTURED_SEGMENTS ==> (res matches Err(e) && e is SourceTooLarge),
        ranges@.len() <= MAX_CAPTURED_SEGMENTS ==> {
            let views = ranges@.map_values(|r: (u64, Vec<u8>)| (r.0, r.1@));
            &&& res is Ok <==> ranges_disjoint(views) && last_range_fits(views)
            &&& res matches Err(e) ==> e is SourceInvariant
            &&& res matches Ok((memory, segments)) ==> {
                &&& segments@.len() == ranges@.len()
                &&& segments_laid_out(segments@, memory@.len() as int)
                &&& forall|i: int| 0 <= i < segments@.len() ==> {
                    &&& (#[trigger] segments@[i]).address == ranges@[i].0
                    &&& segments@[i].length == ranges@[i].1@.len()
                    &&& memory@.subrange(segments@[i].offset as int, segments@[i].offset + segments@[i].length) == ranges@[i].1@
                }
            }
        },
{
    if ranges.len() > MAX_CAPTURED_SEGMENTS {
        return Err(Error::SourceTooLarge(String::from_str("captured memory range count exceeds the 32768 limit")));
    }
    let ghost views = ranges@.map_values(|r: (u64, Vec<u8>)| (r.0, r.1@));
    let mut memory: Vec<u8> = Vec::new();
    let mut segments: Vec<CapturedSegment> = Vec::new();
    let mut i: usize = 0;
    while i < ranges.len()
        invariant
            0 <= i <= ranges@.len(),
            ranges@.len() <= MAX_CAPTURED_SEGMENTS,
            views == ranges@.map_values(|r: (u64, Vec<u8>)| (r.0, r.1@)),
            segments@.len() == i,
            forall|k: int| 0 <= k < i - 1 ==> #[trigger] views[k].0 + views[k].1.len() <= u64::MAX
                && views[k].0 + views[k].1.len() <= views[k + 1].0,
            forall|k: int| 0 <= k < i ==> {
                &&& (#[trigger] segments@[k]).address == ranges@[k].0
                &&& segments@[k].length == ranges@[k].1@.len()
                &&& segments@[k].offset + segments@[k].length <= memory@.len()
                &&& memory@.subrange(segments@[k].offset as int, segments@[k].offset + segments@[k].length) == ranges@[k].1@
            },
            forall|k: int| 0 <= k < i - 1 ==> segment_end(#[trigger] segments@[k]) <= u64::MAX,
            forall|k: int| 0 < k < i ==> (#[trigger] segments@[k]).offset == segments@[k - 1].offset + segments@[k - 1].length,
            i > 0 ==> memory@.len() == segments@[i - 1].offset + segments@[i - 1].length,
            forall|a: int, b: int| 0 <= a < b < i ==> segment_end(#[trigger] segments@[a]) <= (#[trigger] segments@[b]).address,
        decreases ranges@.len() - i,
    {
        let (address, bytes) = (ranges[i].0, &ranges[i].1);
        if i > 0 {
            let prev = segments[i - 1];
            match prev.address.checked_add(prev.length) {
                None => {
                    proof {
                        assert(!ranges_disjoint(views)) by {
                            assert(views[i - 1].0 + views[i - 1].1.len() > u64::MAX);
                        }
                    }
                    return Err(Error::SourceInvariant(String::from_str("captured address range overflow")));
                },
                Some(end) => {
                    if end > address {
                        proof {
                            assert(!ranges_disjoint(views)) by {
                                assert(views[i - 1].0 + views[i - 1].1.len() > views[i as int].0);
                            }
                        }
                        return Err(Error::SourceInvariant(String::from_str("overlapping captured memory ranges are unsupported")));
                    }
                },
            }
        }
        let offset = memory.len();
        let ghost before = memory@;
        let mut k: usize = 0;
        while k < bytes.len()
            invariant
                0 <= k <= bytes@.len(),
                memory@ == before + bytes@.subrange(0, k as int),
                offset == before.len(),
            decreases bytes@.len() - k,
        {
            memory.push(bytes[k]);
            k = k + 1;
            proof {
                assert(memory@ =~= before + bytes@.subrange(0, k as int));
            }
        }
        proof {
            assert(bytes@.subrange(0, bytes@.len() as int) =~= bytes@);
        }
        let seg = CapturedSegment { address, length: bytes.len() as u64, offset };
        let ghost old_segments = segments@;
        segments.push(seg);
        proof {
            assert forall|m: int| 0 <= m < i + 1 implies {
                &&& (#[trigger] segments@[m]).address == ranges@[m].0
                &&& segments@[m].length == ranges@[m].1@.len()
                &&& segments@[m].offset + segments@[m].length <= memory@.len()
                &&& memory@.subrange(segments@[m].offset as int, segments@[m].offset + segments@[m].length) == ranges@[m].1@
            } by {
                if m < i {
                    assert(segments@[m] == old_segments[m]);
                    assert(memory@.subrange(segments@[m].offset as int, segments@[m].offset + segments@[m].length)
                        =~= before.subrange(segments@[m].offset as int, segments@[m].offset + segments@[m].length));
                } else {
                    assert(memory@.subrange(offset as int, offset + bytes@.len()) =~= bytes@);
                }
            }
        }
        i = i + 1;
    }
    let n = segments.len();
    if n > 0 && segments[n - 1].address.checked_add(segments[n - 1].length).is_none() {
        // the last range may still pass the end of the address space
        return Err(Error::SourceInvariant(String::from_str("captured address range overflow")));
    }
    proof {
        assert(ranges_disjoint(views));
        if n > 0 {
            assert(views.last() == views[n - 1]);
        }
    }
    Ok((memory, segments))
}

// ---------------------------------------------------------------------------
// Regions
// ---------------------------------------------------------------------------

/// How many bytes of `[base, base + size)` a segment captures (none when the
/// range passes the end of the address space).
pub open spec fn overlap(base: u64, size: u64, s: CapturedSegment) -> int {
    if base + size > u64::MAX {
        0
    } else {
        let end = base + size;
        let seg_end = if s.address + s.length > u64::MAX { u64::MAX as int } else { s.address + s.length };
        let lo = if base > s.address { base as int } else { s.address as int };
        let hi = if end < seg_end { end } else { seg_end };
        if hi > lo { hi - lo } else { 0 }
    }
}

/// How many bytes of `[base, base + size)` the segments capture together.
pub open spec fn overlap_total(segments: Seq<CapturedSegment>, base: u64, size: u64) -> int
    decreases segments.len(),
{
    if segments.len() == 0 {
        0
    } else {
        overlap_total(segments.drop_last(), base, size) + overlap(base, size, segments.last())
    }
}

/// A prefix of the segments captures no more of a range than all of them.
proof fn lemma_overlap_prefix_le(segments: Seq<CapturedSegment>, base: u64, size: u64, n: int)
    requires
        0 <= n <= segments.len(),
    ensures
        overlap_total(segments.subrange(0, n), base, size) <= overlap_total(segments, base, size),
    decreases segments.len() - n,
{
    if n < segments.len() {
        lemma_overlap_prefix_le(segments, base, size, n + 1);
        assert(segments.subrange(0, n + 1).drop_last() =~= segments.subrange(0, n));
    } else {
        assert(segments.subrange(0, n) =~= segments);
    }
}

/// Segments in address order that do not overlap capture at most the range's
/// own bytes, so their total fits in 64 bits.
proof fn lemma_overlap_bounded(segments: Seq<CapturedSegment>, base: u64, size: u64)
    requires
        forall|i: int, j: int| 0 <= i < j < segments.len() ==> segment_end(#[trigger] segments[i]) <= (#[trigger] segments[j]).address,
    ensures
        0 <= overlap_total(segments, base, size) <= u64::MAX,
        base + size <= u64::MAX && segments.len() > 0 ==> overlap_total(segments, base, size) <= {
            let end = base + size;
            let e = segment_end(segments.last());
            let hi = if end < e { end } else { e };
            if hi > base { hi - base } else { 0 }
        },
    decreases segments.len(),
{
    if segments.len() > 0 {
        let init = segments.drop_last();
        assert forall|i: int, j: int| 0 <= i < j < init.len() implies segment_end(#[trigger] init[i]) <= (#[trigger] init[j]).address by {
            assert(init[i] == segments[i] && init[j] == segments[j]);
        }
        lemma_overlap_bounded(init, base, size);
        if init.len() > 0 {
            assert(init.last() == segments[segments.len() - 2]);
            assert(segment_end(segments[segments.len() - 2]) <= segments.last().address);
        } else {
            assert(overlap_total(init, base, size) == 0);
        }
    }
}

/// The bytes of `[base, base + size)` the captured segments hold, counted per
/// segment; a segment passing the end of the address space counts up to that end.
pub fn captured_overlap(base: u64, size: u64, segments: &Vec<CapturedSegment>) -> (res: u64)
    requires
        overlap_total(segments@, base, size) <= u64::MAX,
    ensures
        res == overlap_total(segments@, base, size),
{
    let end = match base.checked_add(size) {
        Some(end) => end,
        None => {
            let mut i: usize = 0;
            while i < segments.len()
                invariant
                    0 <= i <= segments@.len(),
                    base + size > u64::MAX,
                    overlap_total(segments@.subrange(0, i as int), base, size) == 0,
                decreases segments@.len() - i,
            {
                proof {
                    assert(segments@.subrange(0, i as int + 1).drop_last() =~= segments@.subrange(0, i as int));
                }
                i = i + 1;
            }
            proof {
                assert(segments@.subrange(0, segments@.len() as int) =~= segments@);
            }
            return 0;
        },
    };
    let mut total: u64 = 0;
    let mut i: usize = 0;
    while i < segments.len()
        invariant
            0 <= i <= segments@.len(),
            overlap_total(segments@, base, size) <= u64::MAX,
            end == base + size,
            total == overlap_total(segments@.subrange(0, i as int), base, size),
        decreases segments@.len() - i,
    {
        let s = segments[i];
        proof {
            assert(segments@.subrange(0, i as int + 1).drop_last() =~= segments@.subrange(0, i as int));
            lemma_overlap_prefix_le(segments@, base, size, i as int + 1);
        }
        let seg_end = s.address.saturating_add(s.length);
        let lo = if base > s.address { base } else { s.address };
        let hi = if end < seg_end { end } else { seg_end };
        if hi > lo {
            total = total + (hi - lo);
        }
        i = i + 1;
    }
    proof {
        assert(segments@.subrange(0, segments@.len() as int) =~= segments@);
    }
    total
}

/// `MemoryState` as a word.
pub open spec fn state_text(bits: u32) -> Seq<char> {
    if bits & 0x1000u32 != 0 {
        "committed"@
    } else if bits & 0x2000u32 != 0 {
        "reserved"@
    } else if bits & 0x10000u32 != 0 {
        "free"@
    } else {
        "unknown"@
    }
}

/// `MemoryType` as a word.
pub open spec fn kind_text(bits: u32) -> Seq<char> {
    if bits & 0x20000u32 != 0 {
        "private"@
    } else if bits & 0x40000u32 != 0 {
        "mapped"@
    } else if bits & 0x100_0000u32 != 0 {
        "image"@
    } else {
        "unknown"@
    }
}

fn state_name(bits: u32) -> (res: &'static str)
    ensures
        res@ == state_text(bits),
{
    if bits & 0x1000u32 != 0 {
        "committed"
    } else if bits & 0x2000u32 != 0 {
        "reserved"
    } else if bits & 0x10000u32 != 0 {
        "free"
    } else {
        "unknown"
    }
}

fn kind_name(bits: u32) -> (res: &'static str)
    ensures
        res@ == kind_text(bits),
{
    if bits & 0x20000u32 != 0 {
        "private"
    } else if bits & 0x40000u32 != 0 {
        "mapped"
    } else if bits & 0x100_0000u32 != 0 {
        "image"
    } else {
        "unknown"
    }
}

/// The region a memory-info entry describes.
pub open spec fn region_described(r: MemoryRegion, id: int, info: RawRegionInfo, segments: Seq<CapturedSegment>) -> bool {
    &&& r.id == id
    &&& r.base.0 == info.base
    &&& r.size == info.size
    &&& r.captured_bytes == Some(overlap_total(segments, info.base, info.size) as u64)
    &&& r.state@ == state_text(info.state)
    &&& r.protection@ == access_text(windows_access(info.protection))
    &&& r.native_protection@ == windows_native_text(info.protection)
    &&& r.kind@ == kind_text(info.kind)
    &&& r.committed == (info.state & 0x1000u32 != 0)
    &&& r.readable == (r.committed && windows_readable(info.protection))
}

/// Normalizes a memory-info entry into region `id`.
pub fn region_from_info(id: usize, info: &RawRegionInfo, segments: &Vec<CapturedSegment>) -> (res: MemoryRegion)
    requires
        overlap_total(segments@, info.base, info.size) <= u64::MAX,
    ensures
        region_described(res, id as int, *info, segments@),
{
    let (access, native) = crate::source::windows_protection(info.protection);
    let committed = info.state & 0x1000u32 != 0;
    MemoryRegion {
        id,
        base: Address(info.base),
        size: info.size,
        captured_bytes: Some(captured_overlap(info.base, info.size, segments)),
        state: String::from_str(state_name(info.state)),
        protection: access.render(),
        native_protection: native,
        kind: String::from_str(kind_name(info.kind)),
        committed,
        readable: committed && access.read,
    }
}

/// The region a captured segment stands for when the dump has no usable memory
/// metadata: all of it captured, nothing else known.
pub open spec fn region_of_segment(r: MemoryRegion, id: int, s: CapturedSegment) -> bool {
    &&& r.id == id
    &&& r.base.0 == s.address
    &&& r.size == s.length
    &&& r.captured_bytes == Some(s.length)
    &&& r.state@ == "unknown"@
    &&& r.protection@ == "unknown"@
    &&& r.native_protection@ == "unknown"@
    &&& r.kind@ == "unknown"@
    &&& r.committed
    &&& r.readable
}

/// Describes every captured segment as a region of unknown metadata.
pub fn regions_from_segments(segments: &Vec<CapturedSegment>) -> (res: Vec<MemoryRegion>)
    ensures
        res@.len() == segments@.len(),
        forall|i: int| 0 <= i < res@.len() ==> region_of_segment(#[trigger] res@[i], i, segments@[i]),
{
    let mut out: Vec<MemoryRegion> = Vec::new();
    let mut i: usize = 0;
    while i < segments.len()
        invariant
            0 <= i <= segments@.len(),
            out@.len() == i,
            forall|k: int| 0 <= k < i ==> region_of_segment(#[trigger] out@[k], k, segments@[k]),
        decreases segments@.len() - i,
    {
        let s = segments[i];
        out.push(MemoryRegion {
            id: i,
            base: Address(s.address),
            size: s.length,
            captured_bytes: Some(s.length),
            state: String::from_str("unknown"),
            protection: String::from_str("unknown"),
            native_protection: String::from_str("unknown"),
            kind: String::from_str("unknown"),
            committed: true,
            readable: true,
        });
        i = i + 1;
    }
    out
}

// ---------------------------------------------------------------------------
// Coverage
// ---------------------------------------------------------------------------

/// A region whose bytes a complete capture would hold: committed and readable.
pub open spec fn counted(r: MemoryRegion) -> bool {
    r.committed && r.readable
}

/// The bytes of the counted regions.
pub open spec fn expected_sum(regions: Seq<MemoryRegion>) -> int
    decreases regions.len(),
{
    if regions.len() == 0 {
        0
    } else {
        expected_sum(regions.drop_last()) + if counted(regions.last()) { regions.last().size as int } else { 0 }
    }
}

/// The captured bytes of the counted regions.
pub open spec fn captured_sum(regions: Seq<MemoryRegion>) -> int
    decreases regions.len(),
{
    if regions.len() == 0 {
        0
    } else {
        captured_sum(regions.drop_last()) + if counted(regions.last()) {
            match regions.last().captured_bytes {
                Some(n) => n as int,
                None => 0,
            }
        } else {
            0
        }
    }
}

/// The limitations a minidump's coverage carries: a metadata limitation and the
/// unproven readable scope that follows from it, then missing known readable bytes.
pub open spec fn dump_limitations(metadata: Option<CoverageLimitation>, unavailable: int) -> Seq<CoverageLimitation> {
    let first = match metadata {
        Some(l) => seq![l, CoverageLimitation::ExpectedReadableScopeUnproven],
        None => Seq::empty(),
    };
    if unavailable != 0 {
        first.push(CoverageLimitation::KnownReadableBytesMissing)
    } else {
        first
    }
}

/// The coverage of a minidump whose regions are `regions`: expected readable bytes
/// are those of committed readable regions, captured ones those the dump holds of
/// them. `metadata` names why region metadata is missing, when it is.
pub fn dump_coverage(regions: &Vec<MemoryRegion>, metadata: Option<CoverageLimitation>) -> (res: Result<Coverage>)
    ensures
        res is Ok <==> expected_sum(regions@) <= u64::MAX && captured_sum(regions@) <= u64::MAX
            && captured_sum(regions@) <= expected_sum(regions@),
        res matches Err(e) ==> e is SourceInvariant,
        res matches Ok(c) ==> {
            &&& c.expected_readable_bytes == expected_sum(regions@)
            &&& c.captured_readable_bytes == captured_sum(regions@)
            &&& c.unavailable_readable_bytes == expected_sum(regions@) - captured_sum(regions@)
            &&& c.metadata_complete == metadata is None
            &&& c.coverage_complete == (metadata is None && c.unavailable_readable_bytes == 0)
            &&& c.observation is None
            &&& c.limitations@ == dump_limitations(metadata, c.unavailable_readable_bytes as int)
        },
{
    let mut expected: u64 = 0;
    let mut captured: u64 = 0;
    let mut expected_ok = true;
    let mut captured_ok = true;
    let mut i: usize = 0;
    while i < regions.len()
        invariant
            0 <= i <= regions@.len(),
            expected_ok ==> expected == expected_sum(regions@.subrange(0, i as int)),
            !expected_ok ==> expected_sum(regions@.subrange(0, i as int)) > u64::MAX,
            captured_ok ==> captured == captured_sum(regions@.subrange(0, i as int)),
            !captured_ok ==> captured_sum(regions@.subrange(0, i as int)) > u64::MAX,
        decreases regions@.len() - i,
    {
        let r = &regions[i];
        proof {
            assert(regions@.subrange(0, i as int + 1).drop_last() =~= regions@.subrange(0, i as int));
        }
        if r.committed && r.readable {
            if expected_ok {
                match expected.checked_add(r.size) {
                    Some(v) => expected = v,
                    None => expected_ok = false,
                }
            }
            if captured_ok {
                let n = match r.captured_bytes {
                    Some(n) => n,
                    None => 0,
                };
                match captured.checked_add(n) {
                    Some(v) => captured = v,
                    None => captured_ok = false,
                }
            }
        }
        i = i + 1;
    }
    proof {
        assert(regions@.subrange(0, regions@.len() as int) =~= regions@);
    }
    if !expected_ok {
        return Err(Error::SourceInvariant(String::from_str("readable byte count overflow")));
    }
    if !captured_ok {
        return Err(Error::SourceInvariant(String::from_str("captured byte count overflow")));
    }
    if captured > expected {
        return Err(Error::SourceInvariant(String::from_str("captured bytes exceed expected readable bytes")));
    }
    let unavailable = expected - captured;
    let mut limitations: Vec<CoverageLimitation> = Vec::new();
    let complete = metadata.is_none();
    if let Some(l) = metadata {
        limitations.push(l);
        limitations.push(CoverageLimitation::ExpectedReadableScopeUnproven);
    }
    if unavailable != 0 {
        limitations.push(CoverageLimitation::KnownReadableBytesMissing);
    }
    proof {
        assert(limitations@ =~= dump_limitations(metadata, unavailable as int));
    }
    Ok(Coverage {
        expected_readable_bytes: expected,
        captured_readable_bytes: captured,
        unavailable_readable_bytes: unavailable,
        metadata_complete: complete,
        coverage_complete: complete && unavailable == 0,
        observation: None,
        limitations,
    })
}

// ---------------------------------------------------------------------------
// Scannable extents
// ---------------------------------------------------------------------------

/// The address range of an extent.
pub open spec fn extent_span(e: Extent) -> Interval {
    Interval { start: e.address, end: (e.address + e.length) as u64 }
}

/// Some segment captures address `a`.
pub open spec fn captured_at(segments: Seq<CapturedSegment>, a: int) -> bool {
    exists|i: int| 0 <= i < segments.len() && #[trigger] segments[i].address <= a && a < segment_end(segments[i])
}

/// Some committed readable region contains address `a`.
pub open spec fn readable_at(regions: Seq<MemoryRegion>, a: int) -> bool {
    exists|i: int| 0 <= i < regions.len() && counted(#[trigger] regions[i]) && regions[i].base.0 <= a && a < regions[i].base.0 + regions[i].size
}

/// Byte `k` of extent `e` is the byte its segment captured at that address.
pub open spec fn byte_maps(segments: Seq<CapturedSegment>, e: Extent, k: int) -> bool {
    exists|i: int| 0 <= i < segments.len() && #[trigger] segments[i].address <= e.address + k && e.address + k < segment_end(segments[i])
        && e.offset + k == segments[i].offset + (e.address + k - segments[i].address)
}

/// An extent lies in the address space and the buffer, and each of its bytes is
/// the captured byte at its address.
pub open spec fn extent_sound(segments: Seq<CapturedSegment>, memory_len: int, e: Extent) -> bool {
    &&& e.length >= 1
    &&& e.address + e.length <= u64::MAX
    &&& e.offset + e.length <= memory_len
    &&& forall|k: int| 0 <= k < e.length ==> #[trigger] byte_maps(segments, e, k)
}

/// Every committed readable region fits in the address space.
pub open spec fn readable_regions_fit(regions: Seq<MemoryRegion>) -> bool {
    forall|i: int| 0 <= i < regions.len() && counted(#[trigger] regions[i]) ==> regions[i].base.0 + regions[i].size <= u64::MAX
}

fn readable_spans(regions: &Vec<MemoryRegion>) -> (res: Result<Vec<Interval>>)
    ensures
        res is Ok <==> readable_regions_fit(regions@),
        res matches Err(e) ==> e is SourceInvariant,
        res matches Ok(ivs) ==> forall|a: int| #[trigger] covers(ivs@, a) <==> readable_at(regions@, a),
{
    let mut out: Vec<Interval> = Vec::new();
    let mut i: usize = 0;
    while i < regions.len()
        invariant
            0 <= i <= regions@.len(),
            forall|k: int| 0 <= k < i && counted(#[trigger] regions@[k]) ==> regions@[k].base.0 + regions@[k].size <= u64::MAX,
            forall|a: int| #[trigger] covers(out@, a) <==> readable_at(regions@.subrange(0, i as int), a),
        decreases regions@.len() - i,
    {
        let r = &regions[i];
        let ghost before = out@;
        if r.committed && r.readable {
            let end = match r.base.0.checked_add(r.size) {
                Some(end) => end,
                None => {
                    return Err(Error::SourceInvariant(String::from_str("region address range overflow")));
                },
            };
            out.push(Interval { start: r.base.0, end });
        }
        proof {
            let prefix = regions@.subrange(0, i as int + 1);
            assert forall|a: int| #[trigger] covers(out@, a) <==> readable_at(prefix, a) by {
                if covers(out@, a) {
                    let k = choose|k: int| 0 <= k < out@.len() && #[trigger] crate::scan::interval::holds(out@[k], a);
                    if k < before.len() {
                        assert(crate::scan::interval::holds(before[k], a));
                        assert(covers(before, a));
                        let j = choose|j: int| 0 <= j < i && counted(#[trigger] regions@.subrange(0, i as int)[j])
                            && regions@.subrange(0, i as int)[j].base.0 <= a && a < regions@.subrange(0, i as int)[j].base.0 + regions@.subrange(0, i as int)[j].size;
                        assert(prefix[j] == regions@[j]);
                        assert(counted(prefix[j]));
                    } else {
                        assert(prefix[i as int] == regions@[i as int]);
                        assert(counted(prefix[i as int]));
                    }
                }
                if readable_at(prefix, a) {
                    let j = choose|j: int| 0 <= j < prefix.len() && counted(#[trigger] prefix[j]) && prefix[j].base.0 <= a && a < prefix[j].base.0 + prefix[j].size;
                    if j < i {
                        assert(regions@.subrange(0, i as int)[j] == prefix[j]);
                        assert(counted(regions@.subrange(0, i as int)[j]));
                        assert(readable_at(regions@.subrange(0, i as int), a));
                        assert(covers(before, a));
                        let k = choose|k: int| 0 <= k < before.len() && #[trigger] crate::scan::interval::holds(before[k], a);
                        assert(out@[k] == before[k]);
                        assert(crate::scan::interval::holds(out@[k], a));
                    } else {
                        assert(crate::scan::interval::holds(out@[out@.len() - 1], a));
                    }
                }
            }
        }
        i = i + 1;
    }
    proof {
        assert(regions@.subrange(0, regions@.len() as int) =~= regions@);
    }
    Ok(out)
}

/// Extents are ascending and do not overlap.
pub open spec fn extents_ordered(extents: Seq<Extent>) -> bool {
    forall|j: int, k: int| 0 <= j < k < extents.len() ==> (#[trigger] extents[j]).address + extents[j].length <= (#[trigger] extents[k]).address
}

/// Some extent holds address `a`.
pub open spec fn in_extents(extents: Seq<Extent>, a: int) -> bool {
    exists|k: int| 0 <= k < extents.len() && #[trigger] extents[k].address <= a && a < extents[k].address + extents[k].length
}

/// The captured bytes of each segment that committed readable regions cover, as
/// extents in address order.
#[verifier::rlimit(40)]
fn segment_extents(segments: &Vec<CapturedSegment>, readable: &Vec<Interval>, Ghost(memory_len): Ghost<int>) -> (res: Vec<Extent>)
    requires
        segments_laid_out(segments@, memory_len),
        memory_len <= usize::MAX,
        canonical(readable@),
    ensures
        forall|k: int| 0 <= k < res@.len() ==> extent_sound(segments@, memory_len, #[trigger] res@[k]),
        extents_ordered(res@),
        forall|a: int| #[trigger] in_extents(res@, a) <==> captured_at(segments@, a) && covers(readable@, a),
{
    let mut out: Vec<Extent> = Vec::new();
    let mut i: usize = 0;
    while i < segments.len()
        invariant
            0 <= i <= segments@.len(),
            segments_laid_out(segments@, memory_len),
            memory_len <= usize::MAX,
            canonical(readable@),
            forall|k: int| 0 <= k < out@.len() ==> extent_sound(segments@, memory_len, #[trigger] out@[k]),
            extents_ordered(out@),
            i > 0 ==> forall|k: int| 0 <= k < out@.len() ==> (#[trigger] out@[k]).address + out@[k].length <= segment_end(segments@[i - 1]),
            i == 0 ==> out@.len() == 0,
            forall|a: int| #[trigger] in_extents(out@, a) <==> captured_at(segments@.subrange(0, i as int), a) && covers(readable@, a),
        decreases segments@.len() - i,
    {
        let seg = segments[i];
        let ghost before = out@;
        let seg_end = seg.address + seg.length;
        proof {
            assert(segment_end(seg) <= u64::MAX);
        }
        if seg.length > 0 {
            let mut whole: Vec<Interval> = Vec::new();
            whole.push(Interval { start: seg.address, end: seg_end });
            let pieces = intersect(&whole, readable);
            let mut j: usize = 0;
            while j < pieces.len()
                invariant
                    0 <= j <= pieces@.len(),
                    i < segments@.len(),
                    seg == segments@[i as int],
                    seg_end == segment_end(seg),
                    seg.length > 0,
                    segments_laid_out(segments@, memory_len),
                    memory_len <= usize::MAX,
                    canonical(pieces@),
                    whole@ == seq![Interval { start: seg.address, end: seg_end }],
                    forall|a: int| #[trigger] covers(pieces@, a) <==> (covers(whole@, a) && covers(readable@, a)),
                    forall|k: int| 0 <= k < out@.len() ==> extent_sound(segments@, memory_len, #[trigger] out@[k]),
                    extents_ordered(out@),
                    out@.len() >= before.len(),
                    out@.subrange(0, before.len() as int) == before,
                    forall|k: int| 0 <= k < before.len() ==> (#[trigger] before[k]).address + before[k].length <= seg.address,
                    forall|k: int| before.len() <= k < out@.len() ==> (#[trigger] out@[k]).address + out@[k].length <= (if j < pieces@.len() { pieces@[j as int].start as int } else { seg_end as int }),
                    forall|k: int| before.len() <= k < out@.len() ==> extent_span(#[trigger] out@[k]) == pieces@[k - before.len()],
                    out@.len() == before.len() + j,
                decreases pieces@.len() - j,
            {
                let p = pieces[j];
                proof {
                    assert(crate::scan::interval::holds(pieces@[j as int], p.start as int));
                    assert(covers(pieces@, p.start as int));
                    assert(crate::scan::interval::holds(pieces@[j as int], p.end - 1));
                    assert(covers(pieces@, p.end - 1));
                    assert(covers(whole@, p.start as int));
                    assert(covers(whole@, p.end - 1));
                    assert(crate::scan::interval::holds(whole@[0], p.end - 1));
                    assert(crate::scan::interval::holds(whole@[0], p.start as int));
                }
                let e = Extent {
                    address: p.start,
                    length: (p.end - p.start) as usize,
                    offset: seg.offset + (p.start - seg.address) as usize,
                };
                let ghost prev = out@;
                out.push(e);
                proof {
                    assert forall|k: int| 0 <= k < e.length implies #[trigger] byte_maps(segments@, e, k) by {
                        assert(segments@[i as int].address <= e.address + k && e.address + k < segment_end(segments@[i as int]));
                    }
                    assert forall|x: int, y: int| 0 <= x < y < out@.len() implies (#[trigger] out@[x]).address + out@[x].length <= (#[trigger] out@[y]).address by {
                        if y == out@.len() - 1 {
                            assert(out@[x] == prev[x]);
                            if x < before.len() {
                                assert(prev.subrange(0, before.len() as int)[x] == prev[x]);
                                assert(prev[x] == before[x]);
                            }
                        } else {
                            assert(out@[x] == prev[x]);
                            assert(out@[y] == prev[y]);
                        }
                    }
                    assert(out@.subrange(0, before.len() as int) =~= prev.subrange(0, before.len() as int));
                    assert forall|k: int| before.len() <= k < out@.len() implies (#[trigger] out@[k]).address + out@[k].length
                        <= (if j + 1 < pieces@.len() { pieces@[j + 1].start as int } else { seg_end as int }) by {
                        if j + 1 < pieces@.len() {
                            assert(pieces@[j as int].end < pieces@[j + 1].start);
                            if k < out@.len() - 1 {
                                assert(out@[k] == prev[k]);
                                assert(extent_span(out@[k]) == pieces@[k - before.len()]);
                                assert(pieces@[k - before.len()].end < pieces@[j as int].start);
                            }
                        } else if k < out@.len() - 1 {
                            assert(out@[k] == prev[k]);
                        }
                    }
                    assert forall|k: int| before.len() <= k < out@.len() implies extent_span(#[trigger] out@[k]) == pieces@[k - before.len()] by {
                        if k < out@.len() - 1 {
                            assert(out@[k] == prev[k]);
                        }
                    }
                    assert forall|k: int| 0 <= k < out@.len() implies extent_sound(segments@, memory_len, #[trigger] out@[k]) by {
                        if k < out@.len() - 1 {
                            assert(out@[k] == prev[k]);
                        }
                    }
                }
                j = j + 1;
            }
            proof {
                let next = segments@.subrange(0, i as int + 1);
                assert forall|a: int| #[trigger] in_extents(out@, a) <==> captured_at(next, a) && covers(readable@, a) by {
                    if in_extents(out@, a) {
                        let k = choose|k: int| 0 <= k < out@.len() && #[trigger] out@[k].address <= a && a < out@[k].address + out@[k].length;
                        if k < before.len() {
                            assert(out@[k] == before[k]);
                            assert(in_extents(before, a));
                            let s = choose|s: int| 0 <= s < i && #[trigger] segments@.subrange(0, i as int)[s].address <= a && a < segment_end(segments@.subrange(0, i as int)[s]);
                            assert(next[s] == segments@[s]);
                        } else {
                            assert(crate::scan::interval::holds(pieces@[k - before.len()], a));
                            assert(covers(pieces@, a));
                            assert(crate::scan::interval::holds(whole@[0], a));
                            assert(next[i as int] == seg);
                        }
                    }
                    if captured_at(next, a) && covers(readable@, a) {
                        let s = choose|s: int| 0 <= s < next.len() && #[trigger] next[s].address <= a && a < segment_end(next[s]);
                        if s < i {
                            assert(segments@.subrange(0, i as int)[s] == next[s]);
                            assert(captured_at(segments@.subrange(0, i as int), a));
                            assert(in_extents(before, a));
                            let k = choose|k: int| 0 <= k < before.len() && #[trigger] before[k].address <= a && a < before[k].address + before[k].length;
                            assert(out@[k] == before[k]);
                        } else {
                            assert(crate::scan::interval::holds(whole@[0], a));
                            assert(covers(whole@, a));
                            assert(covers(pieces@, a));
                            let m = choose|m: int| 0 <= m < pieces@.len() && #[trigger] crate::scan::interval::holds(pieces@[m], a);
                            assert(extent_span(out@[before.len() + m]) == pieces@[m]);
                            assert(out@[before.len() + m].address <= a && a < out@[before.len() + m].address + out@[before.len() + m].length);
                        }
                    }
                }
            }
        } else {
            proof {
                let next = segments@.subrange(0, i as int + 1);
                assert forall|a: int| #[trigger] in_extents(out@, a) <==> captured_at(next, a) && covers(readable@, a) by {
                    if captured_at(next, a) {
                        let s = choose|s: int| 0 <= s < next.len() && #[trigger] next[s].address <= a && a < segment_end(next[s]);
                        assert(s < i);
                        assert(segments@.subrange(0, i as int)[s] == next[s]);
                    }
                    if captured_at(segments@.subrange(0, i as int), a) {
                        let s = choose|s: int| 0 <= s < i && #[trigger] segments@.subrange(0, i as int)[s].address <= a && a < segment_end(segments@.subrange(0, i as int)[s]);
                        assert(segments@.subrange(0, i as int)[s] == next[s]);
                    }
                }
            }
        }
        proof {
            assert forall|k: int| 0 <= k < out@.len() implies (#[trigger] out@[k]).address + out@[k].length <= segment_end(segments@[i as int]) by {
                if k < before.len() {
                    assert(out@.subrange(0, before.len() as int)[k] == out@[k]);
                    assert(out@[k] == before[k]);
                    if i > 0 {
                        assert(segment_end(segments@[i - 1]) <= segments@[i as int].address);
                    }
                }
            }
        }
        i = i + 1;
    }
    proof {
        assert(segments@.subrange(0, segments@.len() as int) =~= segments@);
    }
    out
}

proof fn lemma_in_extents_push(s: Seq<Extent>, e: Extent, a: int)
    ensures
        in_extents(s.push(e), a) <==> in_extents(s, a) || (e.address <= a && a < e.address + e.length),
{
    let t = s.push(e);
    if in_extents(t, a) {
        let k = choose|k: int| 0 <= k < t.len() && #[trigger] t[k].address <= a && a < t[k].address + t[k].length;
        if k < s.len() {
            assert(t[k] == s[k]);
        }
    }
    if in_extents(s, a) {
        let k = choose|k: int| 0 <= k < s.len() && #[trigger] s[k].address <= a && a < s[k].address + s[k].length;
        assert(t[k] == s[k]);
    }
    if e.address <= a && a < e.address + e.length {
        assert(t[s.len() as int] == e);
    }
}

proof fn lemma_in_extents_join(s: Seq<Extent>, e: Extent, a: int)
    requires
        s.len() > 0,
        s.last().address + s.last().length == e.address,
        s.last().length + e.length <= usize::MAX,
    ensures
        in_extents(s.update(s.len() - 1, Extent { address: s.last().address, length: (s.last().length + e.length) as usize, offset: s.last().offset }), a)
            <==> in_extents(s, a) || (e.address <= a && a < e.address + e.length),
{
    let n = s.len() - 1;
    let j = Extent { address: s.last().address, length: (s.last().length + e.length) as usize, offset: s.last().offset };
    let t = s.update(n, j);
    if in_extents(t, a) {
        let k = choose|k: int| 0 <= k < t.len() && #[trigger] t[k].address <= a && a < t[k].address + t[k].length;
        if k < n {
            assert(t[k] == s[k]);
        } else if a < s.last().address + s.last().length {
            assert(s[n].address <= a && a < s[n].address + s[n].length);
        }
    }
    if in_extents(s, a) {
        let k = choose|k: int| 0 <= k < s.len() && #[trigger] s[k].address <= a && a < s[k].address + s[k].length;
        if k < n {
            assert(t[k] == s[k]);
        } else {
            assert(t[n].address <= a && a < t[n].address + t[n].length);
        }
    }
    if e.address <= a && a < e.address + e.length {
        assert(t[n].address <= a && a < t[n].address + t[n].length);
    }
}

/// Joins neighbouring extents that continue each other both in address and in
/// the buffer, so a pattern spanning them is seen whole.
#[verifier::rlimit(80)]
fn join_extents(extents: &Vec<Extent>, Ghost(segments): Ghost<Seq<CapturedSegment>>, Ghost(memory_len): Ghost<int>) -> (res: Vec<Extent>)
    requires
        forall|k: int| 0 <= k < extents@.len() ==> extent_sound(segments, memory_len, #[trigger] extents@[k]),
        extents_ordered(extents@),
        memory_len <= usize::MAX,
    ensures
        forall|k: int| 0 <= k < res@.len() ==> extent_sound(segments, memory_len, #[trigger] res@[k]),
        extents_ordered(res@),
        forall|a: int| #[trigger] in_extents(res@, a) <==> in_extents(extents@, a),
{
    let mut out: Vec<Extent> = Vec::new();
    let mut i: usize = 0;
    while i < extents.len()
        invariant
            0 <= i <= extents@.len(),
            memory_len <= usize::MAX,
            forall|k: int| 0 <= k < extents@.len() ==> extent_sound(segments, memory_len, #[trigger] extents@[k]),
            extents_ordered(extents@),
            forall|k: int| 0 <= k < out@.len() ==> extent_sound(segments, memory_len, #[trigger] out@[k]),
            extents_ordered(out@),
            i < extents@.len() && out@.len() > 0 ==> out@.last().address + out@.last().length <= extents@[i as int].address,
            i == 0 ==> out@.len() == 0,
            forall|a: int| #[trigger] in_extents(out@, a) <==> in_extents(extents@.subrange(0, i as int), a),
        decreases extents@.len() - i,
    {
        let e = extents[i];
        let ghost before = out@;
        let n = out.len();
        proof {
            assert(extent_sound(segments, memory_len, e));
        }
        if n > 0 && out[n - 1].address + out[n - 1].length as u64 == e.address && out[n - 1].offset + out[n - 1].length == e.offset {
            let last = out[n - 1];
            let joined_extent = Extent { address: last.address, length: last.length + e.length, offset: last.offset };
            out.set(n - 1, joined_extent);
            proof {
                assert forall|k: int| 0 <= k < joined_extent.length implies #[trigger] byte_maps(segments, joined_extent, k) by {
                    if k < last.length {
                        assert(byte_maps(segments, last, k));
                    } else {
                        assert(byte_maps(segments, e, k - last.length));
                    }
                }
                assert forall|x: int, y: int| 0 <= x < y < out@.len() implies (#[trigger] out@[x]).address + out@[x].length <= (#[trigger] out@[y]).address by {
                    assert(out@[x] == before[x]);
                    if y < n - 1 {
                        assert(out@[y] == before[y]);
                    }
                }
                assert forall|k: int| 0 <= k < out@.len() implies extent_sound(segments, memory_len, #[trigger] out@[k]) by {
                    if k < n - 1 {
                        assert(out@[k] == before[k]);
                    }
                }
            }
        } else {
            out.push(e);
            proof {
                assert forall|x: int, y: int| 0 <= x < y < out@.len() implies (#[trigger] out@[x]).address + out@[x].length <= (#[trigger] out@[y]).address by {
                    assert(out@[x] == before[x]);
                    if y < n {
                        assert(out@[y] == before[y]);
                    } else if x < n - 1 {
                        assert(before[x].address + before[x].length <= before[n - 1].address);
                    }
                }
                assert forall|k: int| 0 <= k < out@.len() implies extent_sound(segments, memory_len, #[trigger] out@[k]) by {
                    if k < n {
                        assert(out@[k] == before[k]);
                    }
                }
            }
        }
        proof {
            let prefix = extents@.subrange(0, i as int);
            let next = extents@.subrange(0, i as int + 1);
            assert(next =~= prefix.push(e));
            assert forall|a: int| #[trigger] in_extents(out@, a) <==> in_extents(next, a) by {
                lemma_in_extents_push(prefix, e, a);
                if out@.len() == n {
                    lemma_in_extents_join(before, e, a);
                    assert(out@ == before.update(n - 1, Extent { address: before[n - 1].address, length: (before[n - 1].length + e.length) as usize, offset: before[n - 1].offset }));
                } else {
                    lemma_in_extents_push(before, e, a);
                }
            }
            if i + 1 < extents@.len() {
                assert(e.address + e.length <= extents@[i + 1].address);
            }
        }
        i = i + 1;
    }
    proof {
        assert(extents@.subrange(0, extents@.len() as int) =~= extents@);
    }
    out
}

/// The scannable extents: captured bytes inside committed readable regions, in
/// address order, neighbours that continue each other joined. A committed
/// readable region passing the end of the address space fails with
/// `SOURCE_INVARIANT`.
pub fn build_scan_extents(segments: &Vec<CapturedSegment>, regions: &Vec<MemoryRegion>, Ghost(memory_len): Ghost<int>) -> (res: Result<Vec<Extent>>)
    requires
        segments_laid_out(segments@, memory_len),
        memory_len <= usize::MAX,
    ensures
        res is Ok <==> segments@.len() == 0 || readable_regions_fit(regions@),
        res matches Err(e) ==> e is SourceInvariant,
        res matches Ok(extents) ==> {
            &&& forall|k: int| 0 <= k < extents@.len() ==> extent_sound(segments@, memory_len, #[trigger] extents@[k])
            &&& extents_ordered(extents@)
            &&& forall|a: int| #[trigger] in_extents(extents@, a) <==> captured_at(segments@, a) && readable_at(regions@, a)
        },
{
    if segments.len() == 0 {
        let none: Vec<Extent> = Vec::new();
        proof {
            assert forall|a: int| #[trigger] in_extents(none@, a) <==> captured_at(segments@, a) && readable_at(regions@, a) by {
                if captured_at(segments@, a) {
                    let i = choose|i: int| 0 <= i < segments@.len() && #[trigger] segments@[i].address <= a && a < segment_end(segments@[i]);
                }
            }
        }
        return Ok(none);
    }
    let spans = readable_spans(regions)?;
    let readable = merge(&spans);
    let raw = segment_extents(segments, &readable, Ghost(memory_len));
    let joined_extents = join_extents(&raw, Ghost(segments@), Ghost(memory_len));
    proof {
        assert forall|a: int| #[trigger] in_extents(joined_extents@, a) <==> captured_at(segments@, a) && readable_at(regions@, a) by {
            assert(in_extents(joined_extents@, a) <==> in_extents(raw@, a));
            assert(in_extents(raw@, a) <==> captured_at(segments@, a) && covers(readable@, a));
            assert(covers(readable@, a) <==> covers(spans@, a));
        }
    }
    Ok(joined_extents)
}

// ---------------------------------------------------------------------------
// The source
// ---------------------------------------------------------------------------

/// Lowercase hexadecimal of `bytes`, two digits each.
pub open spec fn hex_bytes(bytes: Seq<u8>) -> Seq<char>
    decreases bytes.len(),
{
    if bytes.len() == 0 {
        Seq::empty()
    } else {
        hex_bytes(bytes.drop_last()) + zero_padded(hex_lower(bytes.last() as nat), 2)
    }
}

/// Two hexadecimal digits stand for each byte, so a 32-byte digest renders as 64
/// characters.
pub proof fn hex_bytes_length(bytes: Seq<u8>)
    ensures
        hex_bytes(bytes).len() == 2 * bytes.len(),
    decreases bytes.len(),
{
    if bytes.len() > 0 {
        hex_bytes_length(bytes.drop_last());
        crate::text::lemma_hex_byte_digits(bytes.last());
    }
}

/// Renders `bytes` as lowercase hexadecimal.
pub fn hex_text(bytes: &[u8]) -> (res: String)
    ensures
        res@ == hex_bytes(bytes@),
{
    let mut out: Vec<char> = Vec::new();
    let mut i: usize = 0;
    while i < bytes.len()
        invariant
            0 <= i <= bytes@.len(),
            out@ == hex_bytes(bytes@.subrange(0, i as int)),
        decreases bytes@.len() - i,
    {
        push_hex_padded(&mut out, bytes[i] as u64, 2);
        proof {
            assert(bytes@.subrange(0, i as int + 1).drop_last() =~= bytes@.subrange(0, i as int));
        }
        i = i + 1;
    }
    proof {
        assert(bytes@.subrange(0, bytes@.len() as int) =~= bytes@);
    }
    string_from_chars(out.as_slice())
}

/// A module's identity: its PE time stamp as eight lowercase hexadecimal digits.
pub open spec fn stamp_text(stamp: u32) -> Seq<char> {
    zero_padded(hex_lower(stamp as nat), 8)
}

/// The module a module-list entry describes.
pub open spec fn module_described(m: ModuleInfo, raw: (Seq<char>, u64, u64, u32)) -> bool {
    &&& m.name@ == raw.0
    &&& m.base.0 == raw.1
    &&& m.size == raw.2
    &&& m.identity matches Some(id) && id@ == stamp_text(raw.3)
}

fn module_from_raw(raw: &RawModule) -> (res: ModuleInfo)
    ensures
        module_described(res, (raw.name@, raw.base, raw.size, raw.time_date_stamp)),
{
    let mut id: Vec<char> = Vec::new();
    push_hex_padded(&mut id, raw.time_date_stamp as u64, 8);
    proof {
        assert(id@ =~= stamp_text(raw.time_date_stamp));
    }
    ModuleInfo {
        name: raw.name.clone(),
        base: Address(raw.base),
        size: raw.size,
        identity: Some(string_from_chars(id.as_slice())),
    }
}

/// The name the dump's process is shown by: the host's file name of its first
/// module, or `minidump-process` when there is no module or no file name.
fn display_name(modules: &Vec<ModuleInfo>) -> (res: String)
    ensures
        modules@.len() == 0 ==> res@ == "minidump-process"@,
        modules@.len() > 0 && plain_file_name(modules@[0].name@) ==> res@ == modules@[0].name@,
{
    if modules.len() > 0 {
        if let Some(name) = host_file_name(modules[0].name.as_str()) {
            return name;
        }
    }
    String::from_str("minidump-process")
}

/// The dump's system-info stream names Windows on x86-64.
pub open spec fn windows_x64(data: Seq<u8>) -> bool {
    dump_system(data) matches Ok((w, x, _, _)) && w && x
}

/// The dump's captured ranges are present, within the limit, and each but the
/// last ends inside the address space and before the next begins.
pub open spec fn ranges_accepted(data: Seq<u8>) -> bool {
    &&& dump_memory(data) is Some
    &&& dump_memory(data).unwrap().len() <= MAX_CAPTURED_SEGMENTS
    &&& ranges_disjoint(dump_memory(data).unwrap())
}

/// The dump holds more captured ranges than a source accepts.
pub open spec fn too_many_ranges(data: Seq<u8>) -> bool {
    dump_memory(data) matches Some(ranges) && ranges.len() > MAX_CAPTURED_SEGMENTS
}

/// The captured bytes inside `[address, end)`: one piece per segment that meets
/// the range, as its start address and bytes.
pub open spec fn read_pieces(segments: Seq<CapturedSegment>, memory: Seq<u8>, address: int, end: int) -> Seq<(u64, Seq<u8>)>
    decreases segments.len(),
{
    if segments.len() == 0 {
        Seq::empty()
    } else {
        let prev = read_pieces(segments.drop_last(), memory, address, end);
        let s = segments.last();
        let lo = if address > s.address { address } else { s.address as int };
        let hi = if end < segment_end(s) { end } else { segment_end(s) };
        if lo < hi {
            prev.push((lo as u64, memory.subrange(s.offset + (lo - s.address), s.offset + (hi - s.address))))
        } else {
            prev
        }
    }
}

/// The numeric facts of a region: base, size, captured bytes, and whether it is
/// committed and readable.
pub open spec fn region_facts(r: MemoryRegion) -> (u64, u64, int, bool) {
    (r.base.0, r.size, match r.captured_bytes {
        Some(n) => n as int,
        None => 0,
    }, r.committed && r.readable)
}

/// How many bytes of `[base, base + size)` the captured ranges hold.
pub open spec fn range_overlap(ranges: Seq<(u64, Seq<u8>)>, base: u64, size: u64) -> int
    decreases ranges.len(),
{
    if ranges.len() == 0 {
        0
    } else {
        range_overlap(ranges.drop_last(), base, size) + overlap(base, size,
            CapturedSegment { address: ranges.last().0, length: ranges.last().1.len() as u64, offset: 0 })
    }
}

/// The numeric facts of the regions a dump describes: from its memory-info list,
/// or, without a usable one, one fully captured readable region per range.
pub open spec fn dump_facts(data: Seq<u8>) -> Seq<(u64, u64, int, bool)> {
    let ranges = dump_memory(data).unwrap();
    match dump_memory_info(data) {
        Ok(items) => Seq::new(items.len(), |i: int| (items[i].0, items[i].1, range_overlap(ranges, items[i].0, items[i].1),
            items[i].2 & 0x1000u32 != 0 && windows_readable(items[i].3))),
        Err(_) => Seq::new(ranges.len(), |i: int| (ranges[i].0, ranges[i].1.len() as u64, ranges[i].1.len() as int, true)),
    }
}

/// The bytes of the counted regions among `facts`.
pub open spec fn facts_expected(facts: Seq<(u64, u64, int, bool)>) -> int
    decreases facts.len(),
{
    if facts.len() == 0 {
        0
    } else {
        facts_expected(facts.drop_last()) + if facts.last().3 { facts.last().1 as int } else { 0 }
    }
}

/// The captured bytes of the counted regions among `facts`.
pub open spec fn facts_captured(facts: Seq<(u64, u64, int, bool)>) -> int
    decreases facts.len(),
{
    if facts.len() == 0 {
        0
    } else {
        facts_captured(facts.drop_last()) + if facts.last().3 { facts.last().2 } else { 0 }
    }
}

/// Every counted region among `facts` fits in the address space.
pub open spec fn facts_fit(facts: Seq<(u64, u64, int, bool)>) -> bool {
    forall|i: int| 0 <= i < facts.len() && (#[trigger] facts[i]).3 ==> facts[i].0 + facts[i].1 <= u64::MAX
}

/// Whether a dump opens: it describes a Windows x64 process, its captured ranges
/// are ordered, disjoint and within the limit, its module and region counts are
/// within their limits, its readable byte counts fit in 64 bits with the captured
/// ones not exceeding the expected ones, and no counted region passes the end of
/// the address space.
pub open spec fn dump_opens(data: Seq<u8>) -> bool {
    &&& windows_x64(data)
    &&& dump_memory(data) is Some
    &&& dump_memory(data).unwrap().len() <= MAX_CAPTURED_SEGMENTS
    &&& ranges_disjoint(dump_memory(data).unwrap())
    &&& last_range_fits(dump_memory(data).unwrap())
    &&& dump_modules(data).len() <= MAX_MODULES
    &&& dump_facts(data).len() <= MAX_MEMORY_REGIONS
    &&& facts_expected(dump_facts(data)) <= u64::MAX
    &&& facts_captured(dump_facts(data)) <= u64::MAX
    &&& facts_captured(dump_facts(data)) <= facts_expected(dump_facts(data))
    &&& (dump_memory(data).unwrap().len() == 0 || facts_fit(dump_facts(data)))
}

proof fn lemma_range_overlap(segments: Seq<CapturedSegment>, ranges: Seq<(u64, Seq<u8>)>, base: u64, size: u64)
    requires
        segments.len() == ranges.len(),
        forall|i: int| 0 <= i < ranges.len() ==> (#[trigger] segments[i]).address == ranges[i].0 && segments[i].length == ranges[i].1.len(),
    ensures
        overlap_total(segments, base, size) == range_overlap(ranges, base, size),
    decreases ranges.len(),
{
    if ranges.len() > 0 {
        assert forall|i: int| 0 <= i < ranges.len() - 1 implies (#[trigger] segments.drop_last()[i]).address == ranges.drop_last()[i].0
            && segments.drop_last()[i].length == ranges.drop_last()[i].1.len() by {
            assert(segments.drop_last()[i] == segments[i]);
        }
        lemma_range_overlap(segments.drop_last(), ranges.drop_last(), base, size);
    }
}

proof fn lemma_facts_sums(regions: Seq<MemoryRegion>, facts: Seq<(u64, u64, int, bool)>)
    requires
        regions.len() == facts.len(),
        forall|i: int| 0 <= i < regions.len() ==> region_facts(#[trigger] regions[i]) == facts[i],
    ensures
        expected_sum(regions) == facts_expected(facts),
        captured_sum(regions) == facts_captured(facts),
        readable_regions_fit(regions) <==> facts_fit(facts),
    decreases regions.len(),
{
    if regions.len() > 0 {
        assert forall|i: int| 0 <= i < regions.len() - 1 implies region_facts(#[trigger] regions.drop_last()[i]) == facts.drop_last()[i] by {
            assert(regions.drop_last()[i] == regions[i]);
        }
        lemma_facts_sums(regions.drop_last(), facts.drop_last());
        assert(region_facts(regions.last()) == facts.last());
    }
    if readable_regions_fit(regions) {
        assert forall|i: int| 0 <= i < facts.len() && (#[trigger] facts[i]).3 implies facts[i].0 + facts[i].1 <= u64::MAX by {
            assert(region_facts(regions[i]) == facts[i]);
        }
    }
    if facts_fit(facts) {
        assert forall|i: int| 0 <= i < regions.len() && counted(#[trigger] regions[i]) implies regions[i].base.0 + regions[i].size <= u64::MAX by {
            assert(region_facts(regions[i]) == facts[i]);
        }
    }
}

/// One opened minidump process: its captured memory and what describes it.
#[derive(Debug)]
pub struct MinidumpProcess {
    /// Every captured byte, range after range in address order.
    pub memory: Vec<u8>,
    pub process: ProcessInfo,
    pub regions: Vec<MemoryRegion>,
    pub modules: Vec<ModuleInfo>,
    pub coverage: Coverage,
    pub captured: Vec<CapturedSegment>,
    pub scannable: Vec<Extent>,
}

impl MinidumpProcess {
    /// The captured ranges lie in the buffer as recorded, and every scannable extent
    /// is sound and in order.
    pub open spec fn wf(&self) -> bool {
        &&& segments_laid_out(self.captured@, self.memory@.len() as int)
        &&& forall|k: int| 0 <= k < self.scannable@.len() ==> extent_sound(self.captured@, self.memory@.len() as int, #[trigger] self.scannable@[k])
        &&& extents_ordered(self.scannable@)
    }

    /// Reads `length` bytes at `address`: the captured bytes inside the range, as
    /// one segment per captured range it meets, in address order. Bytes the dump
    /// did not capture are gaps, never filled in.
    pub fn read(&self, address: u64, length: usize) -> (res: Result<Vec<ReadSegment>>)
        requires
            self.wf(),
        ensures
            res is Ok <==> address + length <= u64::MAX,
            res matches Err(e) ==> e is InvalidArgument,
            res matches Ok(segments) ==> {
                let pieces = read_pieces(self.captured@, self.memory@, address as int, address + length);
                &&& segments@.len() == pieces.len()
                &&& forall|i: int| 0 <= i < pieces.len() ==> (#[trigger] segments@[i]).address == pieces[i].0 && segments@[i].bytes@ == pieces[i].1
            },
    {
        let end = match address.checked_add(length as u64) {
            Some(end) => end,
            None => {
                return Err(Error::InvalidArgument(String::from_str("read range overflows u64")));
            },
        };
        let mut out: Vec<ReadSegment> = Vec::new();
        let ml = self.memory.len();
        let mut i: usize = 0;
        while i < self.captured.len()
            invariant
                0 <= i <= self.captured@.len(),
                self.wf(),
                ml == self.memory@.len(),
                end == address + length,
                out@.len() == read_pieces(self.captured@.subrange(0, i as int), self.memory@, address as int, end as int).len(),
                forall|k: int| 0 <= k < out@.len() ==> (#[trigger] out@[k]).address == read_pieces(self.captured@.subrange(0, i as int), self.memory@, address as int, end as int)[k].0
                    && out@[k].bytes@ == read_pieces(self.captured@.subrange(0, i as int), self.memory@, address as int, end as int)[k].1,
            decreases self.captured@.len() - i,
        {
            let seg = self.captured[i];
            proof {
                assert(self.captured@.subrange(0, i as int + 1).drop_last() =~= self.captured@.subrange(0, i as int));
                assert(segment_end(seg) <= u64::MAX);
                assert(seg.offset + seg.length <= self.memory@.len());
            }
            let seg_end = seg.address + seg.length;
            let start = if address > seg.address { address } else { seg.address };
            let stop = if end < seg_end { end } else { seg_end };
            let ghost before = out@;
            if start < stop {
                let from = seg.offset + (start - seg.address) as usize;
                let to = seg.offset + (stop - seg.address) as usize;
                let bytes = vstd::slice::slice_to_vec(vstd::slice::slice_subrange(self.memory.as_slice(), from, to));
                out.push(ReadSegment { address: start, bytes });
                proof {
                    assert forall|k: int| 0 <= k < out@.len() implies (#[trigger] out@[k]).address == read_pieces(self.captured@.subrange(0, i as int + 1), self.memory@, address as int, end as int)[k].0
                        && out@[k].bytes@ == read_pieces(self.captured@.subrange(0, i as int + 1), self.memory@, address as int, end as int)[k].1 by {
                        if k < before.len() {
                            assert(out@[k] == before[k]);
                        }
                    }
                }
            }
            i = i + 1;
        }
        proof {
            assert(self.captured@.subrange(0, self.captured@.len() as int) =~= self.captured@);
        }
        Ok(out)
    }

    pub fn process(&self) -> (res: &ProcessInfo)
        ensures
            res == &self.process,
    {
        &self.process
    }

    pub fn regions(&self) -> (res: &Vec<MemoryRegion>)
        ensures
            res == &self.regions,
    {
        &self.regions
    }

    pub fn modules(&self) -> (res: &Vec<ModuleInfo>)
        ensures
            res == &self.modules,
    {
        &self.modules
    }

    pub fn coverage(&self) -> (res: &Coverage)
        ensures
            res == &self.coverage,
    {
        &self.coverage
    }
}

/// A minidump opened as a memory source.
#[derive(Debug)]
pub struct MinidumpSource {
    pub info: SourceInfo,
    pub processes: Vec<ProcessInfo>,
    pub process: MinidumpProcess,
}

impl MinidumpSource {
    /// Opens the minidump held in `data`.
    ///
    /// The dump must describe a Windows x64 process and hold captured memory.
    /// Regions come from the memory-info list; without a usable one, each captured
    /// range stands for a region of unknown metadata and coverage says why.
    pub fn open(data: &[u8]) -> (res: Result<MinidumpSource>)
        ensures
            dump_system(data@) matches Err(t) ==> (res matches Err(e) && e matches Error::Minidump(m) && m@ == t),
            dump_system(data@) matches Ok((w, x, _, _)) && !(w && x) ==> (res matches Err(e) && e is UnsupportedTarget),
            windows_x64(data@) && dump_memory(data@) is None ==> (res matches Err(e) && e is MissingMemory),
            windows_x64(data@) && too_many_ranges(data@) ==> (res matches Err(e) && e is SourceTooLarge),
            windows_x64(data@) && ranges_accepted(data@) && dump_modules(data@).len() > MAX_MODULES
                ==> (res matches Err(e) && e is SourceTooLarge),
            windows_x64(data@) && ranges_accepted(data@) && dump_modules(data@).len() <= MAX_MODULES
                && dump_facts(data@).len() > MAX_MEMORY_REGIONS ==> (res matches Err(e) && e is SourceTooLarge),
            res is Ok <==> dump_opens(data@),
            res matches Err(e) ==> e is Minidump || e is UnsupportedTarget || e is MissingMemory || e is SourceTooLarge
                || e is SourceInvariant,
            res matches Ok(src) ==> {
                &&& windows_x64(data@)
                &&& dump_memory(data@) matches Some(ranges) && ranges.len() <= MAX_CAPTURED_SEGMENTS
                    && src.process.captured@.len() == ranges.len()
                    && forall|i: int| 0 <= i < ranges.len() ==> {
                        &&& (#[trigger] src.process.captured@[i]).address == ranges[i].0
                        &&& src.process.captured@[i].length == ranges[i].1.len()
                        &&& src.process.memory@.subrange(src.process.captured@[i].offset as int, src.process.captured@[i].offset + src.process.captured@[i].length) == ranges[i].1
                    }
                &&& src.process.wf()
                &&& src.info.kind@ == "minidump"@
                &&& src.info.fingerprint@ == hex_bytes(blake3_digest(data@))
                &&& src.info.fingerprint@.len() == 64
                &&& src.info.platform@ == "windows"@
                &&& src.info.architecture@ == "x86_64"@
                &&& src.info.immutable
                &&& src.process.process.id@ == PROCESS_ID@
                &&& src.process.modules@.len() == 0 ==> src.process.process.display_name@ == "minidump-process"@
                &&& src.process.modules@.len() > 0 && plain_file_name(src.process.modules@[0].name@)
                    ==> src.process.process.display_name@ == src.process.modules@[0].name@
                &&& src.processes@ == seq![src.process.process]
                &&& src.process.modules@.len() == dump_modules(data@).len() <= MAX_MODULES
                &&& forall|i: int| 0 <= i < src.process.modules@.len() ==> module_described(#[trigger] src.process.modules@[i], dump_modules(data@)[i])
                &&& src.process.regions@.len() <= MAX_MEMORY_REGIONS
                &&& match dump_memory_info(data@) {
                    Ok(items) => src.process.regions@.len() == items.len()
                        && src.process.coverage.metadata_complete
                        && forall|i: int| 0 <= i < items.len() ==> region_described(#[trigger] src.process.regions@[i], i,
                            RawRegionInfo { base: items[i].0, size: items[i].1, state: items[i].2, protection: items[i].3, kind: items[i].4 },
                            src.process.captured@),
                    Err(missing) => src.process.regions@.len() == src.process.captured@.len()
                        && !src.process.coverage.metadata_complete
                        && src.process.coverage.limitations@.len() >= 1
                        && src.process.coverage.limitations@[0] == (if missing { CoverageLimitation::MemoryMetadataMissing } else { CoverageLimitation::MemoryMetadataUnusable })
                        && forall|i: int| 0 <= i < src.process.regions@.len() ==> region_of_segment(#[trigger] src.process.regions@[i], i, src.process.captured@[i]),
                }
                &&& src.process.coverage.expected_readable_bytes == expected_sum(src.process.regions@)
                &&& src.process.coverage.captured_readable_bytes == captured_sum(src.process.regions@)
                &&& src.process.coverage.unavailable_readable_bytes == expected_sum(src.process.regions@) - captured_sum(src.process.regions@)
                &&& src.process.coverage.coverage_complete == (src.process.coverage.metadata_complete && src.process.coverage.unavailable_readable_bytes == 0)
                &&& src.process.coverage.limitations@ == dump_limitations(
                    match dump_memory_info(data@) {
                        Ok(_) => None,
                        Err(missing) => Some(if missing { CoverageLimitation::MemoryMetadataMissing } else { CoverageLimitation::MemoryMetadataUnusable }),
                    },
                    src.process.coverage.unavailable_readable_bytes as int)
                &&& forall|a: int| #[trigger] in_extents(src.process.scannable@, a) <==> captured_at(src.process.captured@, a) && readable_at(src.process.regions@, a)
            },
    {
        let digest = blake3_hash(data);
        let fingerprint = hex_text(&digest);
        proof {
            hex_bytes_length(digest@);
        }
        let system = match read_system(data) {
            Ok(system) => system,
            Err(text) => {
                return Err(Error::Minidump(text));
            },
        };
        if !(system.windows && system.x86_64) {
            return Err(Error::UnsupportedTarget(joined(&["expected Windows x64, found ", system.os.as_str(), " ", system.cpu.as_str()])));
        }
        let ranges = match read_memory(data) {
            Some(ranges) => ranges,
            None => {
                return Err(Error::MissingMemory);
            },
        };
        let ghost rv = dump_memory(data@).unwrap();
        proof {
            assert(ranges@.map_values(|r: (u64, Vec<u8>)| (r.0, r.1@)) =~= rv);
        }
        check_range_order(&ranges)?;
        let raw_modules = read_modules(data);
        if raw_modules.len() > MAX_MODULES {
            let count = crate::text::decimal_string(raw_modules.len() as u64);
            return Err(Error::SourceTooLarge(joined(&["module count ", count.as_str(), " exceeds the 32768 limit"])));
        }
        let info_stream = read_memory_info(data);
        let region_count = match &info_stream {
            MemoryInfoStream::Present(items) => items.len(),
            _ => ranges.len(),
        };
        if region_count > MAX_MEMORY_REGIONS {
            let count = crate::text::decimal_string(region_count as u64);
            return Err(Error::SourceTooLarge(joined(&["memory region count ", count.as_str(), " exceeds the 32768 limit"])));
        }
        let (memory, captured) = collect_segments(&ranges)?;
        let memory_len = memory.len();
        proof {
            assert(memory@.len() == memory_len);
        }
        let mut modules: Vec<ModuleInfo> = Vec::new();
        let mut m: usize = 0;
        while m < raw_modules.len()
            invariant
                0 <= m <= raw_modules@.len(),
                raw_modules@.len() == dump_modules(data@).len(),
                forall|i: int| 0 <= i < raw_modules@.len() ==> {
                    let (name, base, size, stamp) = #[trigger] dump_modules(data@)[i];
                    raw_modules@[i].name@ == name && raw_modules@[i].base == base && raw_modules@[i].size == size && raw_modules@[i].time_date_stamp == stamp
                },
                modules@.len() == m,
                forall|i: int| 0 <= i < m ==> module_described(#[trigger] modules@[i], dump_modules(data@)[i]),
            decreases raw_modules@.len() - m,
        {
            let module = module_from_raw(&raw_modules[m]);
            modules.push(module);
            proof {
                let (name, base, size, stamp) = dump_modules(data@)[m as int];
                assert(raw_modules@[m as int].name@ == name);
            }
            m = m + 1;
        }
        let (regions, limitation) = match info_stream {
            MemoryInfoStream::Present(items) => {
                let mut regions: Vec<MemoryRegion> = Vec::new();
                let mut r: usize = 0;
                while r < items.len()
                    invariant
                        0 <= r <= items@.len(),
                        segments_laid_out(captured@, memory@.len() as int),
                        memory@.len() == memory_len,
                        regions@.len() == r,
                        forall|i: int| 0 <= i < r ==> region_described(#[trigger] regions@[i], i, items@[i], captured@),
                        forall|i: int| 0 <= i < r ==> 0 <= overlap_total(captured@, (#[trigger] items@[i]).base, items@[i].size) <= u64::MAX,
                    decreases items@.len() - r,
                {
                    proof {
                        lemma_overlap_bounded(captured@, items@[r as int].base, items@[r as int].size);
                    }
                    regions.push(region_from_info(r, &items[r], &captured));
                    r = r + 1;
                }
                proof {
                    if let Ok(raw) = dump_memory_info(data@) {
                        assert forall|i: int| 0 <= i < raw.len() implies region_described(#[trigger] regions@[i], i,
                            RawRegionInfo { base: raw[i].0, size: raw[i].1, state: raw[i].2, protection: raw[i].3, kind: raw[i].4 },
                            captured@) by {
                            assert(items@[i] == RawRegionInfo { base: raw[i].0, size: raw[i].1, state: raw[i].2, protection: raw[i].3, kind: raw[i].4 });
                        }
                        assert forall|i: int| 0 <= i < regions@.len() implies region_facts(#[trigger] regions@[i]) == dump_facts(data@)[i] by {
                            assert(region_described(regions@[i], i,
                                RawRegionInfo { base: raw[i].0, size: raw[i].1, state: raw[i].2, protection: raw[i].3, kind: raw[i].4 },
                                captured@));
                            assert(items@[i] == RawRegionInfo { base: raw[i].0, size: raw[i].1, state: raw[i].2, protection: raw[i].3, kind: raw[i].4 });
                            lemma_range_overlap(captured@, rv, raw[i].0, raw[i].1);
                        }
                    }
                }
                (regions, None)
            },
            MemoryInfoStream::Missing => (regions_from_segments(&captured), Some(CoverageLimitation::MemoryMetadataMissing)),
            MemoryInfoStream::Unusable => (regions_from_segments(&captured), Some(CoverageLimitation::MemoryMetadataUnusable)),
        };
        proof {
            assert(regions@.len() == dump_facts(data@).len());
            assert forall|i: int| 0 <= i < regions@.len() implies region_facts(#[trigger] regions@[i]) == dump_facts(data@)[i] by {
                if dump_memory_info(data@) is Err {
                    assert(region_of_segment(regions@[i], i, captured@[i]));
                }
            }
            lemma_facts_sums(regions@, dump_facts(data@));
        }
        let coverage = dump_coverage(&regions, limitation)?;
        let scannable = build_scan_extents(&captured, &regions, Ghost(memory@.len() as int))?;
        let name = display_name(&modules);
        let id = String::from_str(PROCESS_ID);
        let listed = ProcessInfo { id: id.clone(), display_name: name.clone() };
        let process = ProcessInfo { id, display_name: name };
        let mut processes: Vec<ProcessInfo> = Vec::new();
        processes.push(listed);
        let source = MinidumpSource {
            info: SourceInfo { kind: "minidump", fingerprint, platform: "windows", architecture: "x86_64", immutable: true },
            processes,
            process: MinidumpProcess { memory, process, regions, modules, coverage, captured, scannable },
        };
        proof {
            reveal_strlit("minidump");
            assert(source.processes@ =~= seq![source.process.process]);
        }
        Ok(source)
    }

    pub fn info(&self) -> (res: &SourceInfo)
        ensures
            res == &self.info,
    {
        &self.info
    }

    pub fn processes(&self) -> (res: &Vec<ProcessInfo>)
        ensures
            res == &self.processes,
    {
        &self.processes
    }

    /// The process with id `id`; a minidump holds only `process:0`.
    pub fn open_process(&self, id: &str) -> (res: Result<&MinidumpProcess>)
        ensures
            res is Ok <==> id@ == PROCESS_ID@,
            res matches Ok(p) ==> p == &self.process,
            res matches Err(e) ==> e is InvalidArgument,
    {
        let chars = str_chars(id);
        let expected = str_chars(PROCESS_ID);
        let mut same = chars.len() == expected.len();
        let mut i: usize = 0;
        while same && i < chars.len()
            invariant
                0 <= i <= chars@.len(),
                chars@ == id@,
                expected@ == PROCESS_ID@,
                same ==> chars@.len() == expected@.len(),
                same ==> forall|k: int| 0 <= k < i ==> chars@[k] == expected@[k],
                !same ==> id@ != PROCESS_ID@,
            decreases chars@.len() - i,
        {
            if chars[i] != expected[i] {
                same = false;
            }
            i = i + 1;
        }
        if same {
            proof {
                assert(chars@ =~= expected@);
            }
            Ok(&self.process)
        } else {
            let quoted = crate::text::debug_quoted(id);
            Err(Error::InvalidArgument(joined(&["unknown process id ", quoted.as_str(), "; expected \"process:0\""])))
        }
    }
}

/// `b` is the byte the dump captured at address `a`: some captured range holds
/// `a`, and `b` is its byte at `a`'s offset in it.
pub open spec fn captured_byte(segments: Seq<CapturedSegment>, memory: Seq<u8>, a: int, b: u8) -> bool {
    exists|i: int| 0 <= i < segments.len() && #[trigger] segments[i].address <= a && a < segment_end(segments[i])
        && b == memory[segments[i].offset + (a - segments[i].address)]
}

proof fn lemma_read_piece_byte(segments: Seq<CapturedSegment>, memory: Seq<u8>, address: int, end: int, j: int, k: int)
    requires
        segments_laid_out(segments, memory.len() as int),
        0 <= j < read_pieces(segments, memory, address, end).len(),
        0 <= k < read_pieces(segments, memory, address, end)[j].1.len(),
    ensures
        address <= read_pieces(segments, memory, address, end)[j].0 + k < end,
        captured_byte(segments, memory, read_pieces(segments, memory, address, end)[j].0 + k,
            read_pieces(segments, memory, address, end)[j].1[k]),
    decreases segments.len(),
{
    let pieces = read_pieces(segments, memory, address, end);
    let init = segments.drop_last();
    let prev = read_pieces(init, memory, address, end);
    let s = segments.last();
    let n = segments.len() - 1;
    assert(s == segments[n]);
    if j < prev.len() {
        assert(segments_laid_out(init, memory.len() as int)) by {
            assert forall|i: int| 0 <= i < init.len() implies segment_end(#[trigger] init[i]) <= u64::MAX by {
                assert(init[i] == segments[i]);
            }
            assert forall|i: int, m: int| 0 <= i < m < init.len() implies segment_end(#[trigger] init[i]) <= (#[trigger] init[m]).address by {
                assert(init[i] == segments[i] && init[m] == segments[m]);
            }
            assert forall|i: int| 0 <= i < init.len() implies (#[trigger] init[i]).offset + init[i].length <= memory.len() by {
                assert(init[i] == segments[i]);
            }
            assert forall|i: int| 0 < i < init.len() implies (#[trigger] init[i]).offset == init[i - 1].offset + init[i - 1].length by {
                assert(init[i] == segments[i] && init[i - 1] == segments[i - 1]);
            }
        }
        lemma_read_piece_byte(init, memory, address, end, j, k);
        assert(pieces[j] == prev[j]);
        let a = prev[j].0 + k;
        let i = choose|i: int| 0 <= i < init.len() && #[trigger] init[i].address <= a && a < segment_end(init[i])
            && prev[j].1[k] == memory[init[i].offset + (a - init[i].address)];
        assert(init[i] == segments[i]);
    } else {
        let lo = if address > s.address { address } else { s.address as int };
        let hi = if end < segment_end(s) { end } else { segment_end(s) };
        assert(lo < hi);
        assert(pieces[j] == (lo as u64, memory.subrange(s.offset + (lo - s.address), s.offset + (hi - s.address))));
        assert(address <= lo + k && lo + k < end);
        assert(segments[n].address <= lo + k && lo + k < segment_end(segments[n]));
        assert(pieces[j].1[k] == memory[s.offset + (lo - s.address) + k]);
    }
}

/// Byte `k` of piece `j` of a read of `[from, to)` lies in that range and is the
/// byte the dump captured at its address.
pub open spec fn piece_byte_captured(segments: Seq<CapturedSegment>, memory: Seq<u8>, from: int, to: int, j: int, k: int) -> bool {
    let piece = read_pieces(segments, memory, from, to)[j];
    &&& from <= piece.0 + k < to
    &&& captured_byte(segments, memory, piece.0 + k, piece.1[k])
}

/// A read returns only captured bytes, each where it was captured: every byte
/// of every piece lies inside the requested range and is the byte the dump
/// captured at that address, read from its range at the address's offset in it.
pub proof fn read_returns_captured_bytes(segments: Seq<CapturedSegment>, memory: Seq<u8>, from: int, to: int)
    requires
        segments_laid_out(segments, memory.len() as int),
    ensures
        forall|j: int, k: int| 0 <= j < read_pieces(segments, memory, from, to).len()
            && 0 <= k < read_pieces(segments, memory, from, to)[j].1.len()
            ==> #[trigger] piece_byte_captured(segments, memory, from, to, j, k),
{
    assert forall|j: int, k: int| 0 <= j < read_pieces(segments, memory, from, to).len()
        && 0 <= k < read_pieces(segments, memory, from, to)[j].1.len()
        implies #[trigger] piece_byte_captured(segments, memory, from, to, j, k) by {
        lemma_read_piece_byte(segments, memory, from, to, j, k);
    }
}

} // verus!
