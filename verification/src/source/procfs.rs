//! The Linux procfs texts a live source reads: `/proc/<pid>/maps` lines, the
//! start time in `/proc/<pid>/stat`, and the boot time in `/proc/stat`.

use vstd::prelude::*;

use crate::error::{Error, Result};
use crate::scan::pattern::{is_unicode_whitespace, parse_unsigned, parsed_unsigned};
use crate::source::live::{RawRegion, MAX_LIVE_MODULES, MAX_LIVE_REGIONS};
use crate::source::{Access, Address, ModuleInfo};
use crate::text::{str_chars, string_from_chars};

verus! {

// ---------------------------------------------------------------------------
// Whitespace-separated fields
// ---------------------------------------------------------------------------

/// The fields found so far and the field being read, scanning left to right.
pub open spec fn field_scan(s: Seq<char>) -> (Seq<Seq<char>>, Seq<char>)
    decreases s.len(),
{
    if s.len() == 0 {
        (Seq::empty(), Seq::empty())
    } else {
        let (done, current) = field_scan(s.drop_last());
        if is_unicode_whitespace(s.last()) {
            if current.len() > 0 {
                (done.push(current), Seq::empty())
            } else {
                (done, current)
            }
        } else {
            (done, current.push(s.last()))
        }
    }
}

/// `str::split_whitespace`: the maximal runs of non-whitespace characters.
pub open spec fn fields(s: Seq<char>) -> Seq<Seq<char>> {
    let (done, current) = field_scan(s);
    if current.len() > 0 {
        done.push(current)
    } else {
        done
    }
}

/// Splits `s` into whitespace-separated fields.
pub fn split_fields(s: &str) -> (res: Vec<Vec<char>>)
    ensures
        res@.len() == fields(s@).len(),
        forall|k: int| 0 <= k < res@.len() ==> (#[trigger] res@[k])@ == fields(s@)[k],
{
    let chars = str_chars(s);
    let mut done: Vec<Vec<char>> = Vec::new();
    let mut current: Vec<char> = Vec::new();
    let mut i: usize = 0;
    while i < chars.len()
        invariant
            0 <= i <= chars@.len(),
            chars@ == s@,
            done@.len() == field_scan(s@.subrange(0, i as int)).0.len(),
            forall|k: int| 0 <= k < done@.len() ==> (#[trigger] done@[k])@ == field_scan(s@.subrange(0, i as int)).0[k],
            current@ == field_scan(s@.subrange(0, i as int)).1,
        decreases chars@.len() - i,
    {
        let c = chars[i];
        proof {
            assert(s@.subrange(0, i as int + 1).drop_last() =~= s@.subrange(0, i as int));
        }
        if crate::scan::pattern::char_is_whitespace(c) {
            if current.len() > 0 {
                done.push(current);
                current = Vec::new();
            }
        } else {
            current.push(c);
        }
        i = i + 1;
    }
    proof {
        assert(s@.subrange(0, s@.len() as int) =~= s@);
    }
    if current.len() > 0 {
        done.push(current);
    }
    done
}

/// The first position of `c` in `s`.
pub open spec fn first_index(s: Seq<char>, c: char) -> Option<int>
    decreases s.len(),
{
    if s.len() == 0 {
        None
    } else {
        match first_index(s.drop_last(), c) {
            Some(i) => Some(i),
            None => if s.last() == c { Some(s.len() - 1) } else { None },
        }
    }
}

proof fn lemma_first_index_bounds(s: Seq<char>, c: char)
    ensures
        first_index(s, c) matches Some(i) ==> 0 <= i < s.len() && s[i] == c,
    decreases s.len(),
{
    if s.len() > 0 {
        lemma_first_index_bounds(s.drop_last(), c);
    }
}

fn find_char(s: &Vec<char>, c: char) -> (res: Option<usize>)
    ensures
        match first_index(s@, c) {
            None => res is None,
            Some(i) => res == Some(i as usize),
        },
        res matches Some(i) ==> i < s@.len(),
{
    let mut i: usize = 0;
    while i < s.len()
        invariant
            0 <= i <= s@.len(),
            first_index(s@.subrange(0, i as int), c) is None,
        decreases s@.len() - i,
    {
        proof {
            assert(s@.subrange(0, i as int + 1).drop_last() =~= s@.subrange(0, i as int));
        }
        if s[i] == c {
            proof {
                lemma_first_index_prefix(s@, c, i as int + 1);
            }
            return Some(i);
        }
        i = i + 1;
    }
    proof {
        assert(s@.subrange(0, s@.len() as int) =~= s@);
    }
    None
}

proof fn lemma_first_index_prefix(s: Seq<char>, c: char, n: int)
    requires
        0 <= n <= s.len(),
        first_index(s.subrange(0, n), c) is Some,
    ensures
        first_index(s, c) == first_index(s.subrange(0, n), c),
    decreases s.len() - n,
{
    if n < s.len() {
        assert(s.subrange(0, n + 1).drop_last() =~= s.subrange(0, n));
        lemma_first_index_prefix(s, c, n + 1);
    } else {
        assert(s.subrange(0, n) =~= s);
    }
}

fn parse_radix(s: &Vec<char>, radix: u64) -> (res: Option<u64>)
    requires
        radix == 10 || radix == 16,
    ensures
        res == parsed_unsigned(s@, radix as nat),
{
    proof {
        assert(s@.subrange(0, s@.len() as int) =~= s@);
    }
    parse_unsigned(s, 0, radix)
}

/// A `start-end` range of hexadecimal addresses.
pub open spec fn hex_range(range: Seq<char>) -> Option<(u64, u64)> {
    match first_index(range, '-') {
        None => None,
        Some(i) => match (parsed_unsigned(range.subrange(0, i), 16), parsed_unsigned(range.subrange(i + 1, range.len() as int), 16)) {
            (Some(start), Some(end)) => Some((start, end)),
            _ => None,
        },
    }
}

fn parse_hex_range(range: &Vec<char>) -> (res: Option<(u64, u64)>)
    ensures
        res == hex_range(range@),
{
    proof {
        lemma_first_index_bounds(range@, '-');
    }
    let dash = match find_char(range, '-') {
        Some(d) => d,
        None => {
            return None;
        },
    };
    let n = range.len();
    let before = vstd::slice::slice_to_vec(vstd::slice::slice_subrange(range.as_slice(), 0, dash));
    let after = vstd::slice::slice_to_vec(vstd::slice::slice_subrange(range.as_slice(), dash + 1, n));
    proof {
        assert(before@ =~= range@.subrange(0, dash as int));
        assert(after@ =~= range@.subrange(dash + 1, range@.len() as int));
    }
    let start = parse_radix(&before, 16);
    let end = parse_radix(&after, 16);
    match (start, end) {
        (Some(s), Some(e)) => Some((s, e)),
        _ => None,
    }
}

// ---------------------------------------------------------------------------
// Mapping lines
// ---------------------------------------------------------------------------

/// `s` starts with `prefix`.
pub open spec fn starts_with(s: Seq<char>, prefix: Seq<char>) -> bool {
    s.len() >= prefix.len() && s.subrange(0, prefix.len() as int) == prefix
}

/// The access a permission field such as `r-xp` grants.
pub open spec fn perms_access(perms: Seq<char>) -> Access {
    Access {
        read: perms.len() > 0 && perms[0] == 'r',
        write: perms.len() > 1 && perms[1] == 'w',
        execute: perms.len() > 2 && perms[2] == 'x',
    }
}

/// The memory type of a mapping: file-backed executable mappings are images,
/// other file-backed mappings and memfd mappings are mapped, the rest private.
pub open spec fn mapping_kind(inode: u64, execute: bool, path: Seq<char>) -> Seq<char> {
    if inode != 0 && execute {
        "image"@
    } else if inode != 0 || starts_with(path, "/memfd:"@) {
        "mapped"@
    } else {
        "private"@
    }
}

/// The region one `/proc/<pid>/maps` line describes
/// (`start-end perms offset dev inode [path]`), or `None` when it is malformed or
/// empty.
pub open spec fn maps_region(line: Seq<char>) -> Option<(u64, u64, Seq<char>, u64, Seq<char>)> {
    let f = fields(line);
    if f.len() < 5 {
        None
    } else {
        match (parsed_unsigned(f[4], 10), hex_range(f[0])) {
            (Some(inode), Some((start, end))) => if end <= start {
                None
            } else {
                Some((start, end, f[1], inode, if f.len() > 5 { f[5] } else { Seq::empty() }))
            },
            _ => None,
        }
    }
}

/// `raw` is the region `line` describes.
pub open spec fn region_of_line(raw: RawRegion, line: Seq<char>) -> bool {
    match maps_region(line) {
        None => false,
        Some((start, end, perms, inode, path)) => {
            &&& raw.base == start
            &&& raw.size == end - start
            &&& raw.access == perms_access(perms)
            &&& raw.native@ == perms
            &&& raw.kind@ == mapping_kind(inode, perms_access(perms).execute, path)
            &&& raw.state@ == "committed"@
            &&& raw.committed
        },
    }
}

fn has_prefix(s: &Vec<char>, prefix: &str) -> (res: bool)
    ensures
        res == starts_with(s@, prefix@),
{
    let p = str_chars(prefix);
    if s.len() < p.len() {
        return false;
    }
    let mut i: usize = 0;
    while i < p.len()
        invariant
            0 <= i <= p@.len(),
            p@ == prefix@,
            p@.len() <= s@.len(),
            forall|k: int| 0 <= k < i ==> s@[k] == p@[k],
        decreases p@.len() - i,
    {
        if s[i] != p[i] {
            proof {
                assert(s@.subrange(0, p@.len() as int)[i as int] != p@[i as int]);
            }
            return false;
        }
        i = i + 1;
    }
    proof {
        assert(s@.subrange(0, p@.len() as int) =~= p@);
    }
    true
}

/// Parses one `/proc/<pid>/maps` line into a region.
pub fn parse_maps_line(line: &str) -> (res: Option<RawRegion>)
    ensures
        res is Some <==> maps_region(line@) is Some,
        res matches Some(raw) ==> region_of_line(raw, line@),
{
    let f = split_fields(line);
    if f.len() < 5 {
        return None;
    }
    let inode = match parse_radix(&f[4], 10) {
        Some(v) => v,
        None => {
            return None;
        },
    };
    let (start, end) = match parse_hex_range(&f[0]) {
        Some(r) => r,
        None => {
            return None;
        },
    };
    if end <= start {
        return None;
    }
    let perms = &f[1];
    let access = Access {
        read: perms.len() > 0 && perms[0] == 'r',
        write: perms.len() > 1 && perms[1] == 'w',
        execute: perms.len() > 2 && perms[2] == 'x',
    };
    let memfd = if f.len() > 5 { has_prefix(&f[5], "/memfd:") } else { false };
    proof {
        if f@.len() <= 5 {
            reveal_strlit("/memfd:");
            assert(!starts_with(Seq::<char>::empty(), "/memfd:"@));
        }
    }
    let kind: &'static str = if inode != 0 && access.execute {
        "image"
    } else if inode != 0 || memfd {
        "mapped"
    } else {
        "private"
    };
    Some(RawRegion {
        base: start,
        size: end - start,
        access,
        native: string_from_chars(perms.as_slice()),
        kind,
        state: "committed",
        committed: true,
    })
}

/// The module facts one maps line gives: the path of a file-backed mapping with
/// an absolute path, its range, and whether it is executable.
pub open spec fn maps_module(line: Seq<char>) -> Option<(Seq<char>, u64, u64, bool)> {
    let f = fields(line);
    if f.len() < 6 {
        None
    } else {
        match (parsed_unsigned(f[4], 10), hex_range(f[0])) {
            (Some(inode), Some((start, end))) => if inode == 0 || !starts_with(f[5], "/"@) {
                None
            } else {
                Some((f[5], start, end, f[1].contains('x')))
            },
            _ => None,
        }
    }
}

/// Parses the module facts of one maps line.
pub fn parse_maps_module(line: &str) -> (res: Option<(String, u64, u64, bool)>)
    ensures
        match maps_module(line@) {
            None => res is None,
            Some((path, start, end, exec)) => res matches Some(m) && m.0@ == path && m.1 == start && m.2 == end && m.3 == exec,
        },
{
    let f = split_fields(line);
    if f.len() < 6 {
        return None;
    }
    let inode = match parse_radix(&f[4], 10) {
        Some(v) => v,
        None => {
            return None;
        },
    };
    let (start, end) = match parse_hex_range(&f[0]) {
        Some(r) => r,
        None => {
            return None;
        },
    };
    if inode == 0 || !has_prefix(&f[5], "/") {
        return None;
    }
    let perms = &f[1];
    let mut exec = false;
    let mut i: usize = 0;
    while i < perms.len()
        invariant
            0 <= i <= perms@.len(),
            exec == exists|k: int| 0 <= k < i && perms@[k] == 'x',
        decreases perms@.len() - i,
    {
        if perms[i] == 'x' {
            exec = true;
        }
        i = i + 1;
    }
    Some((string_from_chars(f[5].as_slice()), start, end, exec))
}

// ---------------------------------------------------------------------------
// Lines
// ---------------------------------------------------------------------------

/// The pieces of `s` between newlines, scanning left to right: those finished and
/// the one being read.
pub open spec fn line_scan(s: Seq<char>) -> (Seq<Seq<char>>, Seq<char>)
    decreases s.len(),
{
    if s.len() == 0 {
        (Seq::empty(), Seq::empty())
    } else {
        let (done, current) = line_scan(s.drop_last());
        if s.last() == '\n' {
            (done.push(current), Seq::empty())
        } else {
            (done, current.push(s.last()))
        }
    }
}

/// `line` without one trailing carriage return.
pub open spec fn without_cr(line: Seq<char>) -> Seq<char> {
    if line.len() > 0 && line.last() == '\r' {
        line.drop_last()
    } else {
        line
    }
}

/// `str::lines`: the newline-terminated lines of `s` (and a final unterminated
/// one, if any), each without a trailing carriage return.
pub open spec fn text_lines(s: Seq<char>) -> Seq<Seq<char>> {
    let (done, current) = line_scan(s);
    let all = if current.len() > 0 { done.push(current) } else { done };
    all.map_values(|l: Seq<char>| without_cr(l))
}

/// Splits `s` into lines as `str::lines` does.
pub fn split_lines(s: &str) -> (res: Vec<String>)
    ensures
        res@.len() == text_lines(s@).len(),
        forall|k: int| 0 <= k < res@.len() ==> (#[trigger] res@[k])@ == text_lines(s@)[k],
{
    let chars = str_chars(s);
    let mut done: Vec<Vec<char>> = Vec::new();
    let mut current: Vec<char> = Vec::new();
    let mut i: usize = 0;
    while i < chars.len()
        invariant
            0 <= i <= chars@.len(),
            chars@ == s@,
            done@.len() == line_scan(s@.subrange(0, i as int)).0.len(),
            forall|k: int| 0 <= k < done@.len() ==> (#[trigger] done@[k])@ == line_scan(s@.subrange(0, i as int)).0[k],
            current@ == line_scan(s@.subrange(0, i as int)).1,
        decreases chars@.len() - i,
    {
        let c = chars[i];
        proof {
            assert(s@.subrange(0, i as int + 1).drop_last() =~= s@.subrange(0, i as int));
        }
        if c == '\n' {
            done.push(current);
            current = Vec::new();
        } else {
            current.push(c);
        }
        i = i + 1;
    }
    proof {
        assert(s@.subrange(0, s@.len() as int) =~= s@);
    }
    if current.len() > 0 {
        done.push(current);
    }
    let mut out: Vec<String> = Vec::new();
    let mut k: usize = 0;
    while k < done.len()
        invariant
            0 <= k <= done@.len(),
            out@.len() == k,
            forall|m: int| 0 <= m < k ==> (#[trigger] out@[m])@ == without_cr(done@[m]@),
        decreases done@.len() - k,
    {
        let line = &done[k];
        let n = line.len();
        let text = if n > 0 && line[n - 1] == '\r' {
            string_from_chars(vstd::slice::slice_subrange(line.as_slice(), 0, n - 1))
        } else {
            string_from_chars(line.as_slice())
        };
        proof {
            if n > 0 && line@[n - 1] == '\r' {
                assert(line@.subrange(0, n - 1) =~= line@.drop_last());
            }
        }
        out.push(text);
        k = k + 1;
    }
    out
}

/// The lines of `lines` that describe a region.
pub open spec fn region_lines(lines: Seq<Seq<char>>) -> Seq<Seq<char>>
    decreases lines.len(),
{
    if lines.len() == 0 {
        Seq::empty()
    } else if maps_region(lines.last()) is Some {
        region_lines(lines.drop_last()).push(lines.last())
    } else {
        region_lines(lines.drop_last())
    }
}

proof fn lemma_region_lines_grow(lines: Seq<Seq<char>>, n: int)
    requires
        0 <= n <= lines.len(),
    ensures
        region_lines(lines.subrange(0, n)).len() <= region_lines(lines).len(),
    decreases lines.len() - n,
{
    if n < lines.len() {
        assert(lines.subrange(0, n + 1).drop_last() =~= lines.subrange(0, n));
        lemma_region_lines_grow(lines, n + 1);
    } else {
        assert(lines.subrange(0, n) =~= lines);
    }
}

/// The regions a `/proc/<pid>/maps` text lists, in order; more than
/// `MAX_LIVE_REGIONS` fail with `SOURCE_TOO_LARGE`.
pub fn regions_from_maps(maps: &str) -> (res: Result<Vec<RawRegion>>)
    ensures
        res is Ok <==> region_lines(text_lines(maps@)).len() <= MAX_LIVE_REGIONS,
        res matches Err(e) ==> e is SourceTooLarge,
        res matches Ok(regions) ==> regions@.len() == region_lines(text_lines(maps@)).len()
            && forall|k: int| 0 <= k < regions@.len() ==> region_of_line(#[trigger] regions@[k], region_lines(text_lines(maps@))[k]),
{
    let lines = split_lines(maps);
    let ghost all = text_lines(maps@);
    let mut regions: Vec<RawRegion> = Vec::new();
    let mut i: usize = 0;
    while i < lines.len()
        invariant
            0 <= i <= lines@.len(),
            all == text_lines(maps@),
            lines@.len() == all.len(),
            forall|k: int| 0 <= k < lines@.len() ==> (#[trigger] lines@[k])@ == all[k],
            regions@.len() == region_lines(all.subrange(0, i as int)).len(),
            regions@.len() <= MAX_LIVE_REGIONS,
            forall|k: int| 0 <= k < regions@.len() ==> region_of_line(#[trigger] regions@[k], region_lines(all.subrange(0, i as int))[k]),
        decreases lines@.len() - i,
    {
        let ghost before = regions@;
        proof {
            assert(all.subrange(0, i as int + 1).drop_last() =~= all.subrange(0, i as int));
        }
        match parse_maps_line(lines[i].as_str()) {
            Some(region) => {
                regions.push(region);
                if regions.len() > MAX_LIVE_REGIONS {
                    proof {
                        lemma_region_lines_grow(all, i as int + 1);
                    }
                    return Err(Error::SourceTooLarge(String::from_str("memory region count exceeds the 262144 limit")));
                }
                proof {
                    assert forall|k: int| 0 <= k < regions@.len() implies region_of_line(#[trigger] regions@[k], region_lines(all.subrange(0, i as int + 1))[k]) by {
                        if k < before.len() {
                            assert(regions@[k] == before[k]);
                        }
                    }
                }
            },
            None => {},
        }
        i = i + 1;
    }
    proof {
        assert(all.subrange(0, all.len() as int) =~= all);
    }
    Ok(regions)
}

// ---------------------------------------------------------------------------
// Start time
// ---------------------------------------------------------------------------

/// The text after the last `)` of `s` (all of it when it has none).
pub open spec fn after_last_paren(s: Seq<char>) -> Seq<char>
    decreases s.len(),
{
    if s.len() == 0 {
        s
    } else if s.last() == ')' {
        Seq::empty()
    } else {
        after_last_paren(s.drop_last()).push(s.last())
    }
}

/// The start time field of `/proc/<pid>/stat`, in clock ticks since boot: the
/// twentieth field after the executable name, which may itself hold spaces and
/// parentheses.
pub open spec fn stat_start_ticks(stat: Seq<char>) -> Option<u64> {
    let f = fields(after_last_paren(stat));
    if f.len() > 19 {
        parsed_unsigned(f[19], 10)
    } else {
        None
    }
}

/// Reads the start time field of a `/proc/<pid>/stat` text.
pub fn parse_start_ticks(stat: &str) -> (res: Option<u64>)
    ensures
        res == stat_start_ticks(stat@),
{
    let chars = str_chars(stat);
    let mut tail: Vec<char> = Vec::new();
    let mut i: usize = 0;
    while i < chars.len()
        invariant
            0 <= i <= chars@.len(),
            chars@ == stat@,
            tail@ == after_last_paren(stat@.subrange(0, i as int)),
        decreases chars@.len() - i,
    {
        proof {
            assert(stat@.subrange(0, i as int + 1).drop_last() =~= stat@.subrange(0, i as int));
        }
        if chars[i] == ')' {
            tail = Vec::new();
        } else {
            tail.push(chars[i]);
        }
        i = i + 1;
    }
    proof {
        assert(stat@.subrange(0, stat@.len() as int) =~= stat@);
    }
    let text = string_from_chars(tail.as_slice());
    let f = split_fields(text.as_str());
    if f.len() > 19 {
        parse_radix(&f[19], 10)
    } else {
        None
    }
}

/// The boot time a `/proc/stat` text gives: the first `btime ` line, trimmed.
pub open spec fn boot_seconds(stat: Seq<char>) -> Option<u64> {
    first_btime(text_lines(stat))
}

/// The value of the first line of `lines` that starts with `btime `.
pub open spec fn first_btime(lines: Seq<Seq<char>>) -> Option<u64>
    decreases lines.len(),
{
    if lines.len() == 0 {
        None
    } else if starts_with(lines[0], "btime "@) {
        parsed_unsigned(crate::scan::selector::trimmed(lines[0].subrange(6, lines[0].len() as int)), 10)
    } else {
        first_btime(lines.drop_first())
    }
}

/// Reads the boot time of a `/proc/stat` text.
pub fn parse_boot_seconds(stat: &str) -> (res: Option<u64>)
    ensures
        res == boot_seconds(stat@),
{
    let lines = split_lines(stat);
    let ghost all = text_lines(stat@);
    let mut i: usize = 0;
    proof {
        reveal_strlit("btime ");
        assert(all.subrange(0, all.len() as int) =~= all);
    }
    while i < lines.len()
        invariant
            0 <= i <= lines@.len(),
            all == text_lines(stat@),
            lines@.len() == all.len(),
            forall|k: int| 0 <= k < lines@.len() ==> (#[trigger] lines@[k])@ == all[k],
            first_btime(all) == first_btime(all.subrange(i as int, all.len() as int)),
        decreases lines@.len() - i,
    {
        let line = str_chars(lines[i].as_str());
        let ghost rest = all.subrange(i as int, all.len() as int);
        proof {
            assert(rest[0] == all[i as int]);
            assert(rest.drop_first() =~= all.subrange(i + 1, all.len() as int));
        }
        if has_prefix(&line, "btime ") {
            proof {
                reveal_strlit("btime ");
            }
            let n = line.len();
            let value = vstd::slice::slice_to_vec(vstd::slice::slice_subrange(line.as_slice(), 6, n));
            let trimmed = crate::scan::selector::trim_chars(&value);
            proof {
                reveal_strlit("btime ");
                assert(value@ =~= all[i as int].subrange(6, all[i as int].len() as int));
            }
            return parse_radix(&trimmed, 10);
        }
        i = i + 1;
    }
    None
}

/// Milliseconds since the Unix epoch at which a process started: the boot time
/// plus its start ticks at `hertz` ticks a second, saturating.
pub open spec fn start_millis(boot: u64, ticks: u64, hertz: u64) -> int {
    let b = if boot * 1000 > u64::MAX { u64::MAX as int } else { boot * 1000 };
    let t = if ticks * 1000 > u64::MAX { u64::MAX as int } else { ticks * 1000 };
    let sum = b + t / (hertz as int);
    if sum > u64::MAX { u64::MAX as int } else { sum }
}

/// Converts a process's start ticks into wall-clock milliseconds, so a reused PID
/// is told apart from an earlier process that had the same PID.
pub fn start_time_unix_ms(boot: u64, ticks: u64, hertz: u64) -> (res: u64)
    requires
        hertz >= 1,
    ensures
        res == start_millis(boot, ticks, hertz),
{
    let b = saturating_thousand(boot);
    let t = saturating_thousand(ticks) / hertz;
    b.saturating_add(t)
}

fn saturating_thousand(v: u64) -> (res: u64)
    ensures
        res == (if v * 1000 > u64::MAX { u64::MAX as int } else { v * 1000 }),
{
    if v > 18_446_744_073_709_551u64 {
        proof {
            assert(v * 1000 > u64::MAX) by (nonlinear_arith)
                requires
                    v > 18_446_744_073_709_551u64,
            ;
        }
        u64::MAX
    } else {
        proof {
            assert(v * 1000 <= u64::MAX) by (nonlinear_arith)
                requires
                    v <= 18_446_744_073_709_551u64,
            ;
        }
        v * 1000
    }
}

// ---------------------------------------------------------------------------
// Modules
// ---------------------------------------------------------------------------

/// The first span named `path`.
pub open spec fn span_index(spans: Seq<(Seq<char>, u64, u64)>, path: Seq<char>) -> Option<int>
    decreases spans.len(),
{
    if spans.len() == 0 {
        None
    } else {
        match span_index(spans.drop_last(), path) {
            Some(j) => Some(j),
            None => if spans.last().0 == path { Some(spans.len() - 1) } else { None },
        }
    }
}

/// The address span of each mapped file, in order of its first executable
/// mapping: every mapping of a file widens its span once the file has one.
pub open spec fn module_spans(lines: Seq<Seq<char>>) -> Seq<(Seq<char>, u64, u64)>
    decreases lines.len(),
{
    if lines.len() == 0 {
        Seq::empty()
    } else {
        let prev = module_spans(lines.drop_last());
        match maps_module(lines.last()) {
            None => prev,
            Some((path, start, end, exec)) => match span_index(prev, path) {
                Some(j) => prev.update(j, (path,
                    if start < prev[j].1 { start } else { prev[j].1 },
                    if end > prev[j].2 { end } else { prev[j].2 })),
                None => if exec { prev.push((path, start, end)) } else { prev },
            },
        }
    }
}

proof fn lemma_span_index_bounds(spans: Seq<(Seq<char>, u64, u64)>, path: Seq<char>)
    ensures
        span_index(spans, path) matches Some(j) ==> 0 <= j < spans.len() && spans[j].0 == path,
        span_index(spans, path) is None ==> forall|k: int| 0 <= k < spans.len() ==> (#[trigger] spans[k]).0 != path,
    decreases spans.len(),
{
    if spans.len() > 0 {
        lemma_span_index_bounds(spans.drop_last(), path);
        if span_index(spans, path) is None {
            assert forall|k: int| 0 <= k < spans.len() implies (#[trigger] spans[k]).0 != path by {
                if k < spans.len() - 1 {
                    assert(spans.drop_last()[k] == spans[k]);
                }
            }
        }
    }
}

/// Some span describes `m`.
pub open spec fn spans_describe(spans: Seq<(Seq<char>, u64, u64)>, m: ModuleInfo) -> bool {
    exists|j: int| 0 <= j < spans.len() && #[trigger] module_of_span(m, spans[j])
}

/// Some module is the one `span` describes.
pub open spec fn described_by(modules: Seq<ModuleInfo>, span: (Seq<char>, u64, u64)) -> bool {
    exists|k: int| 0 <= k < modules.len() && #[trigger] module_of_span(modules[k], span)
}

/// The module a span describes.
pub open spec fn module_of_span(m: ModuleInfo, span: (Seq<char>, u64, u64)) -> bool {
    &&& m.name@ == span.0
    &&& m.base.0 == span.1
    &&& m.size == (if span.2 >= span.1 { span.2 - span.1 } else { 0 })
    &&& m.identity is None
}

proof fn lemma_first_span(spans: Seq<(Seq<char>, u64, u64)>, path: Seq<char>, idx: int)
    requires
        0 <= idx < spans.len(),
        spans[idx].0 == path,
        forall|k: int| 0 <= k < idx ==> (#[trigger] spans[k]).0 != path,
    ensures
        span_index(spans, path) == Some(idx),
    decreases spans.len(),
{
    if idx < spans.len() - 1 {
        assert(spans.drop_last()[idx] == spans[idx]);
        assert forall|k: int| 0 <= k < idx implies (#[trigger] spans.drop_last()[k]).0 != path by {
            assert(spans.drop_last()[k] == spans[k]);
        }
        lemma_first_span(spans.drop_last(), path, idx);
    } else {
        lemma_span_index_bounds(spans.drop_last(), path);
        if span_index(spans.drop_last(), path) is Some {
            let j = span_index(spans.drop_last(), path)->0;
            assert(spans.drop_last()[j] == spans[j]);
        }
    }
}

/// Orders modules by base address, keeping the order of modules with equal bases.
fn sort_modules(modules: Vec<ModuleInfo>) -> (res: Vec<ModuleInfo>)
    ensures
        res@.len() == modules@.len(),
        forall|j: int, k: int| 0 <= j < k < res@.len() ==> (#[trigger] res@[j]).base.0 <= (#[trigger] res@[k]).base.0,
        forall|k: int| 0 <= k < res@.len() ==> #[trigger] modules@.contains(res@[k]),
        forall|j: int| 0 <= j < modules@.len() ==> #[trigger] res@.contains(modules@[j]),
{
    let ghost all = modules@;
    let mut rest = modules;
    let mut out: Vec<ModuleInfo> = Vec::new();
    while rest.len() > 0
        invariant
            rest@ == all.subrange(0, rest@.len() as int),
            rest@.len() + out@.len() == all.len(),
            forall|j: int, k: int| 0 <= j < k < out@.len() ==> (#[trigger] out@[j]).base.0 <= (#[trigger] out@[k]).base.0,
            forall|k: int| 0 <= k < out@.len() ==> #[trigger] all.contains(out@[k]),
            forall|j: int| rest@.len() <= j < all.len() ==> #[trigger] out@.contains(all[j]),
        decreases rest@.len(),
    {
        let x = rest.pop().unwrap();
        let ghost idx = rest@.len() as int;
        proof {
            assert(x == all[idx]);
            assert(rest@ =~= all.subrange(0, rest@.len() as int));
        }
        let mut pos: usize = 0;
        while pos < out.len() && out[pos].base.0 < x.base.0
            invariant
                0 <= pos <= out@.len(),
                forall|k: int| 0 <= k < pos ==> (#[trigger] out@[k]).base.0 < x.base.0,
            decreases out@.len() - pos,
        {
            pos = pos + 1;
        }
        let ghost before = out@;
        proof {
            assert forall|j: int| rest@.len() + 1 <= j < all.len() implies #[trigger] before.contains(all[j]) by {}
        }
        out.insert(pos, x);
        proof {
            assert forall|j: int, k: int| 0 <= j < k < out@.len() implies (#[trigger] out@[j]).base.0 <= (#[trigger] out@[k]).base.0 by {
                if k < pos {
                    assert(out@[j] == before[j]);
                    assert(out@[k] == before[k]);
                } else if k == pos {
                    assert(out@[j] == before[j]);
                } else if j < pos {
                    assert(out@[j] == before[j]);
                    assert(out@[k] == before[k - 1]);
                    assert(before[j].base.0 <= before[k - 1].base.0);
                } else if j == pos {
                    assert(out@[k] == before[k - 1]);
                    if pos < before.len() {
                        assert(before[pos as int].base.0 <= before[k - 1].base.0);
                    }
                } else {
                    assert(out@[j] == before[j - 1]);
                    assert(out@[k] == before[k - 1]);
                }
            }
            assert forall|k: int| 0 <= k < out@.len() implies #[trigger] all.contains(out@[k]) by {
                if k < pos {
                    assert(out@[k] == before[k]);
                } else if k == pos {
                    assert(all[idx] == out@[k]);
                } else {
                    assert(out@[k] == before[k - 1]);
                }
            }
            assert forall|j: int| rest@.len() <= j < all.len() implies #[trigger] out@.contains(all[j]) by {
                if j == idx {
                    assert(out@[pos as int] == all[j]);
                } else {
                    assert(before.contains(all[j]));
                    let k = choose|k: int| 0 <= k < before.len() && before[k] == all[j];
                    if k < pos {
                        assert(out@[k] == before[k]);
                    } else {
                        assert(out@[k + 1] == before[k]);
                    }
                }
            }
        }
    }
    out
}

/// The modules a `/proc/<pid>/maps` text describes: one per file with an
/// executable mapping, spanning all of that file's mappings, ordered by base
/// address. More than `MAX_LIVE_MODULES` fail with `SOURCE_TOO_LARGE`.
pub fn modules_from_maps(maps: &str) -> (res: Result<Vec<ModuleInfo>>)
    ensures
        res is Ok <==> module_spans(text_lines(maps@)).len() <= MAX_LIVE_MODULES,
        res matches Err(e) ==> e is SourceTooLarge,
        res matches Ok(modules) ==> {
            let spans = module_spans(text_lines(maps@));
            &&& modules@.len() == spans.len()
            &&& forall|j: int, k: int| 0 <= j < k < modules@.len() ==> (#[trigger] modules@[j]).base.0 <= (#[trigger] modules@[k]).base.0
            &&& forall|k: int| 0 <= k < modules@.len() ==> #[trigger] spans_describe(spans, modules@[k])
            &&& forall|j: int| 0 <= j < spans.len() ==> #[trigger] described_by(modules@, spans[j])
        },
{
    let lines = split_lines(maps);
    let ghost all = text_lines(maps@);
    let mut spans: Vec<(String, u64, u64)> = Vec::new();
    let mut i: usize = 0;
    while i < lines.len()
        invariant
            0 <= i <= lines@.len(),
            all == text_lines(maps@),
            lines@.len() == all.len(),
            forall|k: int| 0 <= k < lines@.len() ==> (#[trigger] lines@[k])@ == all[k],
            spans@.len() == module_spans(all.subrange(0, i as int)).len(),
            forall|k: int| 0 <= k < spans@.len() ==> ((#[trigger] spans@[k]).0@, spans@[k].1, spans@[k].2) == module_spans(all.subrange(0, i as int))[k],
        decreases lines@.len() - i,
    {
        let ghost prev = module_spans(all.subrange(0, i as int));
        let ghost next = all.subrange(0, i as int + 1);
        proof {
            assert(next.drop_last() =~= all.subrange(0, i as int));
            assert(next.last() == all[i as int]);
        }
        let ghost old_spans = spans@;
        match parse_maps_module(lines[i].as_str()) {
            None => {},
            Some((path, start, end, exec)) => {
                let mut j: usize = 0;
                let mut found = false;
                while j < spans.len() && !found
                    invariant
                        0 <= j <= spans@.len(),
                        spans@ == old_spans,
                        !found ==> forall|k: int| 0 <= k < j ==> (#[trigger] spans@[k]).0@ != path@,
                        found ==> j > 0 && spans@[j - 1].0@ == path@ && forall|k: int| 0 <= k < j - 1 ==> (#[trigger] spans@[k]).0@ != path@,
                    decreases spans@.len() - j + if found { 0int } else { 1int },
                {
                    if spans[j].0 == path {
                        found = true;
                    }
                    j = j + 1;
                }
                proof {
                    lemma_span_index_bounds(prev, path@);
                    if found {
                        assert forall|k: int| 0 <= k < j - 1 implies (#[trigger] prev[k]).0 != path@ by {
                            assert(spans@[k].0@ == prev[k].0);
                        }
                        assert(prev[j - 1].0 == path@);
                        lemma_first_span(prev, path@, j - 1);
                    } else {
                        if span_index(prev, path@) is Some {
                            let q = span_index(prev, path@)->0;
                            assert(spans@[q].0@ == prev[q].0);
                        }
                    }
                }
                if found {
                    let k = j - 1;
                    let name = spans[k].0.clone();
                    let low = spans[k].1;
                    let high = spans[k].2;
                    let low2 = if start < low { start } else { low };
                    let high2 = if end > high { end } else { high };
                    spans.set(k, (name, low2, high2));
                    proof {
                        assert forall|m: int| 0 <= m < spans@.len() implies ((#[trigger] spans@[m]).0@, spans@[m].1, spans@[m].2) == module_spans(next)[m] by {
                            if m != k {
                                assert(spans@[m] == old_spans[m]);
                            }
                        }
                    }
                } else if exec {
                    spans.push((path, start, end));
                    proof {
                        assert forall|m: int| 0 <= m < spans@.len() implies ((#[trigger] spans@[m]).0@, spans@[m].1, spans@[m].2) == module_spans(next)[m] by {
                            if m < old_spans.len() {
                                assert(spans@[m] == old_spans[m]);
                            }
                        }
                    }
                }
            },
        }
        i = i + 1;
    }
    proof {
        assert(all.subrange(0, all.len() as int) =~= all);
    }
    let ghost spans_view = module_spans(all);
    if spans.len() > MAX_LIVE_MODULES {
        return Err(Error::SourceTooLarge(String::from_str("module count exceeds the 32768 limit")));
    }
    let mut modules: Vec<ModuleInfo> = Vec::new();
    let mut m: usize = 0;
    while m < spans.len()
        invariant
            0 <= m <= spans@.len(),
            spans@.len() == spans_view.len(),
            forall|k: int| 0 <= k < spans@.len() ==> ((#[trigger] spans@[k]).0@, spans@[k].1, spans@[k].2) == spans_view[k],
            modules@.len() == m,
            forall|k: int| 0 <= k < m ==> module_of_span(#[trigger] modules@[k], spans_view[k]),
        decreases spans@.len() - m,
    {
        let low = spans[m].1;
        let high = spans[m].2;
        modules.push(ModuleInfo {
            name: spans[m].0.clone(),
            base: Address(low),
            size: if high >= low { high - low } else { 0 },
            identity: None,
        });
        proof {
            assert(((spans@[m as int]).0@, spans@[m as int].1, spans@[m as int].2) == spans_view[m as int]);
        }
        m = m + 1;
    }
    let ghost unsorted = modules@;
    let sorted = sort_modules(modules);
    proof {
        assert forall|k: int| 0 <= k < sorted@.len() implies #[trigger] spans_describe(spans_view, sorted@[k]) by {
            assert(unsorted.contains(sorted@[k]));
            let j = choose|j: int| 0 <= j < unsorted.len() && unsorted[j] == sorted@[k];
            assert(module_of_span(unsorted[j], spans_view[j]));
        }
        assert forall|j: int| 0 <= j < spans_view.len() implies #[trigger] described_by(sorted@, spans_view[j]) by {
            assert(module_of_span(unsorted[j], spans_view[j]));
            assert(sorted@.contains(unsorted[j]));
            let k = choose|k: int| 0 <= k < sorted@.len() && sorted@[k] == unsorted[j];
        }
    }
    Ok(sorted)
}

/// Spans with the same names have the same first index for every path.
proof fn lemma_span_index_names(a: Seq<(Seq<char>, u64, u64)>, b: Seq<(Seq<char>, u64, u64)>, path: Seq<char>)
    requires
        a.len() == b.len(),
        forall|k: int| 0 <= k < a.len() ==> (#[trigger] a[k]).0 == b[k].0,
    ensures
        span_index(a, path) == span_index(b, path),
    decreases a.len(),
{
    if a.len() > 0 {
        assert forall|k: int| 0 <= k < a.drop_last().len() implies (#[trigger] a.drop_last()[k]).0 == b.drop_last()[k].0 by {
            assert(a.drop_last()[k] == a[k] && b.drop_last()[k] == b[k]);
        }
        lemma_span_index_names(a.drop_last(), b.drop_last(), path);
    }
}

/// Appending a span keeps the first index of a path already present, and gives
/// the new one's index to a path not present before.
proof fn lemma_span_index_push(spans: Seq<(Seq<char>, u64, u64)>, x: (Seq<char>, u64, u64), path: Seq<char>)
    ensures
        span_index(spans, path) is Some ==> span_index(spans.push(x), path) == span_index(spans, path),
        span_index(spans, path) is None && x.0 == path ==> span_index(spans.push(x), path) == Some(spans.len() as int),
        span_index(spans, path) is None && x.0 != path ==> span_index(spans.push(x), path) is None,
{
    assert(spans.push(x).drop_last() =~= spans);
}

/// The spans after the first `n` lines.
pub open spec fn spans_after(lines: Seq<Seq<char>>, n: int) -> Seq<(Seq<char>, u64, u64)> {
    module_spans(lines.subrange(0, n))
}

/// One more line either leaves a path's span where it was, only ever widened,
/// or gives a path its first span.
proof fn lemma_span_step(lines: Seq<Seq<char>>, n: int, path: Seq<char>)
    requires
        0 <= n < lines.len(),
    ensures
        span_index(spans_after(lines, n), path) matches Some(j) ==> {
            &&& span_index(spans_after(lines, n + 1), path) == Some(j)
            &&& spans_after(lines, n + 1)[j].1 <= spans_after(lines, n)[j].1
            &&& spans_after(lines, n)[j].2 <= spans_after(lines, n + 1)[j].2
        },
        spans_after(lines, n).len() <= spans_after(lines, n + 1).len(),
{
    let prev = spans_after(lines, n);
    let next = spans_after(lines, n + 1);
    assert(lines.subrange(0, n + 1).drop_last() =~= lines.subrange(0, n));
    assert(lines.subrange(0, n + 1).last() == lines[n]);
    lemma_span_index_bounds(prev, path);
    match maps_module(lines[n]) {
        None => {},
        Some((q, start, end, exec)) => {
            lemma_span_index_bounds(prev, q);
            match span_index(prev, q) {
                Some(i) => {
                    assert forall|k: int| 0 <= k < prev.len() implies (#[trigger] prev[k]).0 == next[k].0 by {}
                    lemma_span_index_names(prev, next, path);
                },
                None => {
                    if exec {
                        lemma_span_index_push(prev, (q, start, end), path);
                        if span_index(prev, path) is Some {
                            let j = span_index(prev, path)->0;
                            assert(next[j] == prev[j]);
                        }
                    }
                },
            }
        },
    }
}

/// A path's span, once it exists, stays at its index and only widens.
proof fn lemma_span_grows(lines: Seq<Seq<char>>, n: int, m: int, path: Seq<char>)
    requires
        0 <= n <= m <= lines.len(),
        span_index(spans_after(lines, n), path) is Some,
    ensures
        ({
            let j = span_index(spans_after(lines, n), path)->0;
            &&& span_index(spans_after(lines, m), path) == Some(j)
            &&& spans_after(lines, m)[j].1 <= spans_after(lines, n)[j].1
            &&& spans_after(lines, n)[j].2 <= spans_after(lines, m)[j].2
        }),
    decreases m - n,
{
    if n < m {
        lemma_span_step(lines, n, path);
        lemma_span_grows(lines, n + 1, m, path);
    }
}

/// After a mapping of a file that already has a span, or that is executable,
/// the file's span holds that mapping.
proof fn lemma_span_holds_line(lines: Seq<Seq<char>>, i: int, path: Seq<char>, start: u64, end: u64, exec: bool)
    requires
        0 <= i < lines.len(),
        maps_module(lines[i]) == Some((path, start, end, exec)),
        exec || span_index(spans_after(lines, i), path) is Some,
    ensures
        span_index(spans_after(lines, i + 1), path) matches Some(j)
            && spans_after(lines, i + 1)[j].1 <= start && end <= spans_after(lines, i + 1)[j].2,
{
    let prev = spans_after(lines, i);
    let next = spans_after(lines, i + 1);
    assert(lines.subrange(0, i + 1).drop_last() =~= lines.subrange(0, i));
    assert(lines.subrange(0, i + 1).last() == lines[i]);
    lemma_span_index_bounds(prev, path);
    match span_index(prev, path) {
        Some(j) => {
            assert forall|k: int| 0 <= k < prev.len() implies (#[trigger] prev[k]).0 == next[k].0 by {}
            lemma_span_index_names(prev, next, path);
        },
        None => {
            lemma_span_index_push(prev, (path, start, end), path);
        },
    }
}

/// Every mapping of a file, from the file's first executable mapping on, lies
/// inside the file's span: the span starts at or before the mapping and ends at
/// or after it.
pub proof fn module_span_covers_mappings(lines: Seq<Seq<char>>, first: int, i: int)
    requires
        0 <= first <= i < lines.len(),
        maps_module(lines[first]) is Some,
        maps_module(lines[first]).unwrap().3,
        maps_module(lines[i]) is Some,
        maps_module(lines[i]).unwrap().0 == maps_module(lines[first]).unwrap().0,
    ensures
        ({
            let (path, start, end, _) = maps_module(lines[i]).unwrap();
            exists|j: int| 0 <= j < module_spans(lines).len() && #[trigger] module_spans(lines)[j].0 == path
                && module_spans(lines)[j].1 <= start && end <= module_spans(lines)[j].2
        }),
{
    let (path, start, end, exec) = maps_module(lines[i]).unwrap();
    let (p0, s0, e0, x0) = maps_module(lines[first]).unwrap();
    lemma_span_holds_line(lines, first, p0, s0, e0, x0);
    if first < i {
        lemma_span_grows(lines, first + 1, i, path);
    }
    lemma_span_holds_line(lines, i, path, start, end, exec);
    lemma_span_grows(lines, i + 1, lines.len() as int, path);
    assert(lines.subrange(0, lines.len() as int) =~= lines);
    let j = span_index(spans_after(lines, lines.len() as int), path)->0;
    lemma_span_index_bounds(module_spans(lines), path);
    assert(module_spans(lines)[j].0 == path);
}

/// No two spans name the same file.
proof fn lemma_span_paths_distinct(lines: Seq<Seq<char>>)
    ensures
        forall|a: int, b: int| 0 <= a < b < module_spans(lines).len() ==> (#[trigger] module_spans(lines)[a]).0 != (#[trigger] module_spans(lines)[b]).0,
    decreases lines.len(),
{
    if lines.len() > 0 {
        let prev = module_spans(lines.drop_last());
        let next = module_spans(lines);
        lemma_span_paths_distinct(lines.drop_last());
        match maps_module(lines.last()) {
            None => {},
            Some((q, start, end, exec)) => {
                lemma_span_index_bounds(prev, q);
                match span_index(prev, q) {
                    Some(i) => {
                        assert forall|a: int, b: int| 0 <= a < b < next.len() implies (#[trigger] next[a]).0 != (#[trigger] next[b]).0 by {
                            assert(next[a].0 == prev[a].0 && next[b].0 == prev[b].0);
                        }
                    },
                    None => {
                        if exec {
                            assert forall|a: int, b: int| 0 <= a < b < next.len() implies (#[trigger] next[a]).0 != (#[trigger] next[b]).0 by {
                                if b < prev.len() {
                                    assert(next[a] == prev[a] && next[b] == prev[b]);
                                } else {
                                    assert(next[a] == prev[a]);
                                }
                            }
                        }
                    },
                }
            },
        }
    }
}

/// The modules of a process's maps hold their files' mappings: for every module
/// described by the maps, each mapping of its file from the file's first
/// executable mapping on lies inside the module, from its base to its base plus
/// its size.
pub proof fn modules_cover_their_mappings(lines: Seq<Seq<char>>, modules: Seq<ModuleInfo>, first: int, i: int, k: int)
    requires
        forall|m: int| 0 <= m < modules.len() ==> #[trigger] spans_describe(module_spans(lines), modules[m]),
        0 <= first <= i < lines.len(),
        maps_module(lines[first]) is Some,
        maps_module(lines[first]).unwrap().3,
        maps_module(lines[i]) is Some,
        maps_module(lines[i]).unwrap().0 == maps_module(lines[first]).unwrap().0,
        0 <= k < modules.len(),
        modules[k].name@ == maps_module(lines[i]).unwrap().0,
    ensures
        modules[k].base.0 <= maps_module(lines[i]).unwrap().1,
        maps_module(lines[i]).unwrap().2 <= modules[k].base.0 + modules[k].size,
{
    let spans = module_spans(lines);
    let (path, start, end, _) = maps_module(lines[i]).unwrap();
    module_span_covers_mappings(lines, first, i);
    let j = choose|j: int| 0 <= j < spans.len() && #[trigger] spans[j].0 == path && spans[j].1 <= start && end <= spans[j].2;
    assert(spans_describe(spans, modules[k]));
    let m = choose|m: int| 0 <= m < spans.len() && #[trigger] module_of_span(modules[k], spans[m]);
    lemma_span_paths_distinct(lines);
    if m != j {
        if m < j {
            assert(spans[m].0 != spans[j].0);
        } else {
            assert(spans[j].0 != spans[m].0);
        }
    }
}

} // verus!
