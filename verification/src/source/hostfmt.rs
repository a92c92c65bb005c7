//! Platform formats a live source decodes from bytes and flags it reads out of a
//! running process: a PE image's link time stamp, Windows memory types, Mach VM
//! protections and share modes, and a Mach-O image's load commands.

use vstd::prelude::*;

use crate::source::minidump::{hex_bytes, hex_text};
use crate::source::{span_contains, ModuleInfo};
use crate::text::string_from_chars;

verus! {

/// The little-endian `u32` at `at` in `s`.
pub open spec fn le32(s: Seq<u8>, at: int) -> int {
    s[at] + 0x100 * s[at + 1] + 0x1_0000 * s[at + 2] + 0x100_0000 * s[at + 3]
}

/// The little-endian `u64` at `at` in `s`.
pub open spec fn le64(s: Seq<u8>, at: int) -> int {
    le32(s, at) + 0x1_0000_0000 * le32(s, at + 4)
}

fn read_le32(s: &[u8], at: usize) -> (res: u32)
    requires
        at + 4 <= s@.len(),
    ensures
        res == le32(s@, at as int),
{
    let n = s.len();
    (s[at] as u32) + 0x100 * (s[at + 1] as u32) + 0x1_0000 * (s[at + 2] as u32) + 0x100_0000 * (s[at + 3] as u32)
}

fn read_le64(s: &[u8], at: usize) -> (res: u64)
    requires
        at + 8 <= s@.len(),
    ensures
        res == le64(s@, at as int),
{
    let n = s.len();
    let low = read_le32(s, at) as u64;
    let high = read_le32(s, at + 4) as u64;
    low + 0x1_0000_0000 * high
}

// ---------------------------------------------------------------------------
// Windows
// ---------------------------------------------------------------------------

/// How many leading bytes of an image a PE time stamp probe reads.
pub const PE_HEADER_PROBE_BYTES: usize = 4096;

/// The link time stamp of the PE image whose leading bytes are `header`: the
/// image starts with `MZ`, its DOS header points (at offset `0x3c`) to a `PE\0\0`
/// signature with a file header after it, and the time stamp sits eight bytes
/// past the signature.
pub open spec fn pe_link_stamp(header: Seq<u8>) -> Option<u32> {
    if header.len() < 0x40 || header[0] != 0x4du8 || header[1] != 0x5au8 {
        None
    } else {
        let lfanew = le32(header, 0x3c);
        if lfanew + 12 > header.len() || header[lfanew] != 0x50u8 || header[lfanew + 1] != 0x45u8
            || header[lfanew + 2] != 0u8 || header[lfanew + 3] != 0u8 {
            None
        } else {
            Some(le32(header, lfanew + 8) as u32)
        }
    }
}

/// Reads the link time stamp of a PE image from its leading bytes.
pub fn pe_timestamp(header: &[u8]) -> (res: Option<u32>)
    ensures
        res == pe_link_stamp(header@),
{
    let n = header.len();
    if n < 0x40 || header[0] != 0x4d || header[1] != 0x5a {
        return None;
    }
    let lfanew = read_le32(header, 0x3c) as usize;
    if lfanew > n || n - lfanew < 12 {
        return None;
    }
    if header[lfanew] != 0x50 || header[lfanew + 1] != 0x45 || header[lfanew + 2] != 0 || header[lfanew + 3] != 0 {
        return None;
    }
    Some(read_le32(header, lfanew + 8))
}

/// A Windows `PAGE_TYPE` as a memory type word.
pub open spec fn page_type_text(bits: u32) -> Seq<char> {
    if bits == 0x20000u32 {
        "private"@
    } else if bits == 0x40000u32 {
        "mapped"@
    } else if bits == 0x100_0000u32 {
        "image"@
    } else {
        "unknown"@
    }
}

/// Names a Windows memory type.
pub fn page_type_name(bits: u32) -> (res: &'static str)
    ensures
        res@ == page_type_text(bits),
{
    if bits == 0x20000u32 {
        "private"
    } else if bits == 0x40000u32 {
        "mapped"
    } else if bits == 0x100_0000u32 {
        "image"
    } else {
        "unknown"
    }
}

// ---------------------------------------------------------------------------
// Mach
// ---------------------------------------------------------------------------

/// A Mach VM protection as `rwx` with `-` for each right it lacks.
pub open spec fn vm_prot_text(bits: u32) -> Seq<char> {
    seq![
        if bits & 1u32 != 0 { 'r' } else { '-' },
        if bits & 2u32 != 0 { 'w' } else { '-' },
        if bits & 4u32 != 0 { 'x' } else { '-' },
    ]
}

/// The native protection of a Mach region: its current and its maximum
/// protection, as `cur/max`.
pub fn mach_native_protection(protection: u32, max_protection: u32) -> (res: String)
    ensures
        res@ == vm_prot_text(protection) + seq!['/'] + vm_prot_text(max_protection),
{
    let mut out: Vec<char> = Vec::new();
    out.push(if protection & 1u32 != 0 { 'r' } else { '-' });
    out.push(if protection & 2u32 != 0 { 'w' } else { '-' });
    out.push(if protection & 4u32 != 0 { 'x' } else { '-' });
    out.push('/');
    out.push(if max_protection & 1u32 != 0 { 'r' } else { '-' });
    out.push(if max_protection & 2u32 != 0 { 'w' } else { '-' });
    out.push(if max_protection & 4u32 != 0 { 'x' } else { '-' });
    proof {
        assert(out@ =~= vm_prot_text(protection) + seq!['/'] + vm_prot_text(max_protection));
    }
    string_from_chars(out.as_slice())
}

/// Some module holds `address`.
pub open spec fn in_some_module(modules: Seq<ModuleInfo>, address: u64) -> bool {
    exists|k: int| 0 <= k < modules.len() && span_contains(#[trigger] modules[k].base.0, modules[k].size, address)
}

/// The memory type of a Mach region: inside a loaded image it is `image`, a
/// shared mapping is `mapped`, the rest is `private`.
pub open spec fn mach_region_kind(modules: Seq<ModuleInfo>, address: u64, share_mode: u8) -> Seq<char> {
    if in_some_module(modules, address) {
        "image"@
    } else if share_mode == 4 || share_mode == 5 || share_mode == 7 {
        "mapped"@
    } else {
        "private"@
    }
}

/// Classifies a Mach region the way the Windows memory-type vocabulary does.
pub fn region_kind(modules: &Vec<ModuleInfo>, address: u64, share_mode: u8) -> (res: &'static str)
    ensures
        res@ == mach_region_kind(modules@, address, share_mode),
{
    let mut i: usize = 0;
    while i < modules.len()
        invariant
            0 <= i <= modules@.len(),
            forall|k: int| 0 <= k < i ==> !span_contains(#[trigger] modules@[k].base.0, modules@[k].size, address),
        decreases modules@.len() - i,
    {
        if modules[i].contains(address) {
            return "image";
        }
        i = i + 1;
    }
    if share_mode == 4 || share_mode == 5 || share_mode == 7 {
        "mapped"
    } else {
        "private"
    }
}

// ---------------------------------------------------------------------------
// Mach-O load commands
// ---------------------------------------------------------------------------

/// The most load-command bytes an image extent probe reads.
pub const MAX_LOAD_COMMAND_BYTES: usize = 65_536;

/// The bytes of a segment name: the 16-byte field up to its first NUL.
pub open spec fn name_field(s: Seq<u8>, at: int) -> Seq<u8>
    decreases 16int,
{
    name_prefix(s, at, 0)
}

/// The name field from position `k` on, up to its first NUL.
pub open spec fn name_prefix(s: Seq<u8>, at: int, k: int) -> Seq<u8>
    decreases 16 - k,
{
    if k >= 16 || s[at + k] == 0u8 {
        Seq::empty()
    } else {
        seq![s[at + k]] + name_prefix(s, at, k + 1)
    }
}

/// Byte `j` after `at`.
pub open spec fn byte_at(s: Seq<u8>, at: int, j: int) -> u8 {
    s[at + j]
}

/// `__PAGEZERO`, the reservation below an image, which is not part of it.
pub open spec fn pagezero() -> Seq<u8> {
    seq![95u8, 95u8, 80u8, 65u8, 71u8, 69u8, 90u8, 69u8, 82u8, 79u8]
}

/// `__TEXT`, the segment an image's header sits at.
pub open spec fn text_segment() -> Seq<u8> {
    seq![95u8, 95u8, 84u8, 69u8, 88u8, 84u8]
}

/// What walking an image's load commands gathers: the segments other than
/// `__PAGEZERO` as (address, size), the address of `__TEXT`, and the bytes of the
/// `LC_UUID` command. The walk stops at a command that does not fit.
pub open spec fn macho_walk(
    cmds: Seq<u8>,
    remaining: nat,
    offset: int,
    segs: Seq<(u64, u64)>,
    text: Option<u64>,
    uuid: Option<Seq<u8>>,
) -> (Seq<(u64, u64)>, Option<u64>, Option<Seq<u8>>)
    decreases remaining,
{
    if remaining == 0 || offset < 0 || offset + 8 > cmds.len() {
        (segs, text, uuid)
    } else {
        let cmd = le32(cmds, offset);
        let size = le32(cmds, offset + 4);
        if size < 8 || offset + size > cmds.len() {
            (segs, text, uuid)
        } else if cmd == 0x19 && size >= 72 {
            let name = name_field(cmds, offset + 8);
            let vmaddr = le64(cmds, offset + 24) as u64;
            let vmsize = le64(cmds, offset + 32) as u64;
            if name == pagezero() {
                macho_walk(cmds, (remaining - 1) as nat, offset + size, segs, text, uuid)
            } else {
                macho_walk(cmds, (remaining - 1) as nat, offset + size, segs.push((vmaddr, vmsize)),
                    if name == text_segment() { Some(vmaddr) } else { text }, uuid)
            }
        } else if cmd == 0x1b && size >= 24 {
            macho_walk(cmds, (remaining - 1) as nat, offset + size, segs, text, Some(cmds.subrange(offset + 8, offset + 24)))
        } else {
            macho_walk(cmds, (remaining - 1) as nat, offset + size, segs, text, uuid)
        }
    }
}

/// The view of optional bytes.
pub open spec fn bytes_view(o: Option<Vec<u8>>) -> Option<Seq<u8>> {
    match o {
        Some(u) => Some(u@),
        None => None,
    }
}

/// Lexicographic order of (address, size) pairs.
pub open spec fn pair_le(a: (u64, u64), b: (u64, u64)) -> bool {
    a.0 < b.0 || (a.0 == b.0 && a.1 <= b.1)
}

/// How far the segments, in ascending order, extend a contiguous image that
/// reaches `end`: each segment starting at or below the end so far extends it.
pub open spec fn chain_end(sorted: Seq<(u64, u64)>, end: int) -> int
    decreases sorted.len(),
{
    if sorted.len() == 0 || sorted[0].0 > end {
        end
    } else {
        let reach = if sorted[0].0 + sorted[0].1 > u64::MAX { u64::MAX as int } else { sorted[0].0 + sorted[0].1 };
        chain_end(sorted.drop_first(), if reach > end { reach } else { end })
    }
}

fn segment_name(cmds: &[u8], at: usize) -> (res: Vec<u8>)
    requires
        at + 16 <= cmds@.len(),
    ensures
        res@ == name_field(cmds@, at as int),
{
    let n = cmds.len();
    let mut k: usize = 0;
    while k < 16 && cmds[at + k] != 0
        invariant
            0 <= k <= 16,
            n == cmds@.len(),
            at + 16 <= cmds@.len(),
            forall|j: int| 0 <= j < k ==> #[trigger] byte_at(cmds@, at as int, j) != 0u8,
        decreases 16 - k,
    {
        k = k + 1;
    }
    let name = vstd::slice::slice_to_vec(vstd::slice::slice_subrange(cmds, at, at + k));
    proof {
        lemma_name_prefix(cmds@, at as int, k as int);
        assert(name@ =~= cmds@.subrange(at as int, at + k));
    }
    name
}

proof fn lemma_name_prefix(s: Seq<u8>, at: int, k: int)
    requires
        0 <= at,
        at + 16 <= s.len(),
        0 <= k <= 16,
        forall|j: int| 0 <= j < k ==> #[trigger] byte_at(s, at, j) != 0u8,
        k == 16 || s[at + k] == 0u8,
    ensures
        name_field(s, at) == s.subrange(at, at + k),
{
    lemma_name_prefix_from(s, at, k, 0);
    assert(s.subrange(at + 0, at + k) =~= s.subrange(at, at + k));
}

proof fn lemma_name_prefix_from(s: Seq<u8>, at: int, k: int, m: int)
    requires
        0 <= at,
        at + 16 <= s.len(),
        0 <= m <= k <= 16,
        forall|j: int| 0 <= j < k ==> #[trigger] byte_at(s, at, j) != 0u8,
        k == 16 || s[at + k] == 0u8,
    ensures
        name_prefix(s, at, m) == s.subrange(at + m, at + k),
    decreases 16 - m,
{
    if m < k {
        assert(byte_at(s, at, m) != 0u8);
        lemma_name_prefix_from(s, at, k, m + 1);
        assert(s.subrange(at + m, at + k) =~= seq![s[at + m]] + s.subrange(at + m + 1, at + k));
    } else {
        assert(s.subrange(at + m, at + k) =~= Seq::<u8>::empty());
        if k < 16 {
            assert(s[at + k] == 0u8);
        }
    }
}

fn bytes_equal(a: &Vec<u8>, b: &[u8]) -> (res: bool)
    ensures
        res == (a@ == b@),
{
    if a.len() != b.len() {
        return false;
    }
    let mut i: usize = 0;
    while i < a.len()
        invariant
            0 <= i <= a@.len(),
            a@.len() == b@.len(),
            forall|k: int| 0 <= k < i ==> a@[k] == b@[k],
        decreases a@.len() - i,
    {
        if a[i] != b[i] {
            return false;
        }
        i = i + 1;
    }
    proof {
        assert(a@ =~= b@);
    }
    true
}

/// Orders (address, size) pairs lexicographically, keeping every pair.
fn sort_pairs(pairs: Vec<(u64, u64)>) -> (res: Vec<(u64, u64)>)
    ensures
        res@.to_multiset() == pairs@.to_multiset(),
        forall|j: int, k: int| 0 <= j < k < res@.len() ==> pair_le(#[trigger] res@[j], #[trigger] res@[k]),
{
    broadcast use vstd::seq_lib::group_to_multiset_ensures;
    let mut out: Vec<(u64, u64)> = Vec::new();
    let mut i: usize = 0;
    while i < pairs.len()
        invariant
            0 <= i <= pairs@.len(),
            out@.to_multiset() == pairs@.subrange(0, i as int).to_multiset(),
            forall|j: int, k: int| 0 <= j < k < out@.len() ==> pair_le(#[trigger] out@[j], #[trigger] out@[k]),
        decreases pairs@.len() - i,
    {
        let x = pairs[i];
        let mut pos: usize = out.len();
        while pos > 0 && !(out[pos - 1].0 < x.0 || (out[pos - 1].0 == x.0 && out[pos - 1].1 <= x.1))
            invariant
                0 <= pos <= out@.len(),
                forall|k: int| pos <= k < out@.len() ==> !pair_le(#[trigger] out@[k], x),
            decreases pos,
        {
            pos = pos - 1;
        }
        let ghost before = out@;
        out.insert(pos, x);
        proof {
            vstd::seq_lib::to_multiset_insert(before, pos as int, x);
            assert(pairs@.subrange(0, i as int + 1) =~= pairs@.subrange(0, i as int).push(x));
            vstd::seq_lib::to_multiset_build(pairs@.subrange(0, i as int), x);
            assert forall|j: int, k: int| 0 <= j < k < out@.len() implies pair_le(#[trigger] out@[j], #[trigger] out@[k]) by {
                if k < pos {
                    assert(out@[j] == before[j]);
                    assert(out@[k] == before[k]);
                } else if k == pos {
                    assert(out@[j] == before[j]);
                    if j < pos - 1 {
                        assert(pair_le(before[j], before[pos - 1]));
                    }
                } else if j < pos {
                    assert(out@[j] == before[j]);
                    assert(out@[k] == before[k - 1]);
                } else if j == pos {
                    assert(out@[k] == before[k - 1]);
                    assert(!pair_le(before[k - 1], x));
                } else {
                    assert(out@[j] == before[j - 1]);
                    assert(out@[k] == before[k - 1]);
                }
            }
        }
        i = i + 1;
    }
    proof {
        assert(pairs@.subrange(0, pairs@.len() as int) =~= pairs@);
    }
    out
}

/// The size of the image whose load commands are `cmds` (`ncmds` of them) and
/// the hexadecimal bytes of its UUID: the extent from `__TEXT` through every
/// segment contiguous with it. Without `__TEXT` the size is zero.
pub open spec fn image_extent_of(cmds: Seq<u8>, ncmds: u32, size: u64, uuid: Option<Seq<char>>) -> bool {
    let (segs, text, id) = macho_walk(cmds, ncmds as nat, 0, Seq::empty(), None, None);
    &&& uuid == match id {
        Some(b) => Some(hex_bytes(b)),
        None => None,
    }
    &&& match text {
        None => size == 0,
        Some(t) => exists|sorted: Seq<(u64, u64)>| #[trigger] sorted.to_multiset() == segs.to_multiset()
            && (forall|j: int, k: int| 0 <= j < k < sorted.len() ==> pair_le(#[trigger] sorted[j], #[trigger] sorted[k]))
            && size == chain_end(sorted, t as int) - t,
    }
}

/// Measures an image from its load commands.
pub fn image_extent(cmds: &[u8], ncmds: u32) -> (res: (u64, Option<String>))
    ensures
        image_extent_of(cmds@, ncmds, res.0, match res.1 {
            Some(s) => Some(s@),
            None => None,
        }),
{
    let n = cmds.len();
    let mut segs: Vec<(u64, u64)> = Vec::new();
    let mut text: Option<u64> = None;
    let mut uuid: Option<Vec<u8>> = None;
    let mut offset: usize = 0;
    let mut remaining: u32 = ncmds;
    let ghost target = macho_walk(cmds@, ncmds as nat, 0, Seq::empty(), None, None);
    loop
        invariant
            n == cmds@.len(),
            offset <= n,
            macho_walk(cmds@, remaining as nat, offset as int, segs@, text, bytes_view(uuid))
                == target,
        ensures
            target == (segs@, text, bytes_view(uuid)),
        decreases remaining,
    {
        if remaining == 0 || n - offset < 8 {
            break;
        }
        let cmd = read_le32(cmds, offset);
        let size = read_le32(cmds, offset + 4) as usize;
        if size < 8 || size > n - offset {
            break;
        }
        if cmd == 0x19 && size >= 72 {
            let name = segment_name(cmds, offset + 8);
            let vmaddr = read_le64(cmds, offset + 24);
            let vmsize = read_le64(cmds, offset + 32);
            let zero: [u8; 10] = [95, 95, 80, 65, 71, 69, 90, 69, 82, 79];
            let text_name: [u8; 6] = [95, 95, 84, 69, 88, 84];
            proof {
                assert(zero@ =~= pagezero());
                assert(text_name@ =~= text_segment());
            }
            if !bytes_equal(&name, &zero) {
                if bytes_equal(&name, &text_name) {
                    text = Some(vmaddr);
                }
                segs.push((vmaddr, vmsize));
            }
        } else if cmd == 0x1b && size >= 24 {
            uuid = Some(vstd::slice::slice_to_vec(vstd::slice::slice_subrange(cmds, offset + 8, offset + 24)));
            proof {
                assert(uuid->0@ =~= cmds@.subrange(offset + 8, offset + 24));
            }
        }
        offset = offset + size;
        remaining = remaining - 1;
    }
    let id = match &uuid {
        Some(bytes) => Some(hex_text(bytes.as_slice())),
        None => None,
    };
    let t = match text {
        Some(t) => t,
        None => {
            return (0, id);
        },
    };
    let sorted = sort_pairs(segs);
    let mut end: u64 = t;
    let mut i: usize = 0;
    proof {
        assert(sorted@.subrange(0, sorted@.len() as int) =~= sorted@);
    }
    loop
        invariant
            0 <= i <= sorted@.len(),
            t <= end,
            chain_end(sorted@, t as int) == chain_end(sorted@.subrange(i as int, sorted@.len() as int), end as int),
        ensures
            t <= end,
            chain_end(sorted@, t as int) == end,
        decreases sorted@.len() - i,
    {
        if i >= sorted.len() {
            break;
        }
        let (a, s) = sorted[i];
        proof {
            let rest = sorted@.subrange(i as int, sorted@.len() as int);
            assert(rest[0] == sorted@[i as int]);
            assert(rest.drop_first() =~= sorted@.subrange(i + 1, sorted@.len() as int));
        }
        if a > end {
            break;
        }
        let reach = if a > u64::MAX - s { u64::MAX } else { a + s };
        if reach > end {
            end = reach;
        }
        i = i + 1;
    }
    (end - t, id)
}

} // verus!
