//! Scanning a minidump process: the captured readable extents, clipped to the
//! resolved scope, are fed to a match session in bounded windows.

use vstd::prelude::*;

use crate::error::Result;
use crate::scan::interval::{canonical, canonical_form_is_unique, covers, Interval};
use crate::scan::pattern::{
    compile, compiled_from, encoded_value, known_run, pattern_accepted, spec_accepted, CompiledPattern,
};
use crate::scan::scope::{
    in_every, intersection_of, reports, resolve_scope, resolved_as, scope_categories, scope_fault_in, ResolvedScope, ScopeFault,
};
use crate::scan::session::{
    byte_fits, hit_in, hits, least_matches, match_key, same_hits_same_report, same_hits_same_tags, next_is, patterns_ok, searchable, tag_hits, tag_listed, tags_exact, Chunk,
    FoundMatch, Key, ScanOutcome, ScanSession,
};
use crate::scan::ScanSpec;
use crate::source::minidump::{extent_sound, extents_ordered, Extent, MinidumpProcess};
use crate::source::{span_contains, Address, Coverage, CoverageLimitation, MemoryRegion, ModuleInfo, ProcessInfo};
use crate::source::live::{in_runs, ReadableRun};

verus! {

/// Bytes a session is handed at a time; a pattern straddling two windows is
/// still found, because each window repeats the tail of the one before.
pub const SCAN_WINDOW_BYTES: usize = 1_048_576;

/// The bytes of extent `e` in the buffer `memory`.
pub open spec fn extent_bytes(memory: Seq<u8>, e: Extent) -> Seq<u8> {
    memory.subrange(e.offset as int, e.offset + e.length)
}

/// Extent `e` as a chunk of its own.
pub open spec fn extent_chunk(memory: Seq<u8>, e: Extent) -> Chunk {
    (e.address as int, extent_bytes(memory, e), 0)
}

/// `[lo, hi)` lies inside the scope (anywhere without one).
pub open spec fn in_scope(scope: Option<Seq<Interval>>, lo: int, hi: int) -> bool {
    match scope {
        None => true,
        Some(iv) => exists|k: int| 0 <= k < iv.len() && #[trigger] within(iv[k], lo, hi),
    }
}

/// `[lo, hi)` lies inside `iv`.
pub open spec fn within(iv: Interval, lo: int, hi: int) -> bool {
    iv.start <= lo && hi <= iv.end
}

proof fn lemma_in_scope(iv: Seq<Interval>, lo: int, hi: int, m: int)
    requires
        0 <= m < iv.len(),
        iv[m].start <= lo,
        hi <= iv[m].end,
    ensures
        in_scope(Some(iv), lo, hi),
{
    assert(within(iv[m], lo, hi));
    let sc: Option<Seq<Interval>> = Some(iv);
    assert(sc->0 == iv);
    assert(exists|k: int| 0 <= k < iv.len() && #[trigger] within(iv[k], lo, hi));
    assert(in_scope(sc, lo, hi));
}

/// Pattern `p` matches at `a`: all its bytes lie in one captured readable extent
/// and inside one scope interval.
pub open spec fn scan_hit(pats: Seq<CompiledPattern>, memory: Seq<u8>, extents: Seq<Extent>, scope: Option<Seq<Interval>>, p: int, a: int) -> bool {
    &&& 0 <= p < pats.len()
    &&& in_scope(scope, a, a + pats[p].bytes@.len())
    &&& exists|e: int| 0 <= e < extents.len() && #[trigger] hit_in(pats, extent_chunk(memory, extents[e]), p, a)
}

/// The bytes extent `e` shares with interval `iv`.
pub open spec fn overlap_len(e: Extent, iv: Interval) -> int {
    let lo = if iv.start > e.address { iv.start as int } else { e.address as int };
    let hi = if (iv.end as int) < e.address + e.length { iv.end as int } else { e.address + e.length };
    if lo < hi { hi - lo } else { 0 }
}

/// The bytes extent `e` shares with the intervals.
pub open spec fn scope_overlap(e: Extent, ivs: Seq<Interval>) -> int
    decreases ivs.len(),
{
    if ivs.len() == 0 {
        0
    } else {
        scope_overlap(e, ivs.drop_last()) + overlap_len(e, ivs.last())
    }
}

/// The captured readable bytes inside the scope: every extent's bytes inside some
/// scope interval (all of them without a scope).
pub open spec fn scope_bytes(extents: Seq<Extent>, scope: Option<Seq<Interval>>) -> int
    decreases extents.len(),
{
    if extents.len() == 0 {
        0
    } else {
        scope_bytes(extents.drop_last(), scope) + match scope {
            None => extents.last().length as int,
            Some(ivs) => scope_overlap(extents.last(), ivs),
        }
    }
}

/// Some fed chunk holds a hit of `p` at `a`.
pub open spec fn fed_hit(pats: Seq<CompiledPattern>, chunks: Seq<Chunk>, p: int, a: int) -> bool {
    exists|i: int| 0 <= i < chunks.len() && #[trigger] hit_in(pats, chunks[i], p, a)
}

/// The part `[lo, hi)` of extent `e`, as a chunk.
pub open spec fn piece_chunk(memory: Seq<u8>, e: Extent, lo: int, hi: int) -> Chunk {
    (lo, memory.subrange(e.offset + (lo - e.address), e.offset + (hi - e.address)), 0)
}

/// A hit inside a part of an extent is exactly a hit in the extent lying in that
/// part: clipping to a scope interval neither invents nor loses a match inside it.
pub proof fn lemma_piece(pats: Seq<CompiledPattern>, memory: Seq<u8>, e: Extent, lo: int, hi: int, p: int, a: int)
    requires
        e.address <= lo < hi <= e.address + e.length,
        e.offset + e.length <= memory.len(),
        forall|q: int| 0 <= q < pats.len() ==> 1 <= (#[trigger] pats[q]).bytes@.len(),
    ensures
        hit_in(pats, piece_chunk(memory, e, lo, hi), p, a) <==> (hit_in(pats, extent_chunk(memory, e), p, a) && lo <= a
            && a + pats[p].bytes@.len() <= hi),
{
    reveal(hit_in);
    let pc = piece_chunk(memory, e, lo, hi);
    let ec = extent_chunk(memory, e);
    if 0 <= p < pats.len() {
        let len = pats[p].bytes@.len() as int;
        assert(pc.1.len() == hi - lo);
        assert(ec.1.len() == e.length);
        if hit_in(pats, pc, p, a) {
            assert forall|i: int| 0 <= i < len implies #[trigger] crate::scan::session::byte_fits(pats[p], ec.1[a - ec.0 + i], i) by {
                assert(crate::scan::session::byte_fits(pats[p], pc.1[a - pc.0 + i], i));
                assert(pc.1[a - pc.0 + i] == memory[e.offset + (lo - e.address) + (a - lo + i)]);
                assert(ec.1[a - ec.0 + i] == memory[e.offset + (a - e.address + i)]);
            }
            assert(a - ec.0 >= 0);
            assert(a - ec.0 + len <= ec.1.len());
            assert(a - ec.0 + len > ec.2);
            assert(hit_in(pats, ec, p, a));
        }
        if hit_in(pats, ec, p, a) && lo <= a && a + len <= hi {
            assert(a - pc.0 >= 0);
            assert(a - pc.0 + len <= pc.1.len());
            assert forall|i: int| 0 <= i < len implies #[trigger] crate::scan::session::byte_fits(pats[p], pc.1[a - pc.0 + i], i) by {
                assert(crate::scan::session::byte_fits(pats[p], ec.1[a - ec.0 + i], i));
                assert(pc.1[a - pc.0 + i] == memory[e.offset + (lo - e.address) + (a - lo + i)]);
                assert(ec.1[a - ec.0 + i] == memory[e.offset + (a - e.address + i)]);
            }
            assert(hit_in(pats, pc, p, a));
        }
    }
}

/// The window at `cursor` of a chunk: its bytes from `cursor - carry` to `top`,
/// the first `carry` of them already seen.
pub open spec fn window_chunk(piece: Chunk, cursor: int, carry: int, top: int) -> Chunk {
    (piece.0 + cursor - carry, piece.1.subrange(cursor - carry, top), carry)
}

/// A hit in a window is exactly a hit of the whole run that ends inside the
/// window's new bytes, provided the carry is as long as any pattern but one byte:
/// windows that repeat a carry find every match of the run exactly once.
pub proof fn lemma_window(pats: Seq<CompiledPattern>, piece: Chunk, cursor: int, carry: int, top: int, longest: int, p: int, a: int)
    requires
        piece.2 == 0,
        0 <= carry <= cursor < top <= piece.1.len(),
        carry == cursor || carry >= longest - 1,
        forall|q: int| 0 <= q < pats.len() ==> 1 <= (#[trigger] pats[q]).bytes@.len() <= longest,
    ensures
        hit_in(pats, window_chunk(piece, cursor, carry, top), p, a) <==> (hit_in(pats, piece, p, a)
            && cursor < a - piece.0 + pats[p].bytes@.len() <= top),
{
    reveal(hit_in);
    let w = window_chunk(piece, cursor, carry, top);
    if 0 <= p < pats.len() {
        let len = pats[p].bytes@.len() as int;
        if hit_in(pats, w, p, a) {
            assert forall|i: int| 0 <= i < len implies #[trigger] crate::scan::session::byte_fits(pats[p], piece.1[a - piece.0 + i], i) by {
                assert(crate::scan::session::byte_fits(pats[p], w.1[a - w.0 + i], i));
                assert(w.1[a - w.0 + i] == piece.1[cursor - carry + (a - w.0 + i)]);
            }
        }
        if hit_in(pats, piece, p, a) && cursor < a - piece.0 + len <= top {
            assert(a - w.0 >= 0);
            assert forall|i: int| 0 <= i < len implies #[trigger] crate::scan::session::byte_fits(pats[p], w.1[a - w.0 + i], i) by {
                assert(crate::scan::session::byte_fits(pats[p], piece.1[a - piece.0 + i], i));
                assert(w.1[a - w.0 + i] == piece.1[cursor - carry + (a - w.0 + i)]);
            }
        }
    }
}

proof fn lemma_fed_push(pats: Seq<CompiledPattern>, chunks: Seq<Chunk>, c: Chunk, p: int, a: int)
    ensures
        fed_hit(pats, chunks.push(c), p, a) <==> fed_hit(pats, chunks, p, a) || hit_in(pats, c, p, a),
{
    let t = chunks.push(c);
    if fed_hit(pats, t, p, a) {
        let i = choose|i: int| 0 <= i < t.len() && #[trigger] hit_in(pats, t[i], p, a);
        if i < chunks.len() {
            assert(t[i] == chunks[i]);
        }
    }
    if fed_hit(pats, chunks, p, a) {
        let i = choose|i: int| 0 <= i < chunks.len() && #[trigger] hit_in(pats, chunks[i], p, a);
        assert(t[i] == chunks[i]);
    }
    if hit_in(pats, c, p, a) {
        assert(t[chunks.len() as int] == c);
    }
}

/// Every pattern is between one byte and `longest` bytes long.
pub open spec fn lengths_within(pats: Seq<CompiledPattern>, longest: int) -> bool {
    forall|q: int| 0 <= q < pats.len() ==> 1 <= (#[trigger] pats[q]).bytes@.len() <= longest
}

/// Feeds the part `[lo, hi)` of extent `e` to the session as one run of windows.
fn feed_piece(session: &mut ScanSession, memory: &Vec<u8>, e: Extent, lo: u64, hi: u64, longest: usize)
    requires
        old(session).wf(),
        e.address <= lo < hi <= e.address + e.length,
        e.offset + e.length <= memory@.len(),
        e.address + e.length <= u64::MAX,
        1 <= longest,
        lengths_within(old(session).pattern_list(), longest as int),
        !old(session).run_open(),
        lo >= old(session).data_end(),
    ensures
        final(session).wf(),
        final(session).pattern_list() == old(session).pattern_list(),
        final(session).quota() == old(session).quota(),
        !final(session).run_open(),
        final(session).data_end() == hi,
        old(session).stopped() ==> final(session).stopped(),
        old(session).stopped() ==> final(session).stop_window() == old(session).stop_window(),
        !old(session).stopped() && final(session).stopped()
            ==> lo <= final(session).stop_window().0 && final(session).stop_window().1 <= hi,
        forall|p: int, a: int| #[trigger] fed_hit(final(session).pattern_list(), final(session).fed(), p, a)
            <==> fed_hit(old(session).pattern_list(), old(session).fed(), p, a)
                || hit_in(old(session).pattern_list(), piece_chunk(memory@, e, lo as int, hi as int), p, a),
{
    let ghost pats = session.pattern_list();
    let ghost start = session.fed();
    let ghost piece = piece_chunk(memory@, e, lo as int, hi as int);
    let ml = memory.len();
    let n = (hi - lo) as usize;
    let from = e.offset + (lo - e.address) as usize;
    let bytes = vstd::slice::slice_subrange(memory.as_slice(), from, from + n);
    proof {
        assert(bytes@ == piece.1);
    }
    let carry_max = longest - 1;
    let mut cursor: usize = 0;
    proof {
        assert forall|p: int, a: int| #[trigger] fed_hit(pats, session.fed(), p, a)
            <==> fed_hit(pats, start, p, a) || (hit_in(pats, piece, p, a) && a - lo + pats[p].bytes@.len() <= 0) by {
            if hit_in(pats, piece, p, a) {
                reveal(hit_in);
            }
        }
    }
    while cursor < n
        invariant
            0 <= cursor <= n,
            n == hi - lo,
            bytes@ == piece.1,
            piece == piece_chunk(memory@, e, lo as int, hi as int),
            piece.0 == lo,
            piece.2 == 0,
            bytes@.len() == n,
            lo + n <= u64::MAX,
            carry_max == longest - 1,
            session.wf(),
            session.pattern_list() == pats,
            session.quota() == old(session).quota(),
            lengths_within(pats, longest as int),
            cursor == 0 ==> !session.run_open() && lo >= session.data_end() && session.fed() == start
                && session.stopped() == old(session).stopped(),
            0 < cursor < n ==> session.run_open() && session.run_start() == lo && session.data_end() == lo + cursor,
            cursor == n ==> !session.run_open() && session.data_end() == hi,
            old(session).stopped() ==> session.stopped(),
            old(session).stopped() ==> session.stop_window() == old(session).stop_window(),
            !old(session).stopped() && session.stopped()
                ==> lo <= session.stop_window().0 && session.stop_window().1 <= lo + cursor,
            forall|p: int, a: int| #[trigger] fed_hit(pats, session.fed(), p, a)
                <==> fed_hit(pats, start, p, a) || (hit_in(pats, piece, p, a) && a - lo + pats[p].bytes@.len() <= cursor),
        decreases n - cursor,
    {
        let carry = if cursor < carry_max { cursor } else { carry_max };
        let top = if n - cursor > SCAN_WINDOW_BYTES { cursor + SCAN_WINDOW_BYTES } else { n };
        let window = vstd::slice::slice_subrange(bytes, cursor - carry, top);
        let base = lo + (cursor - carry) as u64;
        let ghost before = session.fed();
        let ghost chunk: Chunk = (base as int, window@, carry as int);
        proof {
            assert(chunk == window_chunk(piece, cursor as int, carry as int, top as int));
        }
        session.feed(base, window, carry, top == n);
        proof {
            assert(session.fed() == before.push(chunk));
            assert forall|p: int, a: int| #[trigger] fed_hit(pats, session.fed(), p, a)
                <==> fed_hit(pats, start, p, a) || (hit_in(pats, piece, p, a) && a - lo + pats[p].bytes@.len() <= top) by {
                lemma_fed_push(pats, before, chunk, p, a);
                lemma_window(pats, piece, cursor as int, carry as int, top as int, longest as int, p, a);
                if hit_in(pats, piece, p, a) {
                    reveal(hit_in);
                }
            }
        }
        cursor = top;
    }
    proof {
        assert forall|p: int, a: int| #[trigger] fed_hit(pats, session.fed(), p, a)
            <==> fed_hit(pats, start, p, a) || hit_in(pats, piece, p, a) by {
            if hit_in(pats, piece, p, a) {
                reveal(hit_in);
            }
        }
    }
}

/// Pattern `p` hits at `a` in one of the first `count` extents, inside the scope.
pub open spec fn hit_before(pats: Seq<CompiledPattern>, memory: Seq<u8>, extents: Seq<Extent>, scope: Option<Seq<Interval>>, count: int, p: int, a: int) -> bool {
    &&& 0 <= p < pats.len()
    &&& in_scope(scope, a, a + pats[p].bytes@.len())
    &&& exists|e: int| 0 <= e < count && #[trigger] hit_in(pats, extent_chunk(memory, extents[e]), p, a)
}

/// The view of an optional interval list.
pub open spec fn scope_view(scope: Option<&Vec<Interval>>) -> Option<Seq<Interval>> {
    match scope {
        None => None,
        Some(iv) => Some(iv@),
    }
}

proof fn lemma_overlap_prefix(e: Extent, ivs: Seq<Interval>, n: int)
    requires
        0 <= n <= ivs.len(),
        forall|m: int| 0 <= m < n ==> (#[trigger] ivs[m]).end <= e.address,
    ensures
        scope_overlap(e, ivs.subrange(0, n)) == 0,
    decreases n,
{
    if n > 0 {
        assert(ivs.subrange(0, n).drop_last() =~= ivs.subrange(0, n - 1));
        lemma_overlap_prefix(e, ivs, n - 1);
    }
}

proof fn lemma_overlap_suffix(e: Extent, ivs: Seq<Interval>, n: int)
    requires
        0 <= n <= ivs.len(),
        forall|m: int| n <= m < ivs.len() ==> (#[trigger] ivs[m]).start >= e.address + e.length,
    ensures
        scope_overlap(e, ivs) == scope_overlap(e, ivs.subrange(0, n)),
    decreases ivs.len() - n,
{
    if n < ivs.len() {
        lemma_overlap_suffix(e, ivs.drop_last(), n);
        assert(ivs.drop_last().subrange(0, n) =~= ivs.subrange(0, n));
    } else {
        assert(ivs.subrange(0, n) =~= ivs);
    }
}

/// The view of an optional owned interval list.
pub open spec fn intervals_view(scope: Option<Vec<Interval>>) -> Option<Seq<Interval>> {
    match scope {
        None => None,
        Some(iv) => Some(iv@),
    }
}

/// `[lo, hi)` lies inside extent `e` and interval `iv`.
pub open spec fn piece_holds(e: Extent, iv: Interval, lo: int, hi: int) -> bool {
    &&& e.address <= lo
    &&& iv.start <= lo
    &&& hi <= e.address + e.length
    &&& hi <= iv.end
}

/// `[lo, hi)` lies inside one piece of the scan, an extent or its part inside one
/// scope interval, and `n` counts the scope's bytes in that piece and in every
/// piece before it.
pub open spec fn counted_through(extents: Seq<Extent>, scope: Option<Seq<Interval>>, lo: int, hi: int, n: int) -> bool {
    match scope {
        None => exists|i: int| 0 <= i < extents.len() && #[trigger] extents[i].address <= lo && hi <= extents[i].address + extents[i].length
            && n == scope_bytes(extents.subrange(0, i + 1), scope),
        Some(ivs) => exists|i: int, k: int| 0 <= i < extents.len() && 0 <= k < ivs.len()
            && #[trigger] piece_holds(extents[i], ivs[k], lo, hi)
            && n == scope_bytes(extents.subrange(0, i), scope) + scope_overlap(extents[i], ivs.subrange(0, k + 1)),
    }
}

/// A window inside extent `i`'s part within interval `k` is counted through
/// that piece.
proof fn lemma_counted_piece(extents: Seq<Extent>, ivs: Seq<Interval>, i: int, k: int, lo: int, hi: int, n: int)
    requires
        0 <= i < extents.len(),
        0 <= k < ivs.len(),
        piece_holds(extents[i], ivs[k], lo, hi),
        n == scope_bytes(extents.subrange(0, i), Some(ivs)) + scope_overlap(extents[i], ivs.subrange(0, k + 1)),
    ensures
        counted_through(extents, Some(ivs), lo, hi, n),
{
}

/// One address lies in one piece, so the count through it is unique.
proof fn lemma_counted_unique(extents: Seq<Extent>, scope: Option<Seq<Interval>>, a: int, n1: int, n2: int)
    requires
        extents_ordered(extents),
        scope matches Some(ivs) ==> canonical(ivs),
        counted_through(extents, scope, a, a + 1, n1),
        counted_through(extents, scope, a, a + 1, n2),
    ensures
        n1 == n2,
{
    match scope {
        None => {
            let i1 = choose|i: int| 0 <= i < extents.len() && #[trigger] extents[i].address <= a && a + 1 <= extents[i].address + extents[i].length
                && n1 == scope_bytes(extents.subrange(0, i + 1), scope);
            let i2 = choose|i: int| 0 <= i < extents.len() && #[trigger] extents[i].address <= a && a + 1 <= extents[i].address + extents[i].length
                && n2 == scope_bytes(extents.subrange(0, i + 1), scope);
            if i1 < i2 {
                assert(extents[i1].address + extents[i1].length <= extents[i2].address);
            } else if i2 < i1 {
                assert(extents[i2].address + extents[i2].length <= extents[i1].address);
            }
        },
        Some(ivs) => {
            let (i1, k1) = choose|i: int, k: int| 0 <= i < extents.len() && 0 <= k < ivs.len()
                && #[trigger] piece_holds(extents[i], ivs[k], a, a + 1)
                && n1 == scope_bytes(extents.subrange(0, i), scope) + scope_overlap(extents[i], ivs.subrange(0, k + 1));
            let (i2, k2) = choose|i: int, k: int| 0 <= i < extents.len() && 0 <= k < ivs.len()
                && #[trigger] piece_holds(extents[i], ivs[k], a, a + 1)
                && n2 == scope_bytes(extents.subrange(0, i), scope) + scope_overlap(extents[i], ivs.subrange(0, k + 1));
            if i1 < i2 {
                assert(extents[i1].address + extents[i1].length <= extents[i2].address);
            } else if i2 < i1 {
                assert(extents[i2].address + extents[i2].length <= extents[i1].address);
            }
            if k1 < k2 {
                assert(ivs[k1].end < ivs[k2].start);
            } else if k2 < k1 {
                assert(ivs[k2].end < ivs[k1].start);
            }
        },
    }
}

/// A narrower window inside a counted piece lies in the same piece.
proof fn lemma_counted_narrower(extents: Seq<Extent>, scope: Option<Seq<Interval>>, lo: int, hi: int, n: int, a: int, b: int)
    requires
        counted_through(extents, scope, lo, hi, n),
        lo <= a,
        b <= hi,
    ensures
        counted_through(extents, scope, a, b, n),
{
    match scope {
        None => {
            let i = choose|i: int| 0 <= i < extents.len() && #[trigger] extents[i].address <= lo && hi <= extents[i].address + extents[i].length
                && n == scope_bytes(extents.subrange(0, i + 1), scope);
            assert(extents[i].address <= a && b <= extents[i].address + extents[i].length);
        },
        Some(ivs) => {
            let (i, k) = choose|i: int, k: int| 0 <= i < extents.len() && 0 <= k < ivs.len()
                && #[trigger] piece_holds(extents[i], ivs[k], lo, hi)
                && n == scope_bytes(extents.subrange(0, i), scope) + scope_overlap(extents[i], ivs.subrange(0, k + 1));
            assert(piece_holds(extents[i], ivs[k], a, b));
        },
    }
}

/// Feeds every captured readable byte of the process that lies inside the scope,
/// extent by extent, each scope interval of an extent as one run. Returns how
/// many bytes were fed while the session was still running, counting the whole
/// piece it stopped in.
#[verifier::rlimit(60)]
fn feed_process(session: &mut ScanSession, process: &MinidumpProcess, scope: Option<&Vec<Interval>>, longest: usize) -> (scanned: u64)
    requires
        old(session).wf(),
        old(session).fed() == Seq::<Chunk>::empty(),
        !old(session).run_open(),
        old(session).data_end() == 0,
        !old(session).stopped(),
        process.wf(),
        scope matches Some(iv) ==> canonical(iv@),
        1 <= longest,
        lengths_within(old(session).pattern_list(), longest as int),
    ensures
        final(session).wf(),
        !final(session).run_open(),
        final(session).stopped() ==> counted_through(process.scannable@, scope_view(scope),
            final(session).stop_window().0, final(session).stop_window().1, scanned as int),
        final(session).pattern_list() == old(session).pattern_list(),
        final(session).quota() == old(session).quota(),
        forall|p: int, a: int| #[trigger] fed_hit(final(session).pattern_list(), final(session).fed(), p, a)
            <==> scan_hit(final(session).pattern_list(), process.memory@, process.scannable@, scope_view(scope), p, a),
        !final(session).stopped() ==> scanned == scope_bytes(process.scannable@, scope_view(scope)),
{
    let ghost pats = session.pattern_list();
    let ghost memory = process.memory@;
    let ghost extents = process.scannable@;
    let ghost sv = scope_view(scope);
    let mut scanned: u64 = 0;
    let mut j: usize = 0;
    let mut i: usize = 0;
    while i < process.scannable.len()
        invariant
            0 <= i <= extents.len(),
            extents == process.scannable@,
            memory == process.memory@,
            sv == scope_view(scope),
            process.wf(),
            scope matches Some(iv) ==> canonical(iv@) && j <= iv@.len()
                && (i < extents.len() ==> forall|k: int| 0 <= k < j ==> (#[trigger] iv@[k]).end <= extents[i as int].address),
            session.wf(),
            session.pattern_list() == pats,
            session.quota() == old(session).quota(),
            !session.run_open(),
            i < extents.len() ==> session.data_end() <= extents[i as int].address,
            scanned <= session.data_end(),
            1 <= longest,
            lengths_within(pats, longest as int),
            forall|p: int, a: int| #[trigger] fed_hit(pats, session.fed(), p, a) <==> hit_before(pats, memory, extents, sv, i as int, p, a),
            !session.stopped() ==> scanned == scope_bytes(extents.subrange(0, i as int), sv),
            session.stopped() ==> counted_through(extents, sv, session.stop_window().0, session.stop_window().1, scanned as int),
        decreases extents.len() - i,
    {
        let e = process.scannable[i];
        let ghost scanned_before = scanned;
        let ghost was_stopped = session.stopped();
        proof {
            assert(extents.subrange(0, i as int + 1).drop_last() =~= extents.subrange(0, i as int));
            assert(extents.subrange(0, i as int + 1).last() == e);
        }
        proof {
            assert(extent_sound(process.captured@, memory.len() as int, e));
        }
        let e_end = e.address + e.length as u64;
        let ghost fed_start = session.fed();
        match scope {
            None => {
                if !session.is_stopped() {
                    scanned = scanned + e.length as u64;
                }
                feed_piece(session, &process.memory, e, e.address, e_end, longest);
                proof {
                    if !session.stopped() {
                        assert(!was_stopped);
                        assert(scanned == scope_bytes(extents.subrange(0, i as int + 1), sv));
                    }
                    if session.stopped() && !was_stopped {
                        assert(scanned == scope_bytes(extents.subrange(0, i as int + 1), sv));
                        assert(extents[i as int].address <= session.stop_window().0);
                    }
                    assert forall|p: int, a: int| #[trigger] fed_hit(pats, session.fed(), p, a) <==> hit_before(pats, memory, extents, sv, i + 1, p, a) by {
                        lemma_piece(pats, memory, e, e.address as int, e_end as int, p, a);
                        assert(piece_chunk(memory, e, e.address as int, e_end as int).1 =~= extent_chunk(memory, e).1);
                        assert(piece_chunk(memory, e, e.address as int, e_end as int) == extent_chunk(memory, e));
                        if hit_in(pats, extent_chunk(memory, e), p, a) {
                            reveal(hit_in);
                            assert(hit_in(pats, extent_chunk(memory, extents[i as int]), p, a));
                            assert(in_scope(sv, a, a + pats[p].bytes@.len()));
                        }
                        if hit_before(pats, memory, extents, sv, i + 1, p, a) && !hit_before(pats, memory, extents, sv, i as int, p, a) {
                            let x = choose|x: int| 0 <= x < i + 1 && #[trigger] hit_in(pats, extent_chunk(memory, extents[x]), p, a);
                            assert(x == i);
                        }
                    }
                }
            },
            Some(iv) => {
                while j < iv.len() && iv[j].end <= e.address
                    invariant
                        j <= iv@.len(),
                        forall|k: int| 0 <= k < j ==> (#[trigger] iv@[k]).end <= e.address,
                    decreases iv@.len() - j,
                {
                    j = j + 1;
                }
                let mut k: usize = j;
                proof {
                    lemma_overlap_prefix(e, iv@, j as int);
                }
                while k < iv.len() && iv[k].start < e_end
                    invariant
                        j <= k <= iv@.len(),
                        canonical(iv@),
                        sv == Some(iv@),
                        forall|m: int| 0 <= m < j ==> (#[trigger] iv@[m]).end <= e.address,
                        j < iv@.len() ==> iv@[j as int].end > e.address,
                        e == extents[i as int],
                        i < extents.len(),
                        e_end == e.address + e.length,
                        extent_sound(process.captured@, memory.len() as int, e),
                        memory == process.memory@,
                        session.wf(),
                        session.pattern_list() == pats,
                        session.quota() == old(session).quota(),
                        !session.run_open(),
                        k == j ==> session.data_end() <= e.address,
                        k > j ==> session.data_end() <= iv@[k - 1].end && session.data_end() <= e_end,
                        scanned <= session.data_end(),
                        1 <= longest,
                        lengths_within(pats, longest as int),
                        !session.stopped() ==> !was_stopped && scanned == scanned_before + scope_overlap(e, iv@.subrange(0, k as int)),
                        session.stopped() ==> counted_through(extents, sv, session.stop_window().0, session.stop_window().1, scanned as int),
                        was_stopped ==> session.stopped(),
                        extents == process.scannable@,
                        !was_stopped ==> scanned_before == scope_bytes(extents.subrange(0, i as int), sv),
                        forall|p: int, a: int| #[trigger] fed_hit(pats, session.fed(), p, a) <==> hit_before(pats, memory, extents, sv, i as int, p, a)
                            || (0 <= p < pats.len() && hit_in(pats, extent_chunk(memory, e), p, a)
                                && exists|m: int| j <= m < k && #[trigger] within(iv@[m], a, a + pats[p].bytes@.len())),
                    decreases iv@.len() - k,
                {
                    let r = iv[k];
                    proof {
                        if k > j {
                            assert(iv@[k - 1].end < r.start);
                        }
                        if k > j {
                            assert(iv@[j as int].end <= r.end) by {
                                assert(iv@[j as int].end < iv@[k as int].start);
                            }
                        }
                    }
                    let lo = if r.start > e.address { r.start } else { e.address };
                    let hi = if r.end < e_end { r.end } else { e_end };
                    let ghost before = session.fed();
                    let ghost scanned_pre = scanned;
                    if !session.is_stopped() {
                        scanned = scanned + (hi - lo);
                    }
                    let ghost stopped_before = session.stopped();
                    feed_piece(session, &process.memory, e, lo, hi, longest);
                    proof {
                        assert(iv@.subrange(0, k as int + 1).drop_last() =~= iv@.subrange(0, k as int));
                        assert(overlap_len(e, iv@[k as int]) == hi - lo);
                        assert(scope_overlap(e, iv@.subrange(0, k as int + 1))
                            == scope_overlap(e, iv@.subrange(0, k as int)) + overlap_len(e, iv@[k as int]));
                        if session.stopped() && !stopped_before {
                            assert(!was_stopped);
                            assert(scanned_pre == scanned_before + scope_overlap(e, iv@.subrange(0, k as int)));
                            assert(scanned == scope_bytes(extents.subrange(0, i as int), sv) + scope_overlap(extents[i as int], iv@.subrange(0, k as int + 1)));
                            assert(piece_holds(extents[i as int], iv@[k as int], session.stop_window().0, session.stop_window().1));
                            lemma_counted_piece(extents, iv@, i as int, k as int, session.stop_window().0, session.stop_window().1, scanned as int);
                        }
                        assert forall|p: int, a: int| #[trigger] fed_hit(pats, session.fed(), p, a) <==> hit_before(pats, memory, extents, sv, i as int, p, a)
                            || (0 <= p < pats.len() && hit_in(pats, extent_chunk(memory, e), p, a)
                                && exists|m: int| j <= m < k + 1 && #[trigger] within(iv@[m], a, a + pats[p].bytes@.len())) by {
                            lemma_piece(pats, memory, e, lo as int, hi as int, p, a);
                            if hit_in(pats, extent_chunk(memory, e), p, a) {
                                reveal(hit_in);
                                if 0 <= p < pats.len() && within(iv@[k as int], a, a + pats[p].bytes@.len()) {
                                    assert(hit_in(pats, piece_chunk(memory, e, lo as int, hi as int), p, a));
                                }
                            }
                        }
                    }
                    k = k + 1;
                }
                proof {
                    assert forall|m: int| k <= m < iv@.len() implies (#[trigger] iv@[m]).start >= e.address + e.length by {
                        if m > k {
                            assert(iv@[k as int].end < iv@[m].start);
                        }
                    }
                    lemma_overlap_suffix(e, iv@, k as int);
                    if !session.stopped() {
                        assert(scanned == scope_bytes(extents.subrange(0, i as int + 1), sv));
                    }
                    assert forall|p: int, a: int| #[trigger] fed_hit(pats, session.fed(), p, a) <==> hit_before(pats, memory, extents, sv, i + 1, p, a) by {
                        if hit_before(pats, memory, extents, sv, i + 1, p, a) && !hit_before(pats, memory, extents, sv, i as int, p, a) {
                            let x = choose|x: int| 0 <= x < i + 1 && #[trigger] hit_in(pats, extent_chunk(memory, extents[x]), p, a);
                            assert(x == i);
                            reveal(hit_in);
                            let m = choose|m: int| 0 <= m < iv@.len() && #[trigger] within(iv@[m], a, a + pats[p].bytes@.len());
                            if m < j {
                                assert(iv@[m].end <= e.address);
                            } else if m >= k {
                                assert(iv@[m].start >= e_end) by {
                                    if m > k {
                                        assert(iv@[k as int].end < iv@[m].start);
                                    }
                                }
                            }
                        }
                        if !hit_before(pats, memory, extents, sv, i as int, p, a) && 0 <= p < pats.len() && hit_in(pats, extent_chunk(memory, e), p, a)
                            && exists|m: int| j <= m < k && #[trigger] within(iv@[m], a, a + pats[p].bytes@.len()) {
                            assert(hit_in(pats, extent_chunk(memory, extents[i as int]), p, a));
                            let m = choose|m: int| j <= m < k && #[trigger] within(iv@[m], a, a + pats[p].bytes@.len());
                            assert(sv == Some(iv@));
                            assert(0 <= m < iv@.len());
                            lemma_in_scope(iv@, a, a + pats[p].bytes@.len(), m);
                        }
                    }
                }
            },
        }
        proof {
            if i + 1 < extents.len() {
                assert(e.address + e.length <= extents[i + 1].address);
            }
        }
        i = i + 1;
    }
    proof {
        assert(extents.subrange(0, extents.len() as int) =~= extents);
    }
    scanned
}

// ---------------------------------------------------------------------------
// Reports
// ---------------------------------------------------------------------------

/// Where a match lies in its region.
#[derive(Debug, Clone)]
pub struct RegionAttribution {
    pub id: usize,
    pub base: Address,
    pub offset: Address,
    pub kind: String,
    pub protection: String,
    pub native_protection: String,
}

/// Where a match lies in its module.
#[derive(Debug, Clone)]
pub struct ModuleAttribution {
    pub name: String,
    pub base: Address,
    pub rva: Address,
}

/// One reported match.
#[derive(Debug, Clone)]
pub struct ScanMatch {
    pub address: Address,
    pub length: usize,
    pub tags: Vec<String>,
    pub region: Option<RegionAttribution>,
    pub module: Option<ModuleAttribution>,
}

/// What a scan selected and examined.
#[derive(Debug, Clone)]
pub struct ScanScopeReport {
    /// Selector categories that were applied, in deterministic order.
    pub applied: Vec<&'static str>,
    pub interval_count: usize,
    /// Bytes selected by the scope intersection, independent of what the source
    /// captured; `None` when no scope was requested.
    pub selected_bytes: Option<u64>,
    /// Captured readable bytes actually examined inside the scope.
    pub scanned_bytes: u64,
}

/// The result of a scan.
#[derive(Debug, Clone)]
pub struct ScanReport {
    pub process_id: String,
    pub pattern_count: usize,
    pub scope: ScanScopeReport,
    pub terminal_reason: &'static str,
    pub scan_complete: bool,
    pub next_address: Option<Address>,
    pub coverage: Coverage,
    pub matches: Vec<ScanMatch>,
}

/// The first region holding address `a`.
pub open spec fn region_at(regions: Seq<MemoryRegion>, a: u64) -> Option<MemoryRegion>
    decreases regions.len(),
{
    if regions.len() == 0 {
        None
    } else {
        match region_at(regions.drop_last(), a) {
            Some(r) => Some(r),
            None => if span_contains(regions.last().base.0, regions.last().size, a) {
                Some(regions.last())
            } else {
                None
            },
        }
    }
}

/// The first module holding address `a`.
pub open spec fn module_at(modules: Seq<ModuleInfo>, a: u64) -> Option<ModuleInfo>
    decreases modules.len(),
{
    if modules.len() == 0 {
        None
    } else {
        match module_at(modules.drop_last(), a) {
            Some(m) => Some(m),
            None => if span_contains(modules.last().base.0, modules.last().size, a) {
                Some(modules.last())
            } else {
                None
            },
        }
    }
}

/// `m` reports `found`, attributed to the first region and module holding it.
pub open spec fn attributed(m: ScanMatch, found: FoundMatch, regions: Seq<MemoryRegion>, modules: Seq<ModuleInfo>) -> bool {
    &&& m.address.0 == found.address
    &&& m.length == found.length
    &&& m.tags@ == found.tags@
    &&& match region_at(regions, found.address) {
        None => m.region is None,
        Some(r) => m.region matches Some(ra) && ra.id == r.id && ra.base == r.base && ra.offset.0 == found.address - r.base.0
            && ra.kind == r.kind && ra.protection == r.protection && ra.native_protection == r.native_protection,
    }
    &&& match module_at(modules, found.address) {
        None => m.module is None,
        Some(md) => m.module matches Some(ma) && ma.name == md.name && ma.base == md.base && ma.rva.0 == found.address - md.base.0,
    }
}

proof fn lemma_region_at_prefix(regions: Seq<MemoryRegion>, a: u64, n: int)
    requires
        0 <= n <= regions.len(),
        region_at(regions.subrange(0, n), a) is Some,
    ensures
        region_at(regions, a) == region_at(regions.subrange(0, n), a),
    decreases regions.len() - n,
{
    if n < regions.len() {
        assert(regions.subrange(0, n + 1).drop_last() =~= regions.subrange(0, n));
        lemma_region_at_prefix(regions, a, n + 1);
    } else {
        assert(regions.subrange(0, n) =~= regions);
    }
}

proof fn lemma_module_at_prefix(modules: Seq<ModuleInfo>, a: u64, n: int)
    requires
        0 <= n <= modules.len(),
        module_at(modules.subrange(0, n), a) is Some,
    ensures
        module_at(modules, a) == module_at(modules.subrange(0, n), a),
    decreases modules.len() - n,
{
    if n < modules.len() {
        assert(modules.subrange(0, n + 1).drop_last() =~= modules.subrange(0, n));
        lemma_module_at_prefix(modules, a, n + 1);
    } else {
        assert(modules.subrange(0, n) =~= modules);
    }
}

fn region_attribution(regions: &Vec<MemoryRegion>, a: u64) -> (res: Option<RegionAttribution>)
    ensures
        match region_at(regions@, a) {
            None => res is None,
            Some(r) => res matches Some(ra) && ra.id == r.id && ra.base == r.base && ra.offset.0 == a - r.base.0
                && ra.kind == r.kind && ra.protection == r.protection && ra.native_protection == r.native_protection,
        },
{
    let mut i: usize = 0;
    while i < regions.len()
        invariant
            0 <= i <= regions@.len(),
            region_at(regions@.subrange(0, i as int), a) is None,
        decreases regions@.len() - i,
    {
        proof {
            assert(regions@.subrange(0, i as int + 1).drop_last() =~= regions@.subrange(0, i as int));
        }
        let r = &regions[i];
        if r.contains(a) {
            proof {
                lemma_region_at_prefix(regions@, a, i as int + 1);
            }
            return Some(RegionAttribution {
                id: r.id,
                base: r.base,
                offset: Address(a - r.base.0),
                kind: r.kind.clone(),
                protection: r.protection.clone(),
                native_protection: r.native_protection.clone(),
            });
        }
        i = i + 1;
    }
    proof {
        assert(regions@.subrange(0, regions@.len() as int) =~= regions@);
    }
    None
}

fn module_attribution(modules: &Vec<ModuleInfo>, a: u64) -> (res: Option<ModuleAttribution>)
    ensures
        match module_at(modules@, a) {
            None => res is None,
            Some(md) => res matches Some(ma) && ma.name == md.name && ma.base == md.base && ma.rva.0 == a - md.base.0,
        },
{
    let mut i: usize = 0;
    while i < modules.len()
        invariant
            0 <= i <= modules@.len(),
            module_at(modules@.subrange(0, i as int), a) is None,
        decreases modules@.len() - i,
    {
        proof {
            assert(modules@.subrange(0, i as int + 1).drop_last() =~= modules@.subrange(0, i as int));
        }
        let m = &modules[i];
        if m.contains(a) {
            proof {
                lemma_module_at_prefix(modules@, a, i as int + 1);
            }
            return Some(ModuleAttribution { name: m.name.clone(), base: m.base, rva: Address(a - m.base.0) });
        }
        i = i + 1;
    }
    proof {
        assert(modules@.subrange(0, modules@.len() as int) =~= modules@);
    }
    None
}

/// Attributes a match to the first region and the first module holding it.
pub fn attribute(regions: &Vec<MemoryRegion>, modules: &Vec<ModuleInfo>, found: FoundMatch) -> (res: ScanMatch)
    ensures
        attributed(res, found, regions@, modules@),
{
    let region = region_attribution(regions, found.address);
    let module = module_attribution(modules, found.address);
    ScanMatch { address: Address(found.address), length: found.length, tags: found.tags, region, module }
}

/// Attributes every match, in order.
pub fn attribute_all(regions: &Vec<MemoryRegion>, modules: &Vec<ModuleInfo>, found: Vec<FoundMatch>) -> (res: Vec<ScanMatch>)
    ensures
        res@.len() == found@.len(),
        forall|i: int| 0 <= i < res@.len() ==> attributed(#[trigger] res@[i], found@[i], regions@, modules@),
{
    let ghost all = found@;
    let mut rest = found;
    let mut out: Vec<ScanMatch> = Vec::new();
    let mut reversed: Vec<ScanMatch> = Vec::new();
    while rest.len() > 0
        invariant
            rest@.len() + reversed@.len() == all.len(),
            rest@ == all.subrange(0, rest@.len() as int),
            forall|i: int| 0 <= i < reversed@.len() ==> attributed(#[trigger] reversed@[i], all[all.len() - 1 - i], regions@, modules@),
        decreases rest@.len(),
    {
        let f = rest.pop().unwrap();
        let m = attribute(regions, modules, f);
        reversed.push(m);
        proof {
            assert(rest@ =~= all.subrange(0, rest@.len() as int));
        }
    }
    while reversed.len() > 0
        invariant
            out@.len() + reversed@.len() == all.len(),
            forall|i: int| 0 <= i < reversed@.len() ==> attributed(#[trigger] reversed@[i], all[all.len() - 1 - i], regions@, modules@),
            forall|i: int| 0 <= i < out@.len() ==> attributed(#[trigger] out@[i], all[i], regions@, modules@),
        decreases reversed@.len(),
    {
        let m = reversed.pop().unwrap();
        out.push(m);
    }
    out
}

/// A copy of a coverage record.
pub fn copy_coverage(c: &Coverage) -> (res: Coverage)
    ensures
        res.expected_readable_bytes == c.expected_readable_bytes,
        res.captured_readable_bytes == c.captured_readable_bytes,
        res.unavailable_readable_bytes == c.unavailable_readable_bytes,
        res.metadata_complete == c.metadata_complete,
        res.coverage_complete == c.coverage_complete,
        res.observation == c.observation,
        res.limitations@ == c.limitations@,
{
    let mut limitations: Vec<CoverageLimitation> = Vec::new();
    let mut i: usize = 0;
    while i < c.limitations.len()
        invariant
            0 <= i <= c.limitations@.len(),
            limitations@ == c.limitations@.subrange(0, i as int),
        decreases c.limitations@.len() - i,
    {
        limitations.push(c.limitations[i]);
        i = i + 1;
        proof {
            assert(limitations@ =~= c.limitations@.subrange(0, i as int));
        }
    }
    proof {
        assert(c.limitations@.subrange(0, c.limitations@.len() as int) =~= c.limitations@);
    }
    Coverage {
        expected_readable_bytes: c.expected_readable_bytes,
        captured_readable_bytes: c.captured_readable_bytes,
        unavailable_readable_bytes: c.unavailable_readable_bytes,
        metadata_complete: c.metadata_complete,
        coverage_complete: c.coverage_complete,
        observation: c.observation,
        limitations,
    }
}

// ---------------------------------------------------------------------------
// Scanning
// ---------------------------------------------------------------------------

/// `found` and `next` are what scanning `extents` for `pats` within `scope` owes:
/// every match is a pattern whose bytes all lie in one captured readable extent
/// and in one scope interval; `found` holds the least of them in ascending
/// `(address, length)` order, at most `quota`, each with the tags of every pattern
/// matching there; `next` is where the first match beyond them begins.
pub open spec fn scan_matches(
    pats: Seq<CompiledPattern>,
    memory: Seq<u8>,
    extents: Seq<Extent>,
    scope: Option<Seq<Interval>>,
    quota: int,
    found: Seq<FoundMatch>,
    next: Option<u64>,
) -> bool {
    exists|chunks: Seq<Chunk>| {
        &&& forall|p: int, key: Key| #[trigger] hits(pats, chunks, p, key)
            <==> (pats[p].bytes@.len() == key.1 && scan_hit(pats, memory, extents, scope, p, key.0))
        &&& least_matches(pats, chunks, found, quota)
        &&& next_is(pats, chunks, found, next)
    }
}

/// The fault a selector of the scope of `spec` meets against `process`, if any.
pub open spec fn scope_fault(process: MinidumpProcess, spec: ScanSpec) -> Option<ScopeFault> {
    scope_fault_in(process.regions@, process.modules@, process.coverage.metadata_complete, spec.scope)
}

/// `report` is the scan of `process` for `spec`, through the compiled patterns
/// `pats`, the resolved scope `scope`, and the least matches `found`.
pub open spec fn reports_scan(process: MinidumpProcess, spec: ScanSpec, report: ScanReport, pats: Seq<CompiledPattern>, scope: ResolvedScope, found: Seq<FoundMatch>) -> bool {
    &&& pats.len() == spec.patterns@.len()
    &&& forall|i: int| 0 <= i < pats.len() ==> #[trigger] compiled_from(pats[i], spec.patterns@[i])
    &&& resolved_as(process.regions@, process.modules@, process.coverage.metadata_complete, spec.scope, scope)
    &&& report.scope.applied@ == scope.applied@
    &&& report.scope.selected_bytes == scope.selected_bytes
    &&& report.scope.interval_count == (match scope.intervals {
        Some(iv) => iv@.len(),
        None => 0,
    })
    &&& scan_matches(pats, process.memory@, process.scannable@, intervals_view(scope.intervals), spec.max_matches as int,
        found, match report.next_address {
            Some(a) => Some(a.0),
            None => None,
        })
    &&& report.matches@.len() == found.len()
    &&& forall|i: int| 0 <= i < found.len() ==> attributed(#[trigger] report.matches@[i], found[i], process.regions@, process.modules@)
    &&& report.scan_complete == report.next_address is None
    &&& report.scan_complete ==> report.scope.scanned_bytes == scope_bytes(process.scannable@, intervals_view(scope.intervals))
    &&& report.next_address matches Some(a) ==> counted_through(process.scannable@, intervals_view(scope.intervals),
        a.0 as int, a.0 + 1, report.scope.scanned_bytes as int)
}

/// A scan reports only genuine matches: at every reported match some compiled
/// pattern lies, with the match's length, wholly inside one captured readable
/// extent and one scope interval, aligned and byte for byte (masked bits
/// ignored); the match lists that pattern's tag, and every tag it lists names
/// such a pattern.
pub proof fn scan_reports_only_hits(
    process: MinidumpProcess,
    spec: ScanSpec,
    report: ScanReport,
    pats: Seq<CompiledPattern>,
    scope: ResolvedScope,
    found: Seq<FoundMatch>,
)
    requires
        reports_scan(process, spec, report, pats, scope, found),
    ensures
        forall|i: int| #![trigger report.matches@[i]] 0 <= i < report.matches@.len() ==> exists|p: int|
            #[trigger] scan_hit(pats, process.memory@, process.scannable@, intervals_view(scope.intervals), p, report.matches@[i].address.0 as int)
            && pats[p].bytes@.len() == report.matches@[i].length
            && tag_listed(report.matches@[i].tags@, pats[p].tag@),
        forall|i: int, j: int| 0 <= i < report.matches@.len() && 0 <= j < report.matches@[i].tags@.len() ==> exists|p: int|
            #[trigger] scan_hit(pats, process.memory@, process.scannable@, intervals_view(scope.intervals), p, report.matches@[i].address.0 as int)
            && pats[p].bytes@.len() == report.matches@[i].length
            && pats[p].tag@ == (#[trigger] report.matches@[i].tags@[j])@,
{
    let memory = process.memory@;
    let extents = process.scannable@;
    let sv = intervals_view(scope.intervals);
    let next = match report.next_address {
        Some(a) => Some(a.0),
        None => None,
    };
    let chunks = choose|chunks: Seq<Chunk>| {
        &&& forall|p: int, key: Key| #[trigger] hits(pats, chunks, p, key)
            <==> (pats[p].bytes@.len() == key.1 && scan_hit(pats, memory, extents, sv, p, key.0))
        &&& least_matches(pats, chunks, found, spec.max_matches as int)
        &&& next_is(pats, chunks, found, next)
    };
    assert forall|i: int| #![trigger report.matches@[i]] 0 <= i < report.matches@.len() implies exists|p: int|
        #[trigger] scan_hit(pats, memory, extents, sv, p, report.matches@[i].address.0 as int)
        && pats[p].bytes@.len() == report.matches@[i].length
        && tag_listed(report.matches@[i].tags@, pats[p].tag@) by {
        let f = found[i];
        assert(attributed(report.matches@[i], f, process.regions@, process.modules@));
        assert(crate::scan::session::found(pats, chunks, match_key(f)) && tags_exact(pats, chunks, f));
        let p = choose|p: int| #[trigger] hits(pats, chunks, p, match_key(f));
        reveal(tags_exact);
        assert(tag_listed(f.tags@, pats[p].tag@));
        assert(scan_hit(pats, memory, extents, sv, p, report.matches@[i].address.0 as int));
    }
    assert forall|i: int, j: int| 0 <= i < report.matches@.len() && 0 <= j < report.matches@[i].tags@.len() implies exists|p: int|
        #[trigger] scan_hit(pats, memory, extents, sv, p, report.matches@[i].address.0 as int)
        && pats[p].bytes@.len() == report.matches@[i].length
        && pats[p].tag@ == (#[trigger] report.matches@[i].tags@[j])@ by {
        let f = found[i];
        assert(attributed(report.matches@[i], f, process.regions@, process.modules@));
        assert(crate::scan::session::found(pats, chunks, match_key(f)) && tags_exact(pats, chunks, f));
        reveal(tags_exact);
        assert(f.tags@[j] == report.matches@[i].tags@[j]);
        assert(tag_hits(pats, chunks, match_key(f), f.tags@[j]@));
        let p = choose|p: int| #[trigger] hits(pats, chunks, p, match_key(f)) && pats[p].tag@ == f.tags@[j]@;
        assert(scan_hit(pats, memory, extents, sv, p, report.matches@[i].address.0 as int));
    }
}

/// Patterns compiled from the same specification hit exactly the same places.
proof fn lemma_same_compiled_hits(spec: ScanSpec, pats1: Seq<CompiledPattern>, pats2: Seq<CompiledPattern>, chunk: Chunk, p: int, a: int)
    requires
        pats1.len() == spec.patterns@.len(),
        pats2.len() == spec.patterns@.len(),
        forall|i: int| 0 <= i < pats1.len() ==> #[trigger] compiled_from(pats1[i], spec.patterns@[i]),
        forall|i: int| 0 <= i < pats2.len() ==> #[trigger] compiled_from(pats2[i], spec.patterns@[i]),
    ensures
        hit_in(pats1, chunk, p, a) == hit_in(pats2, chunk, p, a),
        0 <= p < pats1.len() ==> pats1[p].bytes@ == pats2[p].bytes@,
{
    reveal(hit_in);
    if 0 <= p < pats1.len() {
        let c1 = pats1[p];
        let c2 = pats2[p];
        assert(compiled_from(c1, spec.patterns@[p]));
        assert(compiled_from(c2, spec.patterns@[p]));
        assert(c1.bytes@ == c2.bytes@);
        assert(c1.alignment == c2.alignment);
        let s = a - chunk.0;
        assert forall|i: int| 0 <= i < c1.bytes@.len() implies
            #[trigger] byte_fits(c1, chunk.1[s + i], i) == byte_fits(c2, chunk.1[s + i], i) by {
            match c1.mask {
                None => {
                    assert(c2.mask is None);
                },
                Some(m1) => {
                    assert(c2.mask matches Some(m2) && m1@ == m2@);
                },
            }
        }
        if hit_in(pats1, chunk, p, a) {
            assert forall|i: int| 0 <= i < c2.bytes@.len() implies #[trigger] byte_fits(c2, chunk.1[s + i], i) by {
                assert(byte_fits(c1, chunk.1[s + i], i));
            }
        }
        if hit_in(pats2, chunk, p, a) {
            assert forall|i: int| 0 <= i < c1.bytes@.len() implies #[trigger] byte_fits(c1, chunk.1[s + i], i) by {
                assert(byte_fits(c2, chunk.1[s + i], i));
            }
        }
    }
}

/// Scans are deterministic: two reports for the same specification, of
/// processes with the same captured bytes, extents, regions, modules and
/// metadata completeness, hold the same matches in the same order (address,
/// length, tag texts, region and module), name the same next address, select the
/// same scope and count the same scanned bytes.
pub proof fn scan_is_deterministic(
    process: MinidumpProcess,
    other: MinidumpProcess,
    spec: ScanSpec,
    r1: ScanReport,
    pats1: Seq<CompiledPattern>,
    scope1: ResolvedScope,
    found1: Seq<FoundMatch>,
    r2: ScanReport,
    pats2: Seq<CompiledPattern>,
    scope2: ResolvedScope,
    found2: Seq<FoundMatch>,
)
    requires
        process.wf(),
        other.memory@ == process.memory@,
        other.scannable@ == process.scannable@,
        other.regions@ == process.regions@,
        other.modules@ == process.modules@,
        other.coverage.metadata_complete == process.coverage.metadata_complete,
        reports_scan(process, spec, r1, pats1, scope1, found1),
        reports_scan(other, spec, r2, pats2, scope2, found2),
    ensures
        r1.matches@.len() == r2.matches@.len(),
        forall|i: int| 0 <= i < r1.matches@.len() ==> (#[trigger] r1.matches@[i]).address == r2.matches@[i].address
            && r1.matches@[i].length == r2.matches@[i].length
            && r1.matches@[i].tags@.map_values(|t: String| t@) == r2.matches@[i].tags@.map_values(|t: String| t@)
            && r1.matches@[i].region == r2.matches@[i].region
            && r1.matches@[i].module == r2.matches@[i].module,
        r1.next_address == r2.next_address,
        r1.scan_complete == r2.scan_complete,
        r1.scope.interval_count == r2.scope.interval_count,
        r1.scope.selected_bytes == r2.scope.selected_bytes,
        r1.scope.scanned_bytes == r2.scope.scanned_bytes,
{
    let memory = process.memory@;
    let extents = process.scannable@;
    let sv1 = intervals_view(scope1.intervals);
    let sv2 = intervals_view(scope2.intervals);
    match spec.scope {
        None => {},
        Some(sc) => {
            let cats = scope_categories(process.regions@, process.modules@, process.coverage.metadata_complete, sc)->Ok_0;
            let iv1 = scope1.intervals->Some_0;
            let iv2 = scope2.intervals->Some_0;
            assert(intersection_of(iv1@, cats));
            assert(intersection_of(iv2@, cats));
            assert forall|x: int| #![trigger covers(iv1@, x)] #![trigger covers(iv2@, x)] covers(iv1@, x) <==> covers(iv2@, x) by {
                assert(covers(iv1@, x) <==> in_every(cats, x));
                assert(covers(iv2@, x) <==> in_every(cats, x));
            }
            canonical_form_is_unique(iv1@, iv2@);
        },
    }
    assert(sv1 == sv2);
    let next1 = match r1.next_address {
        Some(a) => Some(a.0),
        None => None,
    };
    let next2 = match r2.next_address {
        Some(a) => Some(a.0),
        None => None,
    };
    let q = spec.max_matches as int;
    let chunks1 = choose|chunks: Seq<Chunk>| {
        &&& forall|p: int, key: Key| #[trigger] hits(pats1, chunks, p, key)
            <==> (pats1[p].bytes@.len() == key.1 && scan_hit(pats1, memory, extents, sv1, p, key.0))
        &&& least_matches(pats1, chunks, found1, q)
        &&& next_is(pats1, chunks, found1, next1)
    };
    let chunks2 = choose|chunks: Seq<Chunk>| {
        &&& forall|p: int, key: Key| #[trigger] hits(pats2, chunks, p, key)
            <==> (pats2[p].bytes@.len() == key.1 && scan_hit(pats2, memory, extents, sv2, p, key.0))
        &&& least_matches(pats2, chunks, found2, q)
        &&& next_is(pats2, chunks, found2, next2)
    };
    assert forall|p: int, a: int| scan_hit(pats1, memory, extents, sv1, p, a) <==> #[trigger] scan_hit(pats2, memory, extents, sv2, p, a) by {
        lemma_same_compiled_hits(spec, pats1, pats2, extent_chunk(memory, extents[0]), p, a);
        if scan_hit(pats1, memory, extents, sv1, p, a) {
            let e = choose|e: int| 0 <= e < extents.len() && #[trigger] hit_in(pats1, extent_chunk(memory, extents[e]), p, a);
            lemma_same_compiled_hits(spec, pats1, pats2, extent_chunk(memory, extents[e]), p, a);
        }
        if scan_hit(pats2, memory, extents, sv2, p, a) {
            let e = choose|e: int| 0 <= e < extents.len() && #[trigger] hit_in(pats2, extent_chunk(memory, extents[e]), p, a);
            lemma_same_compiled_hits(spec, pats1, pats2, extent_chunk(memory, extents[e]), p, a);
        }
    }
    assert forall|key: Key| crate::scan::session::found(pats1, chunks1, key) <==> #[trigger] crate::scan::session::found(pats2, chunks2, key) by {
        if crate::scan::session::found(pats1, chunks1, key) {
            let p = choose|p: int| #[trigger] hits(pats1, chunks1, p, key);
            lemma_same_compiled_hits(spec, pats1, pats2, extent_chunk(memory, extents[0]), p, key.0);
            assert(scan_hit(pats2, memory, extents, sv2, p, key.0));
            assert(hits(pats2, chunks2, p, key));
        }
        if crate::scan::session::found(pats2, chunks2, key) {
            let p = choose|p: int| #[trigger] hits(pats2, chunks2, p, key);
            lemma_same_compiled_hits(spec, pats1, pats2, extent_chunk(memory, extents[0]), p, key.0);
            assert(scan_hit(pats1, memory, extents, sv1, p, key.0));
            assert(hits(pats1, chunks1, p, key));
        }
    }
    same_hits_same_report(pats1, chunks1, found1, next1, pats2, chunks2, found2, next2, q);
    assert forall|p: int, key: Key| hits(pats1, chunks1, p, key) <==> #[trigger] hits(pats2, chunks2, p, key) by {
        lemma_same_compiled_hits(spec, pats1, pats2, extent_chunk(memory, extents[0]), p, key.0);
        if 0 <= p < pats1.len() {
            assert(pats1[p].bytes@ == pats2[p].bytes@);
        }
        assert(hits(pats1, chunks1, p, key) <==> (pats1[p].bytes@.len() == key.1 && scan_hit(pats1, memory, extents, sv1, p, key.0)));
        assert(hits(pats2, chunks2, p, key) <==> (pats2[p].bytes@.len() == key.1 && scan_hit(pats2, memory, extents, sv2, p, key.0)));
    }
    assert forall|p: int| 0 <= p < pats1.len() implies (#[trigger] pats1[p]).tag@ == pats2[p].tag@ by {
        assert(compiled_from(pats1[p], spec.patterns@[p]));
        assert(compiled_from(pats2[p], spec.patterns@[p]));
    }
    assert forall|i: int| 0 <= i < r1.matches@.len() implies (#[trigger] r1.matches@[i]).address == r2.matches@[i].address
        && r1.matches@[i].length == r2.matches@[i].length
        && r1.matches@[i].tags@.map_values(|t: String| t@) == r2.matches@[i].tags@.map_values(|t: String| t@)
        && r1.matches@[i].region == r2.matches@[i].region
        && r1.matches@[i].module == r2.matches@[i].module by {
        assert(attributed(r1.matches@[i], found1[i], process.regions@, process.modules@));
        assert(attributed(r2.matches@[i], found2[i], process.regions@, process.modules@));
        assert(match_key(found1[i]) == match_key(found2[i]));
        assert(tags_exact(pats1, chunks1, found1[i]));
        assert(tags_exact(pats2, chunks2, found2[i]));
        same_hits_same_tags(pats1, chunks1, found1[i], pats2, chunks2, found2[i]);
        assert(found1[i].address == found2[i].address);
    }
    if let Some(a) = r1.next_address {
        match spec.scope {
            None => {},
            Some(sc) => {
                assert(canonical(scope1.intervals->Some_0@));
            },
        }
        lemma_counted_unique(extents, sv1, a.0 as int, r1.scope.scanned_bytes as int, r2.scope.scanned_bytes as int);
    }
}

proof fn lemma_compiled_searchable(spec: ScanSpec, pats: Seq<CompiledPattern>)
    requires
        spec_accepted(spec),
        pats.len() == spec.patterns@.len(),
        forall|i: int| 0 <= i < pats.len() ==> #[trigger] compiled_from(pats[i], spec.patterns@[i]),
    ensures
        patterns_ok(pats),
        1 <= pats.len() <= 64,
{
    assert forall|p: int| 0 <= p < pats.len() implies searchable(#[trigger] pats[p]) by {
        assert(pattern_accepted(spec.patterns@[p]));
        assert(compiled_from(pats[p], spec.patterns@[p]));
        let (bytes, mask) = encoded_value(spec.patterns@[p].value).unwrap();
        if let Some(m) = pats[p].mask {
            assert(known_run(m@, pats[p].needle_offset as int, pats[p].needle_len as int));
        }
    }
    assert forall|p: int, q: int| 0 <= p < q < pats.len() implies #[trigger] pats[p].tag@ != #[trigger] pats[q].tag@ by {
        assert(compiled_from(pats[p], spec.patterns@[p]));
        assert(compiled_from(pats[q], spec.patterns@[q]));
    }
}

/// Scans the captured readable memory of a minidump process.
///
/// The specification is validated and compiled first, then its scope is resolved
/// against the process's regions and modules, and only then is memory read. A
/// match is reported only when every one of its bytes lies inside one captured
/// readable extent and one scope interval, so capture and scope boundaries never
/// fabricate matches.
pub fn scan(process: &MinidumpProcess, spec: &ScanSpec) -> (res: Result<ScanReport>)
    requires
        process.wf(),
    ensures
        !spec_accepted(*spec) ==> (res matches Err(e) && e is InvalidSpec),
        spec_accepted(*spec) ==> (scope_fault(*process, *spec) matches Some(f) ==> (res matches Err(e) && reports(e, f))),
        spec_accepted(*spec) && scope_fault(*process, *spec) is None ==> res is Ok,
        res matches Ok(report) ==> {
            &&& spec_accepted(*spec)
            &&& report.process_id == process.process.id
            &&& report.pattern_count == spec.patterns@.len()
            &&& report.scan_complete == report.next_address is None
            &&& report.terminal_reason@ == (if report.scan_complete { "exhausted_scope"@ } else { "match_limit"@ })
            &&& report.coverage.expected_readable_bytes == process.coverage.expected_readable_bytes
            &&& report.coverage.captured_readable_bytes == process.coverage.captured_readable_bytes
            &&& report.coverage.unavailable_readable_bytes == process.coverage.unavailable_readable_bytes
            &&& report.coverage.metadata_complete == process.coverage.metadata_complete
            &&& report.coverage.coverage_complete == process.coverage.coverage_complete
            &&& report.coverage.limitations@ == process.coverage.limitations@
            &&& report.coverage.observation == process.coverage.observation
            &&& exists|pats: Seq<CompiledPattern>, scope: ResolvedScope, found: Seq<FoundMatch>| #[trigger] reports_scan(*process, *spec, report, pats, scope, found)
        },
{
    let patterns = compile(spec)?;
    let scope = resolve_scope(&process.regions, &process.modules, process.coverage.metadata_complete, spec.scope.as_ref())?;
    let pattern_count = patterns.len();
    let ghost pats = patterns@;
    proof {
        lemma_compiled_searchable(*spec, pats);
    }
    let mut longest: usize = 1;
    let mut i: usize = 0;
    while i < patterns.len()
        invariant
            0 <= i <= patterns@.len(),
            patterns_ok(patterns@),
            1 <= longest <= 4096,
            forall|q: int| 0 <= q < i ==> (#[trigger] patterns@[q]).bytes@.len() <= longest,
        decreases patterns@.len() - i,
    {
        proof {
            assert(searchable(patterns@[i as int]));
        }
        if patterns[i].bytes.len() > longest {
            longest = patterns[i].bytes.len();
        }
        i = i + 1;
    }
    proof {
        assert forall|q: int| 0 <= q < pats.len() implies 1 <= (#[trigger] pats[q]).bytes@.len() <= longest by {
            assert(searchable(pats[q]));
        }
    }
    let mut session = ScanSession::new(patterns, spec.max_matches)?;
    let intervals = scope.intervals.as_ref();
    proof {
        assert(scope_view(intervals) == intervals_view(scope.intervals));
    }
    let scanned = feed_process(&mut session, process, intervals, longest);
    let ghost fed = session.fed();
    proof {
        assert forall|p: int, key: Key| #[trigger] hits(pats, fed, p, key)
            <==> (pats[p].bytes@.len() == key.1 && scan_hit(pats, process.memory@, process.scannable@, scope_view(intervals), p, key.0)) by {
            assert(fed_hit(pats, fed, p, key.0) <==> scan_hit(pats, process.memory@, process.scannable@, scope_view(intervals), p, key.0));
            if hits(pats, fed, p, key) {
                let c = choose|c: int| 0 <= c < fed.len() && #[trigger] hit_in(pats, fed[c], p, key.0);
                assert(fed_hit(pats, fed, p, key.0));
            }
            if scan_hit(pats, process.memory@, process.scannable@, scope_view(intervals), p, key.0) {
                assert(fed_hit(pats, fed, p, key.0));
            }
        }
    }
    let ghost stopped = session.stopped();
    let ghost window = session.stop_window();
    let outcome = session.finish();
    proof {
        if let Some(a) = outcome.next_address {
            assert(stopped);
            lemma_counted_narrower(process.scannable@, scope_view(intervals), window.0, window.1, scanned as int, a as int, a + 1);
        }
    }
    let ghost found = outcome.matches@;
    let matches = attribute_all(&process.regions, &process.modules, outcome.matches);
    let next_address = match outcome.next_address {
        Some(a) => Some(Address(a)),
        None => None,
    };
    let scan_complete = next_address.is_none();
    let interval_count = match &scope.intervals {
        Some(iv) => iv.len(),
        None => 0,
    };
    let ghost resolved = scope;
    let report = ScanReport {
        process_id: process.process.id.clone(),
        pattern_count,
        scope: ScanScopeReport { applied: scope.applied, interval_count, selected_bytes: scope.selected_bytes, scanned_bytes: scanned },
        terminal_reason: if scan_complete { "exhausted_scope" } else { "match_limit" },
        scan_complete,
        next_address,
        coverage: copy_coverage(&process.coverage),
        matches,
    };
    proof {
        assert(scan_matches(pats, process.memory@, process.scannable@, intervals_view(resolved.intervals), spec.max_matches as int,
            found, outcome.next_address));
        assert(reports_scan(*process, *spec, report, pats, resolved, found));
    }
    Ok(report)
}

// ---------------------------------------------------------------------------
// Scanning a source fed from outside
// ---------------------------------------------------------------------------

/// A scan ready to be fed: a fresh session over the compiled patterns, the
/// resolved scope, and how many trailing bytes each chunk must repeat.
pub struct ScanPlan {
    pub session: ScanSession,
    pub scope: ResolvedScope,
    pub pattern_count: usize,
    /// One byte less than the longest pattern: the carry each chunk repeats.
    pub overlap: usize,
}

/// Validates `spec`, resolves its scope against a process's regions and modules,
/// and starts a session, in that order; the first failure decides, exactly as
/// for `scan`.
pub fn prepare_scan(spec: &ScanSpec, regions: &Vec<MemoryRegion>, modules: &Vec<ModuleInfo>, metadata_complete: bool) -> (res: Result<ScanPlan>)
    ensures
        !spec_accepted(*spec) ==> (res matches Err(e) && e is InvalidSpec),
        spec_accepted(*spec) ==> match scope_fault_in(regions@, modules@, metadata_complete, spec.scope) {
            Some(f) => res matches Err(e) && reports(e, f),
            None => res is Ok,
        },
        res matches Ok(plan) ==> {
            &&& spec_accepted(*spec)
            &&& resolved_as(regions@, modules@, metadata_complete, spec.scope, plan.scope)
            &&& plan.session.wf()
            &&& plan.session.fed() == Seq::<Chunk>::empty()
            &&& !plan.session.run_open()
            &&& !plan.session.stopped()
            &&& plan.session.data_end() == 0
            &&& plan.session.quota() == spec.max_matches
            &&& plan.pattern_count == spec.patterns@.len()
            &&& plan.session.pattern_list().len() == spec.patterns@.len()
            &&& forall|i: int| 0 <= i < spec.patterns@.len() ==> #[trigger] compiled_from(plan.session.pattern_list()[i], spec.patterns@[i])
            &&& lengths_within(plan.session.pattern_list(), plan.overlap + 1)
        },
{
    let patterns = compile(spec)?;
    let scope = resolve_scope(regions, modules, metadata_complete, spec.scope.as_ref())?;
    let pattern_count = patterns.len();
    let ghost pats = patterns@;
    proof {
        lemma_compiled_searchable(*spec, pats);
    }
    let mut longest: usize = 1;
    let mut i: usize = 0;
    while i < patterns.len()
        invariant
            0 <= i <= patterns@.len(),
            patterns_ok(patterns@),
            1 <= longest <= 4096,
            forall|q: int| 0 <= q < i ==> (#[trigger] patterns@[q]).bytes@.len() <= longest,
        decreases patterns@.len() - i,
    {
        proof {
            assert(searchable(patterns@[i as int]));
        }
        if patterns[i].bytes.len() > longest {
            longest = patterns[i].bytes.len();
        }
        i = i + 1;
    }
    proof {
        assert forall|q: int| 0 <= q < pats.len() implies 1 <= (#[trigger] pats[q]).bytes@.len() <= longest by {
            assert(searchable(pats[q]));
        }
    }
    let session = ScanSession::new(patterns, spec.max_matches)?;
    Ok(ScanPlan { session, scope, pattern_count, overlap: longest - 1 })
}

/// The parts of readable runs a scan sweeps: each run clipped to each scope
/// interval (all of it without a scope), in run order.
pub fn scan_ranges(runs: &Vec<ReadableRun>, intervals: Option<&Vec<Interval>>) -> (res: Vec<(u64, u64)>)
    ensures
        forall|k: int| 0 <= k < res@.len() ==> (#[trigger] res@[k]).0 < res@[k].1,
        forall|a: int| #[trigger] in_ranges(res@, a) <==> in_runs(runs@, a) && match intervals {
            None => true,
            Some(iv) => covers(iv@, a),
        },
{
    let mut out: Vec<(u64, u64)> = Vec::new();
    let mut i: usize = 0;
    while i < runs.len()
        invariant
            0 <= i <= runs@.len(),
            forall|k: int| 0 <= k < out@.len() ==> (#[trigger] out@[k]).0 < out@[k].1,
            forall|a: int| #[trigger] in_ranges(out@, a) <==> in_runs(runs@.subrange(0, i as int), a) && match intervals {
                None => true,
                Some(iv) => covers(iv@, a),
            },
        decreases runs@.len() - i,
    {
        let run = runs[i];
        let ghost before = out@;
        let ghost prefix = runs@.subrange(0, i as int);
        proof {
            assert(runs@.subrange(0, i as int + 1) =~= prefix.push(run));
        }
        match intervals {
            None => {
                if run.start < run.end {
                    out.push((run.start, run.end));
                }
                proof {
                    assert forall|a: int| #[trigger] in_ranges(out@, a) <==> in_runs(runs@.subrange(0, i as int + 1), a) by {
                        lemma_in_ranges_push(before, (run.start, run.end), a);
                        lemma_in_runs_push(prefix, run, a);
                    }
                }
            },
            Some(iv) => {
                let mut j: usize = 0;
                while j < iv.len()
                    invariant
                        0 <= j <= iv@.len(),
                        forall|k: int| 0 <= k < out@.len() ==> (#[trigger] out@[k]).0 < out@[k].1,
                        forall|a: int| #[trigger] in_ranges(out@, a) <==> in_ranges(before, a)
                            || (run.start <= a < run.end && covers(iv@.subrange(0, j as int), a)),
                    decreases iv@.len() - j,
                {
                    let piece = iv[j];
                    let lo = if piece.start > run.start { piece.start } else { run.start };
                    let hi = if piece.end < run.end { piece.end } else { run.end };
                    let ghost mid = out@;
                    proof {
                        assert(iv@.subrange(0, j as int + 1) =~= iv@.subrange(0, j as int).push(piece));
                    }
                    if lo < hi {
                        out.push((lo, hi));
                    }
                    proof {
                        assert forall|a: int| #[trigger] in_ranges(out@, a) <==> in_ranges(before, a)
                            || (run.start <= a < run.end && covers(iv@.subrange(0, j as int + 1), a)) by {
                            crate::scan::interval::lemma_covers_push_pub(iv@.subrange(0, j as int), piece, a);
                            if lo < hi {
                                lemma_in_ranges_push(mid, (lo, hi), a);
                            }
                        }
                    }
                    j = j + 1;
                }
                proof {
                    assert(iv@.subrange(0, iv@.len() as int) =~= iv@);
                    assert forall|a: int| #[trigger] in_ranges(out@, a) <==> in_runs(runs@.subrange(0, i as int + 1), a) && covers(iv@, a) by {
                        lemma_in_runs_push(prefix, run, a);
                    }
                }
            },
        }
        i = i + 1;
    }
    proof {
        assert(runs@.subrange(0, runs@.len() as int) =~= runs@);
    }
    out
}

/// Some range holds address `a`.
pub open spec fn in_ranges(ranges: Seq<(u64, u64)>, a: int) -> bool {
    exists|k: int| 0 <= k < ranges.len() && #[trigger] ranges[k].0 <= a && a < ranges[k].1
}

proof fn lemma_in_ranges_push(s: Seq<(u64, u64)>, r: (u64, u64), a: int)
    ensures
        in_ranges(s.push(r), a) <==> in_ranges(s, a) || (r.0 <= a && a < r.1),
{
    let t = s.push(r);
    if in_ranges(t, a) {
        let k = choose|k: int| 0 <= k < t.len() && #[trigger] t[k].0 <= a && a < t[k].1;
        if k < s.len() {
            assert(t[k] == s[k]);
        }
    }
    if in_ranges(s, a) {
        let k = choose|k: int| 0 <= k < s.len() && #[trigger] s[k].0 <= a && a < s[k].1;
        assert(t[k] == s[k]);
    }
    if r.0 <= a && a < r.1 {
        assert(t[s.len() as int] == r);
    }
}

proof fn lemma_in_runs_push(s: Seq<ReadableRun>, r: ReadableRun, a: int)
    ensures
        in_runs(s.push(r), a) <==> in_runs(s, a) || (r.start <= a && a < r.end),
{
    let t = s.push(r);
    if in_runs(t, a) {
        let k = choose|k: int| 0 <= k < t.len() && #[trigger] t[k].start <= a && a < t[k].end;
        if k < s.len() {
            assert(t[k] == s[k]);
        }
    }
    if in_runs(s, a) {
        let k = choose|k: int| 0 <= k < s.len() && #[trigger] s[k].start <= a && a < s[k].end;
        assert(t[k] == s[k]);
    }
    if r.start <= a && a < r.end {
        assert(t[s.len() as int] == r);
    }
}

/// The report of a scan fed from outside: the session's outcome, attributed to
/// the process's regions and modules, with the scope and the coverage the source
/// gives.
pub fn scan_report(
    process: &ProcessInfo,
    pattern_count: usize,
    scope: ResolvedScope,
    outcome: ScanOutcome,
    coverage: Coverage,
    regions: &Vec<MemoryRegion>,
    modules: &Vec<ModuleInfo>,
) -> (res: ScanReport)
    ensures
        res.process_id == process.id,
        res.pattern_count == pattern_count,
        res.scope.applied == scope.applied,
        res.scope.selected_bytes == scope.selected_bytes,
        res.scope.scanned_bytes == outcome.scanned_bytes,
        res.scope.interval_count == (match scope.intervals {
            Some(iv) => iv@.len(),
            None => 0,
        }),
        res.scan_complete == outcome.next_address is None,
        res.next_address == (match outcome.next_address {
            Some(a) => Some(Address(a)),
            None => None,
        }),
        res.terminal_reason@ == (if res.scan_complete { "exhausted_scope"@ } else { "match_limit"@ }),
        res.coverage == coverage,
        res.matches@.len() == outcome.matches@.len(),
        forall|i: int| 0 <= i < res.matches@.len() ==> attributed(#[trigger] res.matches@[i], outcome.matches@[i], regions@, modules@),
{
    let interval_count = match &scope.intervals {
        Some(iv) => iv.len(),
        None => 0,
    };
    let next_address = match outcome.next_address {
        Some(a) => Some(Address(a)),
        None => None,
    };
    let scan_complete = next_address.is_none();
    let scanned_bytes = outcome.scanned_bytes;
    let matches = attribute_all(regions, modules, outcome.matches);
    ScanReport {
        process_id: process.id.clone(),
        pattern_count,
        scope: ScanScopeReport { applied: scope.applied, interval_count, selected_bytes: scope.selected_bytes, scanned_bytes },
        terminal_reason: if scan_complete { "exhausted_scope" } else { "match_limit" },
        scan_complete,
        next_address,
        coverage,
        matches,
    }
}

} // verus!
