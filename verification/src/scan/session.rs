//! The streaming match engine of a scan.
//!
//! A session is fed contiguous chunks of captured memory in ascending address
//! order. Each chunk may begin with `carry` bytes already seen at the end of the
//! previous chunk, so that a pattern straddling a chunk boundary is still found
//! exactly once. Matches are emitted in ascending `(address, length)` order, at
//! most `max_matches` of them; once the quota is full and a further match is
//! final, the session stops and remembers where the next match begins.

use vstd::prelude::*;

use aho_corasick::AhoCorasick;

use crate::error::{Error, Result};
use crate::scan::automaton::{
    automaton_needles, automaton_overlapping, build_automaton, build_error_text, find_overlapping, occurs_at,
};
use crate::scan::pattern::CompiledPattern;
use crate::text::str_chars;

verus! {

/// One chunk as fed: its base address, its bytes, and how many leading bytes were
/// carried over from the previous chunk.
pub type Chunk = (int, Seq<u8>, int);

/// A match key: address and length.
pub type Key = (int, int);

/// Byte `b` of the memory agrees with byte `i` of pattern `c`.
pub open spec fn byte_fits(c: CompiledPattern, b: u8, i: int) -> bool {
    match c.mask {
        None => b == c.bytes@[i],
        Some(m) => b & m@[i] == c.bytes@[i],
    }
}

/// Pattern `p` matches the chunk at `address`: every one of its bytes lies inside
/// the chunk and fits, the match ends past the carried bytes, and the address is
/// aligned.
#[verifier::opaque]
pub open spec fn hit_in(pats: Seq<CompiledPattern>, chunk: Chunk, p: int, address: int) -> bool {
    let s = address - chunk.0;
    &&& 0 <= p < pats.len()
    &&& 0 <= s
    &&& s + pats[p].bytes@.len() <= chunk.1.len()
    &&& s + pats[p].bytes@.len() > chunk.2
    &&& address % (pats[p].alignment as int) == 0
    &&& forall|i: int| 0 <= i < pats[p].bytes@.len() ==> #[trigger] byte_fits(pats[p], chunk.1[s + i], i)
}

/// Pattern `p` matches at `key` in some chunk.
pub open spec fn hits(pats: Seq<CompiledPattern>, chunks: Seq<Chunk>, p: int, key: Key) -> bool {
    &&& 0 <= p < pats.len()
    &&& pats[p].bytes@.len() == key.1
    &&& exists|i: int| 0 <= i < chunks.len() && #[trigger] hit_in(pats, chunks[i], p, key.0)
}

/// Some pattern matches at `key`.
pub open spec fn found(pats: Seq<CompiledPattern>, chunks: Seq<Chunk>, key: Key) -> bool {
    exists|p: int| #[trigger] hits(pats, chunks, p, key)
}

/// Ascending `(address, length)` order.
pub open spec fn key_lt(a: Key, b: Key) -> bool {
    a.0 < b.0 || (a.0 == b.0 && a.1 < b.1)
}

/// Strict lexicographic order of texts by character code, which for UTF-8 text
/// is also the byte order of `String`.
pub open spec fn text_lt(a: Seq<char>, b: Seq<char>) -> bool
    decreases a.len(),
{
    if a.len() == 0 {
        b.len() > 0
    } else if b.len() == 0 {
        false
    } else if a[0] != b[0] {
        a[0] < b[0]
    } else {
        text_lt(a.drop_first(), b.drop_first())
    }
}

/// A reported match.
#[derive(Debug, Clone)]
pub struct FoundMatch {
    pub address: u64,
    pub length: usize,
    /// Tags of every pattern that matched here, in ascending order.
    pub tags: Vec<String>,
}

/// The key of a reported match.
pub open spec fn match_key(m: FoundMatch) -> Key {
    (m.address as int, m.length as int)
}

/// The tags of `m` are those of the patterns matching at its key, ascending.
#[verifier::opaque]
pub open spec fn tags_exact(pats: Seq<CompiledPattern>, chunks: Seq<Chunk>, m: FoundMatch) -> bool {
    &&& forall|j: int, k: int| 0 <= j < k < m.tags@.len() ==> text_lt(#[trigger] m.tags@[j]@, #[trigger] m.tags@[k]@)
    &&& forall|j: int| 0 <= j < m.tags@.len() ==> #[trigger] tag_hits(pats, chunks, match_key(m), m.tags@[j]@)
    &&& forall|p: int| #[trigger] hits(pats, chunks, p, match_key(m)) ==> tag_listed(m.tags@, pats[p].tag@)
}

/// Some pattern tagged `tag` hits at `key`.
pub open spec fn tag_hits(pats: Seq<CompiledPattern>, chunks: Seq<Chunk>, key: Key, tag: Seq<char>) -> bool {
    exists|p: int| #[trigger] hits(pats, chunks, p, key) && pats[p].tag@ == tag
}

/// Some tag of `tags` is `tag`.
pub open spec fn tag_listed(tags: Seq<String>, tag: Seq<char>) -> bool {
    exists|j: int| 0 <= j < tags.len() && #[trigger] tags[j]@ == tag
}

/// `out` holds, in ascending order and with exact tags, the least matches found
/// in `chunks`, as many as there are up to `quota`.
pub open spec fn least_matches(pats: Seq<CompiledPattern>, chunks: Seq<Chunk>, out: Seq<FoundMatch>, quota: int) -> bool {
    &&& out.len() <= quota
    &&& reported(pats, chunks, out)
    &&& forall|key: Key| #[trigger] found(pats, chunks, key) && !emitted(out, key) ==> out.len() == quota
        && forall|j: int| 0 <= j < out.len() ==> key_lt(match_key(#[trigger] out[j]), key)
}

/// Some match of `out` has `key`.
pub open spec fn emitted(out: Seq<FoundMatch>, key: Key) -> bool {
    exists|j: int| 0 <= j < out.len() && match_key(#[trigger] out[j]) == key
}

/// `next` is the address of the least found match beyond `out`, or `None` when
/// every found match is in `out`.
pub open spec fn next_is(pats: Seq<CompiledPattern>, chunks: Seq<Chunk>, out: Seq<FoundMatch>, next: Option<u64>) -> bool {
    match next {
        None => forall|key: Key| #[trigger] found(pats, chunks, key) ==> emitted(out, key),
        Some(a) => exists|key: Key| #[trigger] found(pats, chunks, key) && !emitted(out, key) && key.0 == a
            && forall|other: Key| #[trigger] found(pats, chunks, other) && !emitted(out, other) ==> !key_lt(other, key),
    }
}

/// A compiled pattern the engine can search for: nonempty, aligned to a nonzero
/// boundary, with a nonempty anchor needle inside its bytes whose mask bytes (if
/// masked) are fully known.
pub open spec fn searchable(c: CompiledPattern) -> bool {
    &&& 1 <= c.bytes@.len() <= 4096
    &&& c.alignment >= 1
    &&& c.needle_len >= 1
    &&& c.needle_offset + c.needle_len <= c.bytes@.len()
    &&& match c.mask {
        None => c.needle_offset == 0 && c.needle_len == c.bytes@.len(),
        Some(m) => m@.len() == c.bytes@.len()
            && forall|i: int| c.needle_offset <= i < c.needle_offset + c.needle_len ==> #[trigger] m@[i] == 0xffu8,
    }
}

/// The anchor needle of `c`.
pub open spec fn needle_of(c: CompiledPattern) -> Seq<u8> {
    c.bytes@.subrange(c.needle_offset as int, c.needle_offset + c.needle_len)
}

/// Patterns a session accepts: searchable, with distinct tags.
pub open spec fn patterns_ok(pats: Seq<CompiledPattern>) -> bool {
    &&& forall|p: int| 0 <= p < pats.len() ==> searchable(#[trigger] pats[p])
    &&& forall|p: int, q: int| 0 <= p < q < pats.len() ==> #[trigger] pats[p].tag@ != #[trigger] pats[q].tag@
}

// ---------------------------------------------------------------------------
// Text order
// ---------------------------------------------------------------------------

proof fn lemma_text_lt_irreflexive(a: Seq<char>)
    ensures
        !text_lt(a, a),
    decreases a.len(),
{
    if a.len() > 0 {
        lemma_text_lt_irreflexive(a.drop_first());
    }
}

proof fn lemma_text_lt_total(a: Seq<char>, b: Seq<char>)
    requires
        a != b,
    ensures
        text_lt(a, b) || text_lt(b, a),
    decreases a.len(),
{
    if a.len() > 0 && b.len() > 0 && a[0] == b[0] {
        if a.drop_first() == b.drop_first() {
            assert(a =~= seq![a[0]] + a.drop_first());
            assert(b =~= seq![b[0]] + b.drop_first());
        }
        lemma_text_lt_total(a.drop_first(), b.drop_first());
    } else if a.len() == 0 && b.len() == 0 {
        assert(a =~= b);
    }
}

proof fn lemma_text_lt_transitive(a: Seq<char>, b: Seq<char>, c: Seq<char>)
    requires
        text_lt(a, b),
        text_lt(b, c),
    ensures
        text_lt(a, c),
    decreases a.len(),
{
    if a.len() > 0 && b.len() > 0 && c.len() > 0 && a[0] == b[0] && b[0] == c[0] {
        lemma_text_lt_transitive(a.drop_first(), b.drop_first(), c.drop_first());
    }
}

fn chars_text_lt(a: &Vec<char>, b: &Vec<char>) -> (res: bool)
    ensures
        res == text_lt(a@, b@),
{
    let mut i: usize = 0;
    proof {
        assert(a@.subrange(0, a@.len() as int) =~= a@);
        assert(b@.subrange(0, b@.len() as int) =~= b@);
    }
    while i < a.len() && i < b.len() && a[i] == b[i]
        invariant
            0 <= i <= a@.len(),
            i <= b@.len(),
            forall|k: int| 0 <= k < i ==> a@[k] == b@[k],
            text_lt(a@, b@) == text_lt(a@.subrange(i as int, a@.len() as int), b@.subrange(i as int, b@.len() as int)),
        decreases a.len() - i,
    {
        proof {
            let x = a@.subrange(i as int, a@.len() as int);
            let y = b@.subrange(i as int, b@.len() as int);
            assert(x.drop_first() =~= a@.subrange(i + 1, a@.len() as int));
            assert(y.drop_first() =~= b@.subrange(i + 1, b@.len() as int));
        }
        i = i + 1;
    }
    proof {
        let x = a@.subrange(i as int, a@.len() as int);
        let y = b@.subrange(i as int, b@.len() as int);
        if x.len() > 0 && y.len() > 0 {
            assert(x[0] == a@[i as int]);
            assert(y[0] == b@[i as int]);
        }
    }
    if i == a.len() {
        i < b.len()
    } else if i == b.len() {
        false
    } else {
        a[i] < b[i]
    }
}

/// Some entry of `order` is `p`.
pub open spec fn lists(order: Seq<usize>, p: int) -> bool {
    exists|j: int| 0 <= j < order.len() && order[j] == p
}

/// The pattern indices ordered by ascending tag.
fn tag_order(pats: &Vec<CompiledPattern>) -> (res: Vec<usize>)
    requires
        patterns_ok(pats@),
    ensures
        res@.len() == pats@.len(),
        forall|j: int| 0 <= j < res@.len() ==> #[trigger] res@[j] < pats@.len(),
        forall|p: int| 0 <= p < pats@.len() ==> #[trigger] lists(res@, p),
        forall|j: int, k: int| 0 <= j < k < res@.len() ==> text_lt(pats@[#[trigger] res@[j] as int].tag@, pats@[#[trigger] res@[k] as int].tag@),
{
    let mut tags: Vec<Vec<char>> = Vec::new();
    let mut t: usize = 0;
    while t < pats.len()
        invariant
            0 <= t <= pats@.len(),
            tags@.len() == t,
            forall|k: int| 0 <= k < t ==> #[trigger] tags@[k]@ == pats@[k].tag@,
        decreases pats@.len() - t,
    {
        tags.push(str_chars(pats[t].tag.as_str()));
        t = t + 1;
    }
    let mut order: Vec<usize> = Vec::new();
    let mut i: usize = 0;
    while i < pats.len()
        invariant
            0 <= i <= pats@.len(),
            patterns_ok(pats@),
            tags@.len() == pats@.len(),
            forall|k: int| 0 <= k < pats@.len() ==> #[trigger] tags@[k]@ == pats@[k].tag@,
            order@.len() == i,
            forall|j: int| 0 <= j < order@.len() ==> #[trigger] order@[j] < i,
            forall|p: int| 0 <= p < i ==> #[trigger] lists(order@, p),
            forall|j: int, k: int| 0 <= j < k < order@.len() ==> text_lt(pats@[#[trigger] order@[j] as int].tag@, pats@[#[trigger] order@[k] as int].tag@),
        decreases pats@.len() - i,
    {
        let mut pos: usize = order.len();
        while pos > 0 && chars_text_lt(&tags[i], &tags[order[pos - 1]])
            invariant
                0 <= pos <= order@.len(),
                i < pats@.len(),
                tags@.len() == pats@.len(),
                forall|j: int| 0 <= j < order@.len() ==> #[trigger] order@[j] < i,
                forall|k: int| pos <= k < order@.len() ==> text_lt(pats@[i as int].tag@, pats@[#[trigger] order@[k] as int].tag@),
                forall|k: int| 0 <= k < pats@.len() ==> #[trigger] tags@[k]@ == pats@[k].tag@,
            decreases pos,
        {
            pos = pos - 1;
        }
        let ghost before = order@;
        proof {
            if pos > 0 {
                let q = before[pos - 1] as int;
                assert(q < i);
                assert(pats@[q].tag@ != pats@[i as int].tag@);
                lemma_text_lt_total(pats@[q].tag@, pats@[i as int].tag@);
            }
        }
        order.insert(pos, i);
        proof {
            assert forall|j: int, k: int| 0 <= j < k < order@.len() implies text_lt(pats@[#[trigger] order@[j] as int].tag@, pats@[#[trigger] order@[k] as int].tag@) by {
                let x = i as int;
                if k < pos {
                } else if k == pos {
                    if j < pos - 1 {
                        lemma_text_lt_transitive(pats@[before[j] as int].tag@, pats@[before[pos - 1] as int].tag@, pats@[x].tag@);
                    }
                } else if j < pos {
                    assert(order@[k] == before[k - 1]);
                    assert(text_lt(pats@[x].tag@, pats@[before[pos as int] as int].tag@));
                    if k - 1 > pos {
                        lemma_text_lt_transitive(pats@[x].tag@, pats@[before[pos as int] as int].tag@, pats@[before[k - 1] as int].tag@);
                    }
                    if j < pos - 1 {
                        lemma_text_lt_transitive(pats@[before[j] as int].tag@, pats@[before[pos - 1] as int].tag@, pats@[x].tag@);
                    }
                    lemma_text_lt_transitive(pats@[before[j] as int].tag@, pats@[x].tag@, pats@[before[k - 1] as int].tag@);
                } else if j == pos {
                    assert(order@[k] == before[k - 1]);
                } else {
                    assert(order@[k] == before[k - 1]);
                    assert(order@[j] == before[j - 1]);
                }
            }
            assert forall|p: int| 0 <= p < i + 1 implies #[trigger] lists(order@, p) by {
                if p == i {
                    assert(order@[pos as int] == p);
                } else {
                    assert(lists(before, p));
                    let j = choose|j: int| 0 <= j < before.len() && before[j] == p;
                    if j < pos {
                        assert(order@[j] == p);
                    } else {
                        assert(order@[j + 1] == p);
                    }
                }
            }
        }
        i = i + 1;
    }
    order
}

// ---------------------------------------------------------------------------
// Hits of one chunk
// ---------------------------------------------------------------------------

/// The automaton searches for the anchor needles of `pats`, by index.
pub open spec fn searches_for(automaton: AhoCorasick, pats: Seq<CompiledPattern>) -> bool {
    &&& automaton_overlapping(automaton)
    &&& automaton_needles(automaton).len() == pats.len()
    &&& forall|p: int| 0 <= p < pats.len() ==> #[trigger] automaton_needles(automaton)[p] == needle_of(pats[p])
}

/// The automaton result `r` is the anchor of a hit of its pattern in the chunk.
pub open spec fn yields(pats: Seq<CompiledPattern>, chunk: Chunk, r: (usize, usize, usize)) -> bool {
    let (p, start, end) = r;
    &&& p < pats.len()
    &&& start >= pats[p as int].needle_offset
    &&& hit_in(pats, chunk, p as int, chunk.0 + start - pats[p as int].needle_offset)
}

proof fn lemma_full_mask(b: u8)
    ensures
        b & 0xffu8 == b,
{
    assert(b & 0xffu8 == b) by (bit_vector);
}

/// Every byte of `window`, under its mask byte, equals the pattern byte, over
/// the positions all three share.
pub open spec fn masked_equal(window: Seq<u8>, bytes: Seq<u8>, mask: Seq<u8>) -> bool {
    forall|i: int| 0 <= i < window.len() && i < bytes.len() && i < mask.len() ==> #[trigger] (window[i] & mask[i]) == bytes[i]
}

/// Whether `window` matches the masked pattern `bytes`: at every position the
/// three share, the found byte under the mask equals the pattern byte.
pub fn matches_mask(window: &[u8], bytes: &[u8], mask: &[u8]) -> (res: bool)
    ensures
        res == masked_equal(window@, bytes@, mask@),
{
    let mut i: usize = 0;
    while i < window.len() && i < bytes.len() && i < mask.len()
        invariant
            0 <= i <= window@.len(),
            forall|k: int| 0 <= k < i && k < bytes@.len() && k < mask@.len() ==> #[trigger] (window@[k] & mask@[k]) == bytes@[k],
            i <= bytes@.len(),
            i <= mask@.len(),
        decreases window@.len() - i,
    {
        if window[i] & mask[i] != bytes[i] {
            return false;
        }
        i = i + 1;
    }
    true
}

fn fits_at(c: &CompiledPattern, hay: &[u8], s: usize) -> (res: bool)
    requires
        s + c.bytes@.len() <= hay@.len(),
        c.mask matches Some(m) ==> m@.len() == c.bytes@.len(),
    ensures
        res == forall|i: int| 0 <= i < c.bytes@.len() ==> #[trigger] byte_fits(*c, hay@[s + i], i),
{
    if let Some(m) = &c.mask {
        let hay_len = hay.len();
        let window = vstd::slice::slice_subrange(hay, s, s + c.bytes.len());
        let ok = matches_mask(window, c.bytes.as_slice(), m.as_slice());
        proof {
            if ok {
                assert forall|i: int| 0 <= i < c.bytes@.len() implies #[trigger] byte_fits(*c, hay@[s + i], i) by {
                    assert(window@[i] == hay@[s + i]);
                }
            } else {
                let i = choose|i: int| 0 <= i < window@.len() && i < c.bytes@.len() && i < m@.len() && #[trigger] (window@[i] & m@[i]) != c.bytes@[i];
                assert(window@[i] == hay@[s + i]);
                assert(!byte_fits(*c, hay@[s + i], i));
            }
        }
        return ok;
    }
    let n = c.bytes.len();
    let hl = hay.len();
    let mut i: usize = 0;
    while i < n
        invariant
            0 <= i <= n,
            hl == hay@.len(),
            n == c.bytes@.len(),
            s + n <= hay@.len(),
            c.mask matches Some(m) ==> m@.len() == c.bytes@.len(),
            forall|k: int| 0 <= k < i ==> #[trigger] byte_fits(*c, hay@[s + k], k),
        decreases n - i,
    {
        let b = hay[s + i];
        let ok = match &c.mask {
            None => b == c.bytes[i],
            Some(m) => b & m[i] == c.bytes[i],
        };
        if !ok {
            assert(!byte_fits(*c, hay@[s + i], i as int));
            return false;
        }
        i = i + 1;
    }
    true
}

/// Every hit of the chunk `(base, hay, carry)`, as `(address, length, pattern)`.
fn chunk_hits(pats: &Vec<CompiledPattern>, automaton: &AhoCorasick, base: u64, hay: &[u8], carry: usize) -> (res: Vec<(u64, usize, usize)>)
    requires
        patterns_ok(pats@),
        searches_for(*automaton, pats@),
        base + hay@.len() <= u64::MAX,
    ensures
        forall|k: int| 0 <= k < res@.len() ==> {
            let (a, l, p) = #[trigger] res@[k];
            &&& p < pats@.len()
            &&& hit_in(pats@, (base as int, hay@, carry as int), p as int, a as int)
            &&& l == pats@[p as int].bytes@.len()
        },
        forall|p: int, a: int| #[trigger] hit_in(pats@, (base as int, hay@, carry as int), p, a) ==> exists|k: int|
            0 <= k < res@.len() && #[trigger] res@[k] == (a as u64, pats@[p].bytes@.len() as usize, p as usize),
{
    let ghost chunk: Chunk = (base as int, hay@, carry as int);
    reveal(hit_in);
    let hl = hay.len();
    let np = pats.len();
    proof {
        assert forall|p: int| 0 <= p < automaton_needles(*automaton).len() implies #[trigger] automaton_needles(*automaton)[p].len() > 0 by {
            assert(automaton_needles(*automaton)[p] == needle_of(pats@[p]));
            assert(searchable(pats@[p]));
        }
    }
    let found = find_overlapping(automaton, hay);
    let mut out: Vec<(u64, usize, usize)> = Vec::new();
    let mut i: usize = 0;
    while i < found.len()
        invariant
            0 <= i <= found@.len(),
            patterns_ok(pats@),
            searches_for(*automaton, pats@),
            base + hay@.len() <= u64::MAX,
            hl == hay@.len(),
            np == pats@.len(),
            chunk == (base as int, hay@, carry as int),
            forall|k: int| 0 <= k < found@.len() ==> {
                let (p, start, end) = #[trigger] found@[k];
                &&& p < automaton_needles(*automaton).len()
                &&& end == start + automaton_needles(*automaton)[p as int].len()
                &&& occurs_at(automaton_needles(*automaton)[p as int], hay@, start as int)
            },
            forall|k: int| 0 <= k < out@.len() ==> {
                let (a, l, p) = #[trigger] out@[k];
                &&& hit_in(pats@, chunk, p as int, a as int)
                &&& l == pats@[p as int].bytes@.len()
            },
            forall|k: int| 0 <= k < i && #[trigger] yields(pats@, chunk, found@[k]) ==> exists|m: int|
                0 <= m < out@.len() && #[trigger] out@[m] == ((base + found@[k].1 - pats@[found@[k].0 as int].needle_offset) as u64,
                    pats@[found@[k].0 as int].bytes@.len() as usize, found@[k].0),
        decreases found@.len() - i,
    {
        let (p, start, end) = found[i];
        proof {
            reveal(hit_in);
            assert(searchable(pats@[p as int]));
        }
        let c = &pats[p];
        let len = c.bytes.len();
        let ghost r = found@[i as int];
        let ghost before = out@;
        let ghost mut pushed = false;
        if start >= c.needle_offset {
            let s = start - c.needle_offset;
            if s <= hay.len() && len <= hay.len() - s && s + len > carry {
                let fits = fits_at(c, hay, s);
                proof {
                    if yields(pats@, chunk, r) {
                        let a = chunk.0 + start - c.needle_offset;
                        assert(hit_in(pats@, chunk, p as int, a));
                        assert forall|j: int| 0 <= j < c.bytes@.len() implies #[trigger] byte_fits(*c, hay@[s + j], j) by {
                            assert(byte_fits(pats@[p as int], chunk.1[a - chunk.0 + j], j));
                            assert(a - chunk.0 + j == s + j);
                        }
                    }
                }
                if fits {
                    let address = base + s as u64;
                    proof {
                        assert(address as int == chunk.0 + start - c.needle_offset);
                    }
                    if address % c.alignment == 0 {
                        out.push((address, len, p));
                        proof {
                            pushed = true;
                            assert forall|j: int| 0 <= j < c.bytes@.len() implies #[trigger] byte_fits(pats@[p as int], chunk.1[address - chunk.0 + j], j) by {
                                assert(byte_fits(*c, hay@[s + j], j));
                                assert(address - chunk.0 + j == s + j);
                            }
                            assert(hit_in(pats@, chunk, p as int, address as int));
                            assert(out@[out@.len() - 1] == (address, len, p));
                        }
                    } else {
                        proof {
                            assert(!yields(pats@, chunk, r));
                        }
                    }
                } else {
                    proof {
                        assert(!yields(pats@, chunk, r));
                    }
                }
            } else {
                proof {
                    assert(!yields(pats@, chunk, r));
                }
            }
        } else {
            proof {
                assert(!yields(pats@, chunk, r));
            }
        }
        proof {
            assert(pushed ==> out@ == before.push(((base + r.1 - pats@[r.0 as int].needle_offset) as u64, pats@[r.0 as int].bytes@.len() as usize, r.0)));
            assert(!pushed ==> out@ == before);
            assert forall|k: int| 0 <= k < i + 1 && #[trigger] yields(pats@, chunk, found@[k]) implies exists|m: int|
                0 <= m < out@.len() && #[trigger] out@[m] == ((base + found@[k].1 - pats@[found@[k].0 as int].needle_offset) as u64,
                    pats@[found@[k].0 as int].bytes@.len() as usize, found@[k].0) by {
                if k == i {
                    assert(pushed);
                    assert(out@[out@.len() - 1] == ((base + found@[k].1 - pats@[found@[k].0 as int].needle_offset) as u64,
                        pats@[found@[k].0 as int].bytes@.len() as usize, found@[k].0));
                } else {
                    let m = choose|m: int| 0 <= m < before.len() && #[trigger] before[m] == ((base + found@[k].1 - pats@[found@[k].0 as int].needle_offset) as u64,
                        pats@[found@[k].0 as int].bytes@.len() as usize, found@[k].0);
                    assert(out@[m] == before[m]);
                }
            }
        }
        i = i + 1;
    }
    proof {
        reveal(hit_in);
        assert forall|p: int, a: int| #[trigger] hit_in(pats@, chunk, p, a) implies exists|k: int|
            0 <= k < out@.len() && #[trigger] out@[k] == (a as u64, pats@[p].bytes@.len() as usize, p as usize) by {
            let c = pats@[p];
            assert(searchable(c));
            let s = a - base;
            let off = c.needle_offset as int;
            let nl = c.needle_len as int;
            let needle = automaton_needles(*automaton)[p];
            assert(needle == needle_of(c));
            assert(hay@.subrange(s + off, s + off + nl) =~= needle) by {
                assert forall|j: int| 0 <= j < nl implies #[trigger] hay@.subrange(s + off, s + off + nl)[j] == needle[j] by {
                    assert(byte_fits(c, chunk.1[a - chunk.0 + (off + j)], off + j));
                    assert(a - chunk.0 + (off + j) == s + off + j);
                    if let Some(m) = c.mask {
                        assert(m@[off + j] == 0xffu8);
                        lemma_full_mask(hay@[s + off + j]);
                    }
                }
            }
            assert(occurs_at(needle, hay@, s + off));
            assert(0 <= s + off <= hl);
            assert(s + off + needle.len() <= hl);
            let k = choose|k: int| 0 <= k < found@.len() && #[trigger] found@[k] == (p as usize, (s + off) as usize, (s + off + needle.len()) as usize);
            assert(found@[k].1 as int == s + off);
            assert(found@[k].0 as int == p);
            assert(chunk.0 + found@[k].1 - off == a);
            assert(yields(pats@, chunk, found@[k]));
        }
    }
    out
}

// ---------------------------------------------------------------------------
// Grouping hits by key
// ---------------------------------------------------------------------------

/// Lexicographic order of hit triples.
pub open spec fn triple_le(a: (u64, usize, usize), b: (u64, usize, usize)) -> bool {
    a.0 < b.0 || (a.0 == b.0 && (a.1 < b.1 || (a.1 == b.1 && a.2 <= b.2)))
}

/// Sorts hit triples ascending (`slice::sort_unstable`); tuples of integers
/// compare lexicographically. The result is a permutation of the input.
#[verifier::external_body]
fn sort_hits(v: &mut Vec<(u64, usize, usize)>)
    ensures
        final(v)@.to_multiset() == old(v)@.to_multiset(),
        forall|j: int, k: int| 0 <= j < k < final(v)@.len() ==> triple_le(#[trigger] final(v)@[j], #[trigger] final(v)@[k]),
{
    v.sort_unstable();
}

/// A match key not yet emitted, with the set of patterns that hit it as a bit set.
#[derive(Debug, Clone, Copy)]
pub struct PendingKey {
    pub address: u64,
    pub length: usize,
    pub hits: u64,
}

/// Bit `p` of `set` is on.
pub open spec fn has_bit(set: u64, p: int) -> bool {
    0 <= p < 64 && (set >> (p as u64)) & 1u64 == 1u64
}

/// Some entry of `keys` has `key`.
pub open spec fn key_listed(keys: Seq<PendingKey>, key: Key) -> bool {
    exists|k: int| 0 <= k < keys.len() && pending_key(keys[k]) == key
}

/// Some bit of `set` is on.
pub open spec fn some_bit(set: u64) -> bool {
    exists|p: int| #[trigger] has_bit(set, p)
}

/// The key of a pending entry.
pub open spec fn pending_key(k: PendingKey) -> Key {
    (k.address as int, k.length as int)
}

proof fn lemma_bit_set(set: u64, p: u64, q: u64)
    requires
        p < 64,
        q < 64,
    ensures
        ((set | (1u64 << p)) >> q) & 1u64 == 1u64 <==> (((set >> q) & 1u64 == 1u64) || q == p),
{
    assert(((set | (1u64 << p)) >> q) & 1u64 == 1u64 <==> (((set >> q) & 1u64 == 1u64) || q == p)) by (bit_vector)
        requires
            p < 64,
            q < 64,
    ;
}

proof fn lemma_bit_zero(q: u64)
    requires
        q < 64,
    ensures
        (0u64 >> q) & 1u64 != 1u64,
{
    assert((0u64 >> q) & 1u64 != 1u64) by (bit_vector);
}

fn bit_on(set: u64, p: usize) -> (res: bool)
    requires
        p < 64,
    ensures
        res == has_bit(set, p as int),
{
    (set >> (p as u64)) & 1u64 == 1u64
}

/// Some triple of `s` before index `n` is `(a, l, p)`.
pub open spec fn triple_before(s: Seq<(u64, usize, usize)>, n: int, a: u64, l: usize, p: int) -> bool {
    exists|j: int| 0 <= j < n && #[trigger] s[j] == (a, l, p as usize)
}

/// The keys of sorted triples, each once, ascending, with the bit set of the
/// patterns that hit it.
fn group_hits(sorted: &Vec<(u64, usize, usize)>) -> (res: Vec<PendingKey>)
    requires
        forall|j: int, k: int| 0 <= j < k < sorted@.len() ==> triple_le(#[trigger] sorted@[j], #[trigger] sorted@[k]),
        forall|j: int| 0 <= j < sorted@.len() ==> (#[trigger] sorted@[j]).2 < 64,
    ensures
        forall|j: int, k: int| 0 <= j < k < res@.len() ==> key_lt(pending_key(#[trigger] res@[j]), pending_key(#[trigger] res@[k])),
        forall|k: int, p: int| 0 <= k < res@.len() && 0 <= p < 64 ==> (#[trigger] has_bit(res@[k].hits, p)
            <==> triple_before(sorted@, sorted@.len() as int, res@[k].address, res@[k].length, p)),
        forall|k: int| 0 <= k < res@.len() ==> some_bit(res@[k].hits),
        forall|j: int| 0 <= j < sorted@.len() ==> #[trigger] key_listed(res@, (sorted@[j].0 as int, sorted@[j].1 as int)),
{
    let mut out: Vec<PendingKey> = Vec::new();
    if sorted.len() == 0 {
        return out;
    }
    let first = sorted[0];
    proof {
        assert forall|q: int| 0 <= q < 64 implies (#[trigger] has_bit(1u64 << (first.2 as u64), q) <==> q == first.2) by {
            lemma_bit_set(0, first.2 as u64, q as u64);
            lemma_bit_zero(q as u64);
            assert(0u64 | (1u64 << (first.2 as u64)) == 1u64 << (first.2 as u64)) by (bit_vector);
        }
    }
    let mut cur = PendingKey { address: first.0, length: first.1, hits: 1u64 << (first.2 as u64) };
    let mut i: usize = 1;
    while i < sorted.len()
        invariant
            1 <= i <= sorted@.len(),
            forall|j: int, k: int| 0 <= j < k < sorted@.len() ==> triple_le(#[trigger] sorted@[j], #[trigger] sorted@[k]),
            forall|j: int| 0 <= j < sorted@.len() ==> (#[trigger] sorted@[j]).2 < 64,
            cur.address == sorted@[i - 1].0 && cur.length == sorted@[i - 1].1,
            forall|j: int, k: int| 0 <= j < k < out@.len() ==> key_lt(pending_key(#[trigger] out@[j]), pending_key(#[trigger] out@[k])),
            forall|j: int| 0 <= j < out@.len() ==> key_lt(pending_key(#[trigger] out@[j]), pending_key(cur)),
            forall|k: int, p: int| 0 <= k < out@.len() && 0 <= p < 64 ==> (#[trigger] has_bit(out@[k].hits, p)
                <==> triple_before(sorted@, i as int, out@[k].address, out@[k].length, p)),
            forall|p: int| 0 <= p < 64 ==> (#[trigger] has_bit(cur.hits, p) <==> triple_before(sorted@, i as int, cur.address, cur.length, p)),
            has_bit(cur.hits, sorted@[i - 1].2 as int),
            forall|k: int| 0 <= k < out@.len() ==> some_bit(out@[k].hits),
            forall|j: int| 0 <= j < i ==> #[trigger] key_listed(out@, (sorted@[j].0 as int, sorted@[j].1 as int))
                || pending_key(cur) == (sorted@[j].0 as int, sorted@[j].1 as int),
        decreases sorted@.len() - i,
    {
        let t = sorted[i];
        let ghost before = out@;
        let ghost old_cur = cur;
        proof {
            assert(triple_le(sorted@[i - 1], sorted@[i as int]));
        }
        if t.0 == cur.address && t.1 == cur.length {
            proof {
                assert forall|q: int| 0 <= q < 64 implies (#[trigger] has_bit(cur.hits | (1u64 << (t.2 as u64)), q) <==> has_bit(cur.hits, q) || q == t.2) by {
                    lemma_bit_set(cur.hits, t.2 as u64, q as u64);
                }
            }
            cur.hits = cur.hits | (1u64 << (t.2 as u64));
            proof {
                assert forall|k: int, p: int| 0 <= k < out@.len() && 0 <= p < 64 implies (#[trigger] has_bit(out@[k].hits, p)
                    <==> triple_before(sorted@, i + 1, out@[k].address, out@[k].length, p)) by {
                    if triple_before(sorted@, i + 1, out@[k].address, out@[k].length, p) {
                        if !triple_before(sorted@, i as int, out@[k].address, out@[k].length, p) {
                            assert(sorted@[i as int] == (out@[k].address, out@[k].length, p as usize));
                        }
                    }
                }
                assert forall|p: int| 0 <= p < 64 implies (#[trigger] has_bit(cur.hits, p) <==> triple_before(sorted@, i + 1, cur.address, cur.length, p)) by {
                    if p == t.2 {
                        assert(sorted@[i as int] == (cur.address, cur.length, p as usize));
                    }
                    if triple_before(sorted@, i + 1, cur.address, cur.length, p) && p != t.2 {
                        let j = choose|j: int| 0 <= j < i + 1 && #[trigger] sorted@[j] == (cur.address, cur.length, p as usize);
                        assert(j != i);
                    }
                }
            }
        } else {
            out.push(cur);
            proof {
                assert forall|q: int| 0 <= q < 64 implies (#[trigger] has_bit(1u64 << (t.2 as u64), q) <==> q == t.2) by {
                    lemma_bit_set(0, t.2 as u64, q as u64);
                    lemma_bit_zero(q as u64);
                    assert(0u64 | (1u64 << (t.2 as u64)) == 1u64 << (t.2 as u64)) by (bit_vector);
                }
            }
            cur = PendingKey { address: t.0, length: t.1, hits: 1u64 << (t.2 as u64) };
            proof {
                assert forall|k: int, p: int| 0 <= k < out@.len() && 0 <= p < 64 implies (#[trigger] has_bit(out@[k].hits, p)
                    <==> triple_before(sorted@, i + 1, out@[k].address, out@[k].length, p)) by {
                    if k < before.len() {
                        assert(out@[k] == before[k]);
                    }
                    if triple_before(sorted@, i + 1, out@[k].address, out@[k].length, p) {
                        if !triple_before(sorted@, i as int, out@[k].address, out@[k].length, p) {
                            assert(sorted@[i as int] == (out@[k].address, out@[k].length, p as usize));
                        }
                    }
                }
                assert forall|p: int| 0 <= p < 64 implies (#[trigger] has_bit(cur.hits, p) <==> triple_before(sorted@, i + 1, cur.address, cur.length, p)) by {
                    if p == t.2 {
                        assert(sorted@[i as int] == (cur.address, cur.length, p as usize));
                    }
                    if triple_before(sorted@, i + 1, cur.address, cur.length, p) && p != t.2 {
                        let j = choose|j: int| 0 <= j < i + 1 && #[trigger] sorted@[j] == (cur.address, cur.length, p as usize);
                        assert(triple_le(sorted@[j], sorted@[i - 1]));
                    }
                }
                assert forall|j: int, k: int| 0 <= j < k < out@.len() implies key_lt(pending_key(#[trigger] out@[j]), pending_key(#[trigger] out@[k])) by {
                    if k == out@.len() - 1 {
                        assert(out@[j] == before[j]);
                    } else {
                        assert(out@[j] == before[j]);
                        assert(out@[k] == before[k]);
                    }
                }
                assert forall|k: int| 0 <= k < out@.len() implies some_bit(out@[k].hits) by {
                    if k < before.len() {
                        assert(out@[k] == before[k]);
                    } else {
                        assert(has_bit(out@[k].hits, sorted@[i - 1].2 as int));
                    }
                }
            }
        }
        proof {
            assert(has_bit(cur.hits, t.2 as int));
            assert forall|j: int| 0 <= j < i + 1 implies #[trigger] key_listed(out@, (sorted@[j].0 as int, sorted@[j].1 as int))
                || pending_key(cur) == (sorted@[j].0 as int, sorted@[j].1 as int) by {
                if j < i && pending_key(cur) != (sorted@[j].0 as int, sorted@[j].1 as int) {
                    if pending_key(old_cur) == (sorted@[j].0 as int, sorted@[j].1 as int) {
                        assert(out@[out@.len() - 1] == old_cur);
                    } else {
                        assert(key_listed(before, (sorted@[j].0 as int, sorted@[j].1 as int)));
                        let k = choose|k: int| 0 <= k < before.len() && pending_key(before[k]) == (sorted@[j].0 as int, sorted@[j].1 as int);
                        assert(out@[k] == before[k]);
                    }
                }
            }
        }
        i = i + 1;
    }
    let ghost before = out@;
    out.push(cur);
    proof {
        assert forall|k: int, p: int| 0 <= k < out@.len() && 0 <= p < 64 implies (#[trigger] has_bit(out@[k].hits, p)
            <==> triple_before(sorted@, sorted@.len() as int, out@[k].address, out@[k].length, p)) by {
            if k < before.len() {
                assert(out@[k] == before[k]);
            } else {
                assert(out@[k] == cur);
            }
        }
        assert forall|j: int| 0 <= j < sorted@.len() implies #[trigger] key_listed(out@, (sorted@[j].0 as int, sorted@[j].1 as int)) by {
            if pending_key(cur) == (sorted@[j].0 as int, sorted@[j].1 as int) {
                assert(out@[out@.len() - 1] == cur);
            } else {
                assert(key_listed(before, (sorted@[j].0 as int, sorted@[j].1 as int)));
                let k = choose|k: int| 0 <= k < before.len() && pending_key(before[k]) == (sorted@[j].0 as int, sorted@[j].1 as int);
                assert(out@[k] == before[k]);
            }
        }
        assert forall|k: int| 0 <= k < out@.len() implies some_bit(out@[k].hits) by {
            if k < before.len() {
                assert(out@[k] == before[k]);
            } else {
                assert(has_bit(out@[k].hits, sorted@[sorted@.len() - 1].2 as int));
            }
        }
    }
    out
}

// ---------------------------------------------------------------------------
// Emitting matches
// ---------------------------------------------------------------------------

/// `order` lists every pattern index once, by ascending tag.
pub open spec fn tag_order_of(order: Seq<usize>, pats: Seq<CompiledPattern>) -> bool {
    &&& order.len() == pats.len()
    &&& forall|j: int| 0 <= j < order.len() ==> #[trigger] order[j] < pats.len()
    &&& forall|p: int| 0 <= p < pats.len() ==> #[trigger] lists(order, p)
    &&& forall|j: int, k: int| 0 <= j < k < order.len() ==> text_lt(pats[#[trigger] order[j] as int].tag@, pats[#[trigger] order[k] as int].tag@)
}

/// `tag` is the tag of some pattern in `set`.
pub open spec fn tag_in_set(pats: Seq<CompiledPattern>, set: u64, tag: Seq<char>) -> bool {
    exists|p: int| 0 <= p < pats.len() && #[trigger] has_bit(set, p) && pats[p].tag@ == tag
}

/// The tags of the patterns in `set`, ascending.
fn tags_for(pats: &Vec<CompiledPattern>, order: &Vec<usize>, set: u64) -> (res: Vec<String>)
    requires
        tag_order_of(order@, pats@),
        pats@.len() <= 64,
    ensures
        forall|j: int, k: int| 0 <= j < k < res@.len() ==> text_lt(#[trigger] res@[j]@, #[trigger] res@[k]@),
        forall|j: int| 0 <= j < res@.len() ==> #[trigger] tag_in_set(pats@, set, res@[j]@),
        forall|p: int| 0 <= p < pats@.len() && #[trigger] has_bit(set, p) ==> exists|j: int| 0 <= j < res@.len() && pats@[p].tag@ == (#[trigger] res@[j])@,
{
    let mut tags: Vec<String> = Vec::new();
    let ghost mut picked: Seq<int> = Seq::empty();
    let mut i: usize = 0;
    while i < order.len()
        invariant
            0 <= i <= order@.len(),
            tag_order_of(order@, pats@),
            pats@.len() <= 64,
            tags@.len() == picked.len(),
            forall|j: int| 0 <= j < picked.len() ==> 0 <= #[trigger] picked[j] < i,
            forall|j: int, k: int| 0 <= j < k < picked.len() ==> #[trigger] picked[j] < #[trigger] picked[k],
            forall|j: int| 0 <= j < picked.len() ==> has_bit(set, order@[#[trigger] picked[j]] as int)
                && tags@[j]@ == pats@[order@[picked[j]] as int].tag@,
            forall|m: int| 0 <= m < i && has_bit(set, order@[m] as int) ==> exists|j: int| 0 <= j < picked.len() && #[trigger] picked[j] == m,
        decreases order@.len() - i,
    {
        let q = order[i];
        let ghost old_picked = picked;
        if bit_on(set, q) {
            tags.push(pats[q].tag.clone());
            proof {
                picked = picked.push(i as int);
            }
        }
        proof {
            assert forall|m: int| 0 <= m < i + 1 && has_bit(set, order@[m] as int) implies exists|j: int| 0 <= j < picked.len() && #[trigger] picked[j] == m by {
                if m == i {
                    assert(picked[picked.len() - 1] == m);
                } else {
                    let j = choose|j: int| 0 <= j < old_picked.len() && #[trigger] old_picked[j] == m;
                    assert(picked[j] == old_picked[j]);
                }
            }
        }
        i = i + 1;
    }
    proof {
        assert forall|j: int, k: int| 0 <= j < k < tags@.len() implies text_lt(#[trigger] tags@[j]@, #[trigger] tags@[k]@) by {
            assert(picked[j] < picked[k]);
            assert(text_lt(pats@[order@[picked[j]] as int].tag@, pats@[order@[picked[k]] as int].tag@));
        }
        assert forall|j: int| 0 <= j < tags@.len() implies #[trigger] tag_in_set(pats@, set, tags@[j]@) by {
            let p = order@[picked[j]] as int;
            assert(0 <= p < pats@.len());
            assert(has_bit(set, p));
        }
        assert forall|p: int| 0 <= p < pats@.len() && #[trigger] has_bit(set, p) implies exists|j: int| 0 <= j < tags@.len() && pats@[p].tag@ == (#[trigger] tags@[j])@ by {
            assert(lists(order@, p));
            let m = choose|m: int| 0 <= m < order@.len() && order@[m] == p;
            let j = choose|j: int| 0 <= j < picked.len() && #[trigger] picked[j] == m;
            assert(tags@[j]@ == pats@[p].tag@);
        }
    }
    tags
}

/// Entries are strictly ascending by key.
pub open spec fn ascending(keys: Seq<PendingKey>) -> bool {
    forall|j: int, k: int| 0 <= j < k < keys.len() ==> key_lt(pending_key(#[trigger] keys[j]), pending_key(#[trigger] keys[k]))
}

/// The bit set of an entry is exactly the set of patterns hitting its key.
pub open spec fn flags_exact(pats: Seq<CompiledPattern>, chunks: Seq<Chunk>, k: PendingKey) -> bool {
    &&& forall|p: int| 0 <= p < 64 ==> (#[trigger] has_bit(k.hits, p) <==> hits(pats, chunks, p, pending_key(k)))
    &&& some_bit(k.hits)
}

/// Reported matches are strictly ascending, found, and carry exact tags.
pub open spec fn reported(pats: Seq<CompiledPattern>, chunks: Seq<Chunk>, out: Seq<FoundMatch>) -> bool {
    &&& forall|j: int, k: int| 0 <= j < k < out.len() ==> key_lt(match_key(#[trigger] out[j]), match_key(#[trigger] out[k]))
    &&& forall|j: int| 0 <= j < out.len() ==> found(pats, chunks, match_key(#[trigger] out[j])) && tags_exact(pats, chunks, out[j])
}

proof fn lemma_found_of_flags(pats: Seq<CompiledPattern>, chunks: Seq<Chunk>, k: PendingKey)
    requires
        flags_exact(pats, chunks, k),
    ensures
        found(pats, chunks, pending_key(k)),
{
    let p = choose|p: int| #[trigger] has_bit(k.hits, p);
    assert(hits(pats, chunks, p, pending_key(k)));
}

fn below(limit: Option<u64>, a: u64) -> (res: bool)
    ensures
        res == (limit matches Some(h) ==> a < h),
{
    match limit {
        None => true,
        Some(h) => a < h,
    }
}

proof fn lemma_tags_exact(pats: Seq<CompiledPattern>, chunks: Seq<Chunk>, k: PendingKey, m: FoundMatch)
    requires
        pats.len() <= 64,
        flags_exact(pats, chunks, k),
        m.address == k.address,
        m.length == k.length,
        forall|j: int, i: int| 0 <= j < i < m.tags@.len() ==> text_lt(#[trigger] m.tags@[j]@, #[trigger] m.tags@[i]@),
        forall|j: int| 0 <= j < m.tags@.len() ==> #[trigger] tag_in_set(pats, k.hits, m.tags@[j]@),
        forall|p: int| 0 <= p < pats.len() && #[trigger] has_bit(k.hits, p) ==> exists|j: int| 0 <= j < m.tags@.len() && pats[p].tag@ == (#[trigger] m.tags@[j])@,
    ensures
        tags_exact(pats, chunks, m),
{
    reveal(tags_exact);
    assert(match_key(m) == pending_key(k));
    assert forall|t: int| 0 <= t < m.tags@.len() implies #[trigger] tag_hits(pats, chunks, match_key(m), m.tags@[t]@) by {
        assert(tag_in_set(pats, k.hits, m.tags@[t]@));
        let p = choose|p: int| 0 <= p < pats.len() && #[trigger] has_bit(k.hits, p) && pats[p].tag@ == m.tags@[t]@;
        assert(hits(pats, chunks, p, match_key(m)));
    }
    assert forall|p: int| #[trigger] hits(pats, chunks, p, match_key(m)) implies tag_listed(m.tags@, pats[p].tag@) by {
        assert(has_bit(k.hits, p));
        let j = choose|j: int| 0 <= j < m.tags@.len() && pats[p].tag@ == (#[trigger] m.tags@[j])@;
        assert(m.tags@[j]@ == pats[p].tag@);
    }
}

/// Appends the match of entry `k` to `out`.
fn report(pats: &Vec<CompiledPattern>, order: &Vec<usize>, out: &mut Vec<FoundMatch>, k: PendingKey, Ghost(chunks): Ghost<Seq<Chunk>>)
    requires
        tag_order_of(order@, pats@),
        pats@.len() <= 64,
        flags_exact(pats@, chunks, k),
        reported(pats@, chunks, old(out)@),
        forall|a: int| 0 <= a < old(out)@.len() ==> key_lt(match_key(#[trigger] old(out)@[a]), pending_key(k)),
    ensures
        final(out)@.len() == old(out)@.len() + 1,
        final(out)@.subrange(0, old(out)@.len() as int) == old(out)@,
        match_key(final(out)@.last()) == pending_key(k),
        reported(pats@, chunks, final(out)@),
{
    let tags = tags_for(pats, order, k.hits);
    let ghost tv = tags@;
    let m = FoundMatch { address: k.address, length: k.length, tags };
    let ghost before = out@;
    out.push(m);
    proof {
        assert(m.tags@ == tv);
        lemma_found_of_flags(pats@, chunks, k);
        lemma_tags_exact(pats@, chunks, k, m);
        assert(out@.subrange(0, before.len() as int) =~= before);
        assert forall|a: int, b: int| 0 <= a < b < out@.len() implies key_lt(match_key(#[trigger] out@[a]), match_key(#[trigger] out@[b])) by {
            if b == out@.len() - 1 {
                assert(out@[a] == before[a]);
            } else {
                assert(out@[a] == before[a]);
                assert(out@[b] == before[b]);
            }
        }
        assert forall|a: int| 0 <= a < out@.len() implies found(pats@, chunks, match_key(#[trigger] out@[a])) && tags_exact(pats@, chunks, out@[a]) by {
            if a < out@.len() - 1 {
                assert(out@[a] == before[a]);
            }
        }
    }
}

/// Reports the leading entries of `merged` whose address is below `limit` (all of
/// them without a limit), up to the quota. When the quota is full and a further
/// entry is ready, returns its address as the place the scan stopped.
fn flush(
    pats: &Vec<CompiledPattern>,
    order: &Vec<usize>,
    out: &mut Vec<FoundMatch>,
    merged: &Vec<PendingKey>,
    limit: Option<u64>,
    quota: usize,
    Ghost(chunks): Ghost<Seq<Chunk>>,
) -> (res: (Vec<PendingKey>, Option<u64>))
    requires
        tag_order_of(order@, pats@),
        pats@.len() <= 64,
        ascending(merged@),
        forall|k: int| 0 <= k < merged@.len() ==> #[trigger] flags_exact(pats@, chunks, merged@[k]),
        reported(pats@, chunks, old(out)@),
        forall|j: int, k: int| 0 <= j < old(out)@.len() && 0 <= k < merged@.len()
            ==> key_lt(match_key(#[trigger] old(out)@[j]), pending_key(#[trigger] merged@[k])),
        old(out)@.len() <= quota,
    ensures
        old(out)@.len() <= final(out)@.len(),
        final(out)@.len() - old(out)@.len() + res.0@.len() == merged@.len(),
        final(out)@.len() <= quota,
        final(out)@.subrange(0, old(out)@.len() as int) == old(out)@,
        forall|j: int| old(out)@.len() <= j < final(out)@.len()
            ==> match_key(#[trigger] final(out)@[j]) == pending_key(merged@[j - old(out)@.len()])
                && (limit matches Some(h) ==> final(out)@[j].address < h),
        res.0@ == merged@.subrange(final(out)@.len() - old(out)@.len(), merged@.len() as int),
        reported(pats@, chunks, final(out)@),
        res.1 is None ==> forall|k: int| 0 <= k < res.0@.len() ==> (limit matches Some(h) && h <= (#[trigger] res.0@[k]).address),
        res.1 matches Some(a) ==> final(out)@.len() == quota && res.0@.len() > 0 && a == res.0@[0].address
            && (limit matches Some(h) ==> a < h),
{
    let ghost start = out@;
    let mut ready: usize = 0;
    while ready < merged.len() && below(limit, merged[ready].address)
        invariant
            0 <= ready <= merged@.len(),
            forall|k: int| 0 <= k < ready ==> (limit matches Some(h) ==> (#[trigger] merged@[k]).address < h),
        decreases merged@.len() - ready,
    {
        ready = ready + 1;
    }
    let room = quota - out.len();
    let count = if ready < room { ready } else { room };
    let mut j: usize = 0;
    while j < count
        invariant
            0 <= j <= count,
            count <= merged@.len(),
            count <= quota - start.len(),
            tag_order_of(order@, pats@),
            pats@.len() <= 64,
            ascending(merged@),
            forall|k: int| 0 <= k < merged@.len() ==> #[trigger] flags_exact(pats@, chunks, merged@[k]),
            forall|a: int, k: int| 0 <= a < start.len() && 0 <= k < merged@.len()
                ==> key_lt(match_key(#[trigger] start[a]), pending_key(#[trigger] merged@[k])),
            out@.len() == start.len() + j,
            out@.subrange(0, start.len() as int) == start,
            forall|a: int| start.len() <= a < out@.len() ==> match_key(#[trigger] out@[a]) == pending_key(merged@[a - start.len()]),
            reported(pats@, chunks, out@),
            count <= ready,
            forall|k: int| 0 <= k < ready ==> (limit matches Some(h) ==> (#[trigger] merged@[k]).address < h),
        decreases count - j,
    {
        let ghost before = out@;
        proof {
            assert forall|a: int| 0 <= a < out@.len() implies key_lt(match_key(#[trigger] out@[a]), pending_key(merged@[j as int])) by {
                if a < start.len() {
                    assert(out@[a] == start[a]);
                } else {
                    assert(key_lt(pending_key(merged@[a - start.len()]), pending_key(merged@[j as int])));
                }
            }
        }
        report(pats, order, out, merged[j], Ghost(chunks));
        proof {
            assert(out@.subrange(0, start.len() as int) =~= before.subrange(0, start.len() as int));
            assert forall|a: int| start.len() <= a < out@.len() implies match_key(#[trigger] out@[a]) == pending_key(merged@[a - start.len()]) by {
                if a < out@.len() - 1 {
                    assert(out@[a] == before[a]);
                }
            }
        }
        j = j + 1;
    }
    let mut rest: Vec<PendingKey> = Vec::new();
    let mut r: usize = count;
    while r < merged.len()
        invariant
            count <= r <= merged@.len(),
            rest@ == merged@.subrange(count as int, r as int),
        decreases merged@.len() - r,
    {
        rest.push(merged[r]);
        r = r + 1;
        proof {
            assert(rest@ =~= merged@.subrange(count as int, r as int));
        }
    }
    let next = if count < ready {
        Some(merged[count].address)
    } else {
        None
    };
    proof {
        assert forall|a: int| start.len() <= a < out@.len() implies match_key(#[trigger] out@[a]) == pending_key(merged@[a - start.len()])
            && (limit matches Some(h) ==> out@[a].address < h) by {
            assert(a - start.len() < ready);
        }
        if next is None {
            assert forall|k: int| 0 <= k < rest@.len() implies (limit matches Some(h) && h <= (#[trigger] rest@[k]).address) by {
                assert(rest@[k] == merged@[count + k]);
                if k > 0 {
                    assert(key_lt(pending_key(merged@[count as int]), pending_key(merged@[count + k])));
                }
            }
        }
    }
    (rest, next)
}

/// Merges two ascending entry lists with no key in common into one ascending
/// list holding the entries of both.
fn merge_keys(a: &Vec<PendingKey>, b: &Vec<PendingKey>) -> (res: Vec<PendingKey>)
    requires
        ascending(a@),
        ascending(b@),
        forall|j: int, k: int| 0 <= j < a@.len() && 0 <= k < b@.len() ==> pending_key(#[trigger] a@[j]) != pending_key(#[trigger] b@[k]),
    ensures
        ascending(res@),
        forall|k: int| 0 <= k < res@.len() ==> a@.contains(#[trigger] res@[k]) || b@.contains(res@[k]),
        forall|j: int| 0 <= j < a@.len() ==> res@.contains(#[trigger] a@[j]),
        forall|j: int| 0 <= j < b@.len() ==> res@.contains(#[trigger] b@[j]),
{
    let mut out: Vec<PendingKey> = Vec::new();
    let mut i: usize = 0;
    let mut j: usize = 0;
    while i < a.len() || j < b.len()
        invariant
            0 <= i <= a@.len(),
            0 <= j <= b@.len(),
            ascending(a@),
            ascending(b@),
            forall|x: int, y: int| 0 <= x < a@.len() && 0 <= y < b@.len() ==> pending_key(#[trigger] a@[x]) != pending_key(#[trigger] b@[y]),
            ascending(out@),
            out@.len() > 0 ==> forall|x: int| i <= x < a@.len() ==> key_lt(pending_key(out@.last()), pending_key(#[trigger] a@[x])),
            out@.len() > 0 ==> forall|y: int| j <= y < b@.len() ==> key_lt(pending_key(out@.last()), pending_key(#[trigger] b@[y])),
            forall|k: int| 0 <= k < out@.len() ==> a@.contains(#[trigger] out@[k]) || b@.contains(out@[k]),
            forall|x: int| 0 <= x < i ==> out@.contains(#[trigger] a@[x]),
            forall|y: int| 0 <= y < j ==> out@.contains(#[trigger] b@[y]),
        decreases a@.len() + b@.len() - i - j,
    {
        let ghost before = out@;
        let take_a = if i < a.len() && j < b.len() {
            let x = a[i];
            let y = b[j];
            x.address < y.address || (x.address == y.address && x.length < y.length)
        } else {
            i < a.len()
        };
        if take_a {
            out.push(a[i]);
            proof {
                if j < b@.len() {
                    assert(pending_key(a@[i as int]) != pending_key(b@[j as int]));
                }
                assert forall|y: int| j <= y < b@.len() implies key_lt(pending_key(out@.last()), pending_key(#[trigger] b@[y])) by {
                    if y > j {
                        assert(key_lt(pending_key(b@[j as int]), pending_key(b@[y])));
                    }
                }
                assert forall|x: int| i + 1 <= x < a@.len() implies key_lt(pending_key(out@.last()), pending_key(#[trigger] a@[x])) by {
                    assert(key_lt(pending_key(a@[i as int]), pending_key(a@[x])));
                }
                assert forall|x: int| 0 <= x < i + 1 implies out@.contains(#[trigger] a@[x]) by {
                    if x == i {
                        assert(out@[out@.len() - 1] == a@[x]);
                    } else {
                        let k = choose|k: int| 0 <= k < before.len() && before[k] == a@[x];
                        assert(out@[k] == a@[x]);
                    }
                }
                assert forall|y: int| 0 <= y < j implies out@.contains(#[trigger] b@[y]) by {
                    let k = choose|k: int| 0 <= k < before.len() && before[k] == b@[y];
                    assert(out@[k] == b@[y]);
                }
                assert forall|k: int| 0 <= k < out@.len() implies a@.contains(#[trigger] out@[k]) || b@.contains(out@[k]) by {
                    if k < before.len() {
                        assert(out@[k] == before[k]);
                    } else {
                        assert(out@[k] == a@[i as int]);
                    }
                }
                assert forall|p: int, q: int| 0 <= p < q < out@.len() implies key_lt(pending_key(#[trigger] out@[p]), pending_key(#[trigger] out@[q])) by {
                    if q < before.len() {
                        assert(out@[p] == before[p]);
                        assert(out@[q] == before[q]);
                    } else if p < before.len() - 1 {
                        assert(out@[p] == before[p]);
                        assert(key_lt(pending_key(before[p]), pending_key(before.last())));
                    }
                }
            }
            i = i + 1;
        } else {
            out.push(b[j]);
            proof {
                if i < a@.len() {
                    assert(pending_key(a@[i as int]) != pending_key(b@[j as int]));
                }
                assert forall|x: int| i <= x < a@.len() implies key_lt(pending_key(out@.last()), pending_key(#[trigger] a@[x])) by {
                    if x > i {
                        assert(key_lt(pending_key(a@[i as int]), pending_key(a@[x])));
                    }
                }
                assert forall|y: int| j + 1 <= y < b@.len() implies key_lt(pending_key(out@.last()), pending_key(#[trigger] b@[y])) by {
                    assert(key_lt(pending_key(b@[j as int]), pending_key(b@[y])));
                }
                assert forall|y: int| 0 <= y < j + 1 implies out@.contains(#[trigger] b@[y]) by {
                    if y == j {
                        assert(out@[out@.len() - 1] == b@[y]);
                    } else {
                        let k = choose|k: int| 0 <= k < before.len() && before[k] == b@[y];
                        assert(out@[k] == b@[y]);
                    }
                }
                assert forall|x: int| 0 <= x < i implies out@.contains(#[trigger] a@[x]) by {
                    let k = choose|k: int| 0 <= k < before.len() && before[k] == a@[x];
                    assert(out@[k] == a@[x]);
                }
                assert forall|k: int| 0 <= k < out@.len() implies a@.contains(#[trigger] out@[k]) || b@.contains(out@[k]) by {
                    if k < before.len() {
                        assert(out@[k] == before[k]);
                    } else {
                        assert(out@[k] == b@[j as int]);
                    }
                }
                assert forall|p: int, q: int| 0 <= p < q < out@.len() implies key_lt(pending_key(#[trigger] out@[p]), pending_key(#[trigger] out@[q])) by {
                    if q < before.len() {
                        assert(out@[p] == before[p]);
                        assert(out@[q] == before[q]);
                    } else if p < before.len() - 1 {
                        assert(out@[p] == before[p]);
                        assert(key_lt(pending_key(before[p]), pending_key(before.last())));
                    }
                }
            }
            j = j + 1;
        }
    }
    out
}

// ---------------------------------------------------------------------------
// Adding a chunk
// ---------------------------------------------------------------------------

/// Every chunk ends at or below `end`.
pub open spec fn chunks_below(chunks: Seq<Chunk>, end: int) -> bool {
    forall|i: int| 0 <= i < chunks.len() ==> (#[trigger] chunks[i]).0 + chunks[i].1.len() <= end
}

/// Every hit of `chunk` ends past `end` and begins at or after `floor`.
pub open spec fn hits_beyond(pats: Seq<CompiledPattern>, chunk: Chunk, end: int, floor: int) -> bool {
    forall|p: int, a: int| #[trigger] hit_in(pats, chunk, p, a) ==> a + pats[p].bytes@.len() > end && a >= floor
}

proof fn lemma_hit_bounds(pats: Seq<CompiledPattern>, chunks: Seq<Chunk>, end: int, p: int, key: Key)
    requires
        chunks_below(chunks, end),
        hits(pats, chunks, p, key),
    ensures
        key.0 + key.1 <= end,
{
    let i = choose|i: int| 0 <= i < chunks.len() && #[trigger] hit_in(pats, chunks[i], p, key.0);
    reveal(hit_in);
    assert(chunks[i].0 + chunks[i].1.len() <= end);
}

proof fn lemma_found_bounds(pats: Seq<CompiledPattern>, chunks: Seq<Chunk>, end: int, key: Key)
    requires
        chunks_below(chunks, end),
        found(pats, chunks, key),
    ensures
        key.0 + key.1 <= end,
{
    let p = choose|p: int| #[trigger] hits(pats, chunks, p, key);
    lemma_hit_bounds(pats, chunks, end, p, key);
}

/// A found key is as long as a pattern, so at least one byte long.
proof fn lemma_found_length(pats: Seq<CompiledPattern>, chunks: Seq<Chunk>, key: Key)
    requires
        patterns_ok(pats),
        found(pats, chunks, key),
    ensures
        key.1 >= 1,
{
    let p = choose|p: int| #[trigger] hits(pats, chunks, p, key);
    assert(searchable(pats[p]));
}

/// A key found after a chunk is fed, and not reported, begins inside the run the
/// chunk belongs to: either it was pending before, at or past the old horizon,
/// or the new chunk holds it.
proof fn lemma_next_in_run(
    pats: Seq<CompiledPattern>,
    chunks: Seq<Chunk>,
    c: Chunk,
    end: int,
    old_horizon: int,
    out0: Seq<FoundMatch>,
    pend0: Seq<PendingKey>,
    out1: Seq<FoundMatch>,
    key: Key,
    run_start: int,
)
    requires
        patterns_ok(pats),
        chunks_below(chunks, end),
        hits_beyond(pats, c, end, old_horizon),
        forall|k: Key| #[trigger] found(pats, chunks, k) ==> emitted(out0, k) || key_listed(pend0, k),
        forall|k: int| 0 <= k < pend0.len() ==> (#[trigger] pend0[k]).address >= old_horizon,
        out0.len() <= out1.len(),
        out1.subrange(0, out0.len() as int) == out0,
        found(pats, chunks.push(c), key),
        forall|j: int| 0 <= j < out1.len() ==> match_key(#[trigger] out1[j]) != key,
        c.0 >= run_start,
        old_horizon >= run_start || old_horizon >= end,
    ensures
        key.0 >= run_start,
{
    lemma_found_length(pats, chunks.push(c), key);
    lemma_found_extend(pats, chunks, end, old_horizon, c, key);
    if key.0 + key.1 <= end {
        assert(found(pats, chunks, key));
        if emitted(out0, key) {
            let j = choose|j: int| 0 <= j < out0.len() && match_key(#[trigger] out0[j]) == key;
            assert(out1[j] == out0[j]);
            assert(false);
        }
        let k = choose|k: int| 0 <= k < pend0.len() && pending_key(pend0[k]) == key;
        assert(pend0[k].address >= old_horizon);
    } else {
        let p = choose|p: int| #[trigger] hits(pats, chunks.push(c), p, key);
        lemma_hits_extend(pats, chunks, end, old_horizon, c, p, key);
        reveal(hit_in);
    }
}

/// A key ending at or below the old end is hit in the extended chunks exactly as
/// before; a key ending past it is hit exactly when the new chunk hits it.
proof fn lemma_hits_extend(pats: Seq<CompiledPattern>, chunks: Seq<Chunk>, end: int, floor: int, c: Chunk, p: int, key: Key)
    requires
        chunks_below(chunks, end),
        hits_beyond(pats, c, end, floor),
    ensures
        key.0 + key.1 <= end ==> (hits(pats, chunks.push(c), p, key) <==> hits(pats, chunks, p, key)),
        key.0 + key.1 > end ==> (hits(pats, chunks.push(c), p, key) <==> (0 <= p < pats.len() && pats[p].bytes@.len() == key.1 && hit_in(pats, c, p, key.0))),
{
    let next = chunks.push(c);
    if hits(pats, chunks, p, key) {
        let i = choose|i: int| 0 <= i < chunks.len() && #[trigger] hit_in(pats, chunks[i], p, key.0);
        assert(next[i] == chunks[i]);
        assert(hit_in(pats, next[i], p, key.0));
        lemma_hit_bounds(pats, chunks, end, p, key);
    }
    if hits(pats, next, p, key) {
        let i = choose|i: int| 0 <= i < next.len() && #[trigger] hit_in(pats, next[i], p, key.0);
        if i < chunks.len() {
            assert(next[i] == chunks[i]);
            assert(hits(pats, chunks, p, key));
            lemma_hit_bounds(pats, chunks, end, p, key);
        } else {
            assert(next[i] == c);
        }
    }
    if 0 <= p < pats.len() && pats[p].bytes@.len() == key.1 && hit_in(pats, c, p, key.0) {
        assert(next[chunks.len() as int] == c);
        assert(hit_in(pats, next[chunks.len() as int], p, key.0));
    }
}

proof fn lemma_found_extend(pats: Seq<CompiledPattern>, chunks: Seq<Chunk>, end: int, floor: int, c: Chunk, key: Key)
    requires
        chunks_below(chunks, end),
        hits_beyond(pats, c, end, floor),
    ensures
        key.0 + key.1 <= end ==> (found(pats, chunks.push(c), key) <==> found(pats, chunks, key)),
        found(pats, chunks, key) ==> found(pats, chunks.push(c), key),
        found(pats, chunks.push(c), key) && key.0 + key.1 > end ==> key.0 >= floor,
{
    if found(pats, chunks, key) {
        let p = choose|p: int| #[trigger] hits(pats, chunks, p, key);
        lemma_hits_extend(pats, chunks, end, floor, c, p, key);
        lemma_hit_bounds(pats, chunks, end, p, key);
        assert(hits(pats, chunks.push(c), p, key));
    }
    if found(pats, chunks.push(c), key) {
        let p = choose|p: int| #[trigger] hits(pats, chunks.push(c), p, key);
        lemma_hits_extend(pats, chunks, end, floor, c, p, key);
        if key.0 + key.1 <= end {
            assert(hits(pats, chunks, p, key));
        } else {
            assert(hit_in(pats, c, p, key.0));
        }
    }
}

proof fn lemma_tags_transfer(pats: Seq<CompiledPattern>, a: Seq<Chunk>, b: Seq<Chunk>, m: FoundMatch)
    requires
        forall|p: int| #[trigger] hits(pats, a, p, match_key(m)) == hits(pats, b, p, match_key(m)),
        tags_exact(pats, a, m),
    ensures
        tags_exact(pats, b, m),
{
    reveal(tags_exact);
    assert forall|t: int| 0 <= t < m.tags@.len() implies #[trigger] tag_hits(pats, b, match_key(m), m.tags@[t]@) by {
        assert(tag_hits(pats, a, match_key(m), m.tags@[t]@));
        let p = choose|p: int| #[trigger] hits(pats, a, p, match_key(m)) && pats[p].tag@ == m.tags@[t]@;
        assert(hits(pats, b, p, match_key(m)));
    }
    assert forall|p: int| #[trigger] hits(pats, b, p, match_key(m)) implies tag_listed(m.tags@, pats[p].tag@) by {
        assert(hits(pats, a, p, match_key(m)));
    }
}

proof fn lemma_match_extend(pats: Seq<CompiledPattern>, chunks: Seq<Chunk>, end: int, floor: int, c: Chunk, m: FoundMatch)
    requires
        chunks_below(chunks, end),
        hits_beyond(pats, c, end, floor),
        found(pats, chunks, match_key(m)),
        tags_exact(pats, chunks, m),
    ensures
        found(pats, chunks.push(c), match_key(m)),
        tags_exact(pats, chunks.push(c), m),
{
    let key = match_key(m);
    lemma_found_bounds(pats, chunks, end, key);
    lemma_found_extend(pats, chunks, end, floor, c, key);
    assert forall|p: int| #[trigger] hits(pats, chunks, p, key) == hits(pats, chunks.push(c), p, key) by {
        lemma_hits_extend(pats, chunks, end, floor, c, p, key);
    }
    lemma_tags_transfer(pats, chunks, chunks.push(c), m);
}

proof fn lemma_reported_extend(pats: Seq<CompiledPattern>, chunks: Seq<Chunk>, end: int, floor: int, c: Chunk, out: Seq<FoundMatch>)
    requires
        chunks_below(chunks, end),
        hits_beyond(pats, c, end, floor),
        reported(pats, chunks, out),
    ensures
        reported(pats, chunks.push(c), out),
{
    assert forall|j: int| 0 <= j < out.len() implies found(pats, chunks.push(c), match_key(#[trigger] out[j])) && tags_exact(pats, chunks.push(c), out[j]) by {
        lemma_match_extend(pats, chunks, end, floor, c, out[j]);
    }
}

/// The hits of an accepted chunk end past everything seen and begin at or after
/// the horizon.
proof fn lemma_accepted_chunk(pats: Seq<CompiledPattern>, c: Chunk, end: int, run_open: bool, run_start: int, max_len: int)
    requires
        forall|p: int| 0 <= p < pats.len() ==> 1 <= (#[trigger] pats[p]).bytes@.len() <= max_len,
        0 <= c.2,
        run_open ==> c.0 >= run_start && c.0 + c.2 >= end,
        !run_open ==> c.2 == 0 && c.0 >= end,
    ensures
        hits_beyond(pats, c, end, if run_open {
            if end + 1 - max_len > run_start { end + 1 - max_len } else { run_start }
        } else {
            end
        }),
{
    reveal(hit_in);
    assert forall|p: int, a: int| #[trigger] hit_in(pats, c, p, a) implies a + pats[p].bytes@.len() > end && a >= (if run_open {
        if end + 1 - max_len > run_start { end + 1 - max_len } else { run_start }
    } else {
        end
    }) by {
        assert(1 <= pats[p].bytes@.len() <= max_len);
    }
}

/// The entries grouped from a chunk's sorted hits carry exact flags for the
/// extended chunks, lie past the old end and at or after the horizon, and list
/// every key the chunk hits.
proof fn lemma_grouped(
    pats: Seq<CompiledPattern>,
    chunks: Seq<Chunk>,
    end: int,
    floor: int,
    c: Chunk,
    raw: Seq<(u64, usize, usize)>,
    sorted: Seq<(u64, usize, usize)>,
    grouped: Seq<PendingKey>,
)
    requires
        pats.len() <= 64,
        0 <= c.0,
        c.0 + c.1.len() <= u64::MAX,
        chunks_below(chunks, end),
        hits_beyond(pats, c, end, floor),
        forall|k: int| 0 <= k < raw.len() ==> {
            let (a, l, p) = #[trigger] raw[k];
            &&& hit_in(pats, c, p as int, a as int)
            &&& l == pats[p as int].bytes@.len()
        },
        forall|p: int, a: int| #[trigger] hit_in(pats, c, p, a) ==> exists|k: int|
            0 <= k < raw.len() && #[trigger] raw[k] == (a as u64, pats[p].bytes@.len() as usize, p as usize),
        sorted.to_multiset() == raw.to_multiset(),
        forall|k: int, p: int| 0 <= k < grouped.len() && 0 <= p < 64 ==> (#[trigger] has_bit(grouped[k].hits, p)
            <==> triple_before(sorted, sorted.len() as int, grouped[k].address, grouped[k].length, p)),
        forall|k: int| 0 <= k < grouped.len() ==> some_bit(#[trigger] grouped[k].hits),
        forall|j: int| 0 <= j < sorted.len() ==> #[trigger] key_listed(grouped, (sorted[j].0 as int, sorted[j].1 as int)),
    ensures
        forall|k: int| 0 <= k < grouped.len() ==> #[trigger] flags_exact(pats, chunks.push(c), grouped[k]),
        forall|k: int| 0 <= k < grouped.len() ==> (#[trigger] grouped[k]).address + grouped[k].length > end
            && grouped[k].address >= floor,
        forall|key: Key| #[trigger] found(pats, chunks.push(c), key) && key.0 + key.1 > end ==> key_listed(grouped, key),
{
    reveal(hit_in);
    assert forall|t: (u64, usize, usize)| sorted.contains(t) <==> raw.contains(t) by {
        vstd::seq_lib::to_multiset_contains(sorted, t);
        vstd::seq_lib::to_multiset_contains(raw, t);
    }
    assert forall|k: int| 0 <= k < grouped.len() implies (#[trigger] grouped[k]).address + grouped[k].length > end
        && grouped[k].address >= floor by {
        let g = grouped[k];
        let q = choose|q: int| #[trigger] has_bit(g.hits, q);
        assert(triple_before(sorted, sorted.len() as int, g.address, g.length, q));
        let j = choose|j: int| 0 <= j < sorted.len() && #[trigger] sorted[j] == (g.address, g.length, q as usize);
        assert(sorted.contains(sorted[j]));
        let r = choose|r: int| 0 <= r < raw.len() && raw[r] == sorted[j];
        assert(raw[r] == (g.address, g.length, q as usize));
        assert(hit_in(pats, c, q, g.address as int));
    }
    assert forall|k: int| 0 <= k < grouped.len() implies #[trigger] flags_exact(pats, chunks.push(c), grouped[k]) by {
        let g = grouped[k];
        let key = pending_key(g);
        assert(g.address + g.length > end);
        assert forall|p: int| 0 <= p < 64 implies (#[trigger] has_bit(g.hits, p) <==> hits(pats, chunks.push(c), p, key)) by {
            lemma_hits_extend(pats, chunks, end, floor, c, p, key);
            if has_bit(g.hits, p) {
                assert(triple_before(sorted, sorted.len() as int, g.address, g.length, p));
                let j2 = choose|j2: int| 0 <= j2 < sorted.len() && #[trigger] sorted[j2] == (g.address, g.length, p as usize);
                assert(sorted.contains(sorted[j2]));
                let r2 = choose|r2: int| 0 <= r2 < raw.len() && raw[r2] == sorted[j2];
                assert(raw[r2] == (g.address, g.length, p as usize));
                assert(hit_in(pats, c, p, key.0));
                assert(hits(pats, chunks.push(c), p, key));
            }
            if hits(pats, chunks.push(c), p, key) {
                assert(hit_in(pats, c, p, key.0));
                let r2 = choose|r2: int| 0 <= r2 < raw.len() && #[trigger] raw[r2] == (key.0 as u64, pats[p].bytes@.len() as usize, p as usize);
                assert(raw.contains(raw[r2]));
                let j2 = choose|j2: int| 0 <= j2 < sorted.len() && sorted[j2] == raw[r2];
                assert(sorted[j2] == (g.address, g.length, p as usize));
                assert(triple_before(sorted, sorted.len() as int, g.address, g.length, p));
            }
        }
    }
    assert forall|key: Key| #[trigger] found(pats, chunks.push(c), key) && key.0 + key.1 > end implies key_listed(grouped, key) by {
        let p = choose|p: int| #[trigger] hits(pats, chunks.push(c), p, key);
        lemma_hits_extend(pats, chunks, end, floor, c, p, key);
        assert(hit_in(pats, c, p, key.0));
        reveal(hit_in);
        let r = choose|r: int| 0 <= r < raw.len() && #[trigger] raw[r] == (key.0 as u64, pats[p].bytes@.len() as usize, p as usize);
        assert(raw.contains(raw[r]));
        let j = choose|j: int| 0 <= j < sorted.len() && sorted[j] == raw[r];
        assert(key_listed(grouped, (sorted[j].0 as int, sorted[j].1 as int)));
    }
}

/// Every found match that is not reported lies above all reported ones, and then
/// the quota is full.
proof fn lemma_unreported_above(pats: Seq<CompiledPattern>, chunks: Seq<Chunk>, out: Seq<FoundMatch>, first: PendingKey, next: Option<u64>, quota: int)
    requires
        next is None ==> forall|key: Key| #[trigger] found(pats, chunks, key) ==> emitted(out, key),
        next is Some ==> {
            &&& out.len() == quota
            &&& forall|j: int| 0 <= j < out.len() ==> key_lt(match_key(#[trigger] out[j]), pending_key(first))
            &&& forall|key: Key| #[trigger] found(pats, chunks, key) && !emitted(out, key) ==> !key_lt(key, pending_key(first))
        },
    ensures
        forall|key: Key| #[trigger] found(pats, chunks, key) && !emitted(out, key) ==> out.len() == quota
            && forall|j: int| 0 <= j < out.len() ==> key_lt(match_key(#[trigger] out[j]), key),
{
    let key0 = pending_key(first);
    assert forall|key: Key| #[trigger] found(pats, chunks, key) && !emitted(out, key) implies out.len() == quota
        && forall|j: int| 0 <= j < out.len() ==> key_lt(match_key(#[trigger] out[j]), key) by {
        if next is Some {
            assert forall|j: int| 0 <= j < out.len() implies key_lt(match_key(#[trigger] out[j]), key) by {
                assert(key_lt(match_key(out[j]), key0));
            }
        }
    }
}

/// The stopping point a session reports is the address of the first match beyond
/// those it reports.
proof fn lemma_outcome_next(pats: Seq<CompiledPattern>, chunks: Seq<Chunk>, out: Seq<FoundMatch>, first: PendingKey, next: Option<u64>)
    requires
        next is None ==> forall|key: Key| #[trigger] found(pats, chunks, key) ==> emitted(out, key),
        next matches Some(a) ==> {
            &&& a == first.address
            &&& found(pats, chunks, pending_key(first))
            &&& forall|j: int| 0 <= j < out.len() ==> key_lt(match_key(#[trigger] out[j]), pending_key(first))
            &&& forall|key: Key| #[trigger] found(pats, chunks, key) && !emitted(out, key) ==> !key_lt(key, pending_key(first))
        },
    ensures
        next_is(pats, chunks, out, next),
{
    if next is Some {
        let key0 = pending_key(first);
        if emitted(out, key0) {
            let j = choose|j: int| 0 <= j < out.len() && match_key(#[trigger] out[j]) == key0;
            assert(key_lt(match_key(out[j]), key0));
        }
    }
}

/// Flushing every pending entry of a running session leaves exactly what
/// `lemma_outcome` needs.
proof fn lemma_final_flush(
    pats: Seq<CompiledPattern>,
    chunks: Seq<Chunk>,
    out0: Seq<FoundMatch>,
    pend0: Seq<PendingKey>,
    out1: Seq<FoundMatch>,
    rest: Seq<PendingKey>,
    next: Option<u64>,
    quota: int,
)
    requires
        ascending(pend0),
        forall|k: int| 0 <= k < pend0.len() ==> found(pats, chunks, pending_key(#[trigger] pend0[k])),
        forall|j: int, k: int| 0 <= j < out0.len() && 0 <= k < pend0.len()
            ==> key_lt(match_key(#[trigger] out0[j]), pending_key(#[trigger] pend0[k])),
        forall|key: Key| #[trigger] found(pats, chunks, key) ==> emitted(out0, key) || key_listed(pend0, key),
        out1.len() - out0.len() + rest.len() == pend0.len(),
        out0.len() <= out1.len(),
        out1.subrange(0, out0.len() as int) == out0,
        forall|j: int| out0.len() <= j < out1.len() ==> match_key(#[trigger] out1[j]) == pending_key(pend0[j - out0.len()]),
        rest == pend0.subrange(out1.len() - out0.len(), pend0.len() as int),
        next is None ==> rest.len() == 0,
        next matches Some(a) ==> out1.len() == quota && rest.len() > 0 && a == rest[0].address,
    ensures
        next is None ==> forall|key: Key| #[trigger] found(pats, chunks, key) ==> emitted(out1, key),
        next is Some ==> {
            &&& found(pats, chunks, pending_key(rest[0]))
            &&& forall|j: int| 0 <= j < out1.len() ==> key_lt(match_key(#[trigger] out1[j]), pending_key(rest[0]))
            &&& forall|key: Key| #[trigger] found(pats, chunks, key) && !emitted(out1, key) ==> !key_lt(key, pending_key(rest[0]))
        },
{
    let e = out1.len() - out0.len();
    assert forall|key: Key| #[trigger] found(pats, chunks, key) && !emitted(out1, key) implies exists|m: int|
        e <= m < pend0.len() && pending_key(#[trigger] pend0[m]) == key by {
        if emitted(out0, key) {
            let j = choose|j: int| 0 <= j < out0.len() && match_key(#[trigger] out0[j]) == key;
            assert(out1[j] == out0[j]);
        }
        let m = choose|m: int| 0 <= m < pend0.len() && pending_key(pend0[m]) == key;
        if m < e {
            assert(match_key(out1[out0.len() + m]) == pending_key(pend0[m]));
        }
    }
    if next is Some {
        assert(rest[0] == pend0[e]);
        assert forall|j: int| 0 <= j < out1.len() implies key_lt(match_key(#[trigger] out1[j]), pending_key(rest[0])) by {
            if j < out0.len() {
                assert(out1[j] == out0[j]);
            } else {
                assert(match_key(out1[j]) == pending_key(pend0[j - out0.len()]));
            }
        }
        assert forall|key: Key| #[trigger] found(pats, chunks, key) && !emitted(out1, key) implies !key_lt(key, pending_key(rest[0])) by {
            let m = choose|m: int| e <= m < pend0.len() && pending_key(#[trigger] pend0[m]) == key;
            if m > e {
                assert(key_lt(pending_key(pend0[e]), pending_key(pend0[m])));
            }
        }
    }
}

// ---------------------------------------------------------------------------
// The session
// ---------------------------------------------------------------------------

/// What a finished session reports.
#[derive(Debug, Clone)]
pub struct ScanOutcome {
    /// The least matches found, ascending, at most the quota.
    pub matches: Vec<FoundMatch>,
    /// Where the first match beyond the quota begins, when there is one.
    pub next_address: Option<u64>,
    /// Bytes examined that no earlier chunk had already shown.
    pub scanned_bytes: u64,
}

/// A streaming scan over chunks of captured memory.
pub struct ScanSession {
    patterns: Vec<CompiledPattern>,
    automaton: AhoCorasick,
    order: Vec<usize>,
    max_len: usize,
    quota: usize,
    output: Vec<FoundMatch>,
    pending: Vec<PendingKey>,
    next_address: Option<u64>,
    scanned: u64,
    data_end: u64,
    run_open: bool,
    run_start: u64,
    chunks: Ghost<Seq<Chunk>>,
    /// The run, as its first address and the data end, in which the session
    /// stopped.
    stop_window: Ghost<(int, int)>,
}

impl ScanSession {
    /// The patterns searched for.
    pub closed spec fn pattern_list(&self) -> Seq<CompiledPattern> {
        self.patterns@
    }

    /// The chunks fed so far, in order.
    pub closed spec fn fed(&self) -> Seq<Chunk> {
        self.chunks@
    }

    /// The most matches reported.
    pub closed spec fn quota(&self) -> int {
        self.quota as int
    }

    /// The end address of the last chunk fed (zero before the first).
    pub closed spec fn data_end(&self) -> int {
        self.data_end as int
    }

    /// Whether the last chunk's run may continue into the next chunk.
    pub closed spec fn run_open(&self) -> bool {
        self.run_open
    }

    /// The first address of the current run.
    pub closed spec fn run_start(&self) -> int {
        self.run_start as int
    }

    /// Whether the quota is full and a further match is final.
    pub closed spec fn stopped(&self) -> bool {
        self.next_address is Some
    }

    /// Bytes scanned so far.
    pub closed spec fn scanned(&self) -> int {
        self.scanned as int
    }

    /// Where the session stopped: from the first address of the run it stopped
    /// in to the end of the data fed when it stopped.
    pub closed spec fn stop_window(&self) -> (int, int) {
        self.stop_window@
    }

    /// A chunk at `base` whose first `carry` bytes repeat earlier data may follow:
    /// within an open run it starts inside the run and ends its carried bytes at or
    /// past the data seen so far; otherwise it carries nothing and starts past
    /// everything seen.
    pub open spec fn accepts(&self, base: u64, carry: usize) -> bool {
        if self.run_open() {
            base >= self.run_start() && base + carry >= self.data_end()
        } else {
            carry == 0 && base >= self.data_end()
        }
    }

    /// No key of a later chunk can begin below this address.
    closed spec fn horizon(&self) -> int {
        if self.run_open {
            let tail = self.data_end + 1 - self.max_len;
            if tail > self.run_start { tail } else { self.run_start as int }
        } else {
            self.data_end as int
        }
    }

    /// The session's invariant.
    pub closed spec fn wf(&self) -> bool {
        let pats = self.patterns@;
        let chunks = self.chunks@;
        &&& patterns_ok(pats)
        &&& 1 <= pats.len() <= 64
        &&& searches_for(self.automaton, pats)
        &&& tag_order_of(self.order@, pats)
        &&& forall|p: int| 0 <= p < pats.len() ==> (#[trigger] pats[p]).bytes@.len() <= self.max_len
        &&& 1 <= self.max_len <= 4096
        &&& 1 <= self.quota
        &&& chunks_below(chunks, self.data_end as int)
        &&& self.scanned <= self.data_end
        &&& self.run_open ==> self.run_start <= self.data_end
        &&& reported(pats, chunks, self.output@)
        &&& self.output@.len() <= self.quota
        &&& forall|j: int| 0 <= j < self.output@.len() ==> (#[trigger] self.output@[j]).address < self.horizon()
        &&& ascending(self.pending@)
        &&& forall|k: int| 0 <= k < self.pending@.len() ==> found(pats, chunks, pending_key(#[trigger] self.pending@[k]))
        &&& forall|j: int, k: int| 0 <= j < self.output@.len() && 0 <= k < self.pending@.len()
            ==> key_lt(match_key(#[trigger] self.output@[j]), pending_key(#[trigger] self.pending@[k]))
        &&& match self.next_address {
            None => {
                &&& forall|k: int| 0 <= k < self.pending@.len() ==> #[trigger] flags_exact(pats, chunks, self.pending@[k])
                &&& forall|k: int| 0 <= k < self.pending@.len() ==> (#[trigger] self.pending@[k]).address >= self.horizon()
                &&& forall|key: Key| #[trigger] found(pats, chunks, key) ==> emitted(self.output@, key) || key_listed(self.pending@, key)
            },
            Some(a) => {
                &&& self.stop_window@.0 <= a < self.stop_window@.1
                &&& self.output@.len() == self.quota
                &&& self.pending@.len() > 0
                &&& a == self.pending@[0].address
                &&& self.pending@[0].address < self.horizon()
                &&& forall|key: Key| #[trigger] found(pats, chunks, key) && !emitted(self.output@, key)
                    ==> !key_lt(key, pending_key(self.pending@[0]))
            },
        }
    }

    /// Starts a session over `patterns` that reports at most `quota` matches.
    /// The search automaton over at most 64 anchors of at most 4096 bytes always
    /// builds, so the session always starts.
    pub fn new(patterns: Vec<CompiledPattern>, quota: usize) -> (res: Result<ScanSession>)
        requires
            patterns_ok(patterns@),
            1 <= patterns@.len() <= 64,
            1 <= quota,
        ensures
            res is Ok,
            res matches Ok(s) ==> {
                &&& s.wf()
                &&& s.pattern_list() == patterns@
                &&& s.fed() == Seq::<Chunk>::empty()
                &&& s.quota() == quota
                &&& !s.stopped()
                &&& s.data_end() == 0
                &&& !s.run_open()
                &&& s.scanned() == 0
            },
    {
        let mut needles: Vec<Vec<u8>> = Vec::new();
        let mut max_len: usize = 0;
        let mut i: usize = 0;
        while i < patterns.len()
            invariant
                0 <= i <= patterns@.len(),
                patterns_ok(patterns@),
                needles@.len() == i,
                forall|p: int| 0 <= p < i ==> (#[trigger] needles@[p])@ == needle_of(patterns@[p]),
                forall|p: int| 0 <= p < i ==> (#[trigger] patterns@[p]).bytes@.len() <= max_len,
                max_len <= 4096,
                i > 0 ==> max_len >= 1,
            decreases patterns@.len() - i,
        {
            let c = &patterns[i];
            proof {
                assert(searchable(patterns@[i as int]));
            }
            let needle = vstd::slice::slice_to_vec(vstd::slice::slice_subrange(c.bytes.as_slice(), c.needle_offset, c.needle_offset + c.needle_len));
            needles.push(needle);
            if c.bytes.len() > max_len {
                max_len = c.bytes.len();
            }
            i = i + 1;
        }
        proof {
            assert forall|p: int| 0 <= p < needles@.len() implies (#[trigger] needles@[p])@.len() <= 4096 by {
                assert(searchable(patterns@[p]));
            }
        }
        let automaton = match build_automaton(&needles) {
            Ok(a) => a,
            Err(e) => {
                return Err(Error::InvalidSpec(build_error_text(&e)));
            },
        };
        let order = tag_order(&patterns);
        let s = ScanSession {
            patterns,
            automaton,
            order,
            max_len,
            quota,
            output: Vec::new(),
            pending: Vec::new(),
            next_address: None,
            scanned: 0,
            data_end: 0,
            run_open: false,
            run_start: 0,
            chunks: Ghost(Seq::empty()),
            stop_window: Ghost((0, 0)),
        };
        proof {
            assert forall|p: int| 0 <= p < s.patterns@.len() implies #[trigger] automaton_needles(s.automaton)[p] == needle_of(s.patterns@[p]) by {
                assert(needles@[p]@ == needle_of(s.patterns@[p]));
            }
        }
        Ok(s)
    }

    fn horizon_after(max_len: usize, end: u64, open: bool, start: u64) -> (res: u64)
        requires
            1 <= max_len <= 4096,
        ensures
            res == (if open {
                if end + 1 - max_len > start { end + 1 - max_len } else { start as int }
            } else {
                end as int
            }),
    {
        if open {
            let m1 = (max_len - 1) as u64;
            let tail = if end >= m1 { end - m1 } else { 0 };
            if tail > start { tail } else { start }
        } else {
            end
        }
    }

    /// Feeds the next chunk: `bytes` at `base`, whose first `carry` bytes repeat
    /// the end of the previous chunk. `last_in_run` says that no later chunk will
    /// carry bytes over from this one. A stopped session only records the chunk.
    pub fn feed(&mut self, base: u64, bytes: &[u8], carry: usize, last_in_run: bool)
        requires
            old(self).wf(),
            carry <= bytes@.len(),
            base + bytes@.len() <= u64::MAX,
            old(self).accepts(base, carry),
        ensures
            final(self).wf(),
            final(self).pattern_list() == old(self).pattern_list(),
            final(self).quota() == old(self).quota(),
            final(self).fed() == old(self).fed().push((base as int, bytes@, carry as int)),
            final(self).data_end() == base + bytes@.len(),
            final(self).run_open() == !last_in_run,
            final(self).run_start() == (if old(self).run_open() { old(self).run_start() } else { base as int }),
            old(self).stopped() ==> final(self).stopped() && final(self).scanned() == old(self).scanned(),
            !old(self).stopped() ==> final(self).scanned() == old(self).scanned() + bytes@.len() - carry,
            old(self).stopped() ==> final(self).stop_window() == old(self).stop_window(),
            !old(self).stopped() && final(self).stopped()
                ==> final(self).stop_window() == (final(self).run_start(), final(self).data_end()),
    {
        let ghost c: Chunk = (base as int, bytes@, carry as int);
        let ghost chunks = self.chunks@;
        let ghost old_horizon = self.horizon();
        let ghost end = self.data_end as int;
        let ghost pats = self.patterns@;
        proof {
            lemma_accepted_chunk(pats, c, end, self.run_open, self.run_start as int, self.max_len as int);
        }
        let len = bytes.len();
        let new_end = base + len as u64;
        let new_start = if self.run_open { self.run_start } else { base };
        let new_open = !last_in_run;
        let limit = Self::horizon_after(self.max_len, new_end, new_open, new_start);
        proof {
            assert(old_horizon <= limit);
        }
        if self.next_address.is_some() {
            self.data_end = new_end;
            self.run_open = new_open;
            self.run_start = new_start;
            self.chunks = Ghost(chunks.push(c));
            proof {
                lemma_reported_extend(pats, chunks, end, old_horizon, c, self.output@);
                assert forall|k: int| 0 <= k < self.pending@.len() implies found(pats, chunks.push(c), pending_key(#[trigger] self.pending@[k])) by {
                    lemma_found_extend(pats, chunks, end, old_horizon, c, pending_key(self.pending@[k]));
                }
                assert forall|key: Key| #[trigger] found(pats, chunks.push(c), key) && !emitted(self.output@, key)
                    implies !key_lt(key, pending_key(self.pending@[0])) by {
                    lemma_found_extend(pats, chunks, end, old_horizon, c, key);
                }
                assert(self.horizon() == limit);
            }
            return;
        }
        self.scanned = self.scanned + (len - carry) as u64;
        let mut triples = chunk_hits(&self.patterns, &self.automaton, base, bytes, carry);
        let ghost raw = triples@;
        sort_hits(&mut triples);
        proof {
            assert forall|j: int| 0 <= j < triples@.len() implies (#[trigger] triples@[j]).2 < 64 by {
                vstd::seq_lib::to_multiset_contains(triples@, triples@[j]);
                vstd::seq_lib::to_multiset_contains(raw, triples@[j]);
                assert(triples@.contains(triples@[j]));
                let r = choose|r: int| 0 <= r < raw.len() && raw[r] == triples@[j];
            }
        }
        let grouped = group_hits(&triples);
        proof {
            lemma_grouped(pats, chunks, end, old_horizon, c, raw, triples@, grouped@);
            assert forall|j: int, k: int| 0 <= j < self.pending@.len() && 0 <= k < grouped@.len()
                implies pending_key(#[trigger] self.pending@[j]) != pending_key(#[trigger] grouped@[k]) by {
                lemma_found_bounds(pats, chunks, end, pending_key(self.pending@[j]));
            }
        }
        let merged = merge_keys(&self.pending, &grouped);
        self.data_end = new_end;
        self.run_open = new_open;
        self.run_start = new_start;
        self.chunks = Ghost(chunks.push(c));
        let ghost out0 = self.output@;
        let ghost pend0 = self.pending@;
        proof {
            lemma_reported_extend(pats, chunks, end, old_horizon, c, out0);
            lemma_merged_ready(pats, chunks, c, end, old_horizon, out0, pend0, grouped@, merged@);
        }
        let (rest, next) = flush(&self.patterns, &self.order, &mut self.output, &merged, Some(limit), self.quota, Ghost(chunks.push(c)));
        proof {
            lemma_flushed_state(pats, chunks, c, end, old_horizon, limit as int, out0, pend0, grouped@, merged@, self.output@, rest@, next, self.quota as int);
        }
        self.pending = rest;
        self.next_address = next;
        let ghost window = if next is Some { (new_start as int, new_end as int) } else { self.stop_window@ };
        self.stop_window = Ghost(window);
        proof {
            assert(self.horizon() == limit);
            if let Some(a) = next {
                let key = pending_key(rest@[0]);
                assert(found(pats, chunks.push(c), key));
                assert forall|j: int| 0 <= j < self.output@.len() implies match_key(#[trigger] self.output@[j]) != key by {
                    assert(key_lt(match_key(self.output@[j]), key));
                }
                lemma_next_in_run(pats, chunks, c, end, old_horizon, out0, pend0, self.output@, key, new_start as int);
                lemma_found_bounds(pats, chunks.push(c), new_end as int, key);
                lemma_found_length(pats, chunks.push(c), key);
            }
        }
    }

    /// Ends the session: reports the least matches found in every chunk fed, at
    /// most the quota, in ascending order, and where the first match beyond them
    /// begins.
    pub fn finish(self) -> (res: ScanOutcome)
        requires
            self.wf(),
        ensures
            least_matches(self.pattern_list(), self.fed(), res.matches@, self.quota()),
            next_is(self.pattern_list(), self.fed(), res.matches@, res.next_address),
            res.scanned_bytes == self.scanned(),
            self.stopped() ==> (res.next_address matches Some(a) && self.stop_window().0 <= a < self.stop_window().1),
            !self.stopped() && !self.run_open() ==> res.next_address is None,
    {
        let ghost pats = self.patterns@;
        let ghost chunks = self.chunks@;
        if self.next_address.is_some() {
            proof {
                lemma_unreported_above(pats, chunks, self.output@, self.pending@[0], self.next_address, self.quota as int);
                lemma_outcome_next(pats, chunks, self.output@, self.pending@[0], self.next_address);
            }
            let outcome = ScanOutcome { matches: self.output, next_address: self.next_address, scanned_bytes: self.scanned };
            return outcome;
        }
        proof {
            if !self.run_open && self.pending@.len() > 0 {
                let key = pending_key(self.pending@[0]);
                lemma_found_bounds(pats, chunks, self.data_end as int, key);
                lemma_found_length(pats, chunks, key);
                assert(self.pending@[0].address >= self.horizon());
            }
        }
        let mut out = self.output;
        let ghost out0 = out@;
        let (rest, next) = flush(&self.patterns, &self.order, &mut out, &self.pending, None, self.quota, Ghost(chunks));
        proof {
            if next is None && rest@.len() > 0 {
                let x = rest@[0];
            }
            lemma_final_flush(pats, chunks, out0, self.pending@, out@, rest@, next, self.quota as int);
            let first = if next is Some { rest@[0] } else { self.pending@[0] };
            lemma_unreported_above(pats, chunks, out@, first, next, self.quota as int);
            lemma_outcome_next(pats, chunks, out@, first, next);
        }
        ScanOutcome { matches: out, next_address: next, scanned_bytes: self.scanned }
    }

    /// Whether the quota is full and a further match is final; later chunks are
    /// then ignored.
    pub fn is_stopped(&self) -> (res: bool)
        ensures
            res == self.stopped(),
    {
        self.next_address.is_some()
    }

    /// Whether a chunk at `base` carrying `carry` bytes may be fed next.
    pub fn accepts_chunk(&self, base: u64, carry: usize) -> (res: bool)
        ensures
            res == self.accepts(base, carry),
    {
        if self.run_open {
            base >= self.run_start && base as u128 + carry as u128 >= self.data_end as u128
        } else {
            carry == 0 && base >= self.data_end
        }
    }
}

/// The merge of the old pending entries with a chunk's grouped entries carries
/// exact flags and lies above every reported match.
proof fn lemma_merged_ready(
    pats: Seq<CompiledPattern>,
    chunks: Seq<Chunk>,
    c: Chunk,
    end: int,
    old_horizon: int,
    out0: Seq<FoundMatch>,
    pend0: Seq<PendingKey>,
    grouped: Seq<PendingKey>,
    merged: Seq<PendingKey>,
)
    requires
        chunks_below(chunks, end),
        hits_beyond(pats, c, end, old_horizon),
        forall|j: int| 0 <= j < out0.len() ==> (#[trigger] out0[j]).address < old_horizon,
        forall|k: int| 0 <= k < pend0.len() ==> #[trigger] flags_exact(pats, chunks, pend0[k]),
        forall|j: int, k: int| 0 <= j < out0.len() && 0 <= k < pend0.len()
            ==> key_lt(match_key(#[trigger] out0[j]), pending_key(#[trigger] pend0[k])),
        forall|k: int| 0 <= k < grouped.len() ==> #[trigger] flags_exact(pats, chunks.push(c), grouped[k]),
        forall|k: int| 0 <= k < grouped.len() ==> (#[trigger] grouped[k]).address + grouped[k].length > end
            && grouped[k].address >= old_horizon,
        forall|k: int| 0 <= k < merged.len() ==> pend0.contains(#[trigger] merged[k]) || grouped.contains(merged[k]),
    ensures
        forall|k: int| 0 <= k < merged.len() ==> #[trigger] flags_exact(pats, chunks.push(c), merged[k]),
        forall|j: int, k: int| 0 <= j < out0.len() && 0 <= k < merged.len()
            ==> key_lt(match_key(#[trigger] out0[j]), pending_key(#[trigger] merged[k])),
{
    let next_chunks = chunks.push(c);
    assert forall|k: int| 0 <= k < merged.len() implies #[trigger] flags_exact(pats, next_chunks, merged[k]) by {
        if pend0.contains(merged[k]) {
            let j = choose|j: int| 0 <= j < pend0.len() && pend0[j] == merged[k];
            let g = pend0[j];
            assert(flags_exact(pats, chunks, g));
            lemma_found_of_flags(pats, chunks, g);
            lemma_found_bounds(pats, chunks, end, pending_key(g));
            assert forall|p: int| 0 <= p < 64 implies (#[trigger] has_bit(g.hits, p) <==> hits(pats, next_chunks, p, pending_key(g))) by {
                lemma_hits_extend(pats, chunks, end, old_horizon, c, p, pending_key(g));
            }
        } else {
            let j = choose|j: int| 0 <= j < grouped.len() && grouped[j] == merged[k];
            assert(flags_exact(pats, next_chunks, grouped[j]));
        }
    }
    assert forall|j: int, k: int| 0 <= j < out0.len() && 0 <= k < merged.len()
        implies key_lt(match_key(#[trigger] out0[j]), pending_key(#[trigger] merged[k])) by {
        if pend0.contains(merged[k]) {
            let i = choose|i: int| 0 <= i < pend0.len() && pend0[i] == merged[k];
            assert(key_lt(match_key(out0[j]), pending_key(pend0[i])));
        } else {
            let i = choose|i: int| 0 <= i < grouped.len() && grouped[i] == merged[k];
            assert(grouped[i].address >= old_horizon);
        }
    }
}

/// After a chunk is added to a running session: the old pending entries and the
/// chunk's grouped entries, merged and flushed, leave a consistent state.
#[verifier::rlimit(60)]
proof fn lemma_flushed_state(
    pats: Seq<CompiledPattern>,
    chunks: Seq<Chunk>,
    c: Chunk,
    end: int,
    old_horizon: int,
    new_horizon: int,
    out0: Seq<FoundMatch>,
    pend0: Seq<PendingKey>,
    grouped: Seq<PendingKey>,
    merged: Seq<PendingKey>,
    out1: Seq<FoundMatch>,
    rest: Seq<PendingKey>,
    next: Option<u64>,
    quota: int,
)
    requires
        chunks_below(chunks, end),
        hits_beyond(pats, c, end, old_horizon),
        old_horizon <= new_horizon,
        // the old state
        reported(pats, chunks, out0),
        forall|j: int| 0 <= j < out0.len() ==> (#[trigger] out0[j]).address < old_horizon,
        forall|k: int| 0 <= k < pend0.len() ==> #[trigger] flags_exact(pats, chunks, pend0[k]),
        forall|j: int, k: int| 0 <= j < out0.len() && 0 <= k < pend0.len()
            ==> key_lt(match_key(#[trigger] out0[j]), pending_key(#[trigger] pend0[k])),
        forall|key: Key| #[trigger] found(pats, chunks, key) ==> emitted(out0, key) || key_listed(pend0, key),
        // the chunk's entries
        forall|k: int| 0 <= k < grouped.len() ==> #[trigger] flags_exact(pats, chunks.push(c), grouped[k]),
        forall|k: int| 0 <= k < grouped.len() ==> (#[trigger] grouped[k]).address + grouped[k].length > end
            && grouped[k].address >= old_horizon,
        forall|key: Key| #[trigger] found(pats, chunks.push(c), key) && key.0 + key.1 > end ==> key_listed(grouped, key),
        // the merge
        ascending(merged),
        forall|k: int| 0 <= k < merged.len() ==> pend0.contains(#[trigger] merged[k]) || grouped.contains(merged[k]),
        forall|j: int| 0 <= j < pend0.len() ==> merged.contains(#[trigger] pend0[j]),
        forall|j: int| 0 <= j < grouped.len() ==> merged.contains(#[trigger] grouped[j]),
        // the flush
        out1.len() - out0.len() + rest.len() == merged.len(),
        out0.len() <= out1.len() <= quota,
        out1.subrange(0, out0.len() as int) == out0,
        forall|j: int| out0.len() <= j < out1.len() ==> match_key(#[trigger] out1[j]) == pending_key(merged[j - out0.len()])
            && out1[j].address < new_horizon,
        rest == merged.subrange(out1.len() - out0.len(), merged.len() as int),
        reported(pats, chunks.push(c), out1),
        next is None ==> forall|k: int| 0 <= k < rest.len() ==> new_horizon <= (#[trigger] rest[k]).address,
        next matches Some(a) ==> out1.len() == quota && rest.len() > 0 && a == rest[0].address && a < new_horizon,
        forall|k: int| 0 <= k < merged.len() ==> #[trigger] flags_exact(pats, chunks.push(c), merged[k]),
        forall|j: int, k: int| 0 <= j < out0.len() && 0 <= k < merged.len()
            ==> key_lt(match_key(#[trigger] out0[j]), pending_key(#[trigger] merged[k])),
    ensures
        forall|j: int| 0 <= j < out1.len() ==> (#[trigger] out1[j]).address < new_horizon,
        ascending(rest),
        forall|k: int| 0 <= k < rest.len() ==> found(pats, chunks.push(c), pending_key(#[trigger] rest[k])),
        forall|j: int, k: int| 0 <= j < out1.len() && 0 <= k < rest.len()
            ==> key_lt(match_key(#[trigger] out1[j]), pending_key(#[trigger] rest[k])),
        next is None ==> forall|k: int| 0 <= k < rest.len() ==> #[trigger] flags_exact(pats, chunks.push(c), rest[k]),
        next is None ==> forall|key: Key| #[trigger] found(pats, chunks.push(c), key) ==> emitted(out1, key) || key_listed(rest, key),
        next matches Some(a) ==> forall|key: Key| #[trigger] found(pats, chunks.push(c), key) && !emitted(out1, key)
            ==> !key_lt(key, pending_key(rest[0])),
{
    let next_chunks = chunks.push(c);
    let e = out1.len() - out0.len();
    assert forall|j: int| 0 <= j < out1.len() implies (#[trigger] out1[j]).address < new_horizon by {
        if j < out0.len() {
            assert(out1[j] == out0[j]);
        }
    }
    assert forall|a: int, b: int| 0 <= a < b < rest.len() implies key_lt(pending_key(#[trigger] rest[a]), pending_key(#[trigger] rest[b])) by {
        assert(rest[a] == merged[e + a]);
        assert(rest[b] == merged[e + b]);
    }
    assert forall|k: int| 0 <= k < rest.len() implies found(pats, next_chunks, pending_key(#[trigger] rest[k])) by {
        assert(rest[k] == merged[e + k]);
        assert(flags_exact(pats, next_chunks, merged[e + k]));
        lemma_found_of_flags(pats, next_chunks, rest[k]);
    }
    assert forall|j: int, k: int| 0 <= j < out1.len() && 0 <= k < rest.len()
        implies key_lt(match_key(#[trigger] out1[j]), pending_key(#[trigger] rest[k])) by {
        assert(rest[k] == merged[e + k]);
        if j < out0.len() {
            assert(out1[j] == out0[j]);
        } else {
            assert(match_key(out1[j]) == pending_key(merged[j - out0.len()]));
            assert(key_lt(pending_key(merged[j - out0.len()]), pending_key(merged[e + k])));
        }
    }
    assert forall|key: Key| #[trigger] found(pats, next_chunks, key) && !emitted(out1, key) implies exists|m: int|
        e <= m < merged.len() && pending_key(#[trigger] merged[m]) == key by {
        lemma_found_extend(pats, chunks, end, old_horizon, c, key);
        if key.0 + key.1 <= end {
            if emitted(out0, key) {
                let j = choose|j: int| 0 <= j < out0.len() && match_key(#[trigger] out0[j]) == key;
                assert(out1[j] == out0[j]);
                assert(false);
            }
            assert(key_listed(pend0, key));
            let j = choose|j: int| 0 <= j < pend0.len() && pending_key(pend0[j]) == key;
            assert(merged.contains(pend0[j]));
            let m = choose|m: int| 0 <= m < merged.len() && merged[m] == pend0[j];
            if m < e {
                assert(match_key(out1[out0.len() + m]) == pending_key(merged[m]));
                assert(false);
            }
        } else {
            assert(key_listed(grouped, key));
            let j = choose|j: int| 0 <= j < grouped.len() && pending_key(grouped[j]) == key;
            assert(merged.contains(grouped[j]));
            let m = choose|m: int| 0 <= m < merged.len() && merged[m] == grouped[j];
            if m < e {
                assert(match_key(out1[out0.len() + m]) == pending_key(merged[m]));
                assert(false);
            }
        }
    }
    if next is None {
        assert forall|k: int| 0 <= k < rest.len() implies #[trigger] flags_exact(pats, next_chunks, rest[k]) by {
            assert(rest[k] == merged[e + k]);
        }
        assert forall|key: Key| #[trigger] found(pats, next_chunks, key) implies emitted(out1, key) || key_listed(rest, key) by {
            if !emitted(out1, key) {
                let m = choose|m: int| e <= m < merged.len() && pending_key(#[trigger] merged[m]) == key;
                assert(rest[m - e] == merged[m]);
            }
        }
    }
    if next is Some {
        assert forall|key: Key| #[trigger] found(pats, next_chunks, key) && !emitted(out1, key)
            implies !key_lt(key, pending_key(rest[0])) by {
            let m = choose|m: int| e <= m < merged.len() && pending_key(#[trigger] merged[m]) == key;
            assert(rest[0] == merged[e]);
            if m > e {
                assert(key_lt(pending_key(merged[e]), pending_key(merged[m])));
            }
        }
    }
}

// ---------------------------------------------------------------------------
// Laws
// ---------------------------------------------------------------------------

/// `keys` holds, ascending, the least members of `set`, as many as there are up
/// to `quota`.
pub open spec fn least_keys(set: spec_fn(Key) -> bool, keys: Seq<Key>, quota: int) -> bool {
    &&& keys.len() <= quota
    &&& forall|j: int, k: int| 0 <= j < k < keys.len() ==> key_lt(#[trigger] keys[j], #[trigger] keys[k])
    &&& forall|j: int| 0 <= j < keys.len() ==> set(#[trigger] keys[j])
    &&& forall|key: Key| set(key) && !keys.contains(key) ==> keys.len() == quota
        && forall|j: int| 0 <= j < keys.len() ==> key_lt(#[trigger] keys[j], key)
}

proof fn lemma_least_keys_prefix(set: spec_fn(Key) -> bool, a: Seq<Key>, qa: int, b: Seq<Key>, qb: int, n: int)
    requires
        0 <= n <= a.len(),
        qa <= qb,
        least_keys(set, a, qa),
        least_keys(set, b, qb),
    ensures
        n <= b.len(),
        forall|i: int| 0 <= i < n ==> #[trigger] a[i] == b[i],
    decreases n,
{
    if n > 0 {
        lemma_least_keys_prefix(set, a, qa, b, qb, n - 1);
        let i = n - 1;
        let ka = a[i];
        assert(set(ka));
        if b.contains(ka) {
            let j = choose|j: int| 0 <= j < b.len() && b[j] == ka;
            if j < i {
                assert(a[j] == b[j]);
                assert(key_lt(a[j], a[i]));
            } else if j > i {
                let kb = b[i];
                assert(key_lt(kb, ka));
                assert(set(kb));
                if a.contains(kb) {
                    let m = choose|m: int| 0 <= m < a.len() && a[m] == kb;
                    if m < i {
                        assert(a[m] == b[m]);
                        assert(key_lt(b[m], b[i]));
                    } else if m > i {
                        assert(key_lt(a[i], a[m]));
                    }
                } else {
                    assert(key_lt(a[i], kb));
                }
            }
        } else {
            assert(b.len() == qb);
            let kb = b[i];
            assert(key_lt(kb, ka));
            assert(set(kb));
            if a.contains(kb) {
                let m = choose|m: int| 0 <= m < a.len() && a[m] == kb;
                if m < i {
                    assert(a[m] == b[m]);
                    assert(key_lt(b[m], b[i]));
                } else if m > i {
                    assert(key_lt(a[i], a[m]));
                }
            } else {
                assert(key_lt(a[i], kb));
            }
        }
    }
}

/// The keys of reported matches.
pub open spec fn keys_of(out: Seq<FoundMatch>) -> Seq<Key> {
    out.map_values(|m: FoundMatch| match_key(m))
}

proof fn lemma_least_keys_of(pats: Seq<CompiledPattern>, chunks: Seq<Chunk>, out: Seq<FoundMatch>, quota: int)
    requires
        least_matches(pats, chunks, out, quota),
    ensures
        least_keys(|key: Key| found(pats, chunks, key), keys_of(out), quota),
{
    let keys = keys_of(out);
    let set = |key: Key| found(pats, chunks, key);
    assert forall|key: Key| set(key) && !keys.contains(key) implies keys.len() == quota
        && forall|j: int| 0 <= j < keys.len() ==> key_lt(#[trigger] keys[j], key) by {
        if emitted(out, key) {
            let j = choose|j: int| 0 <= j < out.len() && match_key(#[trigger] out[j]) == key;
            assert(keys[j] == key);
        }
        assert(found(pats, chunks, key) && !emitted(out, key));
        assert forall|j: int| 0 <= j < keys.len() implies key_lt(#[trigger] keys[j], key) by {
            assert(key_lt(match_key(out[j]), key));
        }
    }
    assert forall|j: int, k: int| 0 <= j < k < keys.len() implies key_lt(#[trigger] keys[j], #[trigger] keys[k]) by {
        assert(key_lt(match_key(out[j]), match_key(out[k])));
    }
    assert forall|j: int| 0 <= j < keys.len() implies set(#[trigger] keys[j]) by {
        assert(found(pats, chunks, match_key(out[j])));
    }
}

/// Reports that meet `least_matches` for the same chunks agree: a smaller match
/// quota reports a prefix of what a larger quota reports, so raising the quota
/// only ever appends matches.
pub proof fn quota_reports_a_prefix(
    pats: Seq<CompiledPattern>,
    chunks: Seq<Chunk>,
    small: Seq<FoundMatch>,
    small_quota: int,
    large: Seq<FoundMatch>,
    large_quota: int,
)
    requires
        small_quota <= large_quota,
        least_matches(pats, chunks, small, small_quota),
        least_matches(pats, chunks, large, large_quota),
    ensures
        small.len() <= large.len(),
        forall|i: int| 0 <= i < small.len() ==> match_key(#[trigger] small[i]) == match_key(large[i]),
{
    lemma_least_keys_of(pats, chunks, small, small_quota);
    lemma_least_keys_of(pats, chunks, large, large_quota);
    lemma_least_keys_prefix(|key: Key| found(pats, chunks, key), keys_of(small), small_quota, keys_of(large), large_quota, small.len() as int);
    assert forall|i: int| 0 <= i < small.len() implies match_key(#[trigger] small[i]) == match_key(large[i]) by {
        assert(keys_of(small)[i] == keys_of(large)[i]);
    }
}

/// Sessions that found the same matches report the same ones: for the same
/// quota, least matches over two feeds whose found keys agree have the same keys
/// in the same order, and name the same next address.
pub proof fn same_hits_same_report(
    pats1: Seq<CompiledPattern>,
    chunks1: Seq<Chunk>,
    out1: Seq<FoundMatch>,
    next1: Option<u64>,
    pats2: Seq<CompiledPattern>,
    chunks2: Seq<Chunk>,
    out2: Seq<FoundMatch>,
    next2: Option<u64>,
    quota: int,
)
    requires
        forall|key: Key| found(pats1, chunks1, key) <==> found(pats2, chunks2, key),
        least_matches(pats1, chunks1, out1, quota),
        least_matches(pats2, chunks2, out2, quota),
        next_is(pats1, chunks1, out1, next1),
        next_is(pats2, chunks2, out2, next2),
    ensures
        out1.len() == out2.len(),
        forall|i: int| 0 <= i < out1.len() ==> match_key(#[trigger] out1[i]) == match_key(out2[i]),
        next1 == next2,
{
    lemma_least_keys_of(pats1, chunks1, out1, quota);
    lemma_least_keys_of(pats2, chunks2, out2, quota);
    let set1 = |key: Key| found(pats1, chunks1, key);
    let set2 = |key: Key| found(pats2, chunks2, key);
    assert(set1 =~= set2);
    lemma_least_keys_prefix(set1, keys_of(out1), quota, keys_of(out2), quota, out1.len() as int);
    lemma_least_keys_prefix(set1, keys_of(out2), quota, keys_of(out1), quota, out2.len() as int);
    assert forall|i: int| 0 <= i < out1.len() implies match_key(#[trigger] out1[i]) == match_key(out2[i]) by {
        assert(keys_of(out1)[i] == keys_of(out2)[i]);
    }
    assert forall|key: Key| emitted(out1, key) <==> emitted(out2, key) by {
        if emitted(out1, key) {
            let j = choose|j: int| 0 <= j < out1.len() && match_key(#[trigger] out1[j]) == key;
            assert(match_key(out2[j]) == key);
        }
        if emitted(out2, key) {
            let j = choose|j: int| 0 <= j < out2.len() && match_key(#[trigger] out2[j]) == key;
            assert(match_key(out1[j]) == key);
        }
    }
    match next1 {
        None => {
            if let Some(b) = next2 {
                let k2 = choose|key: Key| #[trigger] found(pats2, chunks2, key) && !emitted(out2, key) && key.0 == b
                    && forall|other: Key| #[trigger] found(pats2, chunks2, other) && !emitted(out2, other) ==> !key_lt(other, key);
                assert(found(pats1, chunks1, k2));
                assert(emitted(out1, k2));
                assert(false);
            }
        },
        Some(a) => {
            let k1 = choose|key: Key| #[trigger] found(pats1, chunks1, key) && !emitted(out1, key) && key.0 == a
                && forall|other: Key| #[trigger] found(pats1, chunks1, other) && !emitted(out1, other) ==> !key_lt(other, key);
            assert(found(pats2, chunks2, k1));
            assert(!emitted(out2, k1));
            match next2 {
                None => {
                    assert(emitted(out2, k1));
                },
                Some(b) => {
                    let k2 = choose|key: Key| #[trigger] found(pats2, chunks2, key) && !emitted(out2, key) && key.0 == b
                        && forall|other: Key| #[trigger] found(pats2, chunks2, other) && !emitted(out2, other) ==> !key_lt(other, key);
                    assert(found(pats1, chunks1, k2));
                    assert(!emitted(out1, k2));
                    assert(!key_lt(k2, k1));
                    assert(!key_lt(k1, k2));
                },
            }
        },
    }
}

/// Two ascending lists of distinct texts holding the same texts are the same.
proof fn lemma_sorted_texts_equal(a: Seq<Seq<char>>, b: Seq<Seq<char>>)
    requires
        forall|j: int, k: int| 0 <= j < k < a.len() ==> text_lt(#[trigger] a[j], #[trigger] a[k]),
        forall|j: int, k: int| 0 <= j < k < b.len() ==> text_lt(#[trigger] b[j], #[trigger] b[k]),
        forall|t: Seq<char>| a.contains(t) <==> b.contains(t),
    ensures
        a == b,
    decreases a.len(),
{
    if a.len() == 0 || b.len() == 0 {
        if a.len() > 0 {
            assert(a.contains(a[0]));
        }
        if b.len() > 0 {
            assert(b.contains(b[0]));
        }
        assert(a =~= b);
    } else {
        assert(a.contains(a[0]));
        assert(b.contains(b[0]));
        let ja = choose|j: int| 0 <= j < b.len() && b[j] == a[0];
        let jb = choose|j: int| 0 <= j < a.len() && a[j] == b[0];
        if ja > 0 {
            assert(text_lt(b[0], b[ja]));
            if jb > 0 {
                assert(text_lt(a[0], a[jb]));
                lemma_text_lt_transitive(a[0], b[0], a[0]);
                lemma_text_lt_irreflexive(a[0]);
            } else {
                lemma_text_lt_irreflexive(a[0]);
            }
        }
        assert(a[0] == b[0]);
        let ra = a.drop_first();
        let rb = b.drop_first();
        assert forall|t: Seq<char>| ra.contains(t) <==> rb.contains(t) by {
            if ra.contains(t) {
                let j = choose|j: int| 0 <= j < ra.len() && ra[j] == t;
                assert(a[j + 1] == t);
                assert(text_lt(a[0], a[j + 1]));
                lemma_text_lt_irreflexive(t);
                assert(a.contains(t));
                assert(b.contains(t));
                let m = choose|m: int| 0 <= m < b.len() && b[m] == t;
                assert(m != 0);
                assert(rb[m - 1] == t);
            }
            if rb.contains(t) {
                let j = choose|j: int| 0 <= j < rb.len() && rb[j] == t;
                assert(b[j + 1] == t);
                assert(text_lt(b[0], b[j + 1]));
                lemma_text_lt_irreflexive(t);
                assert(b.contains(t));
                assert(a.contains(t));
                let m = choose|m: int| 0 <= m < a.len() && a[m] == t;
                assert(m != 0);
                assert(ra[m - 1] == t);
            }
        }
        assert forall|j: int, k: int| 0 <= j < k < ra.len() implies text_lt(#[trigger] ra[j], #[trigger] ra[k]) by {
            assert(ra[j] == a[j + 1] && ra[k] == a[k + 1]);
        }
        assert forall|j: int, k: int| 0 <= j < k < rb.len() implies text_lt(#[trigger] rb[j], #[trigger] rb[k]) by {
            assert(rb[j] == b[j + 1] && rb[k] == b[k + 1]);
        }
        lemma_sorted_texts_equal(ra, rb);
        assert(a =~= seq![a[0]] + ra);
        assert(b =~= seq![b[0]] + rb);
    }
}

/// The texts of a match's tags.
pub open spec fn tag_texts(m: FoundMatch) -> Seq<Seq<char>> {
    m.tags@.map_values(|t: String| t@)
}

/// Matches at the same key over feeds that hit alike, through patterns with the
/// same tags, carry the same tags.
pub proof fn same_hits_same_tags(
    pats1: Seq<CompiledPattern>,
    chunks1: Seq<Chunk>,
    m1: FoundMatch,
    pats2: Seq<CompiledPattern>,
    chunks2: Seq<Chunk>,
    m2: FoundMatch,
)
    requires
        pats1.len() == pats2.len(),
        forall|p: int| 0 <= p < pats1.len() ==> (#[trigger] pats1[p]).tag@ == pats2[p].tag@,
        forall|p: int, key: Key| hits(pats1, chunks1, p, key) <==> #[trigger] hits(pats2, chunks2, p, key),
        match_key(m1) == match_key(m2),
        tags_exact(pats1, chunks1, m1),
        tags_exact(pats2, chunks2, m2),
    ensures
        tag_texts(m1) == tag_texts(m2),
{
    reveal(tags_exact);
    let a = tag_texts(m1);
    let b = tag_texts(m2);
    let key = match_key(m1);
    assert forall|t: Seq<char>| a.contains(t) implies b.contains(t) by {
        let j = choose|j: int| 0 <= j < a.len() && a[j] == t;
        assert(tag_hits(pats1, chunks1, key, m1.tags@[j]@));
        let p = choose|p: int| #[trigger] hits(pats1, chunks1, p, key) && pats1[p].tag@ == m1.tags@[j]@;
        assert(hits(pats2, chunks2, p, match_key(m2)));
        assert(tag_listed(m2.tags@, pats2[p].tag@));
        let k = choose|k: int| 0 <= k < m2.tags@.len() && #[trigger] m2.tags@[k]@ == pats2[p].tag@;
        assert(b[k] == t);
    }
    assert forall|t: Seq<char>| b.contains(t) implies a.contains(t) by {
        let j = choose|j: int| 0 <= j < b.len() && b[j] == t;
        assert(tag_hits(pats2, chunks2, key, m2.tags@[j]@));
        let p = choose|p: int| #[trigger] hits(pats2, chunks2, p, key) && pats2[p].tag@ == m2.tags@[j]@;
        assert(hits(pats1, chunks1, p, match_key(m1)));
        assert(tag_listed(m1.tags@, pats1[p].tag@));
        let k = choose|k: int| 0 <= k < m1.tags@.len() && #[trigger] m1.tags@[k]@ == pats1[p].tag@;
        assert(a[k] == t);
    }
    assert forall|j: int, k: int| 0 <= j < k < a.len() implies text_lt(#[trigger] a[j], #[trigger] a[k]) by {
        assert(text_lt(m1.tags@[j]@, m1.tags@[k]@));
    }
    assert forall|j: int, k: int| 0 <= j < k < b.len() implies text_lt(#[trigger] b[j], #[trigger] b[k]) by {
        assert(text_lt(m2.tags@[j]@, m2.tags@[k]@));
    }
    lemma_sorted_texts_equal(a, b);
}

} // verus!
