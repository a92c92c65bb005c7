//! Half-open address intervals and their canonical sorted form: merging a list of
//! intervals into disjoint, separated, ascending intervals, and intersecting two
//! such lists.

use vstd::prelude::*;

verus! {

/// The half-open address range `[start, end)`.
#[derive(Debug, Clone, Copy, PartialEq, Eq)]
pub struct Interval {
    pub start: u64,
    pub end: u64,
}

/// Whether `a` lies in the half-open interval `iv`.
pub open spec fn holds(iv: Interval, a: int) -> bool {
    iv.start <= a && a < iv.end
}

/// Whether some interval of `iv` contains `a`.
pub open spec fn covers(iv: Seq<Interval>, a: int) -> bool {
    exists|k: int| 0 <= k < iv.len() && #[trigger] holds(iv[k], a)
}

/// Canonical form: every interval nonempty, ascending, and separated by a gap, so
/// the list is the unique shortest description of the addresses it covers.
pub open spec fn canonical(iv: Seq<Interval>) -> bool {
    &&& forall|k: int| 0 <= k < iv.len() ==> #[trigger] iv[k].start < iv[k].end
    &&& forall|j: int, k: int| 0 <= j < k < iv.len() ==> #[trigger] iv[j].end < #[trigger] iv[k].start
}

/// Total number of addresses the intervals span, counted with multiplicity.
pub open spec fn total_len(iv: Seq<Interval>) -> int
    decreases iv.len(),
{
    if iv.len() == 0 {
        0
    } else {
        total_len(iv.drop_last()) + (iv.last().end - iv.last().start)
    }
}

/// Sorted by start.
pub open spec fn sorted_by_start(iv: Seq<Interval>) -> bool {
    forall|j: int, k: int| 0 <= j < k < iv.len() ==> #[trigger] iv[j].start <= #[trigger] iv[k].start
}

proof fn lemma_covers_push(s: Seq<Interval>, x: Interval, a: int)
    ensures
        covers(s.push(x), a) <==> (covers(s, a) || holds(x, a)),
{
    let t = s.push(x);
    if covers(s, a) {
        let k = choose|k: int| 0 <= k < s.len() && #[trigger] holds(s[k], a);
        assert(t[k] == s[k]);
        assert(holds(t[k], a));
    }
    if holds(x, a) {
        assert(t[s.len() as int] == x);
        assert(holds(t[s.len() as int], a));
    }
    if covers(t, a) {
        let k = choose|k: int| 0 <= k < t.len() && #[trigger] holds(t[k], a);
        if k < s.len() {
            assert(t[k] == s[k]);
            assert(holds(s[k], a));
        }
    }
}

proof fn lemma_covers_insert(s: Seq<Interval>, pos: int, x: Interval, a: int)
    requires
        0 <= pos <= s.len(),
    ensures
        covers(s.insert(pos, x), a) <==> (covers(s, a) || holds(x, a)),
{
    let t = s.insert(pos, x);
    if covers(s, a) {
        let k = choose|k: int| 0 <= k < s.len() && #[trigger] holds(s[k], a);
        if k < pos {
            assert(t[k] == s[k]);
            assert(holds(t[k], a));
        } else {
            assert(t[k + 1] == s[k]);
            assert(holds(t[k + 1], a));
        }
    }
    if holds(x, a) {
        assert(t[pos] == x);
        assert(holds(t[pos], a));
    }
    if covers(t, a) {
        let k = choose|k: int| 0 <= k < t.len() && #[trigger] holds(t[k], a);
        if k < pos {
            assert(t[k] == s[k]);
            assert(holds(s[k], a));
        } else if k > pos {
            assert(t[k] == s[k - 1]);
            assert(holds(s[k - 1], a));
        }
    }
}

/// Orders `iv` by start address, covering exactly the addresses `iv` covers.
fn sort_by_start(iv: &Vec<Interval>) -> (res: Vec<Interval>)
    ensures
        sorted_by_start(res@),
        forall|a: int| #[trigger] covers(res@, a) <==> covers(iv@, a),
{
    let mut out: Vec<Interval> = Vec::new();
    let mut i: usize = 0;
    while i < iv.len()
        invariant
            0 <= i <= iv.len(),
            sorted_by_start(out@),
            forall|a: int| #[trigger] covers(out@, a) <==> covers(iv@.subrange(0, i as int), a),
        decreases iv.len() - i,
    {
        let x = iv[i];
        let mut pos: usize = out.len();
        while pos > 0 && out[pos - 1].start > x.start
            invariant
                0 <= pos <= out.len(),
                forall|k: int| pos <= k < out.len() ==> #[trigger] out@[k].start > x.start,
            decreases pos,
        {
            pos = pos - 1;
        }
        let ghost before = out@;
        out.insert(pos, x);
        proof {
            assert forall|j: int, k: int| 0 <= j < k < out@.len() implies #[trigger] out@[j].start <= #[trigger] out@[k].start by {
                if k < pos {
                } else if k == pos {
                    if j < pos {
                        assert(before[j].start <= before[pos - 1].start);
                    }
                } else if j < pos {
                    assert(out@[k] == before[k - 1]);
                } else if j == pos {
                    assert(out@[k] == before[k - 1]);
                } else {
                    assert(out@[k] == before[k - 1]);
                    assert(out@[j] == before[j - 1]);
                }
            }
            let next = iv@.subrange(0, i as int + 1);
            assert(next =~= iv@.subrange(0, i as int).push(x));
            assert forall|a: int| #[trigger] covers(out@, a) <==> covers(next, a) by {
                lemma_covers_insert(before, pos as int, x, a);
                lemma_covers_push(iv@.subrange(0, i as int), x, a);
            }
        }
        i = i + 1;
    }
    proof {
        assert(iv@.subrange(0, iv@.len() as int) =~= iv@);
    }
    out
}

/// Merges `iv` into canonical form: empty intervals vanish, and overlapping or
/// touching intervals join, so the result covers exactly what `iv` covers.
pub fn merge(iv: &Vec<Interval>) -> (res: Vec<Interval>)
    ensures
        canonical(res@),
        forall|a: int| #[trigger] covers(res@, a) <==> covers(iv@, a),
        canonical(iv@) ==> res@ == iv@,
{
    let sorted = sort_by_start(iv);
    let mut merged: Vec<Interval> = Vec::new();
    let mut i: usize = 0;
    while i < sorted.len()
        invariant
            0 <= i <= sorted.len(),
            sorted_by_start(sorted@),
            canonical(merged@),
            merged@.len() > 0 && i < sorted.len() ==> merged@.last().start <= sorted@[i as int].start,
            forall|a: int| #[trigger] covers(merged@, a) <==> covers(sorted@.subrange(0, i as int), a),
        decreases sorted.len() - i,
    {
        let x = sorted[i];
        let ghost before = merged@;
        let ghost prefix = sorted@.subrange(0, i as int);
        let ghost next = sorted@.subrange(0, i as int + 1);
        proof {
            assert(next =~= prefix.push(x));
        }
        if x.start < x.end {
            let n = merged.len();
            if n > 0 && x.start <= merged[n - 1].end {
                let last = merged[n - 1];
                let end = if x.end > last.end { x.end } else { last.end };
                merged.set(n - 1, Interval { start: last.start, end });
                proof {
                    assert forall|a: int| #[trigger] covers(merged@, a) <==> covers(next, a) by {
                        lemma_covers_push(prefix, x, a);
                        lemma_covers_push(before.drop_last(), last, a);
                        lemma_covers_push(before.drop_last(), merged@.last(), a);
                        assert(before.drop_last().push(last) =~= before);
                        assert(before.drop_last().push(merged@.last()) =~= merged@);
                    }
                }
            } else {
                merged.push(x);
                proof {
                    assert forall|a: int| #[trigger] covers(merged@, a) <==> covers(next, a) by {
                        lemma_covers_push(prefix, x, a);
                        lemma_covers_push(before, x, a);
                    }
                }
            }
        } else {
            proof {
                assert forall|a: int| #[trigger] covers(merged@, a) <==> covers(next, a) by {
                    lemma_covers_push(prefix, x, a);
                }
            }
        }
        i = i + 1;
    }
    proof {
        assert(sorted@.subrange(0, sorted@.len() as int) =~= sorted@);
        if canonical(iv@) {
            canonical_form_is_unique(merged@, iv@);
        }
    }
    merged
}

/// Intersects two canonical interval lists: the result is canonical and covers
/// exactly the addresses both cover.
pub fn intersect(left: &Vec<Interval>, right: &Vec<Interval>) -> (res: Vec<Interval>)
    requires
        canonical(left@),
        canonical(right@),
    ensures
        canonical(res@),
        forall|a: int| #[trigger] covers(res@, a) <==> (covers(left@, a) && covers(right@, a)),
{
    let mut output: Vec<Interval> = Vec::new();
    let mut i: usize = 0;
    let mut j: usize = 0;
    while i < left.len() && j < right.len()
        invariant
            0 <= i <= left.len(),
            0 <= j <= right.len(),
            canonical(left@),
            canonical(right@),
            canonical(output@),
            output@.len() > 0 && i < left.len() && j < right.len() ==> output@.last().end < left@[i as int].start
                || output@.last().end < right@[j as int].start,
            forall|a: int| #[trigger] covers(output@, a) ==> covers(left@, a) && covers(right@, a),
            forall|a: int, p: int, q: int|
                0 <= p < left.len() && 0 <= q < right.len() && #[trigger] holds(left@[p], a) && #[trigger] holds(right@[q], a)
                    && (p < i || q < j) ==> covers(output@, a),
        decreases left.len() + right.len() - i - j,
    {
        let l = left[i];
        let r = right[j];
        let start = if l.start > r.start { l.start } else { r.start };
        let end = if l.end < r.end { l.end } else { r.end };
        let ghost before = output@;
        if start < end {
            output.push(Interval { start, end });
            proof {
                assert forall|x: int, y: int| 0 <= x < y < output@.len() implies #[trigger] output@[x].end < #[trigger] output@[y].start by {
                    if y == output@.len() - 1 && x < y - 1 {
                        assert(before[x].end < before[y - 1].start);
                    }
                }
                assert forall|a: int| #[trigger] covers(output@, a) implies covers(left@, a) && covers(right@, a) by {
                    lemma_covers_push(before, Interval { start, end }, a);
                    if holds(Interval { start, end }, a) {
                        assert(holds(left@[i as int], a));
                        assert(holds(right@[j as int], a));
                    }
                }
            }
        }
        proof {
            let piece = Interval { start, end };
            assert forall|a: int| #[trigger] covers(before, a) implies covers(output@, a) by {
                if start < end {
                    lemma_covers_push(before, piece, a);
                }
            }
            assert forall|a: int| holds(l, a) && holds(r, a) implies covers(output@, a) by {
                lemma_covers_push(before, piece, a);
            }
        }
        if l.end < r.end {
            i = i + 1;
        } else {
            j = j + 1;
        }
        proof {
            assert forall|a: int, p: int, q: int|
                0 <= p < left.len() && 0 <= q < right.len() && #[trigger] holds(left@[p], a) && #[trigger] holds(right@[q], a)
                    && (p < i || q < j) implies covers(output@, a) by {
                if p < i - 1 && l.end < r.end || q < j - 1 && !(l.end < r.end) || p < i && !(l.end < r.end) || q < j && l.end < r.end {
                } else if l.end < r.end {
                    // p is the interval just left behind
                    if q > j {
                        assert(right@[j as int].end < right@[q].start);
                    }
                } else {
                    if p > i {
                        assert(left@[i as int].end < left@[p].start);
                    }
                }
            }
        }
    }
    output
}

/// The number of addresses a canonical list covers, or `None` when it exceeds
/// `u64::MAX`.
pub fn covered_bytes(iv: &Vec<Interval>) -> (res: Option<u64>)
    requires
        canonical(iv@),
    ensures
        res matches Some(n) ==> n == total_len(iv@),
        res is None <==> total_len(iv@) > u64::MAX,
        res is Some,
{
    proof {
        canonical_total_fits(iv@);
    }
    let mut total: u64 = 0;
    let mut i: usize = 0;
    while i < iv.len()
        invariant
            0 <= i <= iv.len(),
            canonical(iv@),
            total_len(iv@) <= u64::MAX,
            total == total_len(iv@.subrange(0, i as int)),
        decreases iv.len() - i,
    {
        let x = iv[i];
        proof {
            assert(iv@.subrange(0, i as int + 1).drop_last() =~= iv@.subrange(0, i as int));
        }
        if total > u64::MAX - (x.end - x.start) {
            proof {
                lemma_total_len_prefix(iv@, i as int + 1);
            }
            return None;
        }
        total = total + (x.end - x.start);
        i = i + 1;
    }
    proof {
        assert(iv@.subrange(0, iv@.len() as int) =~= iv@);
    }
    Some(total)
}

proof fn lemma_total_len_prefix(iv: Seq<Interval>, n: int)
    requires
        0 <= n <= iv.len(),
        forall|k: int| 0 <= k < iv.len() ==> #[trigger] iv[k].start < iv[k].end,
    ensures
        total_len(iv.subrange(0, n)) <= total_len(iv),
    decreases iv.len() - n,
{
    if n < iv.len() {
        lemma_total_len_prefix(iv, n + 1);
        assert(iv.subrange(0, n + 1).drop_last() =~= iv.subrange(0, n));
    } else {
        assert(iv.subrange(0, n) =~= iv);
    }
}

/// A canonical list spans no more addresses than lie between its first start
/// and its last end, so its total length fits in 64 bits.
pub proof fn canonical_total_fits(iv: Seq<Interval>)
    requires
        canonical(iv),
    ensures
        total_len(iv) <= u64::MAX,
        iv.len() > 0 ==> total_len(iv) <= iv.last().end - iv[0].start,
    decreases iv.len(),
{
    if iv.len() > 1 {
        let rest = iv.drop_last();
        assert(canonical(rest)) by {
            assert forall|j: int, k: int| 0 <= j < k < rest.len() implies #[trigger] rest[j].end < #[trigger] rest[k].start by {
                assert(rest[j] == iv[j] && rest[k] == iv[k]);
            }
            assert forall|k: int| 0 <= k < rest.len() implies #[trigger] rest[k].start < rest[k].end by {
                assert(rest[k] == iv[k]);
            }
        }
        canonical_total_fits(rest);
        assert(rest.last() == iv[iv.len() - 2]);
        assert(rest[0] == iv[0]);
        assert(iv[iv.len() - 2].end < iv.last().start);
        assert(total_len(iv) == total_len(rest) + (iv.last().end - iv.last().start));
        assert(iv.last().start < iv.last().end);
    } else if iv.len() == 1 {
        assert(iv.drop_last().len() == 0);
        assert(total_len(iv.drop_last()) == 0);
        assert(total_len(iv) == total_len(iv.drop_last()) + (iv.last().end - iv.last().start));
        assert(iv[0].start < iv[0].end);
    } else {
        assert(total_len(iv) == 0);
    }
}

/// Two lists are the canonical form of the intersection of `left` and `right`.
pub open spec fn is_intersection(res: Seq<Interval>, left: Seq<Interval>, right: Seq<Interval>) -> bool {
    &&& canonical(res)
    &&& forall|a: int| #[trigger] covers(res, a) <==> (covers(left, a) && covers(right, a))
}

/// Intersection is commutative: what `intersect` gives for `left` and `right`
/// equals what it gives for `right` and `left`.
pub proof fn intersection_commutes(lr: Seq<Interval>, rl: Seq<Interval>, left: Seq<Interval>, right: Seq<Interval>)
    requires
        is_intersection(lr, left, right),
        is_intersection(rl, right, left),
    ensures
        lr == rl,
{
    assert forall|x: int| #![trigger covers(lr, x)] #![trigger covers(rl, x)] covers(lr, x) <==> covers(rl, x) by {
        assert(covers(lr, x) <==> (covers(left, x) && covers(right, x)));
        assert(covers(rl, x) <==> (covers(right, x) && covers(left, x)));
    }
    canonical_form_is_unique(lr, rl);
}

/// Pushing an interval onto a list adds exactly its addresses to what the list
/// covers.
pub proof fn lemma_covers_push_pub(s: Seq<Interval>, x: Interval, a: int)
    ensures
        covers(s.push(x), a) <==> (covers(s, a) || holds(x, a)),
{
    lemma_covers_push(s, x, a);
}

/// The canonical form of a set of addresses is unique: two canonical lists that
/// cover the same addresses are the same list. So every resolved scope has exactly
/// one interval list, and its interval count is determined.
pub proof fn canonical_form_is_unique(a: Seq<Interval>, b: Seq<Interval>)
    requires
        canonical(a),
        canonical(b),
        forall|x: int| #![trigger covers(a, x)] #![trigger covers(b, x)] covers(a, x) <==> covers(b, x),
    ensures
        a == b,
    decreases a.len() + b.len(),
{
    if a.len() == 0 || b.len() == 0 {
        if a.len() > 0 {
            assert(holds(a[0], a[0].start as int));
            assert(covers(a, a[0].start as int));
            assert(covers(b, a[0].start as int));
            assert(false);
        }
        if b.len() > 0 {
            assert(holds(b[0], b[0].start as int));
            assert(covers(b, b[0].start as int));
            assert(covers(a, b[0].start as int));
            assert(false);
        }
        assert(a =~= b);
    } else {
        let a0 = a[0];
        let b0 = b[0];
        // the least covered address starts both lists
        lemma_first_is_least(a, a0.start as int);
        lemma_first_is_least(b, b0.start as int);
        assert(holds(a[0], a0.start as int));
        assert(holds(b[0], b0.start as int));
        assert(covers(a, a0.start as int));
        assert(covers(b, b0.start as int));
        assert(covers(a, b0.start as int));
        assert(covers(b, a0.start as int));
        assert(a0.start == b0.start);
        // the first interval ends at the first address not covered after its start
        lemma_first_run(a, b0.end as int);
        lemma_first_run(b, a0.end as int);
        if a0.end < b0.end {
            assert(holds(b[0], a0.end as int));
            assert(covers(b, a0.end as int));
            assert(covers(a, a0.end as int));
        } else if b0.end < a0.end {
            assert(holds(a[0], b0.end as int));
            assert(covers(a, b0.end as int));
            assert(covers(b, b0.end as int));
        }
        assert(a0 == b0);
        let ra = a.drop_first();
        let rb = b.drop_first();
        assert forall|x: int| #[trigger] covers(ra, x) <==> covers(rb, x) by {
            lemma_covers_rest(a, x);
            lemma_covers_rest(b, x);
        }
        canonical_form_is_unique(ra, rb);
        assert(a =~= seq![a0] + ra);
        assert(b =~= seq![b0] + rb);
    }
}

proof fn lemma_first_is_least(a: Seq<Interval>, x: int)
    requires
        canonical(a),
        a.len() > 0,
    ensures
        covers(a, x) ==> a[0].start <= x,
{
    if covers(a, x) {
        let k = choose|k: int| 0 <= k < a.len() && #[trigger] holds(a[k], x);
        if k > 0 {
            assert(a[0].end < a[k].start);
        }
    }
}

proof fn lemma_first_run(a: Seq<Interval>, x: int)
    requires
        canonical(a),
        a.len() > 0,
    ensures
        x == a[0].end ==> !covers(a, x),
        a[0].start <= x < a[0].end ==> covers(a, x),
{
    assert(a[0].start < a[0].end);
    if a[0].start <= x < a[0].end {
        assert(holds(a[0], x));
    }
    if x == a[0].end && covers(a, x) {
        let k = choose|k: int| 0 <= k < a.len() && #[trigger] holds(a[k], x);
        if k > 0 {
            assert(a[0].end < a[k].start);
        }
    }
}

proof fn lemma_covers_rest(a: Seq<Interval>, x: int)
    requires
        canonical(a),
        a.len() > 0,
    ensures
        covers(a.drop_first(), x) <==> (covers(a, x) && !holds(a[0], x)),
{
    let r = a.drop_first();
    if covers(r, x) {
        let k = choose|k: int| 0 <= k < r.len() && #[trigger] holds(r[k], x);
        assert(r[k] == a[k + 1]);
        assert(holds(a[k + 1], x));
        assert(a[0].end < a[k + 1].start);
    }
    if covers(a, x) && !holds(a[0], x) {
        let k = choose|k: int| 0 <= k < a.len() && #[trigger] holds(a[k], x);
        assert(k > 0);
        assert(r[k - 1] == a[k]);
        assert(holds(r[k - 1], x));
    }
}

} // verus!
