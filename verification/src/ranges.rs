//! Sorting and merging of inclusive `(start, end)` line ranges.

use vstd::prelude::*;

verus! {

/// An inclusive range of line numbers, `start` first.
pub type Span = (usize, usize);

/// Where a stable insertion by start puts `x` into `s`: before the first
/// element whose start is greater than that of `x`.
pub open spec fn ins_pos_start(s: Seq<Span>, x: Span) -> int
    decreases s.len(),
{
    if s.len() == 0 {
        0
    } else if s[0].0 > x.0 {
        0
    } else {
        1 + ins_pos_start(s.drop_first(), x)
    }
}

/// `s` stably sorted by start.
pub open spec fn sort_by_start(s: Seq<Span>) -> Seq<Span>
    decreases s.len(),
{
    if s.len() == 0 {
        s
    } else {
        let t = sort_by_start(s.drop_last());
        t.insert(ins_pos_start(t, s.last()), s.last())
    }
}

/// Lexicographic order on pairs, as `Ord` for tuples defines it.
pub open spec fn pair_lt(a: Span, b: Span) -> bool {
    a.0 < b.0 || (a.0 == b.0 && a.1 < b.1)
}

/// Where insertion in lexicographic order puts `x` into `s`: before the first
/// element greater than `x`.
pub open spec fn ins_pos_lex(s: Seq<Span>, x: Span) -> int
    decreases s.len(),
{
    if s.len() == 0 {
        0
    } else if pair_lt(x, s[0]) {
        0
    } else {
        1 + ins_pos_lex(s.drop_first(), x)
    }
}

/// `s` sorted lexicographically.
pub open spec fn sort_lex(s: Seq<Span>) -> Seq<Span>
    decreases s.len(),
{
    if s.len() == 0 {
        s
    } else {
        let t = sort_lex(s.drop_last());
        t.insert(ins_pos_lex(t, s.last()), s.last())
    }
}

/// The greater of two numbers.
pub open spec fn max_usize(a: usize, b: usize) -> usize {
    if a >= b {
        a
    } else {
        b
    }
}

/// Greedy merge of ranges taken in order, starting from the open range
/// `cur`: a range that starts at most one past the end of the open one
/// extends it; any other closes it and opens itself.
pub open spec fn merge_from(cur: Span, rest: Seq<Span>) -> Seq<Span>
    decreases rest.len(),
{
    if rest.len() == 0 {
        seq![cur]
    } else if rest[0].0 <= cur.1 + 1 {
        merge_from((cur.0, max_usize(cur.1, rest[0].1)), rest.drop_first())
    } else {
        seq![cur] + merge_from(rest[0], rest.drop_first())
    }
}

/// Greedy merge of a sequence of ranges taken in order.
pub open spec fn merge_sorted(s: Seq<Span>) -> Seq<Span> {
    if s.len() == 0 {
        s
    } else {
        merge_from(s[0], s.drop_first())
    }
}

/// What `merge_ranges` returns: the ranges stably sorted by start, then merged.
pub open spec fn spec_merge_ranges(s: Seq<Span>) -> Seq<Span> {
    merge_sorted(sort_by_start(s))
}

/// The index that `ins_pos_start` characterises.
proof fn lemma_ins_pos_start_unique(s: Seq<Span>, x: Span, j: int)
    requires
        0 <= j <= s.len(),
        forall|k: int| 0 <= k < j ==> s[k].0 <= x.0,
        j < s.len() ==> s[j].0 > x.0,
    ensures
        ins_pos_start(s, x) == j,
    decreases s.len(),
{
    if s.len() > 0 && j > 0 {
        assert forall|k: int| 0 <= k < j - 1 implies s.drop_first()[k].0 <= x.0 by {
            assert(s.drop_first()[k] == s[k + 1]);
        }
        lemma_ins_pos_start_unique(s.drop_first(), x, j - 1);
    }
}

/// The index that `ins_pos_lex` characterises.
proof fn lemma_ins_pos_lex_unique(s: Seq<Span>, x: Span, j: int)
    requires
        0 <= j <= s.len(),
        forall|k: int| 0 <= k < j ==> !pair_lt(x, s[k]),
        j < s.len() ==> pair_lt(x, s[j]),
    ensures
        ins_pos_lex(s, x) == j,
    decreases s.len(),
{
    if s.len() > 0 && j > 0 {
        assert forall|k: int| 0 <= k < j - 1 implies !pair_lt(x, s.drop_first()[k]) by {
            assert(s.drop_first()[k] == s[k + 1]);
        }
        lemma_ins_pos_lex_unique(s.drop_first(), x, j - 1);
    }
}

/// Sorts ranges by start, keeping the order of ranges with equal starts.
pub fn sort_spans_by_start(v: &Vec<Span>) -> (r: Vec<Span>)
    ensures
        r@ == sort_by_start(v@),
{
    let mut out: Vec<Span> = Vec::new();
    let mut i: usize = 0;
    assert(v@.take(0) =~= Seq::<Span>::empty());
    while i < v.len()
        invariant
            i <= v@.len(),
            out@ == sort_by_start(v@.take(i as int)),
        decreases v@.len() - i,
    {
        let x = v[i];
        let mut j: usize = 0;
        while j < out.len() && out[j].0 <= x.0
            invariant
                j <= out@.len(),
                forall|k: int| 0 <= k < j ==> out@[k].0 <= x.0,
            decreases out@.len() - j,
        {
            j = j + 1;
        }
        proof {
            lemma_ins_pos_start_unique(out@, x, j as int);
            assert(v@.take(i + 1).drop_last() =~= v@.take(i as int));
        }
        out.insert(j, x);
        i = i + 1;
    }
    assert(v@.take(v@.len() as int) =~= v@);
    out
}

/// Sorts ranges lexicographically.
pub fn sort_spans_lex(v: &Vec<Span>) -> (r: Vec<Span>)
    ensures
        r@ == sort_lex(v@),
{
    let mut out: Vec<Span> = Vec::new();
    let mut i: usize = 0;
    assert(v@.take(0) =~= Seq::<Span>::empty());
    while i < v.len()
        invariant
            i <= v@.len(),
            out@ == sort_lex(v@.take(i as int)),
        decreases v@.len() - i,
    {
        let x = v[i];
        let mut j: usize = 0;
        while j < out.len() && !(x.0 < out[j].0 || (x.0 == out[j].0 && x.1 < out[j].1))
            invariant
                j <= out@.len(),
                forall|k: int| 0 <= k < j ==> !pair_lt(x, out@[k]),
            decreases out@.len() - j,
        {
            j = j + 1;
        }
        proof {
            lemma_ins_pos_lex_unique(out@, x, j as int);
            assert(v@.take(i + 1).drop_last() =~= v@.take(i as int));
        }
        out.insert(j, x);
        i = i + 1;
    }
    assert(v@.take(v@.len() as int) =~= v@);
    out
}

/// Merges overlapping or adjacent ranges: sorts them by start, then lets
/// each range that starts at most one past the end of the current one
/// extend it.
pub fn merge_ranges(ranges: Vec<Span>) -> (r: Vec<Span>)
    ensures
        r@ == spec_merge_ranges(ranges@),
{
    if ranges.len() == 0 {
        assert(sort_by_start(ranges@) == ranges@);
        return ranges;
    }
    let sorted = sort_spans_by_start(&ranges);
    proof {
        lemma_sort_by_start_len(ranges@);
    }
    let mut merged: Vec<Span> = Vec::new();
    let mut cs = sorted[0].0;
    let mut ce = sorted[0].1;
    let mut i: usize = 1;
    assert(sorted@.skip(1) =~= sorted@.drop_first());
    assert(merged@ + merge_from((cs, ce), sorted@.skip(1)) =~= merge_sorted(sorted@));
    while i < sorted.len()
        invariant
            1 <= i <= sorted@.len(),
            merged@ + merge_from((cs, ce), sorted@.skip(i as int)) == merge_sorted(sorted@),
        decreases sorted@.len() - i,
    {
        let (start, end) = sorted[i];
        let ghost rest = sorted@.skip(i as int);
        assert(rest[0] == (start, end));
        assert(rest.drop_first() =~= sorted@.skip(i + 1));
        if start <= ce || start - ce == 1 {
            if end > ce {
                ce = end;
            }
        } else {
            let ghost old_merged = merged@;
            merged.push((cs, ce));
            assert(old_merged + (seq![(cs, ce)] + merge_from((start, end), sorted@.skip(i + 1)))
                =~= merged@ + merge_from((start, end), sorted@.skip(i + 1)));
            cs = start;
            ce = end;
        }
        i = i + 1;
    }
    assert(sorted@.skip(i as int) =~= Seq::<Span>::empty());
    assert(merged@ + seq![(cs, ce)] =~= merged@.push((cs, ce)));
    merged.push((cs, ce));
    merged
}

/// Sorting keeps the length.
pub proof fn lemma_sort_by_start_len(s: Seq<Span>)
    ensures
        sort_by_start(s).len() == s.len(),
    decreases s.len(),
{
    if s.len() > 0 {
        lemma_sort_by_start_len(s.drop_last());
        lemma_ins_pos_start_bound(sort_by_start(s.drop_last()), s.last());
    }
}

proof fn lemma_ins_pos_start_bound(s: Seq<Span>, x: Span)
    ensures
        0 <= ins_pos_start(s, x) <= s.len(),
    decreases s.len(),
{
    if s.len() > 0 {
        lemma_ins_pos_start_bound(s.drop_first(), x);
    }
}

/// `x` lies in one of the ranges of `s`.
pub open spec fn covers(s: Seq<Span>, x: int) -> bool {
    exists|i: int| 0 <= i < s.len() && #[trigger] s[i].0 <= x && x <= s[i].1
}

/// Every range has `start <= end`.
pub open spec fn spans_wf(s: Seq<Span>) -> bool {
    forall|i: int| 0 <= i < s.len() ==> #[trigger] s[i].0 <= s[i].1
}

/// Ranges in increasing order, each separated from the next by at least
/// one line that none of them covers.
pub open spec fn is_canonical(s: Seq<Span>) -> bool {
    &&& spans_wf(s)
    &&& forall|i: int, j: int| 0 <= i < j < s.len() ==> #[trigger] s[i].1 + 1 < #[trigger] s[j].0
}

/// Starts never decrease.
pub open spec fn sorted_by_start(s: Seq<Span>) -> bool {
    forall|i: int, j: int| 0 <= i < j < s.len() ==> #[trigger] s[i].0 <= #[trigger] s[j].0
}

/// Every start is at least `lo`.
pub open spec fn starts_at_least(s: Seq<Span>, lo: int) -> bool {
    forall|i: int| 0 <= i < s.len() ==> lo <= #[trigger] s[i].0
}

proof fn lemma_ins_pos_start_props(t: Seq<Span>, x: Span)
    requires
        sorted_by_start(t),
    ensures
        0 <= ins_pos_start(t, x) <= t.len(),
        forall|k: int| 0 <= k < ins_pos_start(t, x) ==> t[k].0 <= x.0,
        forall|k: int| ins_pos_start(t, x) <= k < t.len() ==> t[k].0 > x.0,
    decreases t.len(),
{
    if t.len() > 0 {
        if t[0].0 > x.0 {
            assert forall|k: int| 0 <= k < t.len() implies t[k].0 > x.0 by {
                if k > 0 {
                    assert(t[0].0 <= t[k].0);
                }
            }
        } else {
            let u = t.drop_first();
            assert(sorted_by_start(u)) by {
                assert forall|i: int, j: int| 0 <= i < j < u.len() implies u[i].0 <= u[j].0 by {
                    assert(u[i] == t[i + 1] && u[j] == t[j + 1]);
                }
            }
            lemma_ins_pos_start_props(u, x);
            assert forall|k: int| 0 <= k < ins_pos_start(t, x) implies t[k].0 <= x.0 by {
                if k > 0 {
                    assert(t[k] == u[k - 1]);
                }
            }
            assert forall|k: int| ins_pos_start(t, x) <= k < t.len() implies t[k].0 > x.0 by {
                assert(t[k] == u[k - 1]);
            }
        }
    }
}

/// Sorting by start gives a sequence sorted by start with the same elements.
#[verifier::spinoff_prover]
#[verifier::rlimit(40)]
pub proof fn lemma_sort_by_start_props(s: Seq<Span>)
    ensures
        sort_by_start(s).len() == s.len(),
        sorted_by_start(sort_by_start(s)),
        forall|p: Span| s.contains(p) <==> #[trigger] sort_by_start(s).contains(p),
    decreases s.len(),
{
    lemma_sort_by_start_len(s);
    if s.len() > 0 {
        let t = sort_by_start(s.drop_last());
        let x = s.last();
        lemma_sort_by_start_props(s.drop_last());
        lemma_ins_pos_start_props(t, x);
        let k = ins_pos_start(t, x);
        let r = t.insert(k, x);
        t.insert_ensures(k, x);
        assert(r == sort_by_start(s));
        assert forall|i: int, j: int| 0 <= i < j < r.len() implies r[i].0 <= r[j].0 by {
            if j < k {
            } else if j == k {
            } else if i < k {
                assert(r[j] == t[j - 1]);
            } else if i == k {
                assert(r[j] == t[j - 1]);
            } else {
                assert(r[i] == t[i - 1] && r[j] == t[j - 1]);
            }
        }
        assert forall|p: Span| s.contains(p) <==> #[trigger] r.contains(p) by {
            if s.contains(p) {
                let i = choose|i: int| 0 <= i < s.len() && s[i] == p;
                if i == s.len() - 1 {
                    assert(r[k] == p);
                } else {
                    assert(s.drop_last()[i] == p);
                    assert(t.contains(p));
                    let j = choose|j: int| 0 <= j < t.len() && t[j] == p;
                    if j < k {
                        assert(r[j] == p);
                    } else {
                        assert(r[j + 1] == p);
                    }
                }
            }
            if r.contains(p) {
                let i = choose|i: int| 0 <= i < r.len() && r[i] == p;
                if i == k {
                    assert(s[s.len() - 1] == p);
                } else {
                    let j = if i < k { i } else { i - 1 };
                    assert(t[j] == p);
                    assert(t.contains(p));
                    assert(s.drop_last().contains(p));
                    let m = choose|m: int| 0 <= m < s.drop_last().len() && s.drop_last()[m] == p;
                    assert(s[m] == p);
                }
            }
        }
    }
}

proof fn lemma_ins_pos_lex_bound(t: Seq<Span>, x: Span)
    ensures
        0 <= ins_pos_lex(t, x) <= t.len(),
    decreases t.len(),
{
    if t.len() > 0 {
        lemma_ins_pos_lex_bound(t.drop_first(), x);
    }
}

/// Sorting lexicographically keeps the elements.
pub proof fn lemma_sort_lex_elements(s: Seq<Span>)
    ensures
        sort_lex(s).len() == s.len(),
        forall|p: Span| s.contains(p) <==> #[trigger] sort_lex(s).contains(p),
    decreases s.len(),
{
    if s.len() > 0 {
        let t = sort_lex(s.drop_last());
        let x = s.last();
        lemma_sort_lex_elements(s.drop_last());
        lemma_ins_pos_lex_bound(t, x);
        let k = ins_pos_lex(t, x);
        let r = t.insert(k, x);
        t.insert_ensures(k, x);
        assert(r == sort_lex(s));
        assert forall|p: Span| s.contains(p) <==> #[trigger] r.contains(p) by {
            if s.contains(p) {
                let i = choose|i: int| 0 <= i < s.len() && s[i] == p;
                if i == s.len() - 1 {
                    assert(r[k] == p);
                } else {
                    assert(s.drop_last()[i] == p);
                    assert(t.contains(p));
                    let j = choose|j: int| 0 <= j < t.len() && t[j] == p;
                    if j < k {
                        assert(r[j] == p);
                    } else {
                        assert(r[j + 1] == p);
                    }
                }
            }
            if r.contains(p) {
                let i = choose|i: int| 0 <= i < r.len() && r[i] == p;
                if i == k {
                    assert(s[s.len() - 1] == p);
                } else {
                    let j = if i < k { i } else { i - 1 };
                    assert(t[j] == p);
                    assert(t.contains(p));
                    assert(s.drop_last().contains(p));
                    let m = choose|m: int| 0 <= m < s.drop_last().len() && s.drop_last()[m] == p;
                    assert(s[m] == p);
                }
            }
        }
    }
}

/// Two sequences with the same elements cover the same lines and are well
/// formed together.
pub proof fn lemma_same_elements(a: Seq<Span>, b: Seq<Span>)
    requires
        forall|p: Span| a.contains(p) <==> #[trigger] b.contains(p),
    ensures
        forall|x: int| covers(a, x) <==> covers(b, x),
        spans_wf(a) ==> spans_wf(b),
{
    assert forall|x: int| covers(a, x) implies covers(b, x) by {
        let i = choose|i: int| 0 <= i < a.len() && #[trigger] a[i].0 <= x && x <= a[i].1;
        assert(a.contains(a[i]));
        assert(b.contains(a[i]));
        let j = choose|j: int| 0 <= j < b.len() && b[j] == a[i];
        assert(b[j].0 <= x && x <= b[j].1);
    }
    assert forall|x: int| covers(b, x) implies covers(a, x) by {
        let i = choose|i: int| 0 <= i < b.len() && #[trigger] b[i].0 <= x && x <= b[i].1;
        assert(b.contains(b[i]));
        assert(a.contains(b[i]));
        let j = choose|j: int| 0 <= j < a.len() && a[j] == b[i];
        assert(a[j].0 <= x && x <= a[j].1);
    }
    if spans_wf(a) {
        assert forall|i: int| 0 <= i < b.len() implies #[trigger] b[i].0 <= b[i].1 by {
            assert(b.contains(b[i]));
            assert(a.contains(b[i]));
            let j = choose|j: int| 0 <= j < a.len() && a[j] == b[i];
            assert(a[j].0 <= a[j].1);
        }
    }
}


/// A sequence covers a line when its first range does, or the rest does.
pub proof fn lemma_covers_first(s: Seq<Span>, x: int)
    requires
        s.len() > 0,
    ensures
        covers(s, x) <==> ((s[0].0 <= x && x <= s[0].1) || covers(s.drop_first(), x)),
{
    let t = s.drop_first();
    if covers(s, x) {
        let i = choose|i: int| 0 <= i < s.len() && #[trigger] s[i].0 <= x && x <= s[i].1;
        if i > 0 {
            assert(t[i - 1] == s[i]);
            assert(t[i - 1].0 <= x && x <= t[i - 1].1);
        }
    }
    if s[0].0 <= x && x <= s[0].1 {
        assert(s[0].0 <= x && x <= s[0].1);
    }
    if covers(t, x) {
        let i = choose|i: int| 0 <= i < t.len() && #[trigger] t[i].0 <= x && x <= t[i].1;
        assert(s[i + 1] == t[i]);
        assert(s[i + 1].0 <= x && x <= s[i + 1].1);
    }
}

/// The empty sequence covers nothing.
pub proof fn lemma_covers_empty(s: Seq<Span>, x: int)
    requires
        s.len() == 0,
    ensures
        !covers(s, x),
{
}

/// The greedy merge covers what the open range and the rest cover; on well
/// formed ranges it is canonical.
#[verifier::spinoff_prover]
proof fn lemma_merge_from(cur: Span, rest: Seq<Span>)
    requires
        sorted_by_start(rest),
        starts_at_least(rest, cur.0 as int),
    ensures
        merge_from(cur, rest).len() > 0,
        merge_from(cur, rest)[0].0 == cur.0,
        starts_at_least(merge_from(cur, rest), cur.0 as int),
        forall|x: int| #[trigger]
            covers(merge_from(cur, rest), x) <==> ((cur.0 <= x && x <= cur.1) || covers(rest, x)),
        cur.0 <= cur.1 && spans_wf(rest) ==> is_canonical(merge_from(cur, rest)),
    decreases rest.len(),
{
    let m = merge_from(cur, rest);
    if rest.len() == 0 {
        assert(m == seq![cur]);
        assert forall|x: int| covers(m, x) <==> ((cur.0 <= x && x <= cur.1) || covers(rest, x)) by {
            lemma_covers_first(m, x);
            assert(m.drop_first().len() == 0);
            lemma_covers_empty(m.drop_first(), x);
            lemma_covers_empty(rest, x);
        }
    } else {
        let r = rest[0];
        let tail = rest.drop_first();
        assert(sorted_by_start(tail)) by {
            assert forall|i: int, j: int| 0 <= i < j < tail.len() implies tail[i].0 <= tail[j].0 by {
                assert(tail[i] == rest[i + 1] && tail[j] == rest[j + 1]);
            }
        }
        assert(starts_at_least(tail, r.0 as int)) by {
            assert forall|i: int| 0 <= i < tail.len() implies r.0 <= #[trigger] tail[i].0 by {
                assert(tail[i] == rest[i + 1]);
            }
        }
        assert(spans_wf(rest) ==> spans_wf(tail)) by {
            if spans_wf(rest) {
                assert forall|i: int| 0 <= i < tail.len() implies #[trigger] tail[i].0 <= tail[i].1 by {
                    assert(tail[i] == rest[i + 1]);
                }
            }
        }
        assert(r.0 >= cur.0);
        if r.0 <= cur.1 + 1 {
            let nc = (cur.0, max_usize(cur.1, r.1));
            assert(starts_at_least(tail, nc.0 as int)) by {
                assert forall|i: int| 0 <= i < tail.len() implies nc.0 <= #[trigger] tail[i].0 by {
                    assert(tail[i] == rest[i + 1]);
                }
            }
            lemma_merge_from(nc, tail);
            assert(m == merge_from(nc, tail));
            assert forall|x: int| covers(m, x) <==> ((cur.0 <= x && x <= cur.1) || covers(rest, x)) by {
                lemma_covers_first(rest, x);
                assert(covers(merge_from(nc, tail), x) <==> ((nc.0 <= x && x <= nc.1) || covers(
                    tail,
                    x,
                )));
                if x > cur.1 && x <= nc.1 {
                    assert(nc.1 == r.1);
                }
            }
            if cur.0 <= cur.1 && spans_wf(rest) {
                assert(r.0 <= r.1);
            }
        } else {
            lemma_merge_from(r, tail);
            let mt = merge_from(r, tail);
            assert(m == seq![cur] + mt);
            assert(m.drop_first() =~= mt);
            assert forall|i: int| 0 <= i < m.len() implies cur.0 <= #[trigger] m[i].0 by {
                if i > 0 {
                    assert(m[i] == mt[i - 1]);
                }
            }
            assert forall|x: int| covers(m, x) <==> ((cur.0 <= x && x <= cur.1) || covers(rest, x)) by {
                lemma_covers_first(m, x);
                lemma_covers_first(rest, x);
            }
            if cur.0 <= cur.1 && spans_wf(rest) {
                assert(r.0 <= r.1);
                assert forall|i: int| 0 <= i < m.len() implies #[trigger] m[i].0 <= m[i].1 by {
                    if i > 0 {
                        assert(m[i] == mt[i - 1]);
                    }
                }
                assert forall|i: int, j: int| 0 <= i < j < m.len() implies #[trigger] m[i].1 + 1
                    < #[trigger] m[j].0 by {
                    assert(m[j] == mt[j - 1]);
                    if i > 0 {
                        assert(m[i] == mt[i - 1]);
                    } else {
                        assert(r.0 <= mt[j - 1].0);
                    }
                }
            }
        }
    }
}

proof fn lemma_merge_from_at(cur: Span, rest: Seq<Span>, x: int)
    requires
        sorted_by_start(rest),
        starts_at_least(rest, cur.0 as int),
    ensures
        covers(merge_from(cur, rest), x) <==> ((cur.0 <= x && x <= cur.1) || covers(rest, x)),
{
    lemma_merge_from(cur, rest);
}

/// Merging keeps the covered lines, and on well formed ranges gives the
/// canonical form.
pub proof fn lemma_merge_ranges(s: Seq<Span>)
    ensures
        forall|x: int| covers(spec_merge_ranges(s), x) <==> covers(s, x),
        spans_wf(s) ==> is_canonical(spec_merge_ranges(s)),
{
    let t = sort_by_start(s);
    lemma_sort_by_start_props(s);
    lemma_same_elements(s, t);
    if t.len() == 0 {
        assert(spec_merge_ranges(s) == t);
        assert(is_canonical(t));
    } else {
        let tail = t.drop_first();
        assert(sorted_by_start(tail)) by {
            assert forall|i: int, j: int| 0 <= i < j < tail.len() implies tail[i].0 <= tail[j].0 by {
                assert(tail[i] == t[i + 1] && tail[j] == t[j + 1]);
            }
        }
        assert(starts_at_least(tail, t[0].0 as int)) by {
            assert forall|i: int| 0 <= i < tail.len() implies t[0].0 <= #[trigger] tail[i].0 by {
                assert(tail[i] == t[i + 1]);
            }
        }
        lemma_merge_from(t[0], tail);
        assert(spec_merge_ranges(s) == merge_from(t[0], tail));
        assert forall|x: int| covers(spec_merge_ranges(s), x) <==> covers(s, x) by {
            lemma_covers_first(t, x);
            lemma_merge_from_at(t[0], tail, x);
            assert(covers(s, x) <==> covers(t, x));
        }
        if spans_wf(s) {
            assert(spans_wf(t));
            assert(t[0].0 <= t[0].1);
            assert(spans_wf(tail)) by {
                assert forall|i: int| 0 <= i < tail.len() implies #[trigger] tail[i].0 <= tail[i].1 by {
                    assert(tail[i] == t[i + 1]);
                }
            }
        }
    }
}

/// Two canonical sequences that cover the same lines are equal.
pub proof fn lemma_canonical_unique(a: Seq<Span>, b: Seq<Span>)
    requires
        is_canonical(a),
        is_canonical(b),
        forall|x: int| covers(a, x) <==> covers(b, x),
    ensures
        a == b,
    decreases a.len() + b.len(),
{
    if a.len() == 0 || b.len() == 0 {
        if a.len() > 0 {
            assert(covers(a, a[0].0 as int));
        }
        if b.len() > 0 {
            assert(covers(b, b[0].0 as int));
        }
        assert(a =~= b);
    } else {
        // the first range starts at the least covered line
        assert(covers(a, a[0].0 as int));
        assert(covers(b, b[0].0 as int));
        let ia = choose|i: int| 0 <= i < b.len() && #[trigger] b[i].0 <= a[0].0 && a[0].0 <= b[i].1;
        let ib = choose|i: int| 0 <= i < a.len() && #[trigger] a[i].0 <= b[0].0 && b[0].0 <= a[i].1;
        if ia > 0 {
            assert(b[0].1 + 1 < b[ia].0);
        }
        if ib > 0 {
            assert(a[0].1 + 1 < a[ib].0);
        }
        assert(a[0].0 == b[0].0);
        // and ends where the first gap begins
        if a[0].1 < b[0].1 {
            let x = a[0].1 + 1;
            assert(b[0].0 <= x && x <= b[0].1);
            assert(covers(b, x));
            let i = choose|i: int| 0 <= i < a.len() && #[trigger] a[i].0 <= x && x <= a[i].1;
            if i > 0 {
                assert(a[0].1 + 1 < a[i].0);
            }
        }
        if b[0].1 < a[0].1 {
            let x = b[0].1 + 1;
            assert(a[0].0 <= x && x <= a[0].1);
            assert(covers(a, x));
            let i = choose|i: int| 0 <= i < b.len() && #[trigger] b[i].0 <= x && x <= b[i].1;
            if i > 0 {
                assert(b[0].1 + 1 < b[i].0);
            }
        }
        assert(a[0] == b[0]);
        let ta = a.drop_first();
        let tb = b.drop_first();
        assert(is_canonical(ta)) by {
            assert forall|i: int| 0 <= i < ta.len() implies #[trigger] ta[i].0 <= ta[i].1 by {
                assert(ta[i] == a[i + 1]);
            }
            assert forall|i: int, j: int| 0 <= i < j < ta.len() implies #[trigger] ta[i].1 + 1
                < #[trigger] ta[j].0 by {
                assert(ta[i] == a[i + 1] && ta[j] == a[j + 1]);
            }
        }
        assert(is_canonical(tb)) by {
            assert forall|i: int| 0 <= i < tb.len() implies #[trigger] tb[i].0 <= tb[i].1 by {
                assert(tb[i] == b[i + 1]);
            }
            assert forall|i: int, j: int| 0 <= i < j < tb.len() implies #[trigger] tb[i].1 + 1
                < #[trigger] tb[j].0 by {
                assert(tb[i] == b[i + 1] && tb[j] == b[j + 1]);
            }
        }
        assert forall|x: int| covers(ta, x) <==> covers(tb, x) by {
            if covers(ta, x) {
                let i = choose|i: int| 0 <= i < ta.len() && #[trigger] ta[i].0 <= x && x <= ta[i].1;
                assert(ta[i] == a[i + 1]);
                assert(a[0].1 + 1 < a[i + 1].0);
                assert(covers(a, x));
                let j = choose|j: int| 0 <= j < b.len() && #[trigger] b[j].0 <= x && x <= b[j].1;
                assert(j > 0);
                assert(tb[j - 1] == b[j]);
            }
            if covers(tb, x) {
                let i = choose|i: int| 0 <= i < tb.len() && #[trigger] tb[i].0 <= x && x <= tb[i].1;
                assert(tb[i] == b[i + 1]);
                assert(b[0].1 + 1 < b[i + 1].0);
                assert(covers(b, x));
                let j = choose|j: int| 0 <= j < a.len() && #[trigger] a[j].0 <= x && x <= a[j].1;
                assert(j > 0);
                assert(ta[j - 1] == a[j]);
            }
        }
        lemma_canonical_unique(ta, tb);
        assert(a =~= seq![a[0]] + ta);
        assert(b =~= seq![b[0]] + tb);
    }
}

/// No element is lexicographically greater than one after it.
pub open spec fn sorted_lex(s: Seq<Span>) -> bool {
    forall|i: int, j: int| 0 <= i < j < s.len() ==> !pair_lt(#[trigger] s[j], #[trigger] s[i])
}

proof fn lemma_ins_pos_lex_props(t: Seq<Span>, x: Span)
    requires
        sorted_lex(t),
    ensures
        0 <= ins_pos_lex(t, x) <= t.len(),
        forall|k: int| 0 <= k < ins_pos_lex(t, x) ==> !pair_lt(x, #[trigger] t[k]),
        forall|k: int| ins_pos_lex(t, x) <= k < t.len() ==> pair_lt(x, #[trigger] t[k]),
    decreases t.len(),
{
    if t.len() > 0 {
        if pair_lt(x, t[0]) {
            assert forall|k: int| 0 <= k < t.len() implies pair_lt(x, #[trigger] t[k]) by {
                if k > 0 {
                    assert(!pair_lt(t[k], t[0]));
                }
            }
        } else {
            let u = t.drop_first();
            assert(sorted_lex(u)) by {
                assert forall|i: int, j: int| 0 <= i < j < u.len() implies !pair_lt(
                    #[trigger] u[j],
                    #[trigger] u[i],
                ) by {
                    assert(u[i] == t[i + 1] && u[j] == t[j + 1]);
                }
            }
            lemma_ins_pos_lex_props(u, x);
            assert forall|k: int| 0 <= k < ins_pos_lex(t, x) implies !pair_lt(x, #[trigger] t[k]) by {
                if k > 0 {
                    assert(t[k] == u[k - 1]);
                }
            }
            assert forall|k: int| ins_pos_lex(t, x) <= k < t.len() implies pair_lt(x, #[trigger] t[k]) by {
                assert(t[k] == u[k - 1]);
            }
        }
    }
}

/// Sorting lexicographically gives a lexicographically sorted sequence.
pub proof fn lemma_sort_lex_sorted(s: Seq<Span>)
    ensures
        sorted_lex(sort_lex(s)),
    decreases s.len(),
{
    if s.len() > 0 {
        let t = sort_lex(s.drop_last());
        let x = s.last();
        lemma_sort_lex_sorted(s.drop_last());
        lemma_ins_pos_lex_props(t, x);
        let k = ins_pos_lex(t, x);
        let r = t.insert(k, x);
        t.insert_ensures(k, x);
        assert(r == sort_lex(s));
        assert forall|i: int, j: int| 0 <= i < j < r.len() implies !pair_lt(
            #[trigger] r[j],
            #[trigger] r[i],
        ) by {
            if j < k {
            } else if j == k {
            } else if i < k {
                assert(r[j] == t[j - 1]);
            } else if i == k {
                assert(r[j] == t[j - 1]);
            } else {
                assert(r[i] == t[i - 1] && r[j] == t[j - 1]);
            }
        }
    }
}

/// Sorting an already sorted sequence changes nothing.
pub proof fn lemma_sort_lex_identity(s: Seq<Span>)
    requires
        sorted_lex(s),
    ensures
        sort_lex(s) == s,
    decreases s.len(),
{
    if s.len() > 0 {
        let init = s.drop_last();
        assert(sorted_lex(init)) by {
            assert forall|i: int, j: int| 0 <= i < j < init.len() implies !pair_lt(
                #[trigger] init[j],
                #[trigger] init[i],
            ) by {
                assert(init[i] == s[i] && init[j] == s[j]);
            }
        }
        lemma_sort_lex_identity(init);
        let x = s.last();
        assert forall|k: int| 0 <= k < init.len() implies !pair_lt(x, #[trigger] init[k]) by {
            assert(init[k] == s[k]);
        }
        lemma_ins_pos_lex_unique(init, x, init.len() as int);
        assert(init.insert(init.len() as int, x) =~= s);
    }
}

/// Sorting by start a sequence already sorted by start changes nothing.
pub proof fn lemma_sort_by_start_identity(s: Seq<Span>)
    requires
        sorted_by_start(s),
    ensures
        sort_by_start(s) == s,
    decreases s.len(),
{
    if s.len() > 0 {
        let init = s.drop_last();
        assert(sorted_by_start(init)) by {
            assert forall|i: int, j: int| 0 <= i < j < init.len() implies #[trigger] init[i].0
                <= #[trigger] init[j].0 by {
                assert(init[i] == s[i] && init[j] == s[j]);
            }
        }
        lemma_sort_by_start_identity(init);
        let x = s.last();
        assert forall|k: int| 0 <= k < init.len() implies init[k].0 <= x.0 by {
            assert(init[k] == s[k]);
            assert(s[k].0 <= s[s.len() - 1].0);
        }
        lemma_ins_pos_start_unique(init, x, init.len() as int);
        assert(init.insert(init.len() as int, x) =~= s);
    }
}

/// Sorting keeps a sequence free of repeats.
pub proof fn lemma_sort_by_start_no_duplicates(s: Seq<Span>)
    requires
        s.no_duplicates(),
    ensures
        sort_by_start(s).no_duplicates(),
    decreases s.len(),
{
    if s.len() > 0 {
        let init = s.drop_last();
        assert(init.no_duplicates()) by {
            assert forall|i: int, j: int|
                0 <= i < init.len() && 0 <= j < init.len() && i != j implies init[i] != init[j] by {
                assert(init[i] == s[i] && init[j] == s[j]);
            }
        }
        lemma_sort_by_start_no_duplicates(init);
        lemma_sort_by_start_props(init);
        let t = sort_by_start(init);
        let x = s.last();
        if init.contains(x) {
            let i = choose|i: int| 0 <= i < init.len() && init[i] == x;
            assert(s[i] == s[s.len() - 1]);
        }
        assert(!t.contains(x));
        lemma_ins_pos_start_bound(t, x);
        let k = ins_pos_start(t, x);
        let r = t.insert(k, x);
        assert(r == sort_by_start(s));
        assert forall|i: int, j: int| 0 <= i < r.len() && 0 <= j < r.len() && i != j implies r[i]
            != r[j] by {
            if i == k {
                let jj = if j < k { j } else { j - 1 };
                assert(r[j] == t[jj]);
            } else if j == k {
                let ii = if i < k { i } else { i - 1 };
                assert(r[i] == t[ii]);
            } else {
                let ii = if i < k { i } else { i - 1 };
                let jj = if j < k { j } else { j - 1 };
                assert(r[i] == t[ii] && r[j] == t[jj]);
            }
        }
    }
}

/// Ranges `[start, end)` that are not empty and of which no two overlap,
/// once sorted by start, each end where the next one starts or before.
pub proof fn lemma_sort_disjoint(s: Seq<Span>)
    requires
        forall|i: int| 0 <= i < s.len() ==> (#[trigger] s[i]).0 < s[i].1,
        forall|i: int, j: int|
            0 <= i < s.len() && 0 <= j < s.len() && i != j ==> #[trigger] s[i].1 <= #[trigger] s[j].0
                || s[j].1 <= s[i].0,
    ensures
        sort_by_start(s).len() == s.len(),
        sorted_by_start(sort_by_start(s)),
        forall|p: Span| s.contains(p) <==> #[trigger] sort_by_start(s).contains(p),
        forall|i: int, j: int|
            0 <= i < j < s.len() ==> #[trigger] sort_by_start(s)[i].1 <= #[trigger] sort_by_start(
                s,
            )[j].0,
{
    lemma_sort_by_start_props(s);
    assert(s.no_duplicates()) by {
        assert forall|i: int, j: int| 0 <= i < s.len() && 0 <= j < s.len() && i != j implies s[i]
            != s[j] by {
            assert(s[i].0 < s[i].1 && s[j].0 < s[j].1);
            assert(s[i].1 <= s[j].0 || s[j].1 <= s[i].0);
        }
    }
    lemma_sort_by_start_no_duplicates(s);
    let ss = sort_by_start(s);
    assert forall|i: int, j: int| 0 <= i < j < s.len() implies #[trigger] ss[i].1
        <= #[trigger] ss[j].0 by {
        assert(ss.contains(ss[i]) && ss.contains(ss[j]));
        let a = choose|a: int| 0 <= a < s.len() && s[a] == ss[i];
        let b = choose|b: int| 0 <= b < s.len() && s[b] == ss[j];
        assert(ss[i] != ss[j]);
        assert(a != b);
        assert(s[a].1 <= s[b].0 || s[b].1 <= s[a].0);
        assert(s[a].0 < s[a].1 && s[b].0 < s[b].1);
        assert(ss[i].0 <= ss[j].0);
    }
}

} // verus!
