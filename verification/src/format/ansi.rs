//! Minimal ANSI escape helpers, and what text with highlighted pieces
//! looks like.

use vstd::prelude::*;
use vstd::utf8::*;

use crate::ranges::Span;

verus! {

pub const GREEN: &'static str = "\x1b[32m";

pub const INVERSE: &'static str = "\x1b[7m";

pub const RESET: &'static str = "\x1b[0m";

/// Wrap `text` in `code` … RESET if `enabled`, otherwise pass through.
pub fn paint(enabled: bool, code: &str, text: &str) -> (r: String)
    ensures
        r@ == (if enabled { code@ + text@ + RESET@ } else { text@ }),
{
    if enabled {
        let mut s = String::from_str(code);
        s.append(text);
        s.append(RESET);
        s
    } else {
        String::from_str(text)
    }
}

/// Pieces `[a, b)` of a text of `len` bytes, in order: each within the
/// text, and each ending no later than the next one starts.
pub open spec fn well_cut(cuts: Seq<(int, int)>, len: int) -> bool {
    &&& forall|i: int| 0 <= i < cuts.len() ==> 0 <= (#[trigger] cuts[i]).0 <= cuts[i].1 <= len
    &&& forall|i: int, j: int|
        0 <= i < j < cuts.len() ==> #[trigger] cuts[i].1 <= #[trigger] cuts[j].0
}

/// `(start, end)` pairs as pieces of a text.
pub open spec fn pair_cuts(ps: Seq<Span>) -> Seq<(int, int)> {
    ps.map_values(|p: Span| (p.0 as int, p.1 as int))
}

/// Where the last piece ends, 0 when there is none.
pub open spec fn cut_end(cuts: Seq<(int, int)>) -> int {
    if cuts.len() == 0 {
        0
    } else {
        cuts.last().1
    }
}

/// `INVERSE` when `mark` is set, nothing otherwise.
pub open spec fn open_code(mark: bool) -> Seq<u8> {
    if mark {
        encode_utf8(INVERSE@)
    } else {
        Seq::empty()
    }
}

/// `RESET` when `mark` is set, nothing otherwise.
pub open spec fn close_code(mark: bool) -> Seq<u8> {
    if mark {
        encode_utf8(RESET@)
    } else {
        Seq::empty()
    }
}

/// `t` up to the end of the last piece, each piece between `INVERSE` and
/// `RESET` when `mark` is set.
pub open spec fn marked_upto(t: Seq<u8>, cuts: Seq<(int, int)>, mark: bool) -> Seq<u8>
    decreases cuts.len(),
{
    if cuts.len() == 0 {
        Seq::empty()
    } else {
        let p = cuts.drop_last();
        marked_upto(t, p, mark) + t.subrange(cut_end(p), cuts.last().0) + open_code(mark)
            + t.subrange(cuts.last().0, cuts.last().1) + close_code(mark)
    }
}

/// `t` with its pieces `cuts` between `INVERSE` and `RESET` (`mark` set),
/// or with the same codes left out (`mark` clear).
pub open spec fn marked(t: Seq<u8>, cuts: Seq<(int, int)>, mark: bool) -> Seq<u8> {
    marked_upto(t, cuts, mark) + t.subrange(cut_end(cuts), t.len() as int)
}

/// Pairs within a text, each ending no later than the next one starts, in
/// order: spans that do not overlap.
pub open spec fn disjoint_in_order(ps: Seq<Span>, len: int) -> bool {
    &&& forall|i: int| 0 <= i < ps.len() ==> (#[trigger] ps[i]).0 <= ps[i].1 <= len
    &&& forall|i: int, j: int| 0 <= i < j < ps.len() ==> #[trigger] ps[i].1 <= #[trigger] ps[j].0
}

/// Such pairs are pieces of the text, and so is every prefix of them.
pub proof fn lemma_disjoint_pairs(ps: Seq<Span>, len: int)
    requires
        disjoint_in_order(ps, len),
    ensures
        well_cut(pair_cuts(ps), len),
        ps.len() > 0 ==> disjoint_in_order(ps.drop_last(), len),
        ps.len() > 0 ==> pair_cuts(ps).drop_last() == pair_cuts(ps.drop_last()),
        ps.len() > 1 ==> ps[ps.len() - 2].1 <= ps[ps.len() - 1].0,
{
    let cs = pair_cuts(ps);
    assert forall|i: int| 0 <= i < cs.len() implies 0 <= (#[trigger] cs[i]).0 <= cs[i].1 <= len by {
        assert(cs[i] == (ps[i].0 as int, ps[i].1 as int));
    }
    assert forall|i: int, j: int| 0 <= i < j < cs.len() implies #[trigger] cs[i].1
        <= #[trigger] cs[j].0 by {
        assert(cs[i] == (ps[i].0 as int, ps[i].1 as int));
        assert(cs[j] == (ps[j].0 as int, ps[j].1 as int));
        assert(ps[i].1 <= ps[j].0);
    }
    if ps.len() > 0 {
        let q = ps.drop_last();
        assert forall|i: int| 0 <= i < q.len() implies (#[trigger] q[i]).0 <= q[i].1 <= len by {
            assert(q[i] == ps[i]);
        }
        assert forall|i: int, j: int| 0 <= i < j < q.len() implies #[trigger] q[i].1
            <= #[trigger] q[j].0 by {
            assert(q[i] == ps[i] && q[j] == ps[j]);
            assert(ps[i].1 <= ps[j].0);
        }
        assert(cs.drop_last() =~= pair_cuts(q));
    }
    if ps.len() > 1 {
        assert(ps[ps.len() - 2].1 <= ps[ps.len() - 1].0);
    }
}

/// The last piece ends after every other one.
pub proof fn lemma_cut_end_bounds(cuts: Seq<(int, int)>, len: int)
    requires
        well_cut(cuts, len),
        0 <= len,
    ensures
        0 <= cut_end(cuts) <= len,
        forall|i: int| 0 <= i < cuts.len() ==> #[trigger] cuts[i].1 <= cut_end(cuts),
{
    if cuts.len() > 0 {
        assert(0 <= cuts[cuts.len() - 1].0 <= cuts[cuts.len() - 1].1 <= len);
        assert forall|i: int| 0 <= i < cuts.len() implies #[trigger] cuts[i].1 <= cut_end(cuts) by {
            if i < cuts.len() - 1 {
                assert(cuts[i].1 <= cuts[cuts.len() - 1].0);
            }
        }
    }
}

/// Leaving the codes out of the marked text gives back the text.
proof fn lemma_unmarked_upto(t: Seq<u8>, cuts: Seq<(int, int)>)
    requires
        well_cut(cuts, t.len() as int),
    ensures
        marked_upto(t, cuts, false) == t.subrange(0, cut_end(cuts)),
    decreases cuts.len(),
{
    if cuts.len() > 0 {
        let p = cuts.drop_last();
        assert(well_cut(p, t.len() as int)) by {
            assert forall|i: int| 0 <= i < p.len() implies 0 <= (#[trigger] p[i]).0 <= p[i].1
                <= t.len() by {
                assert(p[i] == cuts[i]);
            }
            assert forall|i: int, j: int| 0 <= i < j < p.len() implies #[trigger] p[i].1
                <= #[trigger] p[j].0 by {
                assert(p[i] == cuts[i] && p[j] == cuts[j]);
            }
        }
        lemma_unmarked_upto(t, p);
        lemma_cut_end_bounds(p, t.len() as int);
        let x = cuts.last();
        assert(0 <= x.0 <= x.1 <= t.len());
        if p.len() > 0 {
            assert(p.last() == cuts[cuts.len() - 2]);
            assert(cuts[cuts.len() - 2].1 <= cuts[cuts.len() - 1].0);
        }
        assert(t.subrange(0, cut_end(p)) + t.subrange(cut_end(p), x.0) + Seq::<u8>::empty()
            + t.subrange(x.0, x.1) + Seq::<u8>::empty() =~= t.subrange(0, x.1));
    }
}

/// Highlighting by pieces only adds codes: with them left out, the text
/// comes back whole.
pub proof fn law_unmarked_is_text(t: Seq<u8>, cuts: Seq<(int, int)>)
    requires
        well_cut(cuts, t.len() as int),
    ensures
        marked(t, cuts, false) == t,
{
    lemma_unmarked_upto(t, cuts);
    lemma_cut_end_bounds(cuts, t.len() as int);
    assert(t.subrange(0, cut_end(cuts)) + t.subrange(cut_end(cuts), t.len() as int) =~= t);
}

} // verus!
