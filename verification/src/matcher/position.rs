//! Positional matcher (line:column).

use vstd::prelude::*;

use super::Matcher;
use crate::selector::{law_normalize_positions, pos_lt, spec_normalize_positions, Position, Selector};
use crate::types::{Line, MatchInfo};

verus! {

/// The first index at or after `c` whose position lies on line `no` or later.
pub open spec fn advance(ps: Seq<Position>, c: int, no: int) -> int
    decreases ps.len() - c,
{
    if c >= ps.len() {
        c
    } else if ps[c].line >= no {
        c
    } else {
        advance(ps, c + 1, no)
    }
}

/// Positions sorted by line then column, each once.
pub open spec fn strictly_sorted(ps: Seq<Position>) -> bool {
    forall|i: int, j: int| 0 <= i < j < ps.len() ==> pos_lt(#[trigger] ps[i], #[trigger] ps[j])
}

/// Hits the lines that carry a target position.
pub struct PositionMatcher {
    /// Positions sorted by `(line, col)`.
    positions: Vec<Position>,
    /// Index of next unconsumed position (positions with line < current are skipped).
    cursor: usize,
}

impl PositionMatcher {
    /// The target positions.
    pub closed spec fn spec_positions(&self) -> Seq<Position> {
        self.positions@
    }

    /// How many positions have been passed.
    pub closed spec fn spec_cursor(&self) -> int {
        self.cursor as int
    }

    /// The cursor never passes the end of the positions.
    #[verifier::type_invariant]
    spec fn cursor_in_bounds(self) -> bool {
        self.cursor <= self.positions@.len()
    }

    /// Build from a `Selector::Positions`: its normalized positions, with the
    /// cursor at the first.
    pub fn from_selector(sel: &Selector) -> (r: Self)
        requires
            sel is Positions,
        ensures
            match sel {
                Selector::Positions(p) => r.spec_positions() == spec_normalize_positions(p@),
                _ => false,
            },
            r.spec_cursor() == 0,
            strictly_sorted(r.spec_positions()),
    {
        match sel.normalize() {
            Selector::Positions(p) => {
                // Normalized positions are already sorted and free of duplicates.
                proof {
                    match sel {
                        Selector::Positions(q) => law_normalize_positions(q@),
                        _ => {},
                    }
                }
                PositionMatcher { positions: p, cursor: 0 }
            },
            _ => {
                assert(false);
                PositionMatcher { positions: Vec::new(), cursor: 0 }
            },
        }
    }
}

impl Matcher for PositionMatcher {
    /// The cursor moves past the positions on earlier lines; the line hits
    /// when the position it then stands at lies on it, with that column.
    open spec fn matched(&self, line: Line, next: Self, info: MatchInfo) -> bool {
        let ps = self.spec_positions();
        let k = next.spec_cursor();
        &&& next.spec_positions() == ps
        &&& self.spec_cursor() <= k <= ps.len()
        &&& k == advance(ps, self.spec_cursor(), line.no as int)
        &&& if k < ps.len() && ps[k].line == line.no {
            info.hit && info.spans@.len() == 0 && info.col == Some(ps[k].column)
        } else {
            info.is_miss()
        }
    }

    fn match_line(&mut self, line: &Line) -> (r: MatchInfo)
    {
        proof {
            use_type_invariant(&*self);
        }
        while self.cursor < self.positions.len() && (self.positions[self.cursor].line as u64) < line.no
            invariant
                self.positions@ == old(self).positions@,
                old(self).cursor <= self.cursor <= self.positions@.len(),
                advance(self.positions@, self.cursor as int, line.no as int) == advance(
                    old(self).positions@,
                    old(self).cursor as int,
                    line.no as int,
                ),
            decreases self.positions@.len() - self.cursor,
        {
            self.cursor = self.cursor + 1;
        }
        if self.cursor < self.positions.len() && self.positions[self.cursor].line as u64 == line.no {
            return MatchInfo { hit: true, spans: Vec::new(), col: Some(self.positions[self.cursor].column) };
        }
        MatchInfo { hit: false, spans: Vec::new(), col: None }
    }
}

/// `advance` stops at or after `c`, and everything it passes lies on an
/// earlier line.
proof fn lemma_advance(ps: Seq<Position>, c: int, no: int)
    requires
        0 <= c,
    ensures
        c <= advance(ps, c, no),
        c <= ps.len() ==> advance(ps, c, no) <= ps.len(),
        forall|k: int| c <= k < advance(ps, c, no) ==> ps[k].line < no,
        advance(ps, c, no) < ps.len() ==> ps[advance(ps, c, no)].line >= no,
    decreases ps.len() - c,
{
    if c < ps.len() && ps[c].line < no {
        lemma_advance(ps, c + 1, no);
    }
}

/// Fed lines in increasing order from a freshly built matcher, the matcher
/// hits a line exactly when some position lies on it, and then reports the
/// smallest column given for that line. Stated for one step: when every
/// position before the cursor lies on an earlier line than `no`, the step
/// keeps that true for every later line and finds the first position on `no`.
pub proof fn law_position_matcher_step(ps: Seq<Position>, c: int, no: int)
    requires
        strictly_sorted(ps),
        0 <= c <= ps.len(),
        forall|k: int| 0 <= k < c ==> ps[k].line < no,
    ensures
        ({
            let k = advance(ps, c, no);
            &&& (k < ps.len() && ps[k].line == no) <==> exists|q: Position|
                ps.contains(q) && q.line == no
            &&& k < ps.len() && ps[k].line == no ==> forall|q: Position|
                ps.contains(q) && q.line == no ==> ps[k].column <= q.column
            &&& forall|j: int| 0 <= j < k ==> #[trigger] ps[j].line < no
        }),
{
    lemma_advance(ps, c, no);
    let k = advance(ps, c, no);
    assert forall|j: int| 0 <= j < k implies ps[j].line < no by {}
    if exists|q: Position| ps.contains(q) && q.line == no {
        let q = choose|q: Position| ps.contains(q) && q.line == no;
        let i = choose|i: int| 0 <= i < ps.len() && ps[i] == q;
        if k < ps.len() && ps[k].line != no {
            // ps[k].line > no, so q would have to come before k
            if i > k {
                assert(pos_lt(ps[k], ps[i]));
            }
        }
        if k >= ps.len() {
            assert(ps[i].line < no);
        }
    }
    if k < ps.len() && ps[k].line == no {
        assert(ps.contains(ps[k]));
        assert forall|q: Position| ps.contains(q) && q.line == no implies ps[k].column <= q.column by {
            let i = choose|i: int| 0 <= i < ps.len() && ps[i] == q;
            if i < k {
                assert(ps[i].line < no);
            } else if i > k {
                assert(pos_lt(ps[k], ps[i]));
            }
        }
    }
}

/// Where the cursor of a fresh matcher stands after lines numbered `nos`.
pub open spec fn cursor_after(ps: Seq<Position>, nos: Seq<int>) -> int
    decreases nos.len(),
{
    if nos.len() == 0 {
        0
    } else {
        advance(ps, cursor_after(ps, nos.drop_last()), nos.last())
    }
}

proof fn lemma_cursor_after(ps: Seq<Position>, nos: Seq<int>)
    requires
        forall|a: int, b: int| 0 <= a < b < nos.len() ==> nos[a] <= nos[b],
    ensures
        0 <= cursor_after(ps, nos) <= ps.len(),
        nos.len() > 0 ==> forall|j: int|
            0 <= j < cursor_after(ps, nos) ==> #[trigger] ps[j].line < nos.last(),
    decreases nos.len(),
{
    if nos.len() > 0 {
        let init = nos.drop_last();
        lemma_cursor_after(ps, init);
        let c = cursor_after(ps, init);
        lemma_advance(ps, c, nos.last());
        if init.len() > 0 {
            assert(init.last() == nos[nos.len() - 2]);
            assert forall|j: int| 0 <= j < c implies #[trigger] ps[j].line < nos.last() by {
                assert(ps[j].line < init.last());
            }
        }
    }
}

/// Fed lines whose numbers never decrease (a number may repeat), a matcher
/// built from sorted, distinct positions hits line `nos[i]` exactly when
/// some position lies on it, and then reports the smallest column given for
/// that line.
pub proof fn law_position_matcher_stream(ps: Seq<Position>, nos: Seq<int>, i: int)
    requires
        strictly_sorted(ps),
        forall|a: int, b: int| 0 <= a < b < nos.len() ==> nos[a] <= nos[b],
        0 <= i < nos.len(),
    ensures
        ({
            let k = cursor_after(ps, nos.take(i + 1));
            &&& (k < ps.len() && ps[k].line == nos[i]) <==> exists|q: Position|
                ps.contains(q) && q.line == nos[i]
            &&& k < ps.len() && ps[k].line == nos[i] ==> forall|q: Position|
                ps.contains(q) && q.line == nos[i] ==> ps[k].column <= q.column
        }),
{
    let pre = nos.take(i);
    let cur = nos.take(i + 1);
    assert(cur.drop_last() =~= pre);
    assert(cur.last() == nos[i]);
    lemma_cursor_after(ps, pre);
    let c = cursor_after(ps, pre);
    if i > 0 {
        assert(pre.last() == nos[i - 1]);
        assert forall|j: int| 0 <= j < c implies ps[j].line < nos[i] by {
            assert(ps[j].line < pre.last());
        }
    }
    law_position_matcher_step(ps, c, nos[i]);
}

/// What `match_line` reports on the `i`-th of lines whose numbers never
/// decrease, fed to a matcher built from sorted, distinct positions: a hit
/// exactly when some position lies on the line, with the smallest column
/// given for it and no spans; otherwise a miss (`MatchInfo::default()`). The
/// cursor moves on as the next line expects.
pub proof fn law_position_matcher_verdict(
    m: PositionMatcher,
    nos: Seq<int>,
    i: int,
    line: Line,
    next: PositionMatcher,
    info: MatchInfo,
)
    requires
        strictly_sorted(m.spec_positions()),
        forall|a: int, b: int| 0 <= a < b < nos.len() ==> nos[a] <= nos[b],
        0 <= i < nos.len(),
        m.spec_cursor() == cursor_after(m.spec_positions(), nos.take(i)),
        line.no == nos[i],
        m.matched(line, next, info),
    ensures
        ({
            let ps = m.spec_positions();
            &&& info.hit <==> exists|q: Position| ps.contains(q) && q.line == line.no
            &&& info.hit ==> info.spans@.len() == 0 && exists|q: Position|
                ps.contains(q) && q.line == line.no && info.col == Some(q.column) && forall|
                    q2: Position,
                | ps.contains(q2) && q2.line == line.no ==> q.column <= q2.column
            &&& !info.hit ==> info.is_miss()
            &&& next.spec_positions() == ps
            &&& next.spec_cursor() == cursor_after(ps, nos.take(i + 1))
        }),
{
    let ps = m.spec_positions();
    law_position_matcher_stream(ps, nos, i);
    let cur = nos.take(i + 1);
    assert(cur.drop_last() =~= nos.take(i));
    assert(cur.last() == nos[i]);
    let k = next.spec_cursor();
    if k < ps.len() && ps[k].line == line.no {
        assert(ps.contains(ps[k]));
    }
}

} // verus!
