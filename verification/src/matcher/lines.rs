//! Line-number matcher built from sorted, merged ranges.

use vstd::prelude::*;

use super::Matcher;
use crate::selector::{
    law_normalize_keeps_selected_lines, pair_of, selects, spec_contains, spec_normalize_lines,
    LineSpec, Selector,
};
use crate::types::{Line, MatchInfo};

verus! {

/// An inclusive pair of line numbers widened to `u64`.
pub open spec fn wide(l: LineSpec) -> (u64, u64) {
    (pair_of(l).0 as u64, pair_of(l).1 as u64)
}

/// Line `no` lies in one of the inclusive ranges.
pub open spec fn in_ranges(rs: Seq<(u64, u64)>, no: int) -> bool {
    exists|i: int| 0 <= i < rs.len() && #[trigger] rs[i].0 <= no && no <= rs[i].1
}

/// Matches lines whose 1-indexed number falls in a set of merged ranges.
pub struct LineMatcher {
    /// Sorted, non-overlapping, inclusive `(start, end)` ranges (1-indexed).
    ranges: Vec<(u64, u64)>,
}

impl LineMatcher {
    /// The ranges the matcher holds.
    pub closed spec fn spec_ranges(&self) -> Seq<(u64, u64)> {
        self.ranges@
    }

    /// Build from a `Selector::LineNumbers`: the normalized specs, as `u64`
    /// ranges.
    pub fn from_selector(sel: &Selector) -> (r: Self)
        requires
            sel is LineNumbers,
        ensures
            match sel {
                Selector::LineNumbers(specs) => r.spec_ranges() == spec_normalize_lines(
                    specs@,
                ).map_values(|l: LineSpec| wide(l)),
                _ => false,
            },
    {
        let normalized = sel.normalize();
        let mut ranges: Vec<(u64, u64)> = Vec::new();
        match &normalized {
            Selector::LineNumbers(specs) => {
                let mut i: usize = 0;
                while i < specs.len()
                    invariant
                        i <= specs@.len(),
                        ranges@ == specs@.take(i as int).map_values(|l: LineSpec| wide(l)),
                    decreases specs@.len() - i,
                {
                    let pair = match specs[i] {
                        LineSpec::Single(n) => (n as u64, n as u64),
                        LineSpec::Range(a, b) => (a as u64, b as u64),
                    };
                    assert(specs@.take(i + 1).map_values(|l: LineSpec| wide(l)) =~= specs@.take(
                        i as int,
                    ).map_values(|l: LineSpec| wide(l)).push(pair));
                    ranges.push(pair);
                    i = i + 1;
                }
                assert(specs@.take(specs@.len() as int) =~= specs@);
            },
            _ => {},
        }
        LineMatcher { ranges }
    }
}

impl Matcher for LineMatcher {
    /// A line hits when its number lies in one of the ranges; the ranges
    /// stay as they are.
    open spec fn matched(&self, line: Line, next: Self, info: MatchInfo) -> bool {
        &&& next.spec_ranges() == self.spec_ranges()
        &&& info.hit == in_ranges(self.spec_ranges(), line.no as int)
        &&& info.spans@.len() == 0
        &&& info.col is None
    }

    fn match_line(&mut self, line: &Line) -> (r: MatchInfo) {
        let mut hit = false;
        let mut i: usize = 0;
        while i < self.ranges.len()
            invariant
                i <= self.ranges@.len(),
                hit == exists|k: int|
                    0 <= k < i && #[trigger] self.ranges@[k].0 <= line.no && line.no <= self.ranges@[k].1,
            decreases self.ranges@.len() - i,
        {
            let (a, b) = self.ranges[i];
            if line.no >= a && line.no <= b {
                hit = true;
            }
            i = i + 1;
        }
        MatchInfo { hit, spans: Vec::new(), col: None }
    }
}

/// A matcher built from line specs hits exactly the lines those specs select.
pub proof fn law_line_matcher_hits_selected(m: LineMatcher, specs: Seq<LineSpec>, no: u64)
    requires
        m.spec_ranges() == spec_normalize_lines(specs).map_values(|l: LineSpec| wide(l)),
    ensures
        in_ranges(m.spec_ranges(), no as int) <==> selects(specs, no as int),
{
    let n = spec_normalize_lines(specs);
    let rs = m.spec_ranges();
    law_normalize_keeps_selected_lines(specs);
    if in_ranges(rs, no as int) {
        let i = choose|i: int| 0 <= i < rs.len() && #[trigger] rs[i].0 <= no && no <= rs[i].1;
        assert(rs[i] == wide(n[i]));
        assert(spec_contains(n[i], no as int));
        assert(selects(n, no as int));
    }
    if selects(n, no as int) {
        let i = choose|i: int| 0 <= i < n.len() && spec_contains(#[trigger] n[i], no as int);
        assert(rs[i] == wide(n[i]));
        assert(rs[i].0 <= no && no <= rs[i].1);
    }
}

} // verus!
