//! Matcher stage — decides whether a given line is a hit.

pub mod lines;
pub mod position;
pub mod regex;

pub use self::lines::LineMatcher;
pub use self::position::PositionMatcher;
pub use self::regex::RegexMatcher;

use vstd::prelude::*;

use crate::types::{Line, MatchInfo};

verus! {

/// Classifies each line as hit or miss.
///
/// Implementations may be stateful (e.g., a position matcher that advances
/// through a sorted list of targets).
pub trait Matcher: Sized {
    /// `info` is what a matcher in state `self` says of `line`, and `next`
    /// is its state afterwards.
    spec fn matched(&self, line: Line, next: Self, info: MatchInfo) -> bool;

    fn match_line(&mut self, line: &Line) -> (r: MatchInfo)
        ensures
            old(self).matched(*line, *final(self), r),
    ;
}

/// A matcher that hits every line.
pub struct AllMatcher;

impl Matcher for AllMatcher {
    /// Every line hits, with no spans and no column.
    open spec fn matched(&self, line: Line, next: Self, info: MatchInfo) -> bool {
        info.hit && info.spans@.len() == 0 && info.col is None
    }

    fn match_line(&mut self, _line: &Line) -> (r: MatchInfo) {
        MatchInfo { hit: true, spans: Vec::new(), col: None }
    }
}

} // verus!
