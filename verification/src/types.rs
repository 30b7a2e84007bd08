//! Shared types used across pipeline stages.

use vstd::prelude::*;

use crate::text::{lossy_string, spec_lossy_utf8};

verus! {

/// A line of input with its 1-indexed line number.
#[derive(Debug, Clone)]
pub struct Line {
    pub no: u64,
    pub bytes: Vec<u8>,
}

impl Line {
    /// A line numbered `no` holding `bytes`.
    pub fn new(no: u64, bytes: Vec<u8>) -> (r: Line)
        ensures
            r.no == no,
            r.bytes == bytes,
    {
        Line { no, bytes }
    }

    /// The line content as a string, with U+FFFD for invalid UTF-8.
    pub fn as_str_lossy(&self) -> (r: String)
        ensures
            r@ == spec_lossy_utf8(self.bytes@),
    {
        lossy_string(self.bytes.as_slice())
    }
}

/// Result of running a `Matcher` on a `Line`.
#[derive(Debug, Clone)]
pub struct MatchInfo {
    /// Did this line hit?
    pub hit: bool,
    /// Byte ranges to highlight (for regex matches).
    pub spans: Vec<core::ops::Range<usize>>,
    /// Target column (1-indexed) for positional matches.
    pub col: Option<usize>,
}

impl MatchInfo {
    /// A miss: no hit, no spans, no column.
    pub open spec fn is_miss(&self) -> bool {
        !self.hit && self.spans@.len() == 0 && self.col is None
    }
}

impl Default for MatchInfo {
    fn default() -> (r: MatchInfo)
        ensures
            r.is_miss(),
    {
        MatchInfo { hit: false, spans: Vec::new(), col: None }
    }
}

/// Role of an emitted line in the output stream.
#[derive(Debug, Clone, Copy, PartialEq, Eq, Structural)]
pub enum Role {
    /// A line that matched (primary output).
    Target,
    /// A neighbouring line included as context.
    Context,
}

/// One line being emitted by the pipeline.
#[derive(Debug, Clone)]
pub struct Emit<'a> {
    pub line: &'a Line,
    pub role: Role,
    pub match_info: &'a MatchInfo,
}

} // verus!
