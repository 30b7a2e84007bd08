//! Regex matcher.

use vstd::prelude::*;

use super::Matcher;
use crate::error::SelError;
use crate::types::{Line, MatchInfo};

verus! {

/// `regex::bytes::Regex`, the compiled pattern a `RegexMatcher` holds; its
/// contents are opaque.
#[verifier::external_type_specification]
#[verifier::external_body]
pub struct ExBytesRegex(::regex::bytes::Regex);

/// `regex::Error`, the reason a pattern fails to compile; its contents are
/// opaque.
#[verifier::external_type_specification]
#[verifier::external_body]
pub struct ExRegexError(::regex::Error);

/// A name for whether `regex::bytes::Regex::new` accepts a pattern (it
/// refuses invalid syntax and regexes over the default size limit).
pub uninterp spec fn spec_regex_compiles(pattern: Seq<char>) -> bool;

/// A name for whether the regex compiled from `pattern` matches anywhere in
/// `hay`.
pub uninterp spec fn spec_regex_is_match(pattern: Seq<char>, hay: Seq<u8>) -> bool;

/// A name for the successive non-overlapping matches, as `(start, end)` byte
/// offsets, of the regex compiled from `pattern` in `hay`.
pub uninterp spec fn spec_regex_find_spans(pattern: Seq<char>, hay: Seq<u8>) -> Seq<(usize, usize)>;

/// Calls `regex::bytes::Regex::new`. It returns `Ok` exactly when the
/// pattern compiles, which depends on the pattern alone; the contract names
/// that outcome.
#[verifier::external_body]
fn compile_regex(pattern: &str) -> (r: Result<::regex::bytes::Regex, ::regex::Error>)
    ensures
        r.is_ok() == spec_regex_compiles(pattern@),
{
    ::regex::bytes::Regex::new(pattern)
}

/// Calls `<regex::Error as Display>::fmt` through `format!`. Nothing is
/// claimed of the text.
#[verifier::external_body]
fn regex_error_text(e: &::regex::Error) -> String {
    format!("{}", e)
}

/// Calls `Regex::is_match` on the matcher's compiled regex. The regex is the
/// one `RegexMatcher::new` compiled from the matcher's `pattern` (its fields
/// are private, and `new` is the only place that sets them), so the result
/// is named after the pattern and the haystack. As the regex documentation
/// states, there is a match anywhere exactly when `find_iter` yields one.
#[verifier::external_body]
fn regex_is_match(m: &RegexMatcher, hay: &[u8]) -> (r: bool)
    ensures
        r == spec_regex_is_match(m.pattern@, hay@),
        r == (spec_regex_find_spans(m.pattern@, hay@).len() > 0),
{
    m.regex.is_match(hay)
}

/// Calls `Regex::find_iter` on the matcher's compiled regex and collects each
/// match's byte range. As for `regex_is_match`, the regex is the one compiled
/// from `m.pattern`. The regex documentation guarantees `start <= end`, and
/// both are offsets into the haystack.
#[verifier::external_body]
fn regex_find_spans(m: &RegexMatcher, hay: &[u8]) -> (r: Vec<core::ops::Range<usize>>)
    ensures
        r@.len() == spec_regex_find_spans(m.pattern@, hay@).len(),
        forall|i: int|
            0 <= i < r@.len() ==> #[trigger] r@[i].start == spec_regex_find_spans(m.pattern@, hay@)[i].0
                && r@[i].end == spec_regex_find_spans(m.pattern@, hay@)[i].1,
        forall|i: int| 0 <= i < r@.len() ==> #[trigger] r@[i].start <= r@[i].end && r@[i].end <= hay@.len(),
{
    m.regex.find_iter(hay).map(|x| x.start()..x.end()).collect()
}

/// Matches lines against a regular expression, optionally inverted.
#[derive(Debug)]
pub struct RegexMatcher {
    regex: ::regex::bytes::Regex,
    pattern: String,
    invert: bool,
}

impl RegexMatcher {
    /// The pattern the regex was compiled from.
    pub closed spec fn spec_pattern(&self) -> Seq<char> {
        self.pattern@
    }

    /// Whether hits are inverted.
    pub closed spec fn spec_invert(&self) -> bool {
        self.invert
    }

    /// Compiles `pattern`; an invalid pattern is an `InvalidRegex` error.
    pub fn new(pattern: &str, invert: bool) -> (r: Result<Self, SelError>)
        ensures
            r.is_ok() == spec_regex_compiles(pattern@),
            r matches Ok(m) ==> m.spec_pattern() == pattern@ && m.spec_invert() == invert,
            r matches Err(e) ==> e is InvalidRegex,
    {
        match compile_regex(pattern) {
            Ok(regex) => Ok(RegexMatcher { regex, pattern: pattern.to_owned(), invert }),
            Err(e) => Err(SelError::InvalidRegex(regex_error_text(&e))),
        }
    }
}

impl Matcher for RegexMatcher {
    /// A line hits when the regex matches it, flipped when inverted; a
    /// plain hit carries the match spans, anything else none.
    open spec fn matched(&self, line: Line, next: Self, info: MatchInfo) -> bool {
        &&& next.spec_pattern() == self.spec_pattern()
        &&& next.spec_invert() == self.spec_invert()
        &&& info.hit == (spec_regex_is_match(self.spec_pattern(), line.bytes@) != self.spec_invert())
        &&& info.col is None
        &&& info.hit && !self.spec_invert() ==> {
            let found = spec_regex_find_spans(self.spec_pattern(), line.bytes@);
            &&& info.spans@.len() == found.len()
            &&& info.spans@.len() > 0
            &&& forall|i: int|
                0 <= i < found.len() ==> #[trigger] info.spans@[i].start == found[i].0
                    && info.spans@[i].end == found[i].1
            &&& forall|i: int|
                0 <= i < info.spans@.len() ==> #[trigger] info.spans@[i].start <= info.spans@[i].end
                    && info.spans@[i].end <= line.bytes@.len()
        }
        &&& !(info.hit && !self.spec_invert()) ==> info.spans@.len() == 0
    }

    fn match_line(&mut self, line: &Line) -> (r: MatchInfo)
    {
        let is_match = regex_is_match(self, line.bytes.as_slice());
        let hit = is_match != self.invert;
        let spans = if hit && !self.invert {
            regex_find_spans(self, line.bytes.as_slice())
        } else {
            Vec::new()
        };
        MatchInfo { hit, spans, col: None }
    }
}

} // verus!
