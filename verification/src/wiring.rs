//! Choosing the matcher, expander and formatter from the command line.

use vstd::prelude::*;
use vstd::utf8::*;

use crate::cli::{spec_selector, Cli};
use crate::context::{EmitOwned, Expander, LineContext, NoContext};
use crate::error::SelError;
use crate::format::{FormatOpts, FragmentFormatter, Formatter, PlainFormatter};
use crate::matcher::regex::spec_regex_compiles;
use crate::matcher::{AllMatcher, LineMatcher, Matcher, PositionMatcher, RegexMatcher};
use crate::matcher::lines::wide;
use crate::selector::{
    spec_line_list, spec_normalize_lines, spec_normalize_positions,
    spec_position_list, LineSpec, Selector,
};
use crate::text::{index_of, spec_lossy_utf8};
use crate::types::{Emit, Line, MatchInfo, Role};

verus! {

/// One of the matchers.
pub enum AnyMatcher {
    All(AllMatcher),
    Lines(LineMatcher),
    Positions(PositionMatcher),
    Regex(RegexMatcher),
}

impl Matcher for AnyMatcher {
    /// What the matcher inside says, staying the same kind of matcher.
    open spec fn matched(&self, line: Line, next: Self, info: MatchInfo) -> bool {
        match (*self, next) {
            (AnyMatcher::All(a), AnyMatcher::All(b)) => a.matched(line, b, info),
            (AnyMatcher::Lines(a), AnyMatcher::Lines(b)) => a.matched(line, b, info),
            (AnyMatcher::Positions(a), AnyMatcher::Positions(b)) => a.matched(line, b, info),
            (AnyMatcher::Regex(a), AnyMatcher::Regex(b)) => a.matched(line, b, info),
            _ => false,
        }
    }

    fn match_line(&mut self, line: &Line) -> (r: MatchInfo) {
        match self {
            AnyMatcher::All(m) => m.match_line(line),
            AnyMatcher::Lines(m) => m.match_line(line),
            AnyMatcher::Positions(m) => m.match_line(line),
            AnyMatcher::Regex(m) => m.match_line(line),
        }
    }
}

/// One of the expanders.
pub enum AnyExpander {
    Hits(NoContext),
    Lines(LineContext),
}

impl Expander for AnyExpander {
    /// What the expander inside does, staying the same kind of expander.
    open spec fn pushed(&self, line: Line, info: MatchInfo, next: Self, out: Seq<EmitOwned>) -> bool {
        match (*self, next) {
            (AnyExpander::Hits(a), AnyExpander::Hits(b)) => a.pushed(line, info, b, out),
            (AnyExpander::Lines(a), AnyExpander::Lines(b)) => a.pushed(line, info, b, out),
            _ => false,
        }
    }

    open spec fn drained(&self, next: Self, out: Seq<EmitOwned>) -> bool {
        match (*self, next) {
            (AnyExpander::Hits(a), AnyExpander::Hits(b)) => a.drained(b, out),
            (AnyExpander::Lines(a), AnyExpander::Lines(b)) => a.drained(b, out),
            _ => false,
        }
    }

    fn push(&mut self, line: Line, info: MatchInfo) -> (r: Vec<EmitOwned>) {
        match self {
            AnyExpander::Hits(e) => e.push(line, info),
            AnyExpander::Lines(e) => e.push(line, info),
        }
    }

    fn drain(&mut self) -> (r: Vec<EmitOwned>) {
        match self {
            AnyExpander::Hits(e) => e.drain(),
            AnyExpander::Lines(e) => e.drain(),
        }
    }
}

/// One of the formatters.
pub enum AnyFormatter {
    Plain(PlainFormatter),
    Fragment(FragmentFormatter),
}

impl Formatter for AnyFormatter {
    /// Both formatters inside write into a byte buffer, which cannot fail.
    open spec fn infallible() -> bool {
        true
    }

    /// The error of the formatter inside.
    open spec fn write_error(&self, line: Line, role: Role, info: MatchInfo) -> std::io::Error {
        match *self {
            AnyFormatter::Plain(f) => f.write_error(line, role, info),
            AnyFormatter::Fragment(f) => f.write_error(line, role, info),
        }
    }

    /// What the formatter inside writes, staying the same kind of formatter.
    open spec fn written(&self, line: Line, role: Role, info: MatchInfo) -> (Self, Seq<u8>) {
        match *self {
            AnyFormatter::Plain(f) => {
                let (g, out) = f.written(line, role, info);
                (AnyFormatter::Plain(g), out)
            },
            AnyFormatter::Fragment(f) => {
                let (g, out) = f.written(line, role, info);
                (AnyFormatter::Fragment(g), out)
            },
        }
    }

    fn write(&mut self, sink: &mut Vec<u8>, emit: &Emit) -> (r: Result<(), std::io::Error>)
        ensures
            r is Ok,
    {
        match self {
            AnyFormatter::Plain(f) => f.write(sink, emit),
            AnyFormatter::Fragment(f) => f.write(sink, emit),
        }
    }
}

/// What the matcher for a selector string `b` is, on a seekable source or
/// not: positions need a seekable source; a bad selector is its parse error.
pub open spec fn selector_matcher_fits(b: Seq<u8>, seekable: bool, r: Result<AnyMatcher, SelError>) -> bool {
    if index_of(b, 58u8) < b.len() {
        match spec_position_list(b) {
            Ok(ps) => if seekable {
                r matches Ok(AnyMatcher::Positions(m)) && m.spec_positions() == spec_normalize_positions(ps)
                    && m.spec_cursor() == 0
            } else {
                r matches Err(SelError::PositionalWithStdin)
            },
            Err(msg) => r matches Err(SelError::InvalidSelector(t)) && t@ == spec_lossy_utf8(msg),
        }
    } else {
        match spec_line_list(b) {
            Ok(ls) => r matches Ok(AnyMatcher::Lines(m)) && m.spec_ranges() == spec_normalize_lines(
                ls,
            ).map_values(|l: LineSpec| wide(l)),
            Err(msg) => r matches Err(SelError::InvalidSelector(t)) && t@ == spec_lossy_utf8(msg),
        }
    }
}

/// What `matcher_for` gives: the regex matcher in regex mode (or its
/// compile error); else the matcher of the selector, if there is one; else
/// the matcher of every line.
pub open spec fn matcher_fits(cli: Cli, seekable: bool, r: Result<AnyMatcher, SelError>) -> bool {
    match cli.regex {
        Some(p) => if spec_regex_compiles(p@) {
            r matches Ok(AnyMatcher::Regex(m)) && m.spec_pattern() == p@ && m.spec_invert() == cli.invert
        } else {
            r matches Err(SelError::InvalidRegex(_))
        },
        None => match spec_selector(cli.regex, cli.args@) {
            None => r matches Ok(AnyMatcher::All(_)),
            Some(raw) => selector_matcher_fits(encode_utf8(raw), seekable, r),
        },
    }
}

/// `-c N` with `N > 0`.
pub open spec fn wants_context(cli: Cli) -> bool {
    cli.context matches Some(n) && n > 0
}

/// The options `formatter_for` sets up.
pub open spec fn opts_for(cli: Cli, label: Seq<char>, show_filename: bool, color: bool, o: FormatOpts) -> bool {
    &&& o.show_line_numbers == !cli.no_line_numbers
    &&& o.show_filename == show_filename
    &&& o.filename matches Some(f) && f@ == label
    &&& o.color == color
    &&& o.target_marker == wants_context(cli)
    &&& o.line_number_width == 4
}

impl Cli {
    /// The matcher these options ask for, on a seekable source or not.
    pub fn matcher_for(&self, seekable: bool) -> (r: Result<AnyMatcher, SelError>)
        ensures
            matcher_fits(*self, seekable, r),
    {
        if let Some(pat) = &self.regex {
            return match RegexMatcher::new(pat.as_str(), self.invert) {
                Ok(m) => Ok(AnyMatcher::Regex(m)),
                Err(e) => Err(e),
            };
        }
        let raw = match self.get_selector() {
            Some(raw) => raw,
            None => {
                return Ok(AnyMatcher::All(AllMatcher));
            },
        };
        match Selector::parse(raw.as_str()) {
            Ok(sel) => {
                match sel {
                    Selector::All => Ok(AnyMatcher::All(AllMatcher)),
                    Selector::LineNumbers(_) => Ok(AnyMatcher::Lines(LineMatcher::from_selector(&sel))),
                    Selector::Positions(_) => {
                        if seekable {
                            Ok(AnyMatcher::Positions(PositionMatcher::from_selector(&sel)))
                        } else {
                            Err(SelError::PositionalWithStdin)
                        }
                    },
                }
            },
            Err(e) => Err(e),
        }
    }

    /// The expander these options ask for: context lines for `-c N` with
    /// `N > 0`, else hits only.
    pub fn expander_for(&self) -> (r: AnyExpander)
        ensures
            match self.context {
                Some(n) if n > 0 => r matches AnyExpander::Lines(e) && e@ == crate::context::fresh_state(n as nat),
                _ => r is Hits,
            },
    {
        match self.context {
            Some(n) if n > 0 => AnyExpander::Lines(LineContext::new(n)),
            _ => AnyExpander::Hits(NoContext),
        }
    }

    /// The formatter these options ask for, for a source labelled `label`:
    /// fragments for `-n N`, else plain lines.
    pub fn formatter_for(&self, label: &str, show_filename: bool, color: bool) -> (r: AnyFormatter)
        ensures
            match self.char_context {
                Some(n) => r matches AnyFormatter::Fragment(f) && f.char_context == n && opts_for(
                    *self,
                    label@,
                    show_filename,
                    color,
                    f.opts,
                ),
                None => r matches AnyFormatter::Plain(f) && opts_for(*self, label@, show_filename, color, f.opts),
            },
    {
        let opts = FormatOpts {
            show_line_numbers: !self.no_line_numbers,
            show_filename,
            filename: Some(String::from_str(label)),
            color,
            target_marker: match self.context {
                Some(n) => n > 0,
                None => false,
            },
            line_number_width: 4,
        };
        match self.char_context {
            Some(n) => AnyFormatter::Fragment(FragmentFormatter::new(opts, n)),
            None => AnyFormatter::Plain(PlainFormatter::new(opts)),
        }
    }
}

/// A source that cannot seek never gets a positional matcher: asking for
/// one on stdin is the error `PositionalWithStdin`.
pub proof fn law_no_positions_on_stdin(cli: Cli, r: Result<AnyMatcher, SelError>)
    requires
        matcher_fits(cli, false, r),
    ensures
        !(r matches Ok(AnyMatcher::Positions(_))),
        ({
            &&& cli.regex is None
            &&& spec_selector(cli.regex, cli.args@) is Some
            &&& index_of(encode_utf8(spec_selector(cli.regex, cli.args@)->0), 58u8) < encode_utf8(
                spec_selector(cli.regex, cli.args@)->0,
            ).len()
            &&& spec_position_list(encode_utf8(spec_selector(cli.regex, cli.args@)->0)) is Ok
        }) ==> r matches Err(SelError::PositionalWithStdin),
{
}

} // verus!
