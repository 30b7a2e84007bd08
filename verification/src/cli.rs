//! Command-line options and the decisions taken on them.

use vstd::prelude::*;
use vstd::utf8::*;

use crate::error::SelError;
use crate::text::{all_digits, find_byte, index_of, is_digit, lemma_index_of};

verus! {

/// `sel` — Select slices from text files by line numbers, ranges, positions, or regex.
#[derive(Debug)]
pub struct Cli {
    /// Show N lines of context before and after matches
    pub context: Option<usize>,
    /// Show N characters of context around position
    pub char_context: Option<usize>,
    /// Don't output line numbers
    pub no_line_numbers: bool,
    /// Regular expression pattern
    pub regex: Option<String>,
    /// With -e: emit non-matching lines
    pub invert: bool,
    /// Always print filename prefix
    pub with_filename: bool,
    /// Color output [auto, always, never]
    pub color: Option<String>,
    /// Write output to FILE (`-` = stdout)
    pub output: Option<String>,
    /// With -o, overwrite an existing file
    pub force: bool,
    /// Selector and/or file(s)
    pub args: Vec<String>,
}

impl Default for Cli {
    fn default() -> (r: Cli)
        ensures
            r.context is None,
            r.char_context is None,
            !r.no_line_numbers,
            r.regex is None,
            !r.invert,
            !r.with_filename,
            r.color is None,
            r.output is None,
            !r.force,
            r.args@.len() == 0,
    {
        Cli {
            context: None,
            char_context: None,
            no_line_numbers: false,
            regex: None,
            invert: false,
            with_filename: false,
            color: None,
            output: None,
            force: false,
            args: Vec::new(),
        }
    }
}

/// A byte a selector may hold: an ASCII digit, `,`, `:` or `-`.
pub open spec fn selector_byte(b: u8) -> bool {
    is_digit(b) || b == 44u8 || b == 58u8 || b == 45u8
}

/// A comma-separated piece with a colon has digits on both sides of its
/// first colon.
pub open spec fn piece_ok(p: Seq<u8>) -> bool {
    let i = index_of(p, 58u8);
    i == p.len() || (i > 0 && i + 1 < p.len() && all_digits(p.subrange(0, i)) && all_digits(
        p.subrange(i + 1, p.len() as int),
    ))
}

/// Every comma-separated piece of `s` is `piece_ok`.
pub open spec fn pieces_ok(s: Seq<u8>) -> bool
    decreases s.len(),
{
    let c = index_of(s, 44u8);
    piece_ok(s.subrange(0, c)) && (c < s.len() ==> {
        proof {
            lemma_index_of(s, 44u8);
        }
        pieces_ok(s.subrange(c + 1, s.len() as int))
    })
}

/// The bytes of a selector: not empty, at least one digit, only digits,
/// commas, colons and hyphens, and where there is a colon, digits on both
/// sides of the first colon of each comma-separated piece.
pub open spec fn selector_like(s: Seq<u8>) -> bool {
    &&& s.len() > 0
    &&& exists|i: int| 0 <= i < s.len() && is_digit(#[trigger] s[i])
    &&& forall|i: int| 0 <= i < s.len() ==> selector_byte(#[trigger] s[i])
    &&& (exists|i: int| 0 <= i < s.len() && #[trigger] s[i] == 58u8) ==> pieces_ok(s)
}

/// What `get_selector` returns: in line mode, the first argument when it
/// looks like a selector.
pub open spec fn spec_selector(regex: Option<String>, args: Seq<String>) -> Option<Seq<char>> {
    if regex is None && args.len() > 0 && selector_like(encode_utf8(args[0]@)) {
        Some(args[0]@)
    } else {
        None
    }
}

/// How many leading arguments are the selector: one when `get_selector`
/// takes the first argument, else none.
pub open spec fn selector_args(regex: Option<String>, args: Seq<String>) -> int {
    if spec_selector(regex, args) is Some {
        1
    } else {
        0
    }
}

/// The input files named by the arguments, as text: the arguments after
/// the selector, or `-` (stdin) when there are none.
pub open spec fn spec_files(regex: Option<String>, args: Seq<String>) -> Seq<Seq<char>> {
    let rest = args.skip(selector_args(regex, args)).map_values(|s: String| s@);
    if rest.len() == 0 {
        seq!["-"@]
    } else {
        rest
    }
}

/// There is always at least one input: with no file named, stdin.
pub proof fn law_files_never_empty(regex: Option<String>, args: Seq<String>)
    ensures
        spec_files(regex, args).len() > 0,
        args.len() == selector_args(regex, args) ==> spec_files(regex, args) == seq!["-"@],
{
}

/// Color output mode.
#[derive(Debug, Clone, Copy, PartialEq, Eq, Structural)]
pub enum ColorMode {
    /// Always colorize output.
    Always,
    /// Never colorize output.
    Never,
}

impl ColorMode {
    /// Returns true if coloring should be applied.
    pub fn should_colorize(&self) -> (r: bool)
        ensures
            r == (*self == ColorMode::Always),
    {
        match self {
            ColorMode::Always => true,
            ColorMode::Never => false,
        }
    }
}

/// The color mode for `--color` given as `color`: `always` and `never` as
/// they say; `auto` or no value follow whether stdout is a terminal; any
/// other value means never.
pub open spec fn spec_color_mode(color: Option<String>, stdout_is_terminal: bool) -> ColorMode {
    match color {
        Some(c) => if c@ == "always"@ {
            ColorMode::Always
        } else if c@ == "never"@ {
            ColorMode::Never
        } else if c@ == "auto"@ {
            if stdout_is_terminal {
                ColorMode::Always
            } else {
                ColorMode::Never
            }
        } else {
            ColorMode::Never
        },
        None => if stdout_is_terminal {
            ColorMode::Always
        } else {
            ColorMode::Never
        },
    }
}

/// Every byte of `b[lo..hi]` is an ASCII digit.
fn all_digits_in(b: &[u8], lo: usize, hi: usize) -> (r: bool)
    requires
        lo <= hi <= b@.len(),
    ensures
        r == all_digits(b@.subrange(lo as int, hi as int)),
{
    let mut i = lo;
    while i < hi
        invariant
            lo <= i <= hi <= b@.len(),
            all_digits(b@.subrange(lo as int, i as int)),
        decreases hi - i,
    {
        if b[i] < 48u8 || b[i] > 57u8 {
            assert(!is_digit(b@.subrange(lo as int, hi as int)[i - lo]));
            return false;
        }
        assert(all_digits(b@.subrange(lo as int, i + 1))) by {
            assert forall|k: int| 0 <= k < i + 1 - lo implies is_digit(
                #[trigger] b@.subrange(lo as int, i + 1)[k],
            ) by {
                if k < i - lo {
                    assert(b@.subrange(lo as int, i + 1)[k] == b@.subrange(lo as int, i as int)[k]);
                }
            }
        }
        i = i + 1;
    }
    true
}

/// Whether the piece `b[lo..hi]` is `piece_ok`.
fn check_piece(b: &[u8], lo: usize, hi: usize) -> (r: bool)
    requires
        lo <= hi <= b@.len(),
    ensures
        r == piece_ok(b@.subrange(lo as int, hi as int)),
{
    let ghost p = b@.subrange(lo as int, hi as int);
    let i = find_byte(b, lo, hi, 58u8);
    if i == hi {
        return true;
    }
    if i == lo || i + 1 >= hi {
        return false;
    }
    assert(p.subrange(0, i - lo) =~= b@.subrange(lo as int, i as int));
    assert(p.subrange(i - lo + 1, p.len() as int) =~= b@.subrange(i + 1, hi as int));
    all_digits_in(b, lo, i) && all_digits_in(b, i + 1, hi)
}

/// Whether `b` is `pieces_ok`.
fn check_pieces(b: &[u8]) -> (r: bool)
    ensures
        r == pieces_ok(b@),
{
    let n = b.len();
    let mut lo: usize = 0;
    assert(b@.subrange(0, n as int) =~= b@);
    loop
        invariant
            lo <= n == b@.len(),
            pieces_ok(b@) == pieces_ok(b@.subrange(lo as int, n as int)),
        decreases n - lo,
    {
        let ghost t = b@.subrange(lo as int, n as int);
        let c = find_byte(b, lo, n, 44u8);
        assert(t.subrange(0, c - lo) =~= b@.subrange(lo as int, c as int));
        let ok = check_piece(b, lo, c);
        if !ok {
            return false;
        }
        if c == n {
            return true;
        }
        assert(t.subrange(c - lo + 1, t.len() as int) =~= b@.subrange(c + 1, n as int));
        lo = c + 1;
    }
}

impl Cli {
    /// Check if a string looks like a selector: see `selector_like`.
    pub fn looks_like_selector(&self, s: &str) -> (r: bool)
        ensures
            r == selector_like(encode_utf8(s@)),
    {
        let b = s.as_bytes();
        let n = b.len();
        if n == 0 {
            return false;
        }
        let mut has_digit = false;
        let mut valid_chars = true;
        let mut has_colon = false;
        let mut i: usize = 0;
        while i < n
            invariant
                i <= n == b@.len(),
                has_digit == exists|j: int| 0 <= j < i && is_digit(#[trigger] b@[j]),
                valid_chars == forall|j: int| 0 <= j < i ==> selector_byte(#[trigger] b@[j]),
                has_colon == exists|j: int| 0 <= j < i && #[trigger] b@[j] == 58u8,
            decreases n - i,
        {
            let c = b[i];
            if 48u8 <= c && c <= 57u8 {
                has_digit = true;
            }
            if !(48u8 <= c && c <= 57u8) && c != 44u8 && c != 58u8 && c != 45u8 {
                valid_chars = false;
            }
            if c == 58u8 {
                has_colon = true;
            }
            i = i + 1;
        }
        if !has_digit || !valid_chars {
            return false;
        }
        // Colons must be between numbers: "23:260" is valid, ":260" and "23:" are not.
        if has_colon {
            return check_pieces(b);
        }
        true
    }

    /// Get the selector from arguments (only valid when not using -e).
    pub fn get_selector(&self) -> (r: Option<String>)
        ensures
            r is Some <==> spec_selector(self.regex, self.args@) is Some,
            r matches Some(s) ==> s@ == spec_selector(self.regex, self.args@)->0,
    {
        if self.regex.is_some() {
            return None;
        }
        if self.args.len() == 0 {
            return None;
        }
        let first = &self.args[0];
        if self.looks_like_selector(first.as_str()) {
            Some(first.clone())
        } else {
            None
        }
    }

    /// Get the list of input files: the arguments after the selector, or
    /// `-` (stdin) when there are none.
    pub fn get_files(&self) -> (r: Vec<String>)
        ensures
            r@.map_values(|s: String| s@) == spec_files(self.regex, self.args@),
            self.args@.len() > selector_args(self.regex, self.args@) ==> r@ == self.args@.skip(
                selector_args(self.regex, self.args@),
            ),
    {
        let mut files: Vec<String> = Vec::new();
        let start: usize = if self.get_selector().is_some() {
            1
        } else {
            0
        };
        let ghost rest = self.args@.skip(start as int);
        let mut i = start;
        while i < self.args.len()
            invariant
                start <= i <= self.args@.len(),
                start <= 1,
                rest == self.args@.skip(start as int),
                files@ == self.args@.subrange(start as int, i as int),
            decreases self.args@.len() - i,
        {
            files.push(self.args[i].clone());
            assert(files@ =~= self.args@.subrange(start as int, i + 1));
            i = i + 1;
        }
        assert(files@ =~= rest);
        if files.len() == 0 {
            files.push(String::from_str("-"));
            assert(files@.map_values(|s: String| s@) =~= seq!["-"@]);
        } else {
            assert(files@.map_values(|s: String| s@) =~= rest.map_values(|s: String| s@));
        }
        files
    }

    /// Validate CLI arguments and check for conflicts: `--invert-match`
    /// needs `--regex`, and `--char-context` needs `--regex` or a
    /// positional selector.
    pub fn validate(&self) -> (r: Result<(), SelError>)
        ensures
            self.invert && self.regex is None ==> r matches Err(SelError::InvertWithoutRegex),
            !(self.invert && self.regex is None) ==> {
                let positional = spec_selector(self.regex, self.args@) matches Some(s)
                    && encode_utf8(s).contains(58u8);
                if self.char_context is Some && self.regex is None && !positional {
                    r matches Err(SelError::CharContextWithoutTarget)
                } else {
                    r is Ok
                }
            },
    {
        if self.invert && self.regex.is_none() {
            return Err(SelError::InvertWithoutRegex);
        }
        if self.char_context.is_some() && self.regex.is_none() {
            let positional = match self.get_selector() {
                Some(s) => {
                    let b = s.as_str().as_bytes();
                    let i = find_byte(b, 0, b.len(), 58u8);
                    proof {
                        crate::text::lemma_index_of(b@.subrange(0, b@.len() as int), 58u8);
                        assert(b@.subrange(0, b@.len() as int) =~= b@);
                        if b@.contains(58u8) {
                            let j = choose|j: int| 0 <= j < b@.len() && b@[j] == 58u8;
                            assert(i <= j);
                        }
                    }
                    i < b.len()
                },
                None => false,
            };
            if !positional {
                return Err(SelError::CharContextWithoutTarget);
            }
        }
        Ok(())
    }

    /// Whether lines carry the filename: with `-H`, or when there is more
    /// than one input.
    pub fn shows_filename(&self, file_count: usize) -> (r: bool)
        ensures
            r == (self.with_filename || file_count > 1),
    {
        self.with_filename || file_count > 1
    }

    /// The file `-o` writes to; `None` for standard output (no `-o`, or
    /// `-o -`).
    pub fn output_file(&self) -> (r: Option<String>)
        ensures
            match self.output {
                Some(p) => if p@ == "-"@ {
                    r is None
                } else {
                    r matches Some(q) && q@ == p@
                },
                None => r is None,
            },
    {
        match &self.output {
            Some(p) => {
                if p.eq(&String::from_str("-")) {
                    None
                } else {
                    Some(p.clone())
                }
            },
            None => None,
        }
    }

    /// Get the color mode based on the --color flag and whether stdout is a
    /// terminal.
    pub fn color_mode(&self, stdout_is_terminal: bool) -> (r: ColorMode)
        ensures
            r == spec_color_mode(self.color, stdout_is_terminal),
    {
        match &self.color {
            Some(c) => {
                if c.eq(&String::from_str("always")) {
                    ColorMode::Always
                } else if c.eq(&String::from_str("never")) {
                    ColorMode::Never
                } else if c.eq(&String::from_str("auto")) {
                    if stdout_is_terminal {
                        ColorMode::Always
                    } else {
                        ColorMode::Never
                    }
                } else {
                    ColorMode::Never
                }
            },
            None => {
                if stdout_is_terminal {
                    ColorMode::Always
                } else {
                    ColorMode::Never
                }
            },
        }
    }
}

} // verus!
