//! Output formatting.

pub mod ansi;
pub mod fragment;
pub mod plain;

pub use self::fragment::FragmentFormatter;
pub use self::plain::PlainFormatter;

use vstd::prelude::*;

use crate::text::{dec_bytes, decimal};
use crate::types::{Emit, Line, MatchInfo, Role};

verus! {

/// A formatter serializes one `Emit` into bytes, appended to `sink`.
pub trait Formatter: Sized {
    /// Writing `line` in `role` with `info` from state `self`: the state
    /// afterwards and the bytes written.
    spec fn written(&self, line: Line, role: Role, info: MatchInfo) -> (Self, Seq<u8>);

    /// Whether `write` never fails: an implementation that says so must
    /// always return `Ok`.
    spec fn infallible() -> bool;

    /// The error `write` reports when writing `line` in `role` with `info`
    /// from state `self` fails.
    spec fn write_error(&self, line: Line, role: Role, info: MatchInfo) -> std::io::Error;

    fn write(&mut self, sink: &mut Vec<u8>, emit: &Emit) -> (r: Result<(), std::io::Error>)
        ensures
            Self::infallible() ==> r is Ok,
            r matches Err(e) ==> e == old(self).write_error(*emit.line, emit.role, *emit.match_info),
            r is Ok ==> {
                &&& old(sink)@.len() <= final(sink)@.len()
                &&& final(sink)@.subrange(0, old(sink)@.len() as int) == old(sink)@
                &&& (*final(self), final(sink)@.subrange(old(sink)@.len() as int, final(sink)@.len() as int))
                    == old(self).written(*emit.line, emit.role, *emit.match_info)
            },
    ;
}

/// Common configuration shared by plain and fragment formatters.
#[derive(Debug, Clone)]
pub struct FormatOpts {
    pub show_line_numbers: bool,
    pub show_filename: bool,
    pub filename: Option<String>,
    pub color: bool,
    /// Prepend `"> "` (colorized green) before target lines.
    /// Set `true` only when mixing target and context lines (i.e. `-c N`).
    pub target_marker: bool,
    /// Width the line number is right-aligned to; 0 writes it bare.
    pub line_number_width: usize,
}

/// The decimal digits of `n` as characters.
pub open spec fn dec_chars(n: nat) -> Seq<char> {
    dec_bytes(n).map_values(|b: u8| b as char)
}

/// `k` spaces.
pub open spec fn spaces(k: int) -> Seq<char> {
    Seq::new(if k > 0 { k as nat } else { 0 }, |i: int| ' ')
}

/// The line-number field: with width 0 the bare number and `:`; otherwise
/// the number right-aligned to `width` columns, then `": "`.
pub open spec fn number_field(width: usize, no: u64) -> Seq<char> {
    let d = dec_chars(no as nat);
    if width == 0 {
        d.push(':')
    } else {
        spaces(width - d.len()) + d + seq![':', ' ']
    }
}

/// The prefix of a line numbered `no`: the filename and `:` when shown and
/// known, then the number field when numbers are shown.
pub open spec fn prefix_chars(o: FormatOpts, no: u64) -> Seq<char> {
    (if o.show_filename && o.filename is Some {
        o.filename->0@.push(':')
    } else {
        Seq::empty()
    }) + (if o.show_line_numbers {
        number_field(o.line_number_width, no)
    } else {
        Seq::empty()
    })
}

/// The options after widening the number field for line `no`.
pub open spec fn widened(o: FormatOpts, no: u64) -> FormatOpts {
    FormatOpts {
        line_number_width: if o.line_number_width >= dec_bytes(no as nat).len() {
            o.line_number_width
        } else {
            dec_bytes(no as nat).len() as usize
        },
        ..o
    }
}

impl FormatOpts {
    /// Widen the number field to fit `line_no`.
    pub fn widen_for_line(&mut self, line_no: u64)
        ensures
            final(self).line_number_width == (if old(self).line_number_width >= dec_bytes(
                line_no as nat,
            ).len() {
                old(self).line_number_width as int
            } else {
                dec_bytes(line_no as nat).len() as int
            }),
            final(self).show_line_numbers == old(self).show_line_numbers,
            final(self).show_filename == old(self).show_filename,
            final(self).filename == old(self).filename,
            final(self).color == old(self).color,
            final(self).target_marker == old(self).target_marker,
    {
        let d = digits(line_no);
        if d > self.line_number_width {
            self.line_number_width = d;
        }
    }

    /// The prefix written before a line numbered `line_no`.
    pub fn prefix(&self, line_no: u64) -> (r: String)
        ensures
            r@ == prefix_chars(*self, line_no),
    {
        let mut p = String::new();
        if self.show_filename {
            if let Some(f) = &self.filename {
                p.append(f.as_str());
                push_colon(&mut p);
            }
        }
        if self.show_line_numbers {
            if self.line_number_width == 0 {
                push_decimal(&mut p, line_no);
                push_colon(&mut p);
            } else {
                let d = digits(line_no);
                if d < self.line_number_width {
                    push_spaces(&mut p, self.line_number_width - d);
                }
                push_decimal(&mut p, line_no);
                push_colon(&mut p);
                push_spaces(&mut p, 1);
                proof {
                    assert(spaces(0) =~= Seq::<char>::empty());
                    assert(spaces(1) =~= seq![' ']);
                }
            }
        }
        proof {
            assert(Seq::<char>::empty() + p@ =~= p@);
        }
        p
    }
}

/// Number of decimal digits of `n`.
pub fn digits(n: u64) -> (r: usize)
    ensures
        r == dec_bytes(n as nat).len(),
{
    decimal(n).len()
}

pub(crate) fn push_colon(s: &mut String)
    ensures
        final(s)@ == old(s)@.push(':'),
{
    proof {
        reveal_strlit(":");
    }
    s.append(":");
}

/// Appends `k` spaces.
pub(crate) fn push_spaces(s: &mut String, k: usize)
    ensures
        final(s)@ == old(s)@ + spaces(k as int),
{
    let ghost start = s@;
    let mut i: usize = 0;
    proof {
        reveal_strlit(" ");
    }
    while i < k
        invariant
            i <= k,
            s@ == start + spaces(i as int),
            " "@ == seq![' '],
        decreases k - i,
    {
        s.append(" ");
        assert(spaces(i as int + 1) =~= spaces(i as int).push(' '));
        i = i + 1;
    }
}

/// The one-character string of the digit `d`.
fn digit_str(d: u64) -> (r: &'static str)
    requires
        d < 10,
    ensures
        r@ == seq![((d + 48) as u8) as char],
{
    proof {
        reveal_strlit("0");
        reveal_strlit("1");
        reveal_strlit("2");
        reveal_strlit("3");
        reveal_strlit("4");
        reveal_strlit("5");
        reveal_strlit("6");
        reveal_strlit("7");
        reveal_strlit("8");
        reveal_strlit("9");
    }
    match d {
        0 => "0",
        1 => "1",
        2 => "2",
        3 => "3",
        4 => "4",
        5 => "5",
        6 => "6",
        7 => "7",
        8 => "8",
        _ => "9",
    }
}

/// Appends the decimal digits of `n`.
pub(crate) fn push_decimal(s: &mut String, n: u64)
    ensures
        final(s)@ == old(s)@ + dec_chars(n as nat),
    decreases n,
{
    if n >= 10 {
        push_decimal(s, n / 10);
    }
    s.append(digit_str(n % 10));
    proof {
        if n >= 10 {
            assert(dec_chars(n as nat) =~= dec_chars((n / 10) as nat).push(((n % 10 + 48) as u8) as char));
        } else {
            assert(dec_chars(n as nat) =~= seq![((n % 10 + 48) as u8) as char]);
        }
    }
}

} // verus!
