//! Selector parsing and representation.

use vstd::prelude::*;
use vstd::utf8::*;

use crate::error::SelError;
use crate::ranges::{
    covers, is_canonical, lemma_canonical_unique, lemma_covers_empty, lemma_covers_first,
    lemma_merge_ranges, lemma_same_elements, lemma_sort_lex_elements, lemma_sort_lex_identity,
    lemma_sort_lex_sorted, merge_ranges, pair_lt, sort_lex, sorted_lex,
    sort_spans_lex, spans_wf, spec_merge_ranges, Span,
};
use crate::text::{
    all_digits, dec_bytes, decimal, digits_value, find_byte, index_of, lemma_digits_value_nonneg,
    lemma_index_of, lemma_index_of_unique, lossy_string, parse_numeral, push_all, push_range,
    push_str, spec_lossy_utf8, spec_parse_numeral,
};

verus! {

/// A line specification: either a single line or an inclusive range.
#[derive(Debug, Clone, Copy, PartialEq, Eq, Structural)]
pub enum LineSpec {
    /// Single line number.
    Single(usize),
    /// Range of lines (inclusive).
    Range(usize, usize),
}

/// A position in a file (line:column), both 1-indexed; the column counts bytes.
#[derive(Debug, Clone, Copy, PartialEq, Eq, PartialOrd, Ord, Structural)]
pub struct Position {
    /// Line number (1-indexed).
    pub line: usize,
    /// Column number in bytes (1-indexed).
    pub column: usize,
}

/// A selector specifying which lines/positions to extract.
#[derive(Debug, Clone, PartialEq, Eq)]
pub enum Selector {
    /// Select all lines (no selector provided).
    All,
    /// Select specific line numbers and/or ranges.
    LineNumbers(Vec<LineSpec>),
    /// Select specific positions (line:column).
    Positions(Vec<Position>),
}

/// The UTF-8 bytes of a string literal.
pub open spec fn lit(s: &str) -> Seq<u8> {
    encode_utf8(s@)
}

/// `prefix`, then `piece`, then a closing quote.
pub open spec fn quoted(prefix: &str, piece: Seq<u8>) -> Seq<u8> {
    lit(prefix) + piece + lit("'")
}

/// What `LineSpec::parse` makes of the bytes `p`: the spec, or the message of
/// the `InvalidSelector` error.
pub open spec fn spec_line_spec(p: Seq<u8>) -> Result<LineSpec, Seq<u8>> {
    let i = index_of(p, 45u8);
    if 0 <= i < p.len() {
        let a = p.take(i);
        let b = p.skip(i + 1);
        match spec_parse_numeral(a) {
            None => Err(quoted("Invalid range start: '", a)),
            Some(x) => match spec_parse_numeral(b) {
                None => Err(quoted("Invalid range end: '", b)),
                Some(y) => if x == 0 || y == 0 {
                    Err(lit("Line numbers must be >= 1"))
                } else if x > y {
                    Err(lit("Range start (") + dec_bytes(x as nat) + lit(") > end (") + dec_bytes(
                        y as nat,
                    ) + lit(")"))
                } else {
                    Ok(LineSpec::Range(x, y))
                },
            },
        }
    } else {
        match spec_parse_numeral(p) {
            None => Err(quoted("Invalid line number: '", p)),
            Some(n) => if n == 0 {
                Err(lit("Line number must be >= 1"))
            } else {
                Ok(LineSpec::Single(n))
            },
        }
    }
}

/// What `Position::parse` makes of the bytes `p`.
pub open spec fn spec_position(p: Seq<u8>) -> Result<Position, Seq<u8>> {
    let i = index_of(p, 58u8);
    if 0 <= i < p.len() {
        let a = p.take(i);
        let b = p.skip(i + 1);
        match spec_parse_numeral(a) {
            None => Err(quoted("Invalid line number in position: '", a)),
            Some(line) => match spec_parse_numeral(b) {
                None => Err(quoted("Invalid column number in position: '", b)),
                Some(column) => if line == 0 || column == 0 {
                    Err(lit("Line and column numbers must be >= 1"))
                } else {
                    Ok(Position { line, column })
                },
            },
        }
    } else {
        Err(quoted("Invalid position format: '", p))
    }
}

/// `a` in front of a successful result; an error passes through.
pub open spec fn prepend_ok<T>(a: Seq<T>, r: Result<Seq<T>, Seq<u8>>) -> Result<Seq<T>, Seq<u8>> {
    match r {
        Ok(x) => Ok(a + x),
        Err(m) => Err(m),
    }
}

/// The comma-separated parts of `s` parsed as line specs; the first error wins.
pub open spec fn spec_line_list(s: Seq<u8>) -> Result<Seq<LineSpec>, Seq<u8>>
    decreases s.len(),
{
    let i = index_of(s, 44u8);
    match spec_line_spec(s.take(i)) {
        Err(m) => Err(m),
        Ok(x) => if 0 <= i < s.len() {
            prepend_ok(seq![x], spec_line_list(s.skip(i + 1)))
        } else {
            Ok(seq![x])
        },
    }
}

/// The comma-separated parts of `s` parsed as positions; the first error wins.
pub open spec fn spec_position_list(s: Seq<u8>) -> Result<Seq<Position>, Seq<u8>>
    decreases s.len(),
{
    let i = index_of(s, 44u8);
    match spec_position(s.take(i)) {
        Err(m) => Err(m),
        Ok(x) => if 0 <= i < s.len() {
            prepend_ok(seq![x], spec_position_list(s.skip(i + 1)))
        } else {
            Ok(seq![x])
        },
    }
}

/// The result of `Selector::parse` on a string whose UTF-8 bytes are `b`:
/// empty selects all; a `:` anywhere makes every part a position; otherwise
/// every part is a line spec.
pub open spec fn selector_parse_result(b: Seq<u8>, r: Result<Selector, SelError>) -> bool {
    if b.len() == 0 {
        r matches Ok(Selector::All)
    } else if index_of(b, 58u8) < b.len() {
        match spec_position_list(b) {
            Ok(ps) => match r {
                Ok(Selector::Positions(v)) => v@ == ps,
                _ => false,
            },
            Err(m) => match r {
                Err(SelError::InvalidSelector(msg)) => msg@ == spec_lossy_utf8(m),
                _ => false,
            },
        }
    } else {
        match spec_line_list(b) {
            Ok(ls) => match r {
                Ok(Selector::LineNumbers(v)) => v@ == ls,
                _ => false,
            },
            Err(m) => match r {
                Err(SelError::InvalidSelector(msg)) => msg@ == spec_lossy_utf8(m),
                _ => false,
            },
        }
    }
}

proof fn lemma_prepend_empty<T>(r: Result<Seq<T>, Seq<u8>>)
    ensures
        prepend_ok(Seq::<T>::empty(), r) == r,
{
    if let Ok(x) = r {
        assert(Seq::<T>::empty() + x =~= x);
    }
}

proof fn lemma_prepend_assoc<T>(a: Seq<T>, x: T, r: Result<Seq<T>, Seq<u8>>)
    ensures
        prepend_ok(a, prepend_ok(seq![x], r)) == prepend_ok(a.push(x), r),
{
    if let Ok(y) = r {
        assert(a + (seq![x] + y) =~= a.push(x) + y);
    }
}

/// `prefix`, then `s[lo..hi]`, then a closing quote, as bytes.
fn quoted_message(prefix: &str, s: &[u8], lo: usize, hi: usize) -> (r: Vec<u8>)
    requires
        lo <= hi <= s@.len(),
    ensures
        r@ == quoted(prefix, s@.subrange(lo as int, hi as int)),
{
    let mut v = Vec::new();
    push_str(&mut v, prefix);
    push_range(&mut v, s, lo, hi);
    push_str(&mut v, "'");
    v
}

/// Parses `s[lo..hi]` as a line spec.
fn parse_line_spec_at(s: &[u8], lo: usize, hi: usize) -> (r: Result<LineSpec, Vec<u8>>)
    requires
        lo <= hi <= s@.len(),
    ensures
        match r {
            Ok(x) => spec_line_spec(s@.subrange(lo as int, hi as int)) == Ok::<LineSpec, Seq<u8>>(x),
            Err(m) => spec_line_spec(s@.subrange(lo as int, hi as int)) == Err::<LineSpec, Seq<u8>>(m@),
        },
{
    let ghost p = s@.subrange(lo as int, hi as int);
    let j = find_byte(s, lo, hi, 45u8);
    if j < hi {
        assert(p.take(j - lo) =~= s@.subrange(lo as int, j as int));
        assert(p.skip(j - lo + 1) =~= s@.subrange(j + 1, hi as int));
        let start = match parse_numeral(s, lo, j) {
            None => {
                return Err(quoted_message("Invalid range start: '", s, lo, j));
            },
            Some(x) => x,
        };
        let end = match parse_numeral(s, j + 1, hi) {
            None => {
                return Err(quoted_message("Invalid range end: '", s, j + 1, hi));
            },
            Some(y) => y,
        };
        if start == 0 || end == 0 {
            let mut v = Vec::new();
            push_str(&mut v, "Line numbers must be >= 1");
            return Err(v);
        }
        if start > end {
            let mut v = Vec::new();
            push_str(&mut v, "Range start (");
            let a = decimal(start as u64);
            push_all(&mut v, a.as_slice());
            push_str(&mut v, ") > end (");
            let b = decimal(end as u64);
            push_all(&mut v, b.as_slice());
            push_str(&mut v, ")");
            return Err(v);
        }
        Ok(LineSpec::Range(start, end))
    } else {
        match parse_numeral(s, lo, hi) {
            None => Err(quoted_message("Invalid line number: '", s, lo, hi)),
            Some(n) => {
                if n == 0 {
                    let mut v = Vec::new();
                    push_str(&mut v, "Line number must be >= 1");
                    Err(v)
                } else {
                    Ok(LineSpec::Single(n))
                }
            },
        }
    }
}

/// Parses `s[lo..hi]` as a position.
fn parse_position_at(s: &[u8], lo: usize, hi: usize) -> (r: Result<Position, Vec<u8>>)
    requires
        lo <= hi <= s@.len(),
    ensures
        match r {
            Ok(x) => spec_position(s@.subrange(lo as int, hi as int)) == Ok::<Position, Seq<u8>>(x),
            Err(m) => spec_position(s@.subrange(lo as int, hi as int)) == Err::<Position, Seq<u8>>(m@),
        },
{
    let ghost p = s@.subrange(lo as int, hi as int);
    let j = find_byte(s, lo, hi, 58u8);
    if j == hi {
        return Err(quoted_message("Invalid position format: '", s, lo, hi));
    }
    assert(p.take(j - lo) =~= s@.subrange(lo as int, j as int));
    assert(p.skip(j - lo + 1) =~= s@.subrange(j + 1, hi as int));
    let line = match parse_numeral(s, lo, j) {
        None => {
            return Err(quoted_message("Invalid line number in position: '", s, lo, j));
        },
        Some(x) => x,
    };
    let column = match parse_numeral(s, j + 1, hi) {
        None => {
            return Err(quoted_message("Invalid column number in position: '", s, j + 1, hi));
        },
        Some(y) => y,
    };
    if line == 0 || column == 0 {
        let mut v = Vec::new();
        push_str(&mut v, "Line and column numbers must be >= 1");
        return Err(v);
    }
    Ok(Position { line, column })
}

/// Parses every comma-separated part of `s` as a line spec.
#[verifier::spinoff_prover]
#[verifier::rlimit(40)]
fn parse_line_list(s: &[u8]) -> (r: Result<Vec<LineSpec>, Vec<u8>>)
    ensures
        match r {
            Ok(v) => spec_line_list(s@) == Ok::<Seq<LineSpec>, Seq<u8>>(v@),
            Err(m) => spec_line_list(s@) == Err::<Seq<LineSpec>, Seq<u8>>(m@),
        },
{
    let mut acc: Vec<LineSpec> = Vec::new();
    let mut pos: usize = 0;
    proof {
        assert(s@.subrange(0, s@.len() as int) =~= s@);
        lemma_prepend_empty(spec_line_list(s@));
    }
    loop
        invariant
            pos <= s@.len(),
            spec_line_list(s@) == prepend_ok(acc@, spec_line_list(s@.subrange(pos as int, s@.len() as int))),
        decreases s@.len() - pos,
    {
        let ghost t = s@.subrange(pos as int, s@.len() as int);
        let j = find_byte(s, pos, s.len(), 44u8);
        assert(t.take(j - pos) =~= s@.subrange(pos as int, j as int));
        match parse_line_spec_at(s, pos, j) {
            Err(m) => {
                return Err(m);
            },
            Ok(x) => {
                let ghost old_acc = acc@;
                proof {
                    lemma_prepend_assoc(acc@, x, spec_line_list(t.skip(j - pos + 1)));
                }
                acc.push(x);
                if j == s.len() {
                    assert(spec_line_list(t) == Ok::<Seq<LineSpec>, Seq<u8>>(seq![x]));
                    assert(old_acc + seq![x] =~= acc@);
                    return Ok(acc);
                }
                assert(t.skip(j - pos + 1) =~= s@.subrange(j + 1, s@.len() as int));
                pos = j + 1;
            },
        }
    }
}

/// Parses every comma-separated part of `s` as a position.
#[verifier::spinoff_prover]
#[verifier::rlimit(40)]
fn parse_position_list(s: &[u8]) -> (r: Result<Vec<Position>, Vec<u8>>)
    ensures
        match r {
            Ok(v) => spec_position_list(s@) == Ok::<Seq<Position>, Seq<u8>>(v@),
            Err(m) => spec_position_list(s@) == Err::<Seq<Position>, Seq<u8>>(m@),
        },
{
    let mut acc: Vec<Position> = Vec::new();
    let mut pos: usize = 0;
    proof {
        assert(s@.subrange(0, s@.len() as int) =~= s@);
        lemma_prepend_empty(spec_position_list(s@));
    }
    loop
        invariant
            pos <= s@.len(),
            spec_position_list(s@) == prepend_ok(
                acc@,
                spec_position_list(s@.subrange(pos as int, s@.len() as int)),
            ),
        decreases s@.len() - pos,
    {
        let ghost t = s@.subrange(pos as int, s@.len() as int);
        let j = find_byte(s, pos, s.len(), 44u8);
        assert(t.take(j - pos) =~= s@.subrange(pos as int, j as int));
        match parse_position_at(s, pos, j) {
            Err(m) => {
                return Err(m);
            },
            Ok(x) => {
                let ghost old_acc = acc@;
                proof {
                    lemma_prepend_assoc(acc@, x, spec_position_list(t.skip(j - pos + 1)));
                }
                acc.push(x);
                if j == s.len() {
                    assert(spec_position_list(t) == Ok::<Seq<Position>, Seq<u8>>(seq![x]));
                    assert(old_acc + seq![x] =~= acc@);
                    return Ok(acc);
                }
                assert(t.skip(j - pos + 1) =~= s@.subrange(j + 1, s@.len() as int));
                pos = j + 1;
            },
        }
    }
}


/// The range a line spec covers, as an inclusive pair.
pub open spec fn pair_of(l: LineSpec) -> Span {
    match l {
        LineSpec::Single(n) => (n, n),
        LineSpec::Range(a, b) => (a, b),
    }
}

/// The line spec that writes an inclusive pair: a single line when both ends
/// agree.
pub open spec fn spec_of_pair(r: Span) -> LineSpec {
    if r.0 == r.1 {
        LineSpec::Single(r.0)
    } else {
        LineSpec::Range(r.0, r.1)
    }
}

/// The numbers of the `Single` specs, in order.
pub open spec fn single_lines(specs: Seq<LineSpec>) -> Seq<usize>
    decreases specs.len(),
{
    if specs.len() == 0 {
        Seq::empty()
    } else {
        let r = single_lines(specs.drop_last());
        match specs.last() {
            LineSpec::Single(n) => r.push(n),
            LineSpec::Range(_, _) => r,
        }
    }
}

/// The bounds of the `Range` specs, in order.
pub open spec fn range_pairs(specs: Seq<LineSpec>) -> Seq<Span>
    decreases specs.len(),
{
    if specs.len() == 0 {
        Seq::empty()
    } else {
        let r = range_pairs(specs.drop_last());
        match specs.last() {
            LineSpec::Single(_) => r,
            LineSpec::Range(a, b) => r.push((a, b)),
        }
    }
}

/// Each line `n` as the range `(n, n)`.
pub open spec fn line_pairs(lines: Seq<usize>) -> Seq<Span> {
    lines.map_values(|l: usize| (l, l))
}

/// What `merge_lines_with_ranges` returns.
pub open spec fn spec_merge_lines_with_ranges(lines: Seq<usize>, ranges: Seq<Span>) -> Seq<LineSpec> {
    spec_merge_ranges(ranges + line_pairs(lines)).map_values(|r: Span| spec_of_pair(r))
}

/// What `normalize` makes of line specs: the ranges, sorted and merged, then
/// merged again together with the single lines.
pub open spec fn spec_normalize_lines(specs: Seq<LineSpec>) -> Seq<LineSpec> {
    spec_merge_lines_with_ranges(
        single_lines(specs),
        spec_merge_ranges(sort_lex(range_pairs(specs))),
    )
}

/// A position as the pair `(line, column)`, ordered as `Position` derives it.
pub open spec fn pos_pair(p: Position) -> Span {
    (p.line, p.column)
}

/// `s` without elements equal to the one before them.
pub open spec fn dedup_adjacent(s: Seq<Span>) -> Seq<Span>
    decreases s.len(),
{
    if s.len() == 0 {
        s
    } else {
        let t = dedup_adjacent(s.drop_last());
        if t.len() > 0 && t.last() == s.last() {
            t
        } else {
            t.push(s.last())
        }
    }
}

/// What `normalize` makes of positions: sorted by line then column, without
/// duplicates.
pub open spec fn spec_normalize_positions(p: Seq<Position>) -> Seq<Position> {
    dedup_adjacent(sort_lex(p.map_values(|q: Position| pos_pair(q)))).map_values(
        |q: Span| Position { line: q.0, column: q.1 },
    )
}

/// Merges single lines into the ranges: each line `n` joins as `(n, n)`, all
/// are merged, and a merged range with equal ends is written as one line.
fn merge_lines_with_ranges(lines: Vec<usize>, ranges: Vec<Span>) -> (r: Vec<LineSpec>)
    ensures
        r@ == spec_merge_lines_with_ranges(lines@, ranges@),
{
    let mut all_ranges = ranges;
    let mut i: usize = 0;
    while i < lines.len()
        invariant
            i <= lines@.len(),
            all_ranges@ == ranges@ + line_pairs(lines@.take(i as int)),
        decreases lines@.len() - i,
    {
        let line = lines[i];
        assert(line_pairs(lines@.take(i + 1)) =~= line_pairs(lines@.take(i as int)).push((line, line)));
        all_ranges.push((line, line));
        i = i + 1;
    }
    assert(lines@.take(lines@.len() as int) =~= lines@);
    let merged = merge_ranges(all_ranges);
    let mut out: Vec<LineSpec> = Vec::new();
    let mut k: usize = 0;
    while k < merged.len()
        invariant
            k <= merged@.len(),
            out@ == merged@.take(k as int).map_values(|r: Span| spec_of_pair(r)),
        decreases merged@.len() - k,
    {
        let (start, end) = merged[k];
        let spec = if start == end {
            LineSpec::Single(start)
        } else {
            LineSpec::Range(start, end)
        };
        assert(merged@.take(k + 1).map_values(|r: Span| spec_of_pair(r)) =~= merged@.take(
            k as int,
        ).map_values(|r: Span| spec_of_pair(r)).push(spec));
        out.push(spec);
        k = k + 1;
    }
    assert(merged@.take(merged@.len() as int) =~= merged@);
    out
}

/// Sorts positions by line then column and drops duplicates.
fn normalize_positions(p: &Vec<Position>) -> (r: Vec<Position>)
    ensures
        r@ == spec_normalize_positions(p@),
{
    let mut pairs: Vec<Span> = Vec::new();
    let mut i: usize = 0;
    while i < p.len()
        invariant
            i <= p@.len(),
            pairs@ == p@.take(i as int).map_values(|q: Position| pos_pair(q)),
        decreases p@.len() - i,
    {
        assert(p@.take(i + 1).map_values(|q: Position| pos_pair(q)) =~= p@.take(
            i as int,
        ).map_values(|q: Position| pos_pair(q)).push((p[i as int].line, p[i as int].column)));
        pairs.push((p[i].line, p[i].column));
        i = i + 1;
    }
    assert(p@.take(p@.len() as int) =~= p@);
    let sorted = sort_spans_lex(&pairs);
    let mut unique: Vec<Span> = Vec::new();
    let mut j: usize = 0;
    while j < sorted.len()
        invariant
            j <= sorted@.len(),
            unique@ == dedup_adjacent(sorted@.take(j as int)),
        decreases sorted@.len() - j,
    {
        let x = sorted[j];
        assert(sorted@.take(j + 1).drop_last() =~= sorted@.take(j as int));
        let n = unique.len();
        if n > 0 && unique[n - 1].0 == x.0 && unique[n - 1].1 == x.1 {
        } else {
            unique.push(x);
        }
        j = j + 1;
    }
    assert(sorted@.take(sorted@.len() as int) =~= sorted@);
    let mut out: Vec<Position> = Vec::new();
    let mut k: usize = 0;
    while k < unique.len()
        invariant
            k <= unique@.len(),
            out@ == unique@.take(k as int).map_values(|q: Span| Position { line: q.0, column: q.1 }),
        decreases unique@.len() - k,
    {
        let (line, column) = unique[k];
        assert(unique@.take(k + 1).map_values(|q: Span| Position { line: q.0, column: q.1 })
            =~= unique@.take(k as int).map_values(|q: Span| Position { line: q.0, column: q.1 }).push(
            Position { line, column },
        ));
        out.push(Position { line, column });
        k = k + 1;
    }
    assert(unique@.take(unique@.len() as int) =~= unique@);
    out
}

impl Selector {
    /// Parses a selector string: empty selects everything; otherwise the
    /// comma-separated parts are all positions (`line:column`) when a `:`
    /// occurs anywhere, and all line specs (`n` or `m-n`) when it does not.
    pub fn parse(s: &str) -> (r: Result<Selector, SelError>)
        ensures
            selector_parse_result(encode_utf8(s@), r),
    {
        let b = s.as_bytes();
        if b.len() == 0 {
            return Ok(Selector::All);
        }
        let has_position = find_byte(b, 0, b.len(), 58u8) < b.len();
        assert(b@.subrange(0, b@.len() as int) =~= b@);
        if has_position {
            match parse_position_list(b) {
                Ok(v) => Ok(Selector::Positions(v)),
                Err(m) => Err(SelError::InvalidSelector(lossy_string(m.as_slice()))),
            }
        } else {
            match parse_line_list(b) {
                Ok(v) => Ok(Selector::LineNumbers(v)),
                Err(m) => Err(SelError::InvalidSelector(lossy_string(m.as_slice()))),
            }
        }
    }


    /// Normalizes the selector: line specs become the sorted, merged ranges
    /// they cover (overlapping or adjacent ones joined); positions are sorted
    /// and deduplicated.
    pub fn normalize(&self) -> (r: Selector)
        ensures
            match self {
                Selector::All => r is All,
                Selector::LineNumbers(specs) => match r {
                    Selector::LineNumbers(v) => v@ == spec_normalize_lines(specs@),
                    _ => false,
                },
                Selector::Positions(p) => match r {
                    Selector::Positions(v) => v@ == spec_normalize_positions(p@),
                    _ => false,
                },
            },
    {
        match self {
            Selector::All => Selector::All,
            Selector::Positions(p) => Selector::Positions(normalize_positions(p)),
            Selector::LineNumbers(specs) => {
                let mut lines: Vec<usize> = Vec::new();
                let mut ranges: Vec<Span> = Vec::new();
                let mut i: usize = 0;
                while i < specs.len()
                    invariant
                        i <= specs@.len(),
                        lines@ == single_lines(specs@.take(i as int)),
                        ranges@ == range_pairs(specs@.take(i as int)),
                    decreases specs@.len() - i,
                {
                    assert(specs@.take(i + 1).drop_last() =~= specs@.take(i as int));
                    match specs[i] {
                        LineSpec::Single(n) => lines.push(n),
                        LineSpec::Range(start, end) => ranges.push((start, end)),
                    }
                    i = i + 1;
                }
                assert(specs@.take(specs@.len() as int) =~= specs@);
                // The single lines need no sorting: merging sorts everything.
                let sorted = sort_spans_lex(&ranges);
                let merged_ranges = merge_ranges(sorted);
                Selector::LineNumbers(merge_lines_with_ranges(lines, merged_ranges))
            },
        }
    }

    /// Returns true if this is a positional selector.
    pub fn is_positional(&self) -> (r: bool)
        ensures
            r == (self is Positions),
    {
        match self {
            Selector::Positions(_) => true,
            _ => false,
        }
    }
}

impl LineSpec {
    /// Parses a line spec string: `n`, or `m-n` with `m <= n`, both at least 1.
    pub fn parse(s: &str) -> (r: Result<LineSpec, SelError>)
        ensures
            match spec_line_spec(encode_utf8(s@)) {
                Ok(x) => r == Ok::<LineSpec, SelError>(x),
                Err(m) => match r {
                    Err(SelError::InvalidSelector(msg)) => msg@ == spec_lossy_utf8(m),
                    _ => false,
                },
            },
    {
        let b = s.as_bytes();
        assert(b@.subrange(0, b@.len() as int) =~= b@);
        match parse_line_spec_at(b, 0, b.len()) {
            Ok(x) => Ok(x),
            Err(m) => Err(SelError::InvalidSelector(lossy_string(m.as_slice()))),
        }
    }

    /// Check if this spec contains the given line number.
    pub fn contains(&self, line: usize) -> (r: bool)
        ensures
            r == match *self {
                LineSpec::Single(n) => n == line,
                LineSpec::Range(a, b) => a <= line && line <= b,
            },
    {
        match self {
            LineSpec::Single(n) => *n == line,
            LineSpec::Range(start, end) => line >= *start && line <= *end,
        }
    }

    /// Get the starting line number.
    pub fn start(&self) -> (r: usize)
        ensures
            r == match *self {
                LineSpec::Single(n) => n,
                LineSpec::Range(a, _) => a,
            },
    {
        match self {
            LineSpec::Single(n) => *n,
            LineSpec::Range(start, _) => *start,
        }
    }
}

impl Position {
    /// Create a new position.
    pub fn new(line: usize, column: usize) -> (r: Position)
        ensures
            r.line == line,
            r.column == column,
    {
        Position { line, column }
    }

    /// Parses a position string `line:column`, both at least 1.
    pub fn parse(s: &str) -> (r: Result<Position, SelError>)
        ensures
            match spec_position(encode_utf8(s@)) {
                Ok(x) => r == Ok::<Position, SelError>(x),
                Err(m) => match r {
                    Err(SelError::InvalidSelector(msg)) => msg@ == spec_lossy_utf8(m),
                    _ => false,
                },
            },
    {
        let b = s.as_bytes();
        assert(b@.subrange(0, b@.len() as int) =~= b@);
        match parse_position_at(b, 0, b.len()) {
            Ok(x) => Ok(x),
            Err(m) => Err(SelError::InvalidSelector(lossy_string(m.as_slice()))),
        }
    }
}

/// Whether a line spec contains line `x`.
pub open spec fn spec_contains(l: LineSpec, x: int) -> bool {
    match l {
        LineSpec::Single(n) => n == x,
        LineSpec::Range(a, b) => a <= x && x <= b,
    }
}

/// Whether one of the specs contains line `x`.
pub open spec fn selects(specs: Seq<LineSpec>, x: int) -> bool {
    exists|i: int| 0 <= i < specs.len() && spec_contains(#[trigger] specs[i], x)
}

/// Every range is written with its start first.
pub open spec fn specs_wf(specs: Seq<LineSpec>) -> bool {
    forall|i: int|
        0 <= i < specs.len() ==> match #[trigger] specs[i] {
            LineSpec::Single(_) => true,
            LineSpec::Range(a, b) => a <= b,
        }
}

proof fn lemma_selects_pairs(ps: Seq<Span>, x: int)
    ensures
        selects(ps.map_values(|r: Span| spec_of_pair(r)), x) <==> covers(ps, x),
{
    let specs = ps.map_values(|r: Span| spec_of_pair(r));
    if selects(specs, x) {
        let i = choose|i: int| 0 <= i < specs.len() && spec_contains(#[trigger] specs[i], x);
        assert(specs[i] == spec_of_pair(ps[i]));
        assert(ps[i].0 <= x && x <= ps[i].1);
    }
    if covers(ps, x) {
        let i = choose|i: int| 0 <= i < ps.len() && #[trigger] ps[i].0 <= x && x <= ps[i].1;
        assert(specs[i] == spec_of_pair(ps[i]));
        assert(spec_contains(specs[i], x));
    }
}

proof fn lemma_covers_concat(a: Seq<Span>, b: Seq<Span>, x: int)
    ensures
        covers(a + b, x) <==> (covers(a, x) || covers(b, x)),
    decreases a.len(),
{
    if a.len() == 0 {
        assert(a + b =~= b);
        lemma_covers_empty(a, x);
    } else {
        lemma_covers_concat(a.drop_first(), b, x);
        lemma_covers_first(a, x);
        lemma_covers_first(a + b, x);
        assert((a + b).drop_first() =~= a.drop_first() + b);
    }
}

proof fn lemma_selects_split(specs: Seq<LineSpec>, x: int)
    ensures
        selects(specs, x) <==> (covers(range_pairs(specs), x) || covers(
            line_pairs(single_lines(specs)),
            x,
        )),
    decreases specs.len(),
{
    let rp = range_pairs(specs);
    let lp = line_pairs(single_lines(specs));
    if specs.len() == 0 {
        lemma_covers_empty(rp, x);
        lemma_covers_empty(lp, x);
    } else {
        let init = specs.drop_last();
        lemma_selects_split(init, x);
        let rp0 = range_pairs(init);
        let lp0 = line_pairs(single_lines(init));
        assert(selects(specs, x) <==> (selects(init, x) || spec_contains(specs.last(), x))) by {
            if selects(specs, x) {
                let i = choose|i: int| 0 <= i < specs.len() && spec_contains(#[trigger] specs[i], x);
                if i < specs.len() - 1 {
                    assert(init[i] == specs[i]);
                }
            }
            if selects(init, x) {
                let i = choose|i: int| 0 <= i < init.len() && spec_contains(#[trigger] init[i], x);
                assert(specs[i] == init[i]);
            }
        }
        match specs.last() {
            LineSpec::Single(n) => {
                assert(rp == rp0);
                assert(lp =~= lp0 + seq![(n, n)]);
                lemma_covers_concat(lp0, seq![(n, n)], x);
                lemma_covers_first(seq![(n, n)], x);
                lemma_covers_empty(seq![(n, n)].drop_first(), x);
            },
            LineSpec::Range(a, b) => {
                assert(lp == lp0);
                assert(rp =~= rp0 + seq![(a, b)]);
                lemma_covers_concat(rp0, seq![(a, b)], x);
                lemma_covers_first(seq![(a, b)], x);
                lemma_covers_empty(seq![(a, b)].drop_first(), x);
            },
        }
    }
}

proof fn lemma_range_pairs_wf(specs: Seq<LineSpec>)
    requires
        specs_wf(specs),
    ensures
        spans_wf(range_pairs(specs)),
    decreases specs.len(),
{
    if specs.len() > 0 {
        let init = specs.drop_last();
        assert(specs_wf(init)) by {
            assert forall|i: int| 0 <= i < init.len() implies match #[trigger] init[i] {
                LineSpec::Single(_) => true,
                LineSpec::Range(a, b) => a <= b,
            } by {
                assert(init[i] == specs[i]);
            }
        }
        lemma_range_pairs_wf(init);
        assert(match specs[specs.len() - 1] {
            LineSpec::Single(_) => true,
            LineSpec::Range(a, b) => a <= b,
        });
    }
}

proof fn lemma_normalize_lines_pairs(specs: Seq<LineSpec>)
    ensures
        spec_normalize_lines(specs).map_values(|l: LineSpec| pair_of(l)) == spec_merge_ranges(
            spec_merge_ranges(sort_lex(range_pairs(specs))) + line_pairs(single_lines(specs)),
        ),
{
    let m = spec_merge_ranges(
        spec_merge_ranges(sort_lex(range_pairs(specs))) + line_pairs(single_lines(specs)),
    );
    assert(spec_normalize_lines(specs).map_values(|l: LineSpec| pair_of(l)) =~= m);
}

/// Normalizing line specs keeps exactly the lines they select.
pub proof fn law_normalize_keeps_selected_lines(specs: Seq<LineSpec>)
    ensures
        forall|x: int| selects(spec_normalize_lines(specs), x) <==> selects(specs, x),
{
    let rp = range_pairs(specs);
    let lp = line_pairs(single_lines(specs));
    let m1 = spec_merge_ranges(sort_lex(rp));
    let m2 = spec_merge_ranges(m1 + lp);
    lemma_sort_lex_elements(rp);
    lemma_same_elements(rp, sort_lex(rp));
    lemma_merge_ranges(sort_lex(rp));
    lemma_merge_ranges(m1 + lp);
    assert forall|x: int| selects(spec_normalize_lines(specs), x) <==> selects(specs, x) by {
        lemma_selects_pairs(m2, x);
        lemma_covers_concat(m1, lp, x);
        lemma_selects_split(specs, x);
        assert(covers(rp, x) <==> covers(sort_lex(rp), x));
        assert(covers(m1, x) <==> covers(sort_lex(rp), x));
        assert(covers(m2, x) <==> covers(m1 + lp, x));
    }
}

/// On well-formed specs, normalizing gives ranges in increasing order with a
/// gap of at least one line between neighbours.
pub proof fn law_normalize_is_canonical(specs: Seq<LineSpec>)
    requires
        specs_wf(specs),
    ensures
        is_canonical(spec_normalize_lines(specs).map_values(|l: LineSpec| pair_of(l))),
{
    let rp = range_pairs(specs);
    let lp = line_pairs(single_lines(specs));
    let m1 = spec_merge_ranges(sort_lex(rp));
    lemma_range_pairs_wf(specs);
    lemma_sort_lex_elements(rp);
    lemma_same_elements(rp, sort_lex(rp));
    lemma_merge_ranges(sort_lex(rp));
    assert(spans_wf(m1 + lp)) by {
        assert forall|i: int| 0 <= i < (m1 + lp).len() implies #[trigger] (m1 + lp)[i].0 <= (m1
            + lp)[i].1 by {
            if i >= m1.len() {
                assert((m1 + lp)[i] == lp[i - m1.len()]);
            }
        }
    }
    lemma_merge_ranges(m1 + lp);
    lemma_normalize_lines_pairs(specs);
}

/// On well-formed specs, normalizing twice gives what normalizing once gives.
pub proof fn law_normalize_idempotent(specs: Seq<LineSpec>)
    requires
        specs_wf(specs),
    ensures
        spec_normalize_lines(spec_normalize_lines(specs)) == spec_normalize_lines(specs),
{
    let n1 = spec_normalize_lines(specs);
    let n2 = spec_normalize_lines(n1);
    law_normalize_is_canonical(specs);
    let p1 = n1.map_values(|l: LineSpec| pair_of(l));
    assert(specs_wf(n1)) by {
        assert forall|i: int| 0 <= i < n1.len() implies match #[trigger] n1[i] {
            LineSpec::Single(_) => true,
            LineSpec::Range(a, b) => a <= b,
        } by {
            assert(p1[i] == pair_of(n1[i]));
        }
    }
    law_normalize_is_canonical(n1);
    let p2 = n2.map_values(|l: LineSpec| pair_of(l));
    law_normalize_keeps_selected_lines(specs);
    law_normalize_keeps_selected_lines(n1);
    assert forall|x: int| covers(p1, x) <==> covers(p2, x) by {
        lemma_selects_pairs(p1, x);
        lemma_selects_pairs(p2, x);
        assert(p1.map_values(|r: Span| spec_of_pair(r)) =~= n1);
        assert(p2.map_values(|r: Span| spec_of_pair(r)) =~= n2);
    }
    lemma_canonical_unique(p1, p2);
    assert(p1.map_values(|r: Span| spec_of_pair(r)) =~= n1);
    assert(p2.map_values(|r: Span| spec_of_pair(r)) =~= n2);
}

/// Position `a` comes before `b`: by line, then by column.
pub open spec fn pos_lt(a: Position, b: Position) -> bool {
    a.line < b.line || (a.line == b.line && a.column < b.column)
}

proof fn lemma_dedup_adjacent(s: Seq<Span>)
    requires
        sorted_lex(s),
    ensures
        forall|i: int, j: int|
            0 <= i < j < dedup_adjacent(s).len() ==> pair_lt(
                #[trigger] dedup_adjacent(s)[i],
                #[trigger] dedup_adjacent(s)[j],
            ),
        forall|p: Span| s.contains(p) <==> #[trigger] dedup_adjacent(s).contains(p),
        dedup_adjacent(s).len() > 0 ==> dedup_adjacent(s).last() == s.last(),
    decreases s.len(),
{
    if s.len() > 0 {
        let init = s.drop_last();
        assert(sorted_lex(init)) by {
            assert forall|i: int, j: int| 0 <= i < j < init.len() implies !pair_lt(
                #[trigger] init[j],
                #[trigger] init[i],
            ) by {
                assert(init[i] == s[i] && init[j] == s[j]);
            }
        }
        lemma_dedup_adjacent(init);
        let t = dedup_adjacent(init);
        let x = s.last();
        let d = dedup_adjacent(s);
        if t.len() > 0 && t.last() == x {
            assert(d == t);
            assert forall|p: Span| s.contains(p) <==> #[trigger] d.contains(p) by {
                if s.contains(p) {
                    let i = choose|i: int| 0 <= i < s.len() && s[i] == p;
                    if i < s.len() - 1 {
                        assert(init[i] == p);
                        assert(init.contains(p));
                    } else {
                        assert(t[t.len() - 1] == p);
                    }
                }
                if d.contains(p) {
                    assert(init.contains(p));
                    let i = choose|i: int| 0 <= i < init.len() && init[i] == p;
                    assert(s[i] == p);
                }
            }
        } else {
            assert(d == t.push(x));
            if t.len() > 0 {
                assert(init.len() > 0);
                assert(!pair_lt(s[s.len() - 1], s[s.len() - 2]));
                assert(t.last() == init.last());
            }
            assert forall|i: int, j: int| 0 <= i < j < d.len() implies pair_lt(
                #[trigger] d[i],
                #[trigger] d[j],
            ) by {
                if j < t.len() {
                    assert(d[i] == t[i] && d[j] == t[j]);
                } else {
                    assert(d[j] == x);
                    assert(d[i] == t[i]);
                    assert(t.contains(t[i]));
                    assert(init.contains(t[i]));
                    let m = choose|m: int| 0 <= m < init.len() && init[m] == t[i];
                    assert(!pair_lt(s[s.len() - 1], s[m]));
                    if i < t.len() - 1 {
                        assert(pair_lt(t[i], t[t.len() - 1]));
                    }
                }
            }
            assert forall|p: Span| s.contains(p) <==> #[trigger] d.contains(p) by {
                if s.contains(p) {
                    let i = choose|i: int| 0 <= i < s.len() && s[i] == p;
                    if i < s.len() - 1 {
                        assert(init[i] == p);
                        assert(init.contains(p));
                        assert(t.contains(p));
                        let k = choose|k: int| 0 <= k < t.len() && t[k] == p;
                        assert(d[k] == p);
                    } else {
                        assert(d[d.len() - 1] == p);
                    }
                }
                if d.contains(p) {
                    let k = choose|k: int| 0 <= k < d.len() && d[k] == p;
                    if k < t.len() {
                        assert(t[k] == p);
                        assert(t.contains(p));
                        assert(init.contains(p));
                        let i = choose|i: int| 0 <= i < init.len() && init[i] == p;
                        assert(s[i] == p);
                    } else {
                        assert(s[s.len() - 1] == p);
                    }
                }
            }
        }
    }
}

proof fn lemma_dedup_identity(s: Seq<Span>)
    requires
        forall|i: int, j: int| 0 <= i < j < s.len() ==> pair_lt(#[trigger] s[i], #[trigger] s[j]),
    ensures
        dedup_adjacent(s) == s,
    decreases s.len(),
{
    if s.len() > 0 {
        let init = s.drop_last();
        assert forall|i: int, j: int| 0 <= i < j < init.len() implies pair_lt(
            #[trigger] init[i],
            #[trigger] init[j],
        ) by {
            assert(init[i] == s[i] && init[j] == s[j]);
        }
        lemma_dedup_identity(init);
        if init.len() > 0 {
            assert(pair_lt(s[s.len() - 2], s[s.len() - 1]));
        }
        assert(init.push(s.last()) =~= s);
    }
}

/// Normalizing positions gives them in increasing order (by line, then by
/// column), each once, and keeps exactly the positions given.
pub proof fn law_normalize_positions(p: Seq<Position>)
    ensures
        forall|i: int, j: int|
            0 <= i < j < spec_normalize_positions(p).len() ==> pos_lt(
                #[trigger] spec_normalize_positions(p)[i],
                #[trigger] spec_normalize_positions(p)[j],
            ),
        forall|q: Position| p.contains(q) <==> #[trigger] spec_normalize_positions(p).contains(q),
{
    let pairs = p.map_values(|q: Position| pos_pair(q));
    let sorted = sort_lex(pairs);
    lemma_sort_lex_sorted(pairs);
    lemma_sort_lex_elements(pairs);
    lemma_dedup_adjacent(sorted);
    let d = dedup_adjacent(sorted);
    let r = spec_normalize_positions(p);
    assert(r == d.map_values(|q: Span| Position { line: q.0, column: q.1 }));
    assert forall|i: int, j: int| 0 <= i < j < r.len() implies pos_lt(
        #[trigger] r[i],
        #[trigger] r[j],
    ) by {
        assert(pair_lt(d[i], d[j]));
    }
    assert forall|q: Position| p.contains(q) <==> #[trigger] r.contains(q) by {
        if p.contains(q) {
            let i = choose|i: int| 0 <= i < p.len() && p[i] == q;
            assert(pairs[i] == pos_pair(q));
            assert(pairs.contains(pos_pair(q)));
            assert(sorted.contains(pos_pair(q)));
            assert(d.contains(pos_pair(q)));
            let k = choose|k: int| 0 <= k < d.len() && d[k] == pos_pair(q);
            assert(r[k] == q);
        }
        if r.contains(q) {
            let k = choose|k: int| 0 <= k < r.len() && r[k] == q;
            assert(d[k] == pos_pair(q));
            assert(d.contains(pos_pair(q)));
            assert(sorted.contains(pos_pair(q)));
            assert(pairs.contains(pos_pair(q)));
            let i = choose|i: int| 0 <= i < pairs.len() && pairs[i] == pos_pair(q);
            assert(p[i] == q);
        }
    }
}

/// Normalizing positions twice gives what normalizing once gives.
pub proof fn law_normalize_positions_idempotent(p: Seq<Position>)
    ensures
        spec_normalize_positions(spec_normalize_positions(p)) == spec_normalize_positions(p),
{
    let r = spec_normalize_positions(p);
    law_normalize_positions(p);
    let pairs = r.map_values(|q: Position| pos_pair(q));
    assert forall|i: int, j: int| 0 <= i < j < pairs.len() implies pair_lt(
        #[trigger] pairs[i],
        #[trigger] pairs[j],
    ) by {
        assert(pos_lt(r[i], r[j]));
    }
    assert(sorted_lex(pairs)) by {
        assert forall|i: int, j: int| 0 <= i < j < pairs.len() implies !pair_lt(
            #[trigger] pairs[j],
            #[trigger] pairs[i],
        ) by {
            assert(pair_lt(pairs[i], pairs[j]));
        }
    }
    lemma_sort_lex_identity(pairs);
    lemma_dedup_identity(pairs);
    assert(pairs.map_values(|q: Span| Position { line: q.0, column: q.1 }) =~= r);
}

/// A selector that parses is positional exactly when its text holds a `:`.
pub proof fn law_positional_iff_colon(s: Seq<u8>, r: Result<Selector, SelError>)
    requires
        selector_parse_result(s, r),
    ensures
        r matches Ok(sel) ==> ((sel is Positions) <==> s.contains(58u8)),
{
    lemma_index_of(s, 58u8);
    if s.contains(58u8) {
        let j = choose|j: int| 0 <= j < s.len() && s[j] == 58u8;
        assert(index_of(s, 58u8) <= j);
    }
}

/// A decimal numeral: digits only, at least one, no leading zero (but `0`
/// itself), and a value that fits in `usize`.
pub open spec fn is_numeral(a: Seq<u8>) -> bool {
    &&& a.len() > 0
    &&& all_digits(a)
    &&& (a[0] != 48u8 || a.len() == 1)
    &&& digits_value(a) <= usize::MAX
}

/// The first `-` of `a-b` is the one after `a` when `a` holds none.
proof fn lemma_range_split(a: Seq<u8>, b: Seq<u8>)
    requires
        forall|k: int| 0 <= k < a.len() ==> a[k] != 45u8,
    ensures
        index_of(a + seq![45u8] + b, 45u8) == a.len(),
        (a + seq![45u8] + b).take(a.len() as int) == a,
        (a + seq![45u8] + b).skip(a.len() as int + 1) == b,
{
    let p = a + seq![45u8] + b;
    assert forall|k: int| 0 <= k < a.len() implies p[k] != 45u8 by {
        assert(p[k] == a[k]);
    }
    lemma_index_of_unique(p, 45u8, a.len() as int);
    assert(p.take(a.len() as int) =~= a);
    assert(p.skip(a.len() as int + 1) =~= b);
}

/// The text `a-b` of two numerals holds no `:` and no `,`.
proof fn lemma_range_text(a: Seq<u8>, b: Seq<u8>)
    requires
        is_numeral(a),
        is_numeral(b),
    ensures
        forall|k: int| 0 <= k < a.len() ==> a[k] != 45u8,
        index_of(a + seq![45u8] + b, 58u8) == a.len() + 1 + b.len(),
        index_of(a + seq![45u8] + b, 44u8) == a.len() + 1 + b.len(),
        (a + seq![45u8] + b).take(a.len() as int + 1 + b.len()) == a + seq![45u8] + b,
{
    let p = a + seq![45u8] + b;
    assert forall|k: int| 0 <= k < a.len() implies a[k] != 45u8 by {
        assert(48 <= a[k] <= 57);
    }
    assert forall|k: int| 0 <= k < p.len() && k != a.len() implies 48 <= #[trigger] p[k] <= 57 by {
        if k < a.len() {
            assert(p[k] == a[k]);
        } else {
            assert(p[k] == b[k - a.len() - 1]);
        }
    }
    lemma_index_of_unique(p, 58u8, p.len() as int);
    lemma_index_of_unique(p, 44u8, p.len() as int);
    assert(p.take(p.len() as int) =~= p);
}

/// A range `m-n` (with no `-` in `m`) is accepted exactly when both bounds
/// are numerals and `1 <= m <= n`, and then it is the range from `m` to
/// `n`: a range that starts where it ends is one line, not an error. It is
/// refused when a bound is not a numeral or is 0, or when `m > n`.
pub proof fn law_range_accepted_iff_ordered(a: Seq<u8>, b: Seq<u8>)
    requires
        forall|k: int| 0 <= k < a.len() ==> a[k] != 45u8,
    ensures
        spec_line_spec(a + seq![45u8] + b) is Ok <==> {
            &&& is_numeral(a)
            &&& is_numeral(b)
            &&& 1 <= digits_value(a) <= digits_value(b)
        },
        is_numeral(a) && is_numeral(b) && 1 <= digits_value(a) <= digits_value(b)
            ==> spec_line_spec(a + seq![45u8] + b) == Ok::<LineSpec, Seq<u8>>(
            LineSpec::Range(digits_value(a) as usize, digits_value(b) as usize),
        ),
{
    lemma_range_split(a, b);
    if is_numeral(a) {
        lemma_digits_value_nonneg(a);
    }
    if is_numeral(b) {
        lemma_digits_value_nonneg(b);
    }
}

/// Text with no `-` is one line number: accepted exactly when it is a
/// numeral of at least 1, and then it is that line.
pub proof fn law_single_accepted_iff_positive(p: Seq<u8>)
    requires
        forall|k: int| 0 <= k < p.len() ==> p[k] != 45u8,
    ensures
        spec_line_spec(p) is Ok <==> is_numeral(p) && digits_value(p) >= 1,
        is_numeral(p) && digits_value(p) >= 1 ==> spec_line_spec(p) == Ok::<LineSpec, Seq<u8>>(
            LineSpec::Single(digits_value(p) as usize),
        ),
{
    lemma_index_of_unique(p, 45u8, p.len() as int);
    if is_numeral(p) {
        lemma_digits_value_nonneg(p);
    }
}

/// A selector made of one range `m-n` with `1 <= m <= n` parses to that
/// one range.
pub proof fn law_range_selector(a: Seq<u8>, b: Seq<u8>, r: Result<Selector, SelError>)
    requires
        is_numeral(a),
        is_numeral(b),
        1 <= digits_value(a) <= digits_value(b),
        selector_parse_result(a + seq![45u8] + b, r),
    ensures
        r matches Ok(Selector::LineNumbers(v)) && v@ == seq![
            LineSpec::Range(digits_value(a) as usize, digits_value(b) as usize),
        ],
{
    lemma_range_text(a, b);
    law_range_accepted_iff_ordered(a, b);
}

} // verus!
