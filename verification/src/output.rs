//! Line-level output writing and highlighting into a byte buffer.

use vstd::prelude::*;
use vstd::utf8::*;

use crate::cli::ColorMode;
use crate::format::ansi::{
    cut_end, disjoint_in_order, law_unmarked_is_text, lemma_cut_end_bounds, lemma_disjoint_pairs,
    marked, marked_upto, pair_cuts, well_cut, INVERSE, RESET,
};
use crate::format::plain::clip;
use crate::format::{dec_chars, push_colon, push_decimal, push_spaces, spaces};
use crate::ranges::{
    lemma_sort_by_start_identity, lemma_sort_by_start_props, lemma_sort_disjoint, sort_by_start,
    sort_spans_by_start, sorted_by_start, Span,
};
use crate::text::{dec_bytes, decimal, lossy_string, push_all, push_range, push_str, spec_lossy_utf8};

verus! {

/// The prefix of a line: the filename and `:` when shown and known, then
/// the number and `:` when numbers are shown.
pub open spec fn out_prefix(show_filename: bool, filename: Option<String>, show_line_numbers: bool, line_no: usize) -> Seq<u8> {
    (if show_filename && filename is Some {
        encode_utf8(filename->0@).push(58u8)
    } else {
        Seq::empty()
    }) + (if show_line_numbers {
        dec_bytes(line_no as nat).push(58u8)
    } else {
        Seq::empty()
    })
}

/// The marker of a target line: green `>` and a space, or plain `"> "`.
pub open spec fn target_marker(colorize: bool) -> Seq<u8> {
    if colorize {
        encode_utf8("\x1b[32m>\x1b[0m "@)
    } else {
        encode_utf8("> "@)
    }
}

/// The pointer line body: `k` spaces and `^`, the whole painted green when
/// colorizing.
pub open spec fn pointer_bytes(colorize: bool, k: int) -> Seq<u8> {
    let sp = Seq::new(if k > 0 { k as nat } else { 0 }, |i: int| 32u8);
    if colorize {
        encode_utf8("\x1b[32m"@) + sp + encode_utf8("^\x1b[0m"@)
    } else {
        sp + encode_utf8("^"@)
    }
}

/// Highlighting one match `m` of `t`, given the output so far and the end
/// of the last match: the text since that end, then the match (cut at the
/// end of `t`) between INVERSE and RESET.
pub open spec fn hm_step(t: Seq<u8>, acc: (Seq<u8>, int), m: Span) -> (Seq<u8>, int) {
    let pre = if m.0 > acc.1 {
        t.subrange(acc.1, m.0 as int)
    } else {
        Seq::empty()
    };
    (
        acc.0 + pre + encode_utf8(INVERSE@) + t.subrange(m.0 as int, clip(m.1, t.len() as int))
            + encode_utf8(RESET@),
        if m.1 > acc.1 { m.1 as int } else { acc.1 },
    )
}

/// Highlighting the matches `ms` of `t` one after the other.
pub open spec fn hm_fold(t: Seq<u8>, ms: Seq<Span>) -> (Seq<u8>, int)
    decreases ms.len(),
{
    if ms.len() == 0 {
        (Seq::empty(), 0)
    } else {
        hm_step(t, hm_fold(t, ms.drop_last()), ms.last())
    }
}

/// `t` with every match highlighted, the matches taken in order of their
/// start, and the text after the last match end.
pub open spec fn hm_bytes(t: Seq<u8>, ms: Seq<Span>) -> Seq<u8> {
    let (o, e) = hm_fold(t, sort_by_start(ms));
    if e < t.len() {
        o + t.subrange(e, t.len() as int)
    } else {
        o
    }
}

/// Matches that can be cut out of a text of `len` bytes: each starts no
/// later than it ends, and within the text.
pub open spec fn matches_ok(ms: Seq<core::ops::Range<usize>>, len: int) -> bool {
    forall|i: int| 0 <= i < ms.len() ==> #[trigger] ms[i].start <= ms[i].end && ms[i].start <= len
}

/// The matches as `(start, end)` pairs.
pub open spec fn match_pairs(ms: Seq<core::ops::Range<usize>>) -> Seq<Span> {
    ms.map_values(|r: core::ops::Range<usize>| (r.start, r.end))
}

/// The furthest end among the matches, 0 when there are none.
pub open spec fn furthest_end(ms: Seq<Span>) -> int
    decreases ms.len(),
{
    if ms.len() == 0 {
        0
    } else {
        let m = furthest_end(ms.drop_last());
        if ms.last().1 > m {
            ms.last().1 as int
        } else {
            m
        }
    }
}

/// The furthest end is at least every end, and is one of them (or 0).
proof fn lemma_furthest_end(ms: Seq<Span>)
    ensures
        0 <= furthest_end(ms),
        forall|i: int| 0 <= i < ms.len() ==> (#[trigger] ms[i]).1 <= furthest_end(ms),
        furthest_end(ms) == 0 || exists|i: int| 0 <= i < ms.len() && (#[trigger] ms[i]).1 == furthest_end(ms),
    decreases ms.len(),
{
    if ms.len() > 0 {
        let p = ms.drop_last();
        lemma_furthest_end(p);
        assert forall|i: int| 0 <= i < ms.len() implies (#[trigger] ms[i]).1 <= furthest_end(ms) by {
            if i < p.len() {
                assert(ms[i] == p[i]);
            }
        }
        if furthest_end(ms) != 0 {
            if ms.last().1 > furthest_end(p) {
                assert(ms[ms.len() - 1].1 == furthest_end(ms));
            } else {
                let i = choose|i: int| 0 <= i < p.len() && (#[trigger] p[i]).1 == furthest_end(p);
                assert(ms[i] == p[i]);
            }
        }
    }
}

/// The order of the matches does not change the furthest end.
proof fn lemma_furthest_end_sorted(ms: Seq<Span>)
    ensures
        furthest_end(sort_by_start(ms)) == furthest_end(ms),
{
    let ss = sort_by_start(ms);
    lemma_sort_by_start_props(ms);
    lemma_furthest_end(ms);
    lemma_furthest_end(ss);
    if furthest_end(ss) != 0 {
        let i = choose|i: int| 0 <= i < ss.len() && (#[trigger] ss[i]).1 == furthest_end(ss);
        assert(ss.contains(ss[i]));
        assert(ms.contains(ss[i]));
        let j = choose|j: int| 0 <= j < ms.len() && ms[j] == ss[i];
        assert(ms[j].1 <= furthest_end(ms));
    }
    if furthest_end(ms) != 0 {
        let i = choose|i: int| 0 <= i < ms.len() && (#[trigger] ms[i]).1 == furthest_end(ms);
        assert(ms.contains(ms[i]));
        assert(ss.contains(ms[i]));
        let j = choose|j: int| 0 <= j < ss.len() && ss[j] == ms[i];
        assert(ss[j].1 <= furthest_end(ss));
    }
}

/// Highlighting ends at the furthest end of the matches.
proof fn lemma_hm_fold_end(t: Seq<u8>, ms: Seq<Span>)
    ensures
        hm_fold(t, ms).1 == furthest_end(ms),
    decreases ms.len(),
{
    if ms.len() > 0 {
        lemma_hm_fold_end(t, ms.drop_last());
    }
}

/// The text after the furthest match end is never lost: it is the end of
/// the highlighted text, byte for byte.
pub proof fn law_highlight_keeps_tail(t: Seq<u8>, ms: Seq<core::ops::Range<usize>>)
    ensures
        ({
            let m = furthest_end(match_pairs(ms));
            let h = hm_bytes(t, match_pairs(ms));
            m < t.len() ==> {
                &&& t.len() - m <= h.len()
                &&& h.subrange(h.len() - (t.len() - m), h.len() as int) == t.subrange(
                    m,
                    t.len() as int,
                )
            }
        }),
{
    let ps = match_pairs(ms);
    lemma_hm_fold_end(t, sort_by_start(ps));
    lemma_furthest_end_sorted(ps);
    lemma_furthest_end(ps);
    let m = furthest_end(ps);
    let h = hm_bytes(t, ps);
    if m < t.len() {
        let o = hm_fold(t, sort_by_start(ps)).0;
        assert(h == o + t.subrange(m, t.len() as int));
        assert(h.subrange(h.len() - (t.len() - m), h.len() as int) =~= t.subrange(m, t.len() as int));
    }
}

/// Matches that do not overlap, taken in order, are highlighted as pieces.
proof fn lemma_hm_fold_disjoint(t: Seq<u8>, ps: Seq<Span>)
    requires
        disjoint_in_order(ps, t.len() as int),
    ensures
        well_cut(pair_cuts(ps), t.len() as int),
        hm_fold(t, ps) == (marked_upto(t, pair_cuts(ps), true), cut_end(pair_cuts(ps))),
    decreases ps.len(),
{
    lemma_disjoint_pairs(ps, t.len() as int);
    if ps.len() > 0 {
        let q = ps.drop_last();
        lemma_hm_fold_disjoint(t, q);
        let cq = pair_cuts(q);
        lemma_cut_end_bounds(cq, t.len() as int);
        let x = ps.last();
        assert(x == ps[ps.len() - 1]);
        assert(x.0 <= x.1 <= t.len());
        if q.len() > 0 {
            assert(cq.last() == (q[q.len() - 1].0 as int, q[q.len() - 1].1 as int));
            assert(q[q.len() - 1] == ps[ps.len() - 2]);
        }
        let acc = hm_fold(t, q);
        assert(acc.1 <= x.0);
        assert(pair_cuts(ps).last() == (x.0 as int, x.1 as int));
        assert(clip(x.1, t.len() as int) == x.1);
        if !(x.0 > acc.1) {
            assert(t.subrange(acc.1, x.0 as int) =~= Seq::<u8>::empty());
        }
    }
}

/// Matches within the text that do not overlap, in order (as a regex finds
/// them): each is put between `INVERSE` and `RESET`, and with those codes
/// left out the highlighted text is the text, byte for byte.
pub proof fn law_highlight_disjoint_matches(t: Seq<u8>, ms: Seq<core::ops::Range<usize>>)
    requires
        forall|i: int| 0 <= i < ms.len() ==> (#[trigger] ms[i]).start <= ms[i].end <= t.len(),
        forall|i: int, j: int| 0 <= i < j < ms.len() ==> #[trigger] ms[i].end <= #[trigger] ms[j].start,
    ensures
        well_cut(pair_cuts(match_pairs(ms)), t.len() as int),
        hm_bytes(t, match_pairs(ms)) == marked(t, pair_cuts(match_pairs(ms)), true),
        marked(t, pair_cuts(match_pairs(ms)), false) == t,
{
    let ps = match_pairs(ms);
    assert forall|i: int| 0 <= i < ps.len() implies (#[trigger] ps[i]).0 <= ps[i].1 <= t.len() by {
        assert(ps[i] == (ms[i].start, ms[i].end));
    }
    assert forall|i: int, j: int| 0 <= i < j < ps.len() implies #[trigger] ps[i].1
        <= #[trigger] ps[j].0 by {
        assert(ps[i] == (ms[i].start, ms[i].end) && ps[j] == (ms[j].start, ms[j].end));
        assert(ms[i].end <= ms[j].start);
    }
    assert(disjoint_in_order(ps, t.len() as int));
    assert(sorted_by_start(ps)) by {
        assert forall|i: int, j: int| 0 <= i < j < ps.len() implies #[trigger] ps[i].0
            <= #[trigger] ps[j].0 by {
            assert(ps[i].0 <= ps[i].1);
            assert(ps[i].1 <= ps[j].0);
        }
    }
    lemma_sort_by_start_identity(ps);
    lemma_hm_fold_disjoint(t, ps);
    let cs = pair_cuts(ps);
    lemma_cut_end_bounds(cs, t.len() as int);
    law_unmarked_is_text(t, cs);
    let o = hm_fold(t, ps).0;
    if cut_end(cs) == t.len() {
        assert(o + t.subrange(cut_end(cs), t.len() as int) =~= o);
    }
}

/// Matches within the text that are not empty and of which no two overlap,
/// given in any order, are highlighted in order of their start: the result
/// is the text with each match, and nothing else, between `INVERSE` and
/// `RESET`.
pub proof fn law_highlight_disjoint_matches_any_order(t: Seq<u8>, ms: Seq<core::ops::Range<usize>>)
    requires
        forall|i: int| 0 <= i < ms.len() ==> (#[trigger] ms[i]).start < ms[i].end <= t.len(),
        forall|i: int, j: int|
            0 <= i < ms.len() && 0 <= j < ms.len() && i != j ==> #[trigger] ms[i].end
                <= #[trigger] ms[j].start || ms[j].end <= ms[i].start,
    ensures
        exists|ps: Seq<Span>|
            {
                &&& #[trigger] sorted_by_start(ps)
                &&& ps.len() == ms.len()
                &&& forall|p: Span| #[trigger] ps.contains(p) <==> exists|i: int|
                    0 <= i < ms.len() && p == (ms[i].start, ms[i].end)
                &&& hm_bytes(t, match_pairs(ms)) == marked(t, pair_cuts(ps), true)
            },
{
    let qs = match_pairs(ms);
    assert forall|i: int| 0 <= i < qs.len() implies (#[trigger] qs[i]).0 < qs[i].1 by {
        assert(qs[i] == (ms[i].start, ms[i].end));
    }
    assert forall|i: int, j: int|
        0 <= i < qs.len() && 0 <= j < qs.len() && i != j implies #[trigger] qs[i].1
            <= #[trigger] qs[j].0 || qs[j].1 <= qs[i].0 by {
        assert(qs[i] == (ms[i].start, ms[i].end) && qs[j] == (ms[j].start, ms[j].end));
    }
    lemma_sort_disjoint(qs);
    let ps = sort_by_start(qs);
    assert forall|i: int| 0 <= i < ps.len() implies (#[trigger] ps[i]).0 <= ps[i].1 <= t.len() by {
        assert(ps.contains(ps[i]));
        assert(qs.contains(ps[i]));
        let j = choose|j: int| 0 <= j < qs.len() && qs[j] == ps[i];
        assert(qs[j] == (ms[j].start, ms[j].end));
    }
    assert(disjoint_in_order(ps, t.len() as int));
    lemma_hm_fold_disjoint(t, ps);
    let cs = pair_cuts(ps);
    lemma_cut_end_bounds(cs, t.len() as int);
    let o = hm_fold(t, ps).0;
    if cut_end(cs) == t.len() {
        assert(o + t.subrange(cut_end(cs), t.len() as int) =~= o);
    }
    assert forall|p: Span| #[trigger] ps.contains(p) <==> exists|i: int|
        0 <= i < ms.len() && p == (ms[i].start, ms[i].end) by {
        if qs.contains(p) {
            let j = choose|j: int| 0 <= j < qs.len() && qs[j] == p;
            assert(qs[j] == (ms[j].start, ms[j].end));
        }
        if exists|i: int| 0 <= i < ms.len() && p == (ms[i].start, ms[i].end) {
            let i = choose|i: int| 0 <= i < ms.len() && p == (ms[i].start, ms[i].end);
            assert(qs[i] == p);
            assert(qs.contains(p));
        }
    }
    assert(sorted_by_start(ps));
}

/// `t` with the range `[start, end)`, cut to the text, highlighted; `None`
/// when that range is empty.
pub open spec fn hs_bytes(t: Seq<u8>, start: usize, end: usize) -> Option<Seq<u8>> {
    let s = clip(start, t.len() as int);
    let e = clip(end, t.len() as int);
    if s >= e {
        None
    } else {
        Some(t.subrange(0, s) + encode_utf8(INVERSE@) + t.subrange(s, e) + encode_utf8(RESET@)
            + t.subrange(e, t.len() as int))
    }
}

/// The text a byte string makes: its lossy decoding.
pub open spec fn text_of(b: Seq<u8>) -> Seq<char> {
    spec_lossy_utf8(b)
}

/// Output formatter for `sel`, writing into a byte buffer.
pub struct OutputFormatter {
    writer: Vec<u8>,
    show_line_numbers: bool,
    show_filename: bool,
    filename: Option<String>,
    color_mode: ColorMode,
}

/// Appends the highlighted bytes of `text` (see `hm_bytes`).
fn push_highlighted_matches(out: &mut Vec<u8>, text: &[u8], matches: &[core::ops::Range<usize>])
    requires
        matches_ok(matches@, text@.len() as int),
    ensures
        final(out)@ == old(out)@ + hm_bytes(text@, match_pairs(matches@)),
{
    let mut pairs: Vec<Span> = Vec::new();
    let mut i: usize = 0;
    while i < matches.len()
        invariant
            i <= matches@.len(),
            pairs@ == match_pairs(matches@.take(i as int)),
        decreases matches@.len() - i,
    {
        pairs.push((matches[i].start, matches[i].end));
        assert(match_pairs(matches@.take(i + 1)) =~= match_pairs(matches@.take(i as int)).push(
            (matches@[i as int].start, matches@[i as int].end),
        ));
        i = i + 1;
    }
    assert(matches@.take(matches@.len() as int) =~= matches@);
    let sorted = sort_spans_by_start(&pairs);
    let len = text.len();
    proof {
        lemma_sort_by_start_props(pairs@);
        assert forall|k: int| 0 <= k < sorted@.len() implies #[trigger] sorted@[k].0 <= sorted@[k].1
            && sorted@[k].0 <= len by {
            assert(sorted@.contains(sorted@[k]));
            assert(pairs@.contains(sorted@[k]));
            let j = choose|j: int| 0 <= j < pairs@.len() && pairs@[j] == sorted@[k];
            assert(matches@[j].start <= matches@[j].end);
        }
    }
    let ghost start = out@;
    let mut acc: Vec<u8> = Vec::new();
    let mut last_end: usize = 0;
    let mut k: usize = 0;
    assert(sorted@.take(0) =~= Seq::<Span>::empty());
    while k < sorted.len()
        invariant
            k <= sorted@.len(),
            len == text@.len(),
            forall|j: int| 0 <= j < sorted@.len() ==> #[trigger] sorted@[j].0 <= sorted@[j].1
                && sorted@[j].0 <= len,
            (acc@, last_end as int) == hm_fold(text@, sorted@.take(k as int)),
        decreases sorted@.len() - k,
    {
        let m = sorted[k];
        assert(sorted@.take(k + 1).drop_last() =~= sorted@.take(k as int));
        // Text before the match.
        if m.0 > last_end {
            push_range(&mut acc, text, last_end, m.0);
        }
        let me = if m.1 < len {
            m.1
        } else {
            len
        };
        push_str(&mut acc, INVERSE);
        push_range(&mut acc, text, m.0, me);
        push_str(&mut acc, RESET);
        if m.1 > last_end {
            last_end = m.1;
        }
        proof {
            if !(m.0 > hm_fold(text@, sorted@.take(k as int)).1) {
                assert(Seq::<u8>::empty() + Seq::<u8>::empty() =~= Seq::<u8>::empty());
            }
        }
        k = k + 1;
    }
    assert(sorted@.take(sorted@.len() as int) =~= sorted@);
    // Remaining text.
    if last_end < len {
        push_range(&mut acc, text, last_end, len);
    }
    push_all(out, acc.as_slice());
}

/// Appends the highlighted bytes of `text` (see `hs_bytes`), or `text` as
/// it is when the range is empty.
fn push_highlighted_substring(out: &mut Vec<u8>, text: &[u8], range: &core::ops::Range<usize>)
    ensures
        final(out)@ == old(out)@ + (match hs_bytes(text@, range.start, range.end) {
            Some(h) => h,
            None => text@,
        }),
{
    let len = text.len();
    let start = if range.start < len {
        range.start
    } else {
        len
    };
    let end = if range.end < len {
        range.end
    } else {
        len
    };
    if start >= end {
        push_all(out, text);
        return ;
    }
    push_range(out, text, 0, start);
    push_str(out, INVERSE);
    push_range(out, text, start, end);
    push_str(out, RESET);
    push_range(out, text, end, len);
}

/// Appends `k` spaces.
fn push_space_run(out: &mut Vec<u8>, k: usize)
    ensures
        final(out)@ == old(out)@ + Seq::new(k as nat, |i: int| 32u8),
{
    let ghost start = out@;
    let mut i: usize = 0;
    while i < k
        invariant
            i <= k,
            out@ == start + Seq::new(i as nat, |j: int| 32u8),
        decreases k - i,
    {
        out.push(32u8);
        assert(Seq::new((i + 1) as nat, |j: int| 32u8) =~= Seq::new(i as nat, |j: int| 32u8).push(
            32u8,
        ));
        i = i + 1;
    }
}

impl OutputFormatter {
    /// What has been written so far.
    pub closed spec fn spec_written(&self) -> Seq<u8> {
        self.writer@
    }

    /// Whether line numbers are shown.
    pub closed spec fn spec_show_line_numbers(&self) -> bool {
        self.show_line_numbers
    }

    /// Whether the filename is shown.
    pub closed spec fn spec_show_filename(&self) -> bool {
        self.show_filename
    }

    /// The filename.
    pub closed spec fn spec_filename(&self) -> Option<String> {
        self.filename
    }

    /// The color mode.
    pub closed spec fn spec_color_mode(&self) -> ColorMode {
        self.color_mode
    }

    /// The prefix of line `line_no` under this formatter's settings.
    pub open spec fn spec_prefix(&self, line_no: usize) -> Seq<u8> {
        out_prefix(self.spec_show_filename(), self.spec_filename(), self.spec_show_line_numbers(), line_no)
    }

    /// Whether this formatter colorizes.
    pub open spec fn colorize(&self) -> bool {
        self.spec_color_mode() == ColorMode::Always
    }

    /// The same formatter after `bytes` more were written.
    pub open spec fn wrote(&self, next: &Self, bytes: Seq<u8>) -> bool {
        &&& next.spec_written() == self.spec_written() + bytes
        &&& next.spec_show_line_numbers() == self.spec_show_line_numbers()
        &&& next.spec_show_filename() == self.spec_show_filename()
        &&& next.spec_filename() == self.spec_filename()
        &&& next.spec_color_mode() == self.spec_color_mode()
    }

    /// Create a new output formatter.
    pub fn new(writer: Vec<u8>, show_line_numbers: bool, show_filename: bool, filename: Option<String>, color_mode: ColorMode) -> (r: Self)
        ensures
            r.spec_written() == writer@,
            r.spec_show_line_numbers() == show_line_numbers,
            r.spec_show_filename() == show_filename,
            r.spec_filename() == filename,
            r.spec_color_mode() == color_mode,
    {
        OutputFormatter { writer, show_line_numbers, show_filename, filename, color_mode }
    }

    /// The bytes written, taking the formatter apart.
    pub fn into_inner(self) -> (r: Vec<u8>)
        ensures
            r@ == self.spec_written(),
    {
        self.writer
    }

    /// Write a line with optional line number and filename.
    pub fn write_line(&mut self, line_no: usize, content: &str) -> (r: Result<(), std::io::Error>)
        ensures
            r is Ok,
            old(self).wrote(final(self), old(self).spec_prefix(line_no) + encode_utf8(content@) + seq![10u8]),
    {
        let ghost w0 = self.writer@;
        self.push_prefix(line_no);
        push_str(&mut self.writer, content);
        self.writer.push(10u8);
        assert(self.writer@ =~= w0 + (old(self).spec_prefix(line_no) + encode_utf8(content@) + seq![10u8]));
        Ok(())
    }

    /// Write a target line (with marker).
    pub fn write_target_line(&mut self, line_no: usize, content: &str) -> (r: Result<(), std::io::Error>)
        ensures
            r is Ok,
            old(self).wrote(
                final(self),
                target_marker(old(self).colorize()) + old(self).spec_prefix(line_no) + encode_utf8(content@) + seq![10u8],
            ),
    {
        let ghost w0 = self.writer@;
        self.push_marker();
        self.push_prefix(line_no);
        push_str(&mut self.writer, content);
        self.writer.push(10u8);
        assert(self.writer@ =~= w0 + (target_marker(old(self).colorize()) + old(self).spec_prefix(line_no) + encode_utf8(content@) + seq![10u8]));
        Ok(())
    }

    /// Write a context line (non-target).
    pub fn write_context_line(&mut self, line_no: usize, content: &str) -> (r: Result<(), std::io::Error>)
        ensures
            r is Ok,
            old(self).wrote(final(self), old(self).spec_prefix(line_no) + encode_utf8(content@) + seq![10u8]),
    {
        self.write_line(line_no, content)
    }

    /// Write a fragment with character context and pointer.
    pub fn write_fragment(&mut self, line_no: usize, fragment: &str, pointer_offset: usize) -> (r: Result<(), std::io::Error>)
        ensures
            r is Ok,
            old(self).wrote(
                final(self),
                (if old(self).spec_show_line_numbers() {
                    dec_bytes(line_no as nat).push(58u8)
                } else {
                    Seq::empty()
                }) + encode_utf8(fragment@) + seq![10u8] + pointer_bytes(old(self).colorize(), pointer_offset as int) + seq![10u8],
            ),
    {
        let ghost w0 = self.writer@;
        if self.show_line_numbers {
            push_all(&mut self.writer, decimal(line_no as u64).as_slice());
            self.writer.push(58u8);
        }
        push_str(&mut self.writer, fragment);
        self.writer.push(10u8);
        self.push_pointer(pointer_offset);
        self.writer.push(10u8);
        assert(self.writer@ =~= w0 + ((if old(self).spec_show_line_numbers() {
                dec_bytes(line_no as nat).push(58u8)
            } else {
                Seq::empty()
            }) + encode_utf8(fragment@) + seq![10u8] + pointer_bytes(old(self).colorize(), pointer_offset as int) + seq![10u8]));
        Ok(())
    }

    /// Write a line with highlighted matches.
    ///
    /// Matches are specified as byte ranges within the line.
    pub fn write_line_with_matches(&mut self, line_no: usize, content: &str, matches: &[core::ops::Range<usize>]) -> (r: Result<(), std::io::Error>)
        requires
            old(self).colorize() && matches@.len() > 0 ==> matches_ok(matches@, encode_utf8(content@).len() as int),
        ensures
            r is Ok,
            old(self).wrote(
                final(self),
                old(self).spec_prefix(line_no) + (if old(self).colorize() && matches@.len() > 0 {
                    hm_bytes(encode_utf8(content@), match_pairs(matches@))
                } else {
                    encode_utf8(content@)
                }) + seq![10u8],
            ),
    {
        let ghost w0 = self.writer@;
        self.push_prefix(line_no);
        if self.color_mode.should_colorize() && matches.len() > 0 {
            push_highlighted_matches(&mut self.writer, content.as_bytes(), matches);
        } else {
            push_str(&mut self.writer, content);
        }
        self.writer.push(10u8);
        assert(self.writer@ =~= w0 + (old(self).spec_prefix(line_no) + (if old(self).colorize() && matches@.len() > 0 {
                hm_bytes(encode_utf8(content@), match_pairs(matches@))
            } else {
                encode_utf8(content@)
            }) + seq![10u8]));
        Ok(())
    }

    /// Write a target line with marker and highlighted matches.
    pub fn write_target_line_with_matches(&mut self, line_no: usize, content: &str, matches: &[core::ops::Range<usize>]) -> (r: Result<(), std::io::Error>)
        requires
            old(self).colorize() && matches@.len() > 0 ==> matches_ok(matches@, encode_utf8(content@).len() as int),
        ensures
            r is Ok,
            old(self).wrote(
                final(self),
                target_marker(old(self).colorize()) + old(self).spec_prefix(line_no) + (if old(self).colorize() && matches@.len() > 0 {
                    hm_bytes(encode_utf8(content@), match_pairs(matches@))
                } else {
                    encode_utf8(content@)
                }) + seq![10u8],
            ),
    {
        let ghost w0 = self.writer@;
        self.push_marker();
        self.push_prefix(line_no);
        if self.color_mode.should_colorize() && matches.len() > 0 {
            push_highlighted_matches(&mut self.writer, content.as_bytes(), matches);
        } else {
            push_str(&mut self.writer, content);
        }
        self.writer.push(10u8);
        assert(self.writer@ =~= w0 + (target_marker(old(self).colorize()) + old(self).spec_prefix(line_no) + (if old(self).colorize() && matches@.len() > 0 {
                hm_bytes(encode_utf8(content@), match_pairs(matches@))
            } else {
                encode_utf8(content@)
            }) + seq![10u8]));
        Ok(())
    }

    /// Write a fragment with character context and highlighted match.
    #[verifier::rlimit(40)]
    pub fn write_fragment_with_match(&mut self, line_no: usize, fragment: &str, match_range_in_fragment: core::ops::Range<usize>) -> (r: Result<(), std::io::Error>)
        ensures
            r is Ok,
            old(self).wrote(
                final(self),
                (if old(self).spec_show_line_numbers() {
                    dec_bytes(line_no as nat).push(58u8)
                } else {
                    Seq::empty()
                }) + (if old(self).colorize() {
                    match hs_bytes(encode_utf8(fragment@), match_range_in_fragment.start, match_range_in_fragment.end) {
                        Some(h) => h,
                        None => encode_utf8(fragment@),
                    }
                } else {
                    encode_utf8(fragment@)
                }) + seq![10u8] + pointer_bytes(old(self).colorize(), match_range_in_fragment.start as int) + seq![10u8],
            ),
    {
        let ghost w0 = self.writer@;
        if self.show_line_numbers {
            push_all(&mut self.writer, decimal(line_no as u64).as_slice());
            self.writer.push(58u8);
        }
        if self.color_mode.should_colorize() {
            push_highlighted_substring(&mut self.writer, fragment.as_bytes(), &match_range_in_fragment);
        } else {
            push_str(&mut self.writer, fragment);
        }
        self.writer.push(10u8);
        self.push_pointer(match_range_in_fragment.start);
        self.writer.push(10u8);
        assert(self.writer@ =~= w0 + ((if old(self).spec_show_line_numbers() {
                dec_bytes(line_no as nat).push(58u8)
            } else {
                Seq::empty()
            }) + (if old(self).colorize() {
                match hs_bytes(encode_utf8(fragment@), match_range_in_fragment.start, match_range_in_fragment.end) {
                    Some(h) => h,
                    None => encode_utf8(fragment@),
                }
            } else {
                encode_utf8(fragment@)
            }) + seq![10u8] + pointer_bytes(old(self).colorize(), match_range_in_fragment.start as int) + seq![10u8]));
        Ok(())
    }

    /// Highlight all matches in a string: see `hm_bytes`.
    pub fn highlight_matches(&self, text: &str, matches: &[core::ops::Range<usize>]) -> (r: String)
        requires
            matches_ok(matches@, encode_utf8(text@).len() as int),
        ensures
            r@ == text_of(hm_bytes(encode_utf8(text@), match_pairs(matches@))),
    {
        let mut out: Vec<u8> = Vec::new();
        push_highlighted_matches(&mut out, text.as_bytes(), matches);
        lossy_string(out.as_slice())
    }

    /// Highlight a substring within a larger string: see `hs_bytes`.
    pub fn highlight_substring(&self, text: &str, range: &core::ops::Range<usize>) -> (r: String)
        ensures
            match hs_bytes(encode_utf8(text@), range.start, range.end) {
                Some(h) => r@ == text_of(h),
                None => r@ == text@,
            },
    {
        let len = text.as_bytes().len();
        let start = if range.start < len {
            range.start
        } else {
            len
        };
        let end = if range.end < len {
            range.end
        } else {
            len
        };
        if start >= end {
            return String::from_str(text);
        }
        let mut out: Vec<u8> = Vec::new();
        push_highlighted_substring(&mut out, text.as_bytes(), range);
        lossy_string(out.as_slice())
    }

    /// Flush any pending output; a byte buffer has none.
    pub fn flush(&mut self) -> (r: Result<(), std::io::Error>)
        ensures
            r is Ok,
            old(self).wrote(final(self), Seq::empty()),
    {
        assert(self.writer@ + Seq::<u8>::empty() =~= self.writer@);
        Ok(())
    }

    fn push_prefix(&mut self, line_no: usize)
        ensures
            old(self).wrote(final(self), old(self).spec_prefix(line_no)),
    {
        let ghost w0 = self.writer@;
        if self.show_filename {
            if let Some(f) = &self.filename {
                push_str(&mut self.writer, f.as_str());
                self.writer.push(58u8);
            }
        }
        if self.show_line_numbers {
            push_all(&mut self.writer, decimal(line_no as u64).as_slice());
            self.writer.push(58u8);
        }
        assert(self.writer@ =~= w0 + self.spec_prefix(line_no));
    }

    fn push_marker(&mut self)
        ensures
            old(self).wrote(final(self), target_marker(old(self).colorize())),
    {
        if self.color_mode.should_colorize() {
            // ANSI green color for target line marker
            push_str(&mut self.writer, "\x1b[32m>\x1b[0m ");
        } else {
            push_str(&mut self.writer, "> ");
        }
    }

    fn push_pointer(&mut self, k: usize)
        ensures
            old(self).wrote(final(self), pointer_bytes(old(self).colorize(), k as int)),
    {
        let ghost w0 = self.writer@;
        if self.color_mode.should_colorize() {
            push_str(&mut self.writer, "\x1b[32m");
            push_space_run(&mut self.writer, k);
            push_str(&mut self.writer, "^\x1b[0m");
        } else {
            push_space_run(&mut self.writer, k);
            push_str(&mut self.writer, "^");
        }
        assert(self.writer@ =~= w0 + pointer_bytes(self.colorize(), k as int));
    }
}

/// A fragment of a line with character context.
#[derive(Debug, Clone)]
pub struct Fragment {
    pub line_number: usize,
    pub content: String,
    pub start_column: usize,
    pub target_column: usize,
}

/// The 0-based index of the 1-based `column`, kept inside a line of `len`
/// bytes.
pub open spec fn clamp_column(column: int, len: int) -> int {
    let a = if column > 1 { column - 1 } else { 0 };
    let b = if len > 1 { len - 1 } else { 0 };
    if a < b { a } else { b }
}

/// Fragment bounds `[start, end)` around the 1-based `column` with
/// `context` bytes on either side, within a line of `len` bytes.
pub open spec fn fragment_bounds(column: int, context: int, len: int) -> (int, int) {
    let col_idx = clamp_column(column, len);
    let s0 = if col_idx <= context { 0 } else { col_idx - context };
    let start = if s0 < len { s0 } else { len };
    let end = if len < col_idx + context + 1 { len } else { col_idx + context + 1 };
    (start, end)
}

/// The fragment around a column holds the target byte (the column, kept
/// within the line) with at most `context` bytes on either side of it, cut
/// at the ends of the line; for a column inside the line, the pointer drawn
/// `target - start` spaces in lands on that byte.
pub proof fn law_fragment_holds_target(column: usize, context: usize, len: nat)
    ensures
        ({
            let (s, e) = fragment_bounds(column as int, context as int, len as int);
            let c: int = if column <= 1 || len == 0 {
                0
            } else if column - 1 < len - 1 {
                column - 1
            } else {
                len - 1
            };
            &&& s == (if c > context { c - context } else { 0 })
            &&& e == (if c + context + 1 < len { c + context + 1 } else { len as int })
            &&& len > 0 ==> s <= c < e
            &&& 1 <= column <= len ==> column - (s + 1) == (if column - 1 < context {
                column - 1
            } else {
                context as int
            })
        }),
{
}

impl Fragment {
    /// Create a new fragment from a line and position with character context.
    pub fn new(line: &str, column: usize, context: usize) -> (r: Self)
        ensures
            ({
                let b = encode_utf8(line@);
                let (start, end) = fragment_bounds(column as int, context as int, b.len() as int);
                &&& r.line_number == 0
                &&& r.content@ == (if start < end {
                    text_of(b.subrange(start, end))
                } else {
                    Seq::empty()
                })
                &&& r.start_column == start + 1
                &&& r.target_column == column
            }),
    {
        let line_bytes = line.as_bytes();
        let line_len = line_bytes.len();
        // Column is 1-indexed, convert to 0-indexed; clamp to the line.
        let a = if column > 1 {
            column - 1
        } else {
            0
        };
        let b = if line_len > 1 {
            line_len - 1
        } else {
            0
        };
        let col_idx = if a < b {
            a
        } else {
            b
        };
        let start = if col_idx <= context {
            0
        } else {
            col_idx - context
        };
        let start = if start < line_len {
            start
        } else {
            line_len
        };
        // min(line_len, col_idx + context + 1), computed without overflow.
        let end = if line_len == 0 || context >= line_len - col_idx {
            line_len
        } else {
            col_idx + context + 1
        };
        let content = if start < end {
            lossy_string(vstd::slice::slice_subrange(line_bytes, start, end))
        } else {
            String::new()
        };
        Fragment {
            line_number: 0,  // Will be set by caller
            content,
            start_column: start + 1,  // Convert back to 1-indexed
            target_column: column,
        }
    }

    /// Get the pointer offset (number of spaces before the `^` marker).
    pub fn pointer_offset(&self) -> (r: usize)
        ensures
            r == (if self.target_column > self.start_column {
                self.target_column - self.start_column
            } else {
                0
            }),
    {
        // The pointer should be under the target column, relative to the
        // start of the fragment.
        self.target_column.saturating_sub(self.start_column)
    }

    /// Format as a display string: `line_number:content`.
    pub fn format(&self) -> (r: String)
        ensures
            r@ == dec_chars(self.line_number as nat).push(':') + self.content@,
    {
        let mut s = String::new();
        push_decimal(&mut s, self.line_number as u64);
        push_colon(&mut s);
        s.append(self.content.as_str());
        s
    }

    /// Format the pointer line: spaces up to the target, then `^`.
    pub fn format_pointer(&self) -> (r: String)
        ensures
            r@ == spaces(
                if self.target_column > self.start_column {
                    self.target_column - self.start_column
                } else {
                    0
                },
            ).push('^'),
    {
        let mut s = String::new();
        push_spaces(&mut s, self.pointer_offset());
        proof {
            reveal_strlit("^");
        }
        s.append("^");
        s
    }
}

} // verus!
