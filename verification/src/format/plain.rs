//! Plain-line formatter with optional line number, filename, and highlight.

use vstd::prelude::*;
use vstd::utf8::*;

use super::ansi::{
    cut_end, disjoint_in_order, law_unmarked_is_text, lemma_cut_end_bounds, lemma_disjoint_pairs,
    marked, marked_upto, paint, pair_cuts, well_cut, GREEN, INVERSE, RESET,
};
use crate::ranges::{lemma_sort_by_start_identity, lemma_sort_disjoint, sorted_by_start};
use super::{prefix_chars, FormatOpts, Formatter};
use crate::ranges::{sort_by_start, sort_spans_by_start, Span};
use crate::text::{lossy_string, push_all, push_range, push_str, spec_lossy_utf8};
use crate::types::{Emit, Line, MatchInfo, Role};

verus! {

/// The UTF-8 bytes of the lossy decoding of `b`.
pub open spec fn lossy_bytes(b: Seq<u8>) -> Seq<u8> {
    encode_utf8(spec_lossy_utf8(b))
}

/// `x`, but no more than `len`.
pub open spec fn clip(x: usize, len: int) -> int {
    if x < len {
        x as int
    } else {
        len
    }
}

/// Highlighting one span `r` of `t`, given the output so far and the cursor:
/// a span that starts before the cursor is skipped; otherwise the text up to
/// the span is copied, then the span between INVERSE and RESET (a span that
/// ends before it starts is taken as empty).
pub open spec fn hl_step(t: Seq<u8>, acc: (Seq<u8>, int), r: Span) -> (Seq<u8>, int) {
    let s = clip(r.0, t.len() as int);
    let e = if r.1 < r.0 { s } else { clip(r.1, t.len() as int) };
    if s < acc.1 {
        acc
    } else {
        (
            acc.0 + t.subrange(acc.1, s) + encode_utf8(INVERSE@) + t.subrange(s, e) + encode_utf8(
                RESET@,
            ),
            e,
        )
    }
}

/// Highlighting the spans `rs` of `t` one after the other, from cursor 0.
pub open spec fn hl_fold(t: Seq<u8>, rs: Seq<Span>) -> (Seq<u8>, int)
    decreases rs.len(),
{
    if rs.len() == 0 {
        (Seq::empty(), 0)
    } else {
        hl_step(t, hl_fold(t, rs.drop_last()), rs.last())
    }
}

/// `t` with the spans `rs`, taken in order of their start, highlighted.
pub open spec fn highlight(t: Seq<u8>, rs: Seq<Span>) -> Seq<u8> {
    let (o, c) = hl_fold(t, sort_by_start(rs));
    o + t.subrange(c, t.len() as int)
}

/// Highlighting spans one after the other copies every byte of the text
/// once, in order, putting the pieces it highlights between the codes.
proof fn lemma_hl_fold_cuts(t: Seq<u8>, rs: Seq<Span>) -> (cuts: Seq<(int, int)>)
    ensures
        well_cut(cuts, t.len() as int),
        cut_end(cuts) == hl_fold(t, rs).1,
        hl_fold(t, rs).0 == marked_upto(t, cuts, true),
    decreases rs.len(),
{
    if rs.len() == 0 {
        Seq::empty()
    } else {
        let p = lemma_hl_fold_cuts(t, rs.drop_last());
        lemma_cut_end_bounds(p, t.len() as int);
        let acc = hl_fold(t, rs.drop_last());
        let r = rs.last();
        let s = clip(r.0, t.len() as int);
        let e = if r.1 < r.0 { s } else { clip(r.1, t.len() as int) };
        if s < acc.1 {
            p
        } else {
            let cuts = p.push((s, e));
            assert(cuts.drop_last() =~= p);
            assert(well_cut(cuts, t.len() as int)) by {
                assert forall|i: int| 0 <= i < cuts.len() implies 0 <= (#[trigger] cuts[i]).0
                    <= cuts[i].1 <= t.len() by {
                    if i < p.len() {
                        assert(cuts[i] == p[i]);
                    }
                }
                assert forall|i: int, j: int| 0 <= i < j < cuts.len() implies #[trigger] cuts[i].1
                    <= #[trigger] cuts[j].0 by {
                    assert(cuts[i] == p[i]);
                    if j < p.len() {
                        assert(cuts[j] == p[j]);
                    }
                }
            }
            cuts
        }
    }
}

/// Highlighting keeps the whole text: the content of a line is its (lossy)
/// text with some pieces put between `INVERSE` and `RESET`, and with those
/// codes left out it is the text again, the bytes after the last span
/// included.
pub proof fn law_content_keeps_text(color: bool, bytes: Seq<u8>, spans: Seq<core::ops::Range<usize>>)
    ensures
        exists|cuts: Seq<(int, int)>|
            {
                &&& #[trigger] well_cut(cuts, lossy_bytes(bytes).len() as int)
                &&& content_bytes(color, bytes, spans) == marked(lossy_bytes(bytes), cuts, true)
                &&& marked(lossy_bytes(bytes), cuts, false) == lossy_bytes(bytes)
            },
{
    let t = lossy_bytes(bytes);
    let cuts = if !color || spans.len() == 0 {
        Seq::<(int, int)>::empty()
    } else {
        lemma_hl_fold_cuts(t, sort_by_start(span_pairs(spans)))
    };
    assert(t.subrange(0, t.len() as int) =~= t);
    assert(Seq::<u8>::empty() + t =~= t);
    law_unmarked_is_text(t, cuts);
    assert(well_cut(cuts, t.len() as int));
}

/// The spans as `(start, end)` pairs.
pub open spec fn span_pairs(spans: Seq<core::ops::Range<usize>>) -> Seq<Span> {
    spans.map_values(|r: core::ops::Range<usize>| (r.start, r.end))
}

/// The content of a line: the lossy text, with the spans highlighted when
/// color is on and there are any.
pub open spec fn content_bytes(color: bool, bytes: Seq<u8>, spans: Seq<core::ops::Range<usize>>) -> Seq<u8> {
    if !color || spans.len() == 0 {
        lossy_bytes(bytes)
    } else {
        highlight(lossy_bytes(bytes), span_pairs(spans))
    }
}

/// Spans that do not overlap, taken in order, are highlighted as pieces.
proof fn lemma_hl_fold_disjoint(t: Seq<u8>, ps: Seq<Span>)
    requires
        disjoint_in_order(ps, t.len() as int),
    ensures
        hl_fold(t, ps) == (marked_upto(t, pair_cuts(ps), true), cut_end(pair_cuts(ps))),
    decreases ps.len(),
{
    lemma_disjoint_pairs(ps, t.len() as int);
    if ps.len() > 0 {
        let q = ps.drop_last();
        lemma_hl_fold_disjoint(t, q);
        let cq = pair_cuts(q);
        lemma_disjoint_pairs(q, t.len() as int);
        lemma_cut_end_bounds(cq, t.len() as int);
        let x = ps.last();
        assert(x == ps[ps.len() - 1]);
        assert(x.0 <= x.1 <= t.len());
        if q.len() > 0 {
            assert(cq.last() == (q[q.len() - 1].0 as int, q[q.len() - 1].1 as int));
            assert(q[q.len() - 1] == ps[ps.len() - 2]);
        }
        assert(hl_fold(t, q).1 <= x.0);
        assert(pair_cuts(ps).last() == (x.0 as int, x.1 as int));
        assert(clip(x.0, t.len() as int) == x.0);
        assert(clip(x.1, t.len() as int) == x.1);
    }
}

/// Spans within the text that do not overlap, in order (as a regex finds
/// them), are exactly the pieces highlighted when color is on: each is put
/// between `INVERSE` and `RESET`, and the text around them is kept.
pub proof fn law_content_disjoint_spans(bytes: Seq<u8>, spans: Seq<core::ops::Range<usize>>)
    requires
        forall|i: int|
            0 <= i < spans.len() ==> (#[trigger] spans[i]).start <= spans[i].end <= lossy_bytes(
                bytes,
            ).len(),
        forall|i: int, j: int|
            0 <= i < j < spans.len() ==> #[trigger] spans[i].end <= #[trigger] spans[j].start,
    ensures
        content_bytes(true, bytes, spans) == marked(
            lossy_bytes(bytes),
            pair_cuts(span_pairs(spans)),
            true,
        ),
{
    let t = lossy_bytes(bytes);
    let ps = span_pairs(spans);
    assert forall|i: int| 0 <= i < ps.len() implies (#[trigger] ps[i]).0 <= ps[i].1 <= t.len() by {
        assert(ps[i] == (spans[i].start, spans[i].end));
    }
    assert forall|i: int, j: int| 0 <= i < j < ps.len() implies #[trigger] ps[i].1
        <= #[trigger] ps[j].0 by {
        assert(ps[i] == (spans[i].start, spans[i].end) && ps[j] == (spans[j].start, spans[j].end));
        assert(spans[i].end <= spans[j].start);
    }
    assert(disjoint_in_order(ps, t.len() as int));
    assert(sorted_by_start(ps)) by {
        assert forall|i: int, j: int| 0 <= i < j < ps.len() implies #[trigger] ps[i].0
            <= #[trigger] ps[j].0 by {
            assert(ps[i].0 <= ps[i].1);
            assert(ps[i].1 <= ps[j].0);
        }
    }
    lemma_sort_by_start_identity(ps);
    lemma_hl_fold_disjoint(t, ps);
    if spans.len() == 0 {
        assert(pair_cuts(ps) =~= Seq::<(int, int)>::empty());
        assert(Seq::<u8>::empty() + t.subrange(0, t.len() as int) =~= t);
    }
}

/// Spans within the text that are not empty and of which no two overlap,
/// given in any order, are highlighted in order of their start: the content
/// is the text with each span, and nothing else, between `INVERSE` and
/// `RESET`.
pub proof fn law_content_disjoint_spans_any_order(
    bytes: Seq<u8>,
    spans: Seq<core::ops::Range<usize>>,
)
    requires
        forall|i: int|
            0 <= i < spans.len() ==> (#[trigger] spans[i]).start < spans[i].end <= lossy_bytes(
                bytes,
            ).len(),
        forall|i: int, j: int|
            0 <= i < spans.len() && 0 <= j < spans.len() && i != j ==> #[trigger] spans[i].end
                <= #[trigger] spans[j].start || spans[j].end <= spans[i].start,
    ensures
        exists|ps: Seq<Span>|
            {
                &&& #[trigger] sorted_by_start(ps)
                &&& ps.len() == spans.len()
                &&& forall|p: Span| #[trigger] ps.contains(p) <==> exists|i: int|
                    0 <= i < spans.len() && p == (spans[i].start, spans[i].end)
                &&& content_bytes(true, bytes, spans) == marked(
                    lossy_bytes(bytes),
                    pair_cuts(ps),
                    true,
                )
            },
{
    let t = lossy_bytes(bytes);
    let qs = span_pairs(spans);
    assert forall|i: int| 0 <= i < qs.len() implies (#[trigger] qs[i]).0 < qs[i].1 by {
        assert(qs[i] == (spans[i].start, spans[i].end));
    }
    assert forall|i: int, j: int|
        0 <= i < qs.len() && 0 <= j < qs.len() && i != j implies #[trigger] qs[i].1
            <= #[trigger] qs[j].0 || qs[j].1 <= qs[i].0 by {
        assert(qs[i] == (spans[i].start, spans[i].end) && qs[j] == (spans[j].start, spans[j].end));
    }
    lemma_sort_disjoint(qs);
    let ps = sort_by_start(qs);
    assert forall|i: int| 0 <= i < ps.len() implies (#[trigger] ps[i]).0 <= ps[i].1 <= t.len() by {
        assert(ps.contains(ps[i]));
        assert(qs.contains(ps[i]));
        let j = choose|j: int| 0 <= j < qs.len() && qs[j] == ps[i];
        assert(qs[j] == (spans[j].start, spans[j].end));
    }
    assert(disjoint_in_order(ps, t.len() as int));
    lemma_hl_fold_disjoint(t, ps);
    assert forall|p: Span| #[trigger] ps.contains(p) <==> exists|i: int|
        0 <= i < spans.len() && p == (spans[i].start, spans[i].end) by {
        if qs.contains(p) {
            let j = choose|j: int| 0 <= j < qs.len() && qs[j] == p;
            assert(qs[j] == (spans[j].start, spans[j].end));
        }
        if exists|i: int| 0 <= i < spans.len() && p == (spans[i].start, spans[i].end) {
            let i = choose|i: int| 0 <= i < spans.len() && p == (spans[i].start, spans[i].end);
            assert(qs[i] == p);
            assert(qs.contains(p));
        }
    }
    if spans.len() == 0 {
        assert(pair_cuts(ps) =~= Seq::<(int, int)>::empty());
        assert(Seq::<u8>::empty() + t.subrange(0, t.len() as int) =~= t);
    }
    assert(sorted_by_start(ps));
}

/// The marker before a line: `"> "` (the `>` painted green when color is
/// on) for a target when markers are on, nothing otherwise.
pub open spec fn marker_chars(o: FormatOpts, role: Role) -> Seq<char> {
    if role == Role::Target && o.target_marker {
        (if o.color { GREEN@ + ">"@ + RESET@ } else { ">"@ }) + " "@
    } else {
        Seq::empty()
    }
}

/// The bytes the plain formatter writes for `line` in `role` with `mi`:
/// marker, prefix, content, newline.
pub open spec fn plain_line(o: FormatOpts, line: Line, role: Role, mi: MatchInfo) -> Seq<u8> {
    encode_utf8(marker_chars(o, role)) + encode_utf8(prefix_chars(o, line.no)) + content_bytes(
        o.color,
        line.bytes@,
        mi.spans@,
    ) + seq![10u8]
}

pub struct PlainFormatter {
    pub opts: FormatOpts,
}

impl PlainFormatter {
    pub fn new(opts: FormatOpts) -> (r: Self)
        ensures
            r.opts == opts,
    {
        PlainFormatter { opts }
    }

    fn render_content(&self, bytes: &[u8], spans: &[core::ops::Range<usize>]) -> (r: Vec<u8>)
        ensures
            r@ == content_bytes(self.opts.color, bytes@, spans@),
    {
        let text = lossy_string(bytes);
        let t = text.as_str().as_bytes();
        let mut out: Vec<u8> = Vec::new();
        if !self.opts.color || spans.len() == 0 {
            push_all(&mut out, t);
            return out;
        }
        let mut pairs: Vec<Span> = Vec::new();
        let mut i: usize = 0;
        while i < spans.len()
            invariant
                i <= spans@.len(),
                pairs@ == span_pairs(spans@.take(i as int)),
            decreases spans@.len() - i,
        {
            pairs.push((spans[i].start, spans[i].end));
            assert(span_pairs(spans@.take(i + 1)) =~= span_pairs(spans@.take(i as int)).push(
                (spans@[i as int].start, spans@[i as int].end),
            ));
            i = i + 1;
        }
        assert(spans@.take(spans@.len() as int) =~= spans@);
        let sorted = sort_spans_by_start(&pairs);
        let len = t.len();
        let mut cursor: usize = 0;
        let mut k: usize = 0;
        assert(sorted@.take(0) =~= Seq::<Span>::empty());
        while k < sorted.len()
            invariant
                k <= sorted@.len(),
                len == t@.len(),
                cursor <= len,
                (out@, cursor as int) == hl_fold(t@, sorted@.take(k as int)),
            decreases sorted@.len() - k,
        {
            let r = sorted[k];
            let s = if r.0 < len {
                r.0
            } else {
                len
            };
            let e = if r.1 < r.0 {
                s
            } else if r.1 < len {
                r.1
            } else {
                len
            };
            assert(sorted@.take(k + 1).drop_last() =~= sorted@.take(k as int));
            if s >= cursor {
                push_range(&mut out, t, cursor, s);
                push_str(&mut out, INVERSE);
                push_range(&mut out, t, s, e);
                push_str(&mut out, RESET);
                cursor = e;
            }
            k = k + 1;
        }
        assert(sorted@.take(sorted@.len() as int) =~= sorted@);
        push_range(&mut out, t, cursor, len);
        out
    }
}

impl Formatter for PlainFormatter {
    /// Writing into a byte buffer cannot fail.
    open spec fn infallible() -> bool {
        true
    }

    /// Never reported: writing cannot fail.
    open spec fn write_error(&self, line: Line, role: Role, info: MatchInfo) -> std::io::Error {
        vstd::pervasive::arbitrary()
    }

    /// Marker, prefix, content and newline; the options stay as they are (a
    /// number longer than the field's width is written whole).
    open spec fn written(&self, line: Line, role: Role, info: MatchInfo) -> (Self, Seq<u8>) {
        (*self, plain_line(self.opts, line, role, info))
    }

    fn write(&mut self, sink: &mut Vec<u8>, emit: &Emit) -> (r: Result<(), std::io::Error>)
        ensures
            r is Ok,
            final(self).opts == old(self).opts,
            final(sink)@ == old(sink)@ + plain_line(final(self).opts, *emit.line, emit.role, *emit.match_info),
    {
        let ghost s0 = sink@;
        let marker = if emit.role == Role::Target && self.opts.target_marker {
            let mut m = paint(self.opts.color, GREEN, ">");
            m.append(" ");
            m
        } else {
            String::new()
        };
        let prefix = self.opts.prefix(emit.line.no);
        let content = self.render_content(emit.line.bytes.as_slice(), emit.match_info.spans.as_slice());
        push_str(sink, marker.as_str());
        push_str(sink, prefix.as_str());
        push_all(sink, content.as_slice());
        sink.push(10u8);
        assert(sink@.subrange(0, s0.len() as int) =~= s0);
        assert(sink@.subrange(s0.len() as int, sink@.len() as int) =~= plain_line(self.opts, *emit.line, emit.role, *emit.match_info));
        Ok(())
    }
}

} // verus!
