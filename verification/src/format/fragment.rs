//! Fragment formatter — char-context window with caret.
//!
//! Used when `-n` is set (positional selectors or `-e` + `-n`).

use vstd::prelude::*;
use vstd::utf8::*;

use super::ansi::{
    cut_end, law_unmarked_is_text, marked, marked_upto, paint, well_cut, GREEN, INVERSE, RESET,
};
use super::plain::lossy_bytes;
use super::{prefix_chars, widened, FormatOpts, Formatter};
use crate::text::{lossy_string, push_all, push_range, push_str};
use crate::types::{Emit, Line, MatchInfo, Role};

verus! {

/// `a - b`, or 0 when `b` is larger.
pub open spec fn sat_sub(a: int, b: int) -> int {
    if a > b {
        a - b
    } else {
        0
    }
}

/// The smaller of `a` and `b`.
pub open spec fn min_int(a: int, b: int) -> int {
    if a < b {
        a
    } else {
        b
    }
}

/// The 1-based target column: the positional column, else one past the
/// start of the first span, else 1.
pub open spec fn target_col(mi: MatchInfo) -> int {
    match mi.col {
        Some(c) => c as int,
        None => if mi.spans@.len() > 0 {
            mi.spans@[0].start + 1
        } else {
            1
        },
    }
}

/// The 0-based target index, kept inside the line.
pub open spec fn col_index(mi: MatchInfo, len: int) -> int {
    min_int(sat_sub(target_col(mi), 1), sat_sub(len, 1))
}

/// Start of the fragment: `ctx` bytes before the target.
pub open spec fn frag_start(mi: MatchInfo, len: int, ctx: int) -> int {
    sat_sub(col_index(mi, len), ctx)
}

/// End of the fragment: `ctx` bytes after the target, within the line.
pub open spec fn frag_end(mi: MatchInfo, len: int, ctx: int) -> int {
    min_int(len, col_index(mi, len) + ctx + 1)
}

/// The fragment text `frag`, cut from its line at `start`, with the first
/// span highlighted inside it when color is on.
pub open spec fn frag_render(color: bool, frag: Seq<u8>, start: int, mi: MatchInfo) -> Seq<u8> {
    if mi.spans@.len() > 0 && color {
        let hs = min_int(sat_sub(mi.spans@[0].start as int, start), frag.len() as int);
        let he = min_int(sat_sub(mi.spans@[0].end as int, start), frag.len() as int);
        if hs < he {
            frag.subrange(0, hs) + encode_utf8(INVERSE@) + frag.subrange(hs, he) + encode_utf8(
                RESET@,
            ) + frag.subrange(he, frag.len() as int)
        } else {
            frag
        }
    } else {
        frag
    }
}

/// The fragment of the line, with the first span highlighted inside it
/// when color is on.
pub open spec fn fragment_bytes(color: bool, bytes: Seq<u8>, mi: MatchInfo, ctx: int) -> Seq<u8> {
    let start = frag_start(mi, bytes.len() as int, ctx);
    let frag = lossy_bytes(bytes.subrange(start, frag_end(mi, bytes.len() as int, ctx)));
    frag_render(color, frag, start, mi)
}

/// `k` space bytes.
pub open spec fn space_bytes(k: int) -> Seq<u8> {
    Seq::new(if k > 0 { k as nat } else { 0 }, |i: int| 32u8)
}

/// The two lines the fragment formatter writes for `line` with `mi` under
/// options `o` (already widened): prefix and fragment, then a caret under
/// the target.
pub open spec fn fragment_lines(o: FormatOpts, ctx: int, line: Line, mi: MatchInfo) -> Seq<u8> {
    let prefix = encode_utf8(prefix_chars(o, line.no));
    let len = line.bytes@.len() as int;
    prefix + fragment_bytes(o.color, line.bytes@, mi, ctx) + seq![10u8] + space_bytes(
        col_index(mi, len) - frag_start(mi, len, ctx) + prefix.len(),
    ) + encode_utf8(if o.color { GREEN@ + "^"@ + RESET@ } else { "^"@ }) + seq![10u8]
}

/// The caret sits under the target: the fragment shown is the line from
/// `ctx` bytes before the target byte to `ctx` bytes after it (cut at the
/// ends of the line), and the caret line has as many spaces as the prefix is
/// long plus the target's index within that fragment, which is `ctx`, or
/// less when the target lies fewer than `ctx` bytes from the line start.
/// The target byte is the column given (1-based), else the start of the
/// first span, else the first byte, kept within the line. With color on, the
/// part of the first span inside the fragment is put between `INVERSE` and
/// `RESET`; the fragment's text is kept whole either way.
pub proof fn law_fragment_caret_under_target(o: FormatOpts, ctx: usize, line: Line, mi: MatchInfo)
    ensures
        ({
            let len = line.bytes@.len() as int;
            let col: int = match mi.col {
                Some(k) => k as int,
                None => if mi.spans@.len() > 0 {
                    mi.spans@[0].start + 1
                } else {
                    1
                },
            };
            let c: int = if len == 0 || col <= 1 {
                0
            } else if col - 1 < len - 1 {
                col - 1
            } else {
                len - 1
            };
            let s: int = if c > ctx { c - ctx } else { 0 };
            let e: int = if c + ctx + 1 < len { c + ctx + 1 } else { len };
            let frag = lossy_bytes(line.bytes@.subrange(s, e));
            let hs: int = if mi.spans@[0].start <= s {
                0
            } else if mi.spans@[0].start - s < frag.len() {
                mi.spans@[0].start - s
            } else {
                frag.len() as int
            };
            let he: int = if mi.spans@[0].end <= s {
                0
            } else if mi.spans@[0].end - s < frag.len() {
                mi.spans@[0].end - s
            } else {
                frag.len() as int
            };
            let cuts = if o.color && mi.spans@.len() > 0 && hs < he {
                seq![(hs, he)]
            } else {
                Seq::<(int, int)>::empty()
            };
            let pre = encode_utf8(prefix_chars(o, line.no));
            let caret = encode_utf8(if o.color { GREEN@ + "^"@ + RESET@ } else { "^"@ });
            &&& 0 <= s <= c
            &&& c - s == (if c < ctx { c } else { ctx as int })
            &&& len > 0 ==> c < e <= len
            &&& e - s <= 2 * ctx + 1
            &&& well_cut(cuts, frag.len() as int)
            &&& marked(frag, cuts, false) == frag
            &&& fragment_lines(o, ctx as int, line, mi) == pre + marked(frag, cuts, true) + seq![10u8]
                + Seq::new((pre.len() + (c - s)) as nat, |i: int| 32u8) + caret + seq![10u8]
        }),
{
    let len = line.bytes@.len() as int;
    let pre = encode_utf8(prefix_chars(o, line.no));
    let k = col_index(mi, len) - frag_start(mi, len, ctx as int) + pre.len();
    assert(space_bytes(k) =~= Seq::new(k as nat, |i: int| 32u8));
    let c = col_index(mi, len);
    let s = frag_start(mi, len, ctx as int);
    let e = frag_end(mi, len, ctx as int);
    assert(c == (if len == 0 || target_col(mi) <= 1 {
        0
    } else if target_col(mi) - 1 < len - 1 {
        target_col(mi) - 1
    } else {
        len - 1
    }));
    assert(s == (if c > ctx { c - ctx } else { 0 }));
    assert(e == (if c + ctx + 1 < len { c + ctx + 1 } else { len }));
    let frag = lossy_bytes(line.bytes@.subrange(s, e));
    lemma_frag_render_marked(o.color, frag, s, mi);
    let fb = fragment_bytes(o.color, line.bytes@, mi, ctx as int);
    assert(fb == frag_render(o.color, frag, s, mi));
    let caret = encode_utf8(if o.color { GREEN@ + "^"@ + RESET@ } else { "^"@ });
    assert(fragment_lines(o, ctx as int, line, mi) == pre + fb + seq![10u8] + space_bytes(k) + caret
        + seq![10u8]);
}

/// The rendered fragment is its text with at most one piece, the part of
/// the first span inside it, between `INVERSE` and `RESET` (color on).
proof fn lemma_frag_render_marked(color: bool, frag: Seq<u8>, start: int, mi: MatchInfo)
    ensures
        ({
            let hs = min_int(sat_sub(mi.spans@[0].start as int, start), frag.len() as int);
            let he = min_int(sat_sub(mi.spans@[0].end as int, start), frag.len() as int);
            let cuts = if color && mi.spans@.len() > 0 && hs < he {
                seq![(hs, he)]
            } else {
                Seq::<(int, int)>::empty()
            };
            &&& well_cut(cuts, frag.len() as int)
            &&& marked(frag, cuts, false) == frag
            &&& frag_render(color, frag, start, mi) == marked(frag, cuts, true)
        }),
{
    let hs = min_int(sat_sub(mi.spans@[0].start as int, start), frag.len() as int);
    let he = min_int(sat_sub(mi.spans@[0].end as int, start), frag.len() as int);
    if color && mi.spans@.len() > 0 && hs < he {
        let cuts = seq![(hs, he)];
        assert(cuts.drop_last() =~= Seq::<(int, int)>::empty());
        assert(well_cut(cuts, frag.len() as int));
        law_unmarked_is_text(frag, cuts);
        assert(marked_upto(frag, Seq::<(int, int)>::empty(), true) == Seq::<u8>::empty());
        assert(cut_end(Seq::<(int, int)>::empty()) == 0);
        assert(cuts.last() == (hs, he));
        assert(marked_upto(frag, cuts, true) == Seq::<u8>::empty() + frag.subrange(0, hs)
            + encode_utf8(INVERSE@) + frag.subrange(hs, he) + encode_utf8(RESET@));
        assert(marked(frag, cuts, true) =~= frag.subrange(0, hs) + encode_utf8(INVERSE@)
            + frag.subrange(hs, he) + encode_utf8(RESET@) + frag.subrange(he, frag.len() as int));
    } else {
        let cuts = Seq::<(int, int)>::empty();
        law_unmarked_is_text(frag, cuts);
        assert(marked(frag, cuts, true) =~= frag);
    }
}

pub struct FragmentFormatter {
    pub opts: FormatOpts,
    pub char_context: usize,
}

/// Appends `k` space bytes.
fn push_space_bytes(v: &mut Vec<u8>, k: usize)
    ensures
        final(v)@ == old(v)@ + space_bytes(k as int),
{
    let ghost start = v@;
    let mut i: usize = 0;
    while i < k
        invariant
            i <= k,
            v@ == start + space_bytes(i as int),
        decreases k - i,
    {
        v.push(32u8);
        assert(space_bytes(i as int + 1) =~= space_bytes(i as int).push(32u8));
        i = i + 1;
    }
}

impl FragmentFormatter {
    pub fn new(opts: FormatOpts, char_context: usize) -> (r: Self)
        ensures
            r.opts == opts,
            r.char_context == char_context,
    {
        FragmentFormatter { opts, char_context }
    }
}

/// Target index, fragment start and fragment end for a line of `len` bytes.
fn locate(mi: &MatchInfo, len: usize, ctx: usize) -> (r: (usize, usize, usize))
    ensures
        r.0 == col_index(*mi, len as int),
        r.1 == frag_start(*mi, len as int, ctx as int),
        r.2 == frag_end(*mi, len as int, ctx as int),
        r.1 <= r.0,
        r.1 <= r.2 <= len,
{
    // Target column (0-based): from position matcher (`col`), else start of
    // first regex span.
    let a: usize = match mi.col {
        Some(c) => if c > 0 {
            c - 1
        } else {
            0
        },
        None => if mi.spans.len() > 0 {
            mi.spans[0].start
        } else {
            0
        },
    };
    let b = if len > 0 {
        len - 1
    } else {
        0
    };
    let col_idx = if a < b {
        a
    } else {
        b
    };
    let start = if col_idx > ctx {
        col_idx - ctx
    } else {
        0
    };
    // min(len, col_idx + ctx + 1), computed without overflow.
    let end = if len == 0 || ctx >= len - col_idx {
        len
    } else {
        col_idx + ctx + 1
    };
    (col_idx, start, end)
}

/// Appends the fragment `bytes[start..end]`, with the first span
/// highlighted inside it when `color` is on.
fn push_fragment(sink: &mut Vec<u8>, color: bool, bytes: &[u8], mi: &MatchInfo, start: usize, end: usize)
    requires
        start <= end <= bytes@.len(),
    ensures
        final(sink)@ == old(sink)@ + frag_render(color, lossy_bytes(bytes@.subrange(start as int, end as int)), start as int, *mi),
{
    let frag_text = lossy_string(vstd::slice::slice_subrange(bytes, start, end));
    let frag = frag_text.as_str().as_bytes();
    let flen = frag.len();
    if mi.spans.len() > 0 && color {
        let s0 = mi.spans[0].start;
        let e0 = mi.spans[0].end;
        let hs0 = if s0 > start {
            s0 - start
        } else {
            0
        };
        let hs = if hs0 < flen {
            hs0
        } else {
            flen
        };
        let he0 = if e0 > start {
            e0 - start
        } else {
            0
        };
        let he = if he0 < flen {
            he0
        } else {
            flen
        };
        if hs < he {
            push_range(sink, frag, 0, hs);
            push_str(sink, INVERSE);
            push_range(sink, frag, hs, he);
            push_str(sink, RESET);
            push_range(sink, frag, he, flen);
            return ;
        }
    }
    push_range(sink, frag, 0, flen);
    assert(frag@.subrange(0, flen as int) =~= frag@);
}

/// Appends the two fragment lines of `line` with `mi` under `opts`.
#[verifier::rlimit(60)]
fn push_fragment_lines(sink: &mut Vec<u8>, opts: &FormatOpts, ctx: usize, line: &Line, mi: &MatchInfo)
    ensures
        final(sink)@ == old(sink)@ + fragment_lines(*opts, ctx as int, *line, *mi),
{
    let bytes = line.bytes.as_slice();
    let (col_idx, start, end) = locate(mi, bytes.len(), ctx);
    let prefix = opts.prefix(line.no);
    let ghost s0 = sink@;
    let pb = prefix.as_str().as_bytes();
    push_all(sink, pb);
    let ghost s1 = sink@;
    push_fragment(sink, opts.color, bytes, mi, start, end);
    sink.push(10u8);
    let ghost s2 = sink@;
    // Caret line, aligned under the target column within the fragment.
    push_space_bytes(sink, col_idx - start);
    let plen = pb.len();
    push_space_bytes(sink, plen);
    let ghost s3 = sink@;
    assert(space_bytes((col_idx - start) as int) + space_bytes(plen as int) =~= space_bytes(
        col_idx - start + plen,
    ));
    let caret = paint(opts.color, GREEN, "^");
    push_str(sink, caret.as_str());
    sink.push(10u8);
    proof {
        let pre = encode_utf8(prefix_chars(*opts, line.no));
        let len = line.bytes@.len() as int;
        let fb = fragment_bytes(opts.color, line.bytes@, *mi, ctx as int);
        let sp = space_bytes(col_index(*mi, len) - frag_start(*mi, len, ctx as int) + pre.len());
        let ca = encode_utf8(caret@);
        assert(s1 == s0 + pre);
        assert(s2 == s0 + pre + fb + seq![10u8]);
        assert(s3 == s0 + pre + fb + seq![10u8] + sp);
        assert(sink@ == s0 + pre + fb + seq![10u8] + sp + ca + seq![10u8]);
        assert(fragment_lines(*opts, ctx as int, *line, *mi) == pre + fb + seq![10u8] + sp + ca
            + seq![10u8]);
        assert(sink@ =~= s0 + fragment_lines(*opts, ctx as int, *line, *mi));
    }
}

impl Formatter for FragmentFormatter {
    /// Writing into a byte buffer cannot fail.
    open spec fn infallible() -> bool {
        true
    }

    /// Never reported: writing cannot fail.
    open spec fn write_error(&self, line: Line, role: Role, info: MatchInfo) -> std::io::Error {
        vstd::pervasive::arbitrary()
    }

    /// The two fragment lines, under the options after the number field has
    /// grown to fit the line.
    open spec fn written(&self, line: Line, role: Role, info: MatchInfo) -> (Self, Seq<u8>) {
        let opts = widened(self.opts, line.no);
        (
            FragmentFormatter { opts, char_context: self.char_context },
            fragment_lines(opts, self.char_context as int, line, info),
        )
    }

    fn write(&mut self, sink: &mut Vec<u8>, emit: &Emit) -> (r: Result<(), std::io::Error>)
        ensures
            r is Ok,
            final(self).opts == widened(old(self).opts, emit.line.no),
            final(self).char_context == old(self).char_context,
            final(sink)@ == old(sink)@ + fragment_lines(
                final(self).opts,
                old(self).char_context as int,
                *emit.line,
                *emit.match_info,
            ),
    {
        self.opts.widen_for_line(emit.line.no);
        let ghost s0 = sink@;
        push_fragment_lines(sink, &self.opts, self.char_context, emit.line, emit.match_info);
        assert(sink@.subrange(0, s0.len() as int) =~= s0);
        assert(sink@.subrange(s0.len() as int, sink@.len() as int) =~= fragment_lines(
            self.opts,
            self.char_context as int,
            *emit.line,
            *emit.match_info,
        ));
        Ok(())
    }
}

} // verus!
