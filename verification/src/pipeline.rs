//! The per-line driver: match, expand, format.
//!
//! Reading the input and writing the output are left to the caller, which
//! feeds each line in and writes out the bytes that come back.

use vstd::prelude::*;

use crate::context::{emit_of, EmitOwned, Expander, NoContext};
use crate::matcher::lines::{law_line_matcher_hits_selected, wide};
use crate::matcher::LineMatcher;
use crate::selector::{selects, spec_normalize_lines, LineSpec};
use crate::types::{MatchInfo, Role};
use crate::error::SelError;
use crate::format::Formatter;
use crate::matcher::Matcher;
use crate::types::Line;

verus! {

/// Writing `emits` one after the other from formatter state `f`: the
/// state afterwards and all the bytes written.
pub open spec fn formats<F: Formatter>(f: F, emits: Seq<EmitOwned>) -> (F, Seq<u8>)
    decreases emits.len(),
{
    if emits.len() == 0 {
        (f, Seq::empty())
    } else {
        let (h, o1) = formats(f, emits.drop_last());
        let e = emits.last();
        let (g, o2) = h.written(e.line, e.role, e.match_info);
        (g, o1 + o2)
    }
}

/// The error of writing the `k`-th emit, from the formatter state that
/// writing the ones before it leaves.
pub open spec fn failed_at<F: Formatter>(f: F, emits: Seq<EmitOwned>, k: int) -> std::io::Error {
    let e = emits[k];
    formats(f, emits.take(k)).0.write_error(e.line, e.role, e.match_info)
}

/// `now` is `before` with more bytes appended: those bytes.
pub open spec fn appended(before: Seq<u8>, now: Seq<u8>) -> Seq<u8> {
    now.subrange(before.len() as int, now.len() as int)
}

/// `now` starts with `before`.
pub open spec fn extends(before: Seq<u8>, now: Seq<u8>) -> bool {
    before.len() <= now.len() && now.subrange(0, before.len() as int) == before
}

/// The error for a failed write to the output.
fn sink_error(source: std::io::Error) -> (r: SelError)
    ensures
        r matches SelError::Io { path, source: s } && path@ == "<sink>"@ && s == source,
{
    SelError::Io { path: String::from_str("<sink>"), source }
}

/// Writes every emit in order through `formatter`; stops at the first
/// write error and returns it. A formatter that never fails writes them all.
fn write_all<F: Formatter>(formatter: &mut F, emits: &Vec<EmitOwned>, sink: &mut Vec<u8>) -> (r: Result<(), std::io::Error>)
    ensures
        r matches Err(e) ==> exists|k: int|
            0 <= k < emits@.len() && e == #[trigger] failed_at(*old(formatter), emits@, k),
        F::infallible() ==> r is Ok,
        r is Ok ==> extends(old(sink)@, final(sink)@) && (*final(formatter), appended(
            old(sink)@,
            final(sink)@,
        )) == formats(*old(formatter), emits@),
{
    let ghost f0 = *formatter;
    let ghost s0 = sink@;
    let mut i: usize = 0;
    assert(emits@.take(0) =~= Seq::<EmitOwned>::empty());
    assert(appended(s0, sink@) =~= Seq::<u8>::empty());
    assert(sink@.subrange(0, s0.len() as int) =~= s0);
    while i < emits.len()
        invariant
            i <= emits@.len(),
            f0 == *old(formatter),
            extends(s0, sink@),
            (*formatter, appended(s0, sink@)) == formats(f0, emits@.take(i as int)),
        decreases emits@.len() - i,
    {
        let ghost h = *formatter;
        let ghost o1 = appended(s0, sink@);
        let ghost s1 = sink@;
        let e = emits[i].borrow();
        match formatter.write(sink, &e) {
            Ok(()) => {},
            Err(err) => {
                assert(err == failed_at(f0, emits@, i as int));
                return Err(err);
            },
        }
        proof {
            let o2 = appended(s1, sink@);
            let t = emits@.take(i + 1);
            assert(t.drop_last() =~= emits@.take(i as int));
            assert(t.last() == emits@[i as int]);
            assert(appended(s0, sink@) =~= o1 + o2);
            assert(sink@.subrange(0, s0.len() as int) =~= s0);
        }
        i = i + 1;
    }
    assert(emits@.take(emits@.len() as int) =~= emits@);
    Ok(())
}

/// A matcher, an expander and a formatter, run line by line.
pub struct Pipeline<M, E, F> {
    pub matcher: M,
    pub expander: E,
    pub formatter: F,
}

impl<M: Matcher, E: Expander, F: Formatter> Pipeline<M, E, F> {
    pub fn new(matcher: M, expander: E, formatter: F) -> (r: Self)
        ensures
            r.matcher == matcher,
            r.expander == expander,
            r.formatter == formatter,
    {
        Pipeline { matcher, expander, formatter }
    }

    /// Feed the next input line: the matcher judges it, the expander
    /// decides what to emit, and the formatter appends each emit to `sink`.
    /// A failed write stops the line and is an I/O error on `<sink>`.
    pub fn feed(&mut self, line: Line, sink: &mut Vec<u8>) -> (r: Result<(), SelError>)
        ensures
            r is Ok ==> extends(old(sink)@, final(sink)@) && exists|info: crate::types::MatchInfo, emits: Seq<EmitOwned>|
                #![trigger old(self).expander.pushed(line, info, final(self).expander, emits)]
                {
                    &&& old(self).matcher.matched(line, final(self).matcher, info)
                    &&& old(self).expander.pushed(line, info, final(self).expander, emits)
                    &&& (final(self).formatter, appended(old(sink)@, final(sink)@)) == formats(old(self).formatter, emits)
                },
            F::infallible() ==> r is Ok,
            r matches Err(e) ==> e matches SelError::Io { path, source } && path@ == "<sink>"@
                && exists|info: crate::types::MatchInfo, emits: Seq<EmitOwned>, k: int|
                #![trigger old(self).expander.pushed(line, info, final(self).expander, emits), failed_at(old(self).formatter, emits, k)]
                {
                    &&& old(self).matcher.matched(line, final(self).matcher, info)
                    &&& old(self).expander.pushed(line, info, final(self).expander, emits)
                    &&& 0 <= k < emits.len()
                    &&& source == failed_at(old(self).formatter, emits, k)
                },
    {
        let info = self.matcher.match_line(&line);
        let ghost g_info = info;
        let emits = self.expander.push(line, info);
        match write_all(&mut self.formatter, &emits, sink) {
            Ok(()) => {
                assert(old(self).expander.pushed(line, g_info, self.expander, emits@));
                Ok(())
            },
            Err(err) => {
                assert(old(self).expander.pushed(line, g_info, self.expander, emits@));
                Err(sink_error(err))
            },
        }
    }

    /// At the end of the input: the expander flushes what it still holds,
    /// and the formatter appends each emit to `sink`.
    pub fn finish(&mut self, sink: &mut Vec<u8>) -> (r: Result<(), SelError>)
        ensures
            final(self).matcher == old(self).matcher,
            r is Ok ==> extends(old(sink)@, final(sink)@) && exists|emits: Seq<EmitOwned>|
                #![trigger old(self).expander.drained(final(self).expander, emits)]
                {
                    &&& old(self).expander.drained(final(self).expander, emits)
                    &&& (final(self).formatter, appended(old(sink)@, final(sink)@)) == formats(old(self).formatter, emits)
                },
            F::infallible() ==> r is Ok,
            r matches Err(e) ==> e matches SelError::Io { path, source } && path@ == "<sink>"@
                && exists|emits: Seq<EmitOwned>, k: int|
                #![trigger old(self).expander.drained(final(self).expander, emits), failed_at(old(self).formatter, emits, k)]
                {
                    &&& old(self).expander.drained(final(self).expander, emits)
                    &&& 0 <= k < emits.len()
                    &&& source == failed_at(old(self).formatter, emits, k)
                },
    {
        let emits = self.expander.drain();
        match write_all(&mut self.formatter, &emits, sink) {
            Ok(()) => {
                assert(old(self).expander.drained(self.expander, emits@));
                Ok(())
            },
            Err(err) => {
                assert(old(self).expander.drained(self.expander, emits@));
                Err(sink_error(err))
            },
        }
    }
}

/// With a line matcher built from line specs and no context, a line is
/// emitted, as a target, exactly when the specs select its number.
pub proof fn law_selected_lines_are_emitted(
    m: LineMatcher,
    specs: Seq<LineSpec>,
    line: Line,
    next: LineMatcher,
    info: MatchInfo,
    out: Seq<EmitOwned>,
)
    requires
        m.spec_ranges() == spec_normalize_lines(specs).map_values(|l: LineSpec| wide(l)),
        m.matched(line, next, info),
        NoContext.pushed(line, info, NoContext, out),
    ensures
        out == (if selects(specs, line.no as int) {
            seq![emit_of(line, info, Role::Target)]
        } else {
            Seq::<EmitOwned>::empty()
        }),
{
    law_line_matcher_hits_selected(m, specs, line.no);
}

} // verus!
