//! Context expander — turns hits into an emit plan, optionally including neighbors.

use std::collections::VecDeque;
use vstd::prelude::*;

use crate::types::{Emit, Line, MatchInfo, Role};

verus! {

/// Owned form of `Emit` — the expander hands these to the caller.
#[derive(Debug, Clone)]
pub struct EmitOwned {
    pub line: Line,
    pub role: Role,
    pub match_info: MatchInfo,
}

impl EmitOwned {
    /// A borrowed view of this emit.
    pub fn borrow(&self) -> (r: Emit<'_>)
        ensures
            *r.line == self.line,
            r.role == self.role,
            *r.match_info == self.match_info,
    {
        Emit { line: &self.line, role: self.role, match_info: &self.match_info }
    }
}

/// An expander consumes `(Line, MatchInfo)` pairs and produces owned emits,
/// in output order.
///
/// The expander owns the line and match info until it emits them, because
/// it may need to buffer lines as context.
pub trait Expander: Sized {
    /// Fed `line` and `info` in state `self`, the expander emits `out` and
    /// moves to state `next`.
    spec fn pushed(&self, line: Line, info: MatchInfo, next: Self, out: Seq<EmitOwned>) -> bool;

    /// At EOF in state `self`, the expander emits `out` and moves to `next`.
    spec fn drained(&self, next: Self, out: Seq<EmitOwned>) -> bool;

    /// Feed the next line/match pair; returns what is to be emitted now.
    /// Call `drain()` after EOF to flush remaining context.
    fn push(&mut self, line: Line, info: MatchInfo) -> (r: Vec<EmitOwned>)
        ensures
            old(self).pushed(line, info, *final(self), r@),
    ;

    /// Called once at EOF to flush any buffered trailing context.
    fn drain(&mut self) -> (r: Vec<EmitOwned>)
        ensures
            old(self).drained(*final(self), r@),
    ;
}

/// The emit of `line` in `role`.
pub open spec fn emit_of(line: Line, info: MatchInfo, role: Role) -> EmitOwned {
    EmitOwned { line, role, match_info: info }
}

/// Emits only hits, nothing else.
pub struct NoContext;

impl Expander for NoContext {
    /// A hit is emitted as a target; nothing else is.
    open spec fn pushed(&self, line: Line, info: MatchInfo, next: Self, out: Seq<EmitOwned>) -> bool {
        out == (if info.hit {
            seq![emit_of(line, info, Role::Target)]
        } else {
            Seq::<EmitOwned>::empty()
        })
    }

    /// Nothing is left at EOF.
    open spec fn drained(&self, next: Self, out: Seq<EmitOwned>) -> bool {
        out.len() == 0
    }

    fn push(&mut self, line: Line, info: MatchInfo) -> (r: Vec<EmitOwned>) {
        let mut out: Vec<EmitOwned> = Vec::new();
        if info.hit {
            out.push(EmitOwned { line, role: Role::Target, match_info: info });
        }
        out
    }

    fn drain(&mut self) -> (r: Vec<EmitOwned>) {
        Vec::new()
    }
}

/// Emits the candidates in order, skipping each whose line number is not
/// above the highest one emitted so far (starting from `last`).  Gives the
/// new highest line number and what was emitted.
pub open spec fn emit_all(last: u64, c: Seq<EmitOwned>) -> (u64, Seq<EmitOwned>)
    decreases c.len(),
{
    if c.len() == 0 {
        (last, Seq::empty())
    } else {
        let (l, o) = emit_all(last, c.drop_last());
        let e = c.last();
        if e.line.no <= l {
            (l, o)
        } else {
            (e.line.no, o.push(e))
        }
    }
}

/// Buffered `(line, info)` pairs as context emits.
pub open spec fn as_context(b: Seq<(Line, MatchInfo)>) -> Seq<EmitOwned> {
    b.map_values(|p: (Line, MatchInfo)| emit_of(p.0, p.1, Role::Context))
}

/// The abstract state of a `LineContext`.
pub struct ContextState {
    /// Context width.
    pub n: nat,
    /// The last (at most `n`) lines not emitted, oldest first.
    pub before: Seq<(Line, MatchInfo)>,
    /// Lines still to emit as trailing context of the last hit.
    pub trailing: nat,
    /// Highest line number emitted so far (0: none).
    pub last: u64,
}

/// The state of a fresh `LineContext::new(n)`.
pub open spec fn fresh_state(n: nat) -> ContextState {
    ContextState { n, before: Seq::empty(), trailing: 0, last: 0 }
}

/// One step of `LineContext::push`: the next state and what is emitted.
pub open spec fn push_step(s: ContextState, line: Line, info: MatchInfo) -> (ContextState, Seq<EmitOwned>) {
    if info.hit {
        let (l, o) = emit_all(s.last, as_context(s.before).push(emit_of(line, info, Role::Target)));
        (ContextState { n: s.n, before: Seq::empty(), trailing: s.n, last: l }, o)
    } else if s.trailing > 0 {
        let (l, o) = emit_all(s.last, seq![emit_of(line, info, Role::Context)]);
        (ContextState { n: s.n, before: s.before, trailing: (s.trailing - 1) as nat, last: l }, o)
    } else if s.n == 0 {
        (s, Seq::empty())
    } else {
        let kept = if s.before.len() >= s.n { s.before.drop_first() } else { s.before };
        (ContextState { n: s.n, before: kept.push((line, info)), trailing: 0, last: s.last }, Seq::empty())
    }
}

/// Feeding `inputs` one by one from state `s`: the final state and all
/// that was emitted, in order.
pub open spec fn run(s: ContextState, inputs: Seq<(Line, MatchInfo)>) -> (ContextState, Seq<EmitOwned>)
    decreases inputs.len(),
{
    if inputs.len() == 0 {
        (s, Seq::empty())
    } else {
        let (s1, o1) = run(s, inputs.drop_last());
        let (s2, o2) = push_step(s1, inputs.last().0, inputs.last().1);
        (s2, o1 + o2)
    }
}

/// Emits each hit plus `n` lines before and after, merging overlapping windows.
pub struct LineContext {
    n: usize,
    /// Ring buffer of the last `n` lines (oldest at front).
    before: VecDeque<(Line, MatchInfo)>,
    /// Lines remaining to emit as trailing context for a recent hit.
    trailing: usize,
    /// Highest line number already emitted (avoids duplicates on overlap).
    last_emitted: u64,
}

impl View for LineContext {
    type V = ContextState;

    closed spec fn view(&self) -> ContextState {
        ContextState {
            n: self.n as nat,
            before: self.before@,
            trailing: self.trailing as nat,
            last: self.last_emitted,
        }
    }
}

/// Appends `e` to `out` unless its line number is not above `*last`.
fn emit_into(last: &mut u64, out: &mut Vec<EmitOwned>, e: EmitOwned)
    ensures
        (*final(last), final(out)@) == (if e.line.no <= *old(last) {
            (*old(last), old(out)@)
        } else {
            (e.line.no, old(out)@.push(e))
        }),
{
    if e.line.no <= *last {
        return ;
    }
    *last = e.line.no;
    out.push(e);
}

proof fn lemma_emit_all_push(last: u64, c: Seq<EmitOwned>, e: EmitOwned)
    ensures
        emit_all(last, c.push(e)) == (if e.line.no <= emit_all(last, c).0 {
            emit_all(last, c)
        } else {
            (e.line.no, emit_all(last, c).1.push(e))
        }),
{
    assert(c.push(e).drop_last() =~= c);
}

impl LineContext {
    /// The buffer never holds more than `n` lines.
    #[verifier::type_invariant]
    spec fn buffer_bounded(self) -> bool {
        self.before@.len() <= self.n
    }

    /// A context expander of width `n`, with nothing seen yet.
    pub fn new(n: usize) -> (r: Self)
        ensures
            r@ == fresh_state(n as nat),
    {
        LineContext { n, before: VecDeque::with_capacity(n), trailing: 0, last_emitted: 0 }
    }
}

impl Expander for LineContext {
    /// One step of `push_step`.
    open spec fn pushed(&self, line: Line, info: MatchInfo, next: Self, out: Seq<EmitOwned>) -> bool {
        (next@, out) == push_step(self@, line, info)
    }

    /// Nothing is emitted at EOF and the state stays.
    open spec fn drained(&self, next: Self, out: Seq<EmitOwned>) -> bool {
        out.len() == 0 && next@ == self@
    }

    fn push(&mut self, line: Line, info: MatchInfo) -> (r: Vec<EmitOwned>) {
        proof {
            use_type_invariant(&*self);
        }
        let mut out: Vec<EmitOwned> = Vec::new();
        if info.hit {
            let ghost s0 = self@;
            let ghost ctx = as_context(s0.before);
            let mut last = self.last_emitted;
            let mut buffered: VecDeque<(Line, MatchInfo)> = VecDeque::new();
            std::mem::swap(&mut buffered, &mut self.before);
            let ghost k0 = buffered@.len();
            while buffered.len() > 0
                invariant
                    k0 == s0.before.len(),
                    buffered@.len() <= k0,
                    buffered@ == s0.before.skip(k0 - buffered@.len()),
                    ctx == as_context(s0.before),
                    (last, out@) == emit_all(s0.last, ctx.take(k0 - buffered@.len())),
                decreases buffered@.len(),
            {
                let ghost k = k0 - buffered@.len();
                let (bl, bi) = buffered.pop_front().unwrap();
                proof {
                    assert(ctx.take(k + 1) =~= ctx.take(k).push(emit_of(bl, bi, Role::Context)));
                    lemma_emit_all_push(s0.last, ctx.take(k), emit_of(bl, bi, Role::Context));
                    assert(buffered@ =~= s0.before.skip(k0 - buffered@.len()));
                }
                emit_into(&mut last, &mut out, EmitOwned { line: bl, role: Role::Context, match_info: bi });
            }
            proof {
                assert(ctx.take(k0 as int) =~= ctx);
                lemma_emit_all_push(s0.last, ctx, emit_of(line, info, Role::Target));
            }
            emit_into(&mut last, &mut out, EmitOwned { line, role: Role::Target, match_info: info });
            self.last_emitted = last;
            self.trailing = self.n;
        } else if self.trailing > 0 {
            self.trailing = self.trailing - 1;
            let mut last = self.last_emitted;
            proof {
                lemma_emit_all_push(last, Seq::empty(), emit_of(line, info, Role::Context));
                assert(Seq::<EmitOwned>::empty().push(emit_of(line, info, Role::Context))
                    =~= seq![emit_of(line, info, Role::Context)]);
            }
            emit_into(&mut last, &mut out, EmitOwned { line, role: Role::Context, match_info: info });
            self.last_emitted = last;
        } else {
            // Record as potential "before" context.
            if self.n > 0 {
                let mut buf: VecDeque<(Line, MatchInfo)> = VecDeque::new();
                std::mem::swap(&mut buf, &mut self.before);
                if buf.len() >= self.n {
                    buf.pop_front();
                }
                buf.push_back((line, info));
                self.before = buf;
            }
        }
        out
    }

    fn drain(&mut self) -> (r: Vec<EmitOwned>) {
        // Trailing lines were already emitted as they came. "Before" buffer is just dropped.
        Vec::new()
    }
}


/// The emit that a line of `inputs` gets: a hit as target, any other line
/// as context.
pub open spec fn em(inputs: Seq<(Line, MatchInfo)>, i: int) -> EmitOwned {
    emit_of(inputs[i].0, inputs[i].1, if inputs[i].1.hit { Role::Target } else { Role::Context })
}

/// Line `i` of `inputs` lies within `n` lines of some hit.
pub open spec fn in_window(inputs: Seq<(Line, MatchInfo)>, n: nat, i: int) -> bool {
    exists|j: int| 0 <= j < inputs.len() && #[trigger] inputs[j].1.hit && i - n <= j <= i + n
}

/// The emits of the first `k` lines of `inputs` that lie in a window, in order.
pub open spec fn picks(inputs: Seq<(Line, MatchInfo)>, n: nat, k: int) -> Seq<EmitOwned>
    decreases k,
{
    if k <= 0 {
        Seq::empty()
    } else {
        picks(inputs, n, k - 1) + (if in_window(inputs, n, k - 1) {
            seq![em(inputs, k - 1)]
        } else {
            Seq::empty()
        })
    }
}

/// Every line within `n` lines of a hit, in input order: hits as targets,
/// the others as context.
pub open spec fn window_emits(inputs: Seq<(Line, MatchInfo)>, n: nat) -> Seq<EmitOwned> {
    picks(inputs, n, inputs.len() as int)
}

/// Line numbers strictly increase along `inputs`, starting above 0.
pub open spec fn numbered_in_order(inputs: Seq<(Line, MatchInfo)>) -> bool {
    &&& forall|i: int, j: int|
        0 <= i < j < inputs.len() ==> #[trigger] inputs[i].0.no < #[trigger] inputs[j].0.no
    &&& forall|i: int| 0 <= i < inputs.len() ==> #[trigger] inputs[i].0.no > 0
}

/// Line numbers strictly increase along `out`.
pub open spec fn increasing_numbers(out: Seq<EmitOwned>) -> bool {
    forall|i: int, j: int|
        0 <= i < j < out.len() ==> #[trigger] out[i].line.no < #[trigger] out[j].line.no
}

/// Index of the last hit among the first `m` lines, or -1.
spec fn last_hit(inputs: Seq<(Line, MatchInfo)>, m: int) -> int
    decreases m,
{
    if m <= 0 {
        -1
    } else if inputs[m - 1].1.hit {
        m - 1
    } else {
        last_hit(inputs, m - 1)
    }
}

proof fn lemma_last_hit(inputs: Seq<(Line, MatchInfo)>, m: int)
    requires
        0 <= m <= inputs.len(),
    ensures
        -1 <= last_hit(inputs, m) < m,
        last_hit(inputs, m) >= 0 ==> inputs[last_hit(inputs, m)].1.hit,
        forall|j: int| last_hit(inputs, m) < j < m ==> !(#[trigger] inputs[j].1.hit),
    decreases m,
{
    if m > 0 {
        lemma_last_hit(inputs, m - 1);
    }
}

/// Start of the buffered lines after the first `m` lines have been fed.
spec fn buffer_start(inputs: Seq<(Line, MatchInfo)>, n: nat, m: int) -> int {
    let h = last_hit(inputs, m);
    let e = if h < 0 { 0 } else if m < h + n + 1 { m } else { h + n + 1 };
    if m - n > e { m - n } else { e }
}

/// What holds after the first `m` lines of `inputs` have been fed to a fresh
/// expander of width `n`.
spec fn run_inv(inputs: Seq<(Line, MatchInfo)>, n: nat, m: int, s: ContextState, o: Seq<EmitOwned>) -> bool {
    let h = last_hit(inputs, m);
    let b = buffer_start(inputs, n, m);
    &&& s.n == n
    &&& o == picks(inputs.take(m), n, m)
    &&& s.trailing == (if h >= 0 && h + n + 1 - m > 0 { h + n + 1 - m } else { 0 })
    &&& s.before == inputs.subrange(b, m)
    &&& forall|i: int| b <= i < inputs.len() ==> s.last < #[trigger] inputs[i].0.no
}

proof fn lemma_picks_agree(a: Seq<(Line, MatchInfo)>, b: Seq<(Line, MatchInfo)>, n: nat, k: int)
    requires
        0 <= k <= a.len(),
        k <= b.len(),
        forall|i: int| 0 <= i < k ==> in_window(a, n, i) == in_window(b, n, i),
        forall|i: int| 0 <= i < k ==> a[i] == b[i],
    ensures
        picks(a, n, k) == picks(b, n, k),
    decreases k,
{
    if k > 0 {
        lemma_picks_agree(a, b, n, k - 1);
        assert(a[k - 1] == b[k - 1]);
    }
}

proof fn lemma_picks_none(a: Seq<(Line, MatchInfo)>, n: nat, lo: int, k: int)
    requires
        0 <= lo <= k <= a.len(),
        forall|i: int| lo <= i < k ==> !in_window(a, n, i),
    ensures
        picks(a, n, k) == picks(a, n, lo),
    decreases k - lo,
{
    if k > lo {
        lemma_picks_none(a, n, lo, k - 1);
        assert(!in_window(a, n, k - 1));
        assert(picks(a, n, k) =~= picks(a, n, k - 1));
    }
}

proof fn lemma_picks_all(a: Seq<(Line, MatchInfo)>, n: nat, lo: int, k: int)
    requires
        0 <= lo <= k <= a.len(),
        forall|i: int| lo <= i < k ==> in_window(a, n, i),
    ensures
        picks(a, n, k) == picks(a, n, lo) + Seq::new((k - lo) as nat, |t: int| em(a, lo + t)),
    decreases k - lo,
{
    if k > lo {
        lemma_picks_all(a, n, lo, k - 1);
        assert(in_window(a, n, k - 1));
        assert(picks(a, n, lo) + Seq::new((k - lo) as nat, |t: int| em(a, lo + t)) =~= picks(
            a,
            n,
            lo,
        ) + Seq::new((k - 1 - lo) as nat, |t: int| em(a, lo + t)) + seq![em(a, k - 1)]);
    } else {
        assert(Seq::new((k - lo) as nat, |t: int| em(a, lo + t)) =~= Seq::<EmitOwned>::empty());
        assert(picks(a, n, lo) + Seq::<EmitOwned>::empty() =~= picks(a, n, lo));
    }
}

proof fn lemma_emit_all_fresh(last: u64, c: Seq<EmitOwned>)
    requires
        forall|t: int| 0 <= t < c.len() ==> last < #[trigger] c[t].line.no,
        increasing_numbers(c),
    ensures
        emit_all(last, c) == (if c.len() == 0 { last } else { c.last().line.no }, c),
    decreases c.len(),
{
    if c.len() > 0 {
        let d = c.drop_last();
        assert forall|i: int, j: int| 0 <= i < j < d.len() implies #[trigger] d[i].line.no
            < #[trigger] d[j].line.no by {
            assert(d[i] == c[i] && d[j] == c[j]);
        }
        assert forall|t: int| 0 <= t < d.len() implies last < #[trigger] d[t].line.no by {
            assert(d[t] == c[t]);
        }
        lemma_emit_all_fresh(last, d);
        if d.len() > 0 {
            assert(d.last() == c[c.len() - 2]);
        }
        assert(d.push(c.last()) =~= c);
    }
}

proof fn lemma_emit_all_increasing(last: u64, c: Seq<EmitOwned>)
    ensures
        emit_all(last, c).0 >= last,
        increasing_numbers(emit_all(last, c).1),
        forall|t: int|
            0 <= t < emit_all(last, c).1.len() ==> last < #[trigger] emit_all(last, c).1[t].line.no
                <= emit_all(last, c).0,
    decreases c.len(),
{
    if c.len() > 0 {
        lemma_emit_all_increasing(last, c.drop_last());
    }
}

proof fn lemma_run_increasing(s: ContextState, inputs: Seq<(Line, MatchInfo)>)
    ensures
        run(s, inputs).0.last >= s.last,
        increasing_numbers(run(s, inputs).1),
        forall|t: int|
            0 <= t < run(s, inputs).1.len() ==> s.last < #[trigger] run(s, inputs).1[t].line.no
                <= run(s, inputs).0.last,
    decreases inputs.len(),
{
    if inputs.len() > 0 {
        let (s1, o1) = run(s, inputs.drop_last());
        lemma_run_increasing(s, inputs.drop_last());
        let line = inputs.last().0;
        let info = inputs.last().1;
        let (s2, o2) = push_step(s1, line, info);
        if info.hit {
            lemma_emit_all_increasing(
                s1.last,
                as_context(s1.before).push(emit_of(line, info, Role::Target)),
            );
        } else if s1.trailing > 0 {
            lemma_emit_all_increasing(s1.last, seq![emit_of(line, info, Role::Context)]);
        }
        let o = o1 + o2;
        assert forall|i: int, j: int| 0 <= i < j < o.len() implies #[trigger] o[i].line.no
            < #[trigger] o[j].line.no by {
            if j < o1.len() {
            } else if i >= o1.len() {
                assert(o[i] == o2[i - o1.len()] && o[j] == o2[j - o1.len()]);
            } else {
                assert(o[i] == o1[i] && o[j] == o2[j - o1.len()]);
            }
        }
        assert forall|t: int| 0 <= t < o.len() implies s.last < #[trigger] o[t].line.no
            <= s2.last by {
            if t < o1.len() {
                assert(o[t] == o1[t]);
            } else {
                assert(o[t] == o2[t - o1.len()]);
            }
        }
    }
}

/// Whatever comes in, the lines a `LineContext` emits carry strictly
/// increasing line numbers, all above the highest one emitted before: no
/// line is emitted twice, even where the windows of two hits overlap.
pub proof fn law_context_never_repeats(s: ContextState, inputs: Seq<(Line, MatchInfo)>)
    ensures
        increasing_numbers(run(s, inputs).1),
        forall|t: int| 0 <= t < run(s, inputs).1.len() ==> s.last < #[trigger] run(s, inputs).1[t].line.no,
{
    lemma_run_increasing(s, inputs);
}


#[verifier::rlimit(60)]
#[verifier::spinoff_prover]
proof fn lemma_run_inv(inputs: Seq<(Line, MatchInfo)>, n: nat, m: int)
    requires
        0 <= m <= inputs.len(),
        numbered_in_order(inputs),
    ensures
        run_inv(inputs, n, m, run(fresh_state(n), inputs.take(m)).0, run(fresh_state(n), inputs.take(m)).1),
    decreases m,
{
    if m == 0 {
        assert(inputs.take(0) =~= Seq::<(Line, MatchInfo)>::empty());
        assert(inputs.subrange(0, 0) =~= Seq::<(Line, MatchInfo)>::empty());
        return;
    }
    let k = m - 1;
    lemma_run_inv(inputs, n, k);
    lemma_last_hit(inputs, k);
    lemma_last_hit(inputs, m);
    let a = inputs.take(k);
    let a2 = inputs.take(m);
    assert(a2.drop_last() =~= a);
    let (s, o) = run(fresh_state(n), a);
    let x = inputs[k];
    assert(a2.last() == x);
    let (s2, o2) = push_step(s, x.0, x.1);
    assert(run(fresh_state(n), a2) == (s2, o + o2));
    let h = last_hit(inputs, k);
    let b = buffer_start(inputs, n, k);
    assert(0 <= b <= k);
    // Windows in the shorter prefix stay windows in the longer one.
    assert forall|i: int| 0 <= i < k && #[trigger] in_window(a, n, i) implies in_window(a2, n, i) by {
        let j = choose|j: int| 0 <= j < a.len() && #[trigger] a[j].1.hit && i - n <= j <= i + n;
        assert(a2[j] == a[j]);
    }
    // Nothing from the buffer start on lies in a window of the shorter prefix.
    assert forall|i: int| b <= i < k implies !#[trigger] in_window(a, n, i) by {
        if in_window(a, n, i) {
            let j = choose|j: int| 0 <= j < a.len() && #[trigger] a[j].1.hit && i - n <= j <= i + n;
            assert(inputs[j].1.hit);
        }
    }
    lemma_picks_none(a, n, b, k);
    if x.1.hit {
        // Every earlier window stays as it was below the buffer start.
        assert forall|i: int| 0 <= i < b implies in_window(a, n, i) == #[trigger] in_window(a2, n, i) by {
            if in_window(a2, n, i) {
                if !in_window(a, n, i) {
                    let j = choose|j: int| 0 <= j < a2.len() && #[trigger] a2[j].1.hit && i - n <= j <= i + n;
                    if j < k {
                        assert(a[j] == a2[j]);
                    } else {
                        assert(h >= 0);
                        assert(a[h].1.hit);
                    }
                }
            }
        }
        lemma_picks_agree(a, a2, n, b);
        assert forall|i: int| b <= i < m implies #[trigger] in_window(a2, n, i) by {
            assert(a2[k].1.hit);
        }
        lemma_picks_all(a2, n, b, m);
        let c = as_context(s.before).push(emit_of(x.0, x.1, Role::Target));
        assert forall|t: int| 0 <= t < s.before.len() implies !(#[trigger] s.before[t]).1.hit by {
            assert(s.before[t] == inputs[b + t]);
        }
        assert(c =~= Seq::new((m - b) as nat, |t: int| em(a2, b + t)));
        assert forall|t: int| 0 <= t < c.len() implies s.last < #[trigger] c[t].line.no by {
            assert(c[t].line == inputs[b + t].0);
        }
        assert forall|i: int, j: int| 0 <= i < j < c.len() implies #[trigger] c[i].line.no
            < #[trigger] c[j].line.no by {
            assert(c[i].line == inputs[b + i].0);
            assert(c[j].line == inputs[b + j].0);
        }
        lemma_emit_all_fresh(s.last, c);
        assert(inputs.subrange(m, m) =~= Seq::<(Line, MatchInfo)>::empty());
        assert forall|i: int| m <= i < inputs.len() implies s2.last < #[trigger] inputs[i].0.no by {
            assert(c.last().line == inputs[k].0);
        }
    } else {
        // The new line is no hit, so the windows of the prefixes agree below it.
        assert forall|i: int| 0 <= i < k implies in_window(a, n, i) == #[trigger] in_window(a2, n, i) by {
            if in_window(a2, n, i) {
                let j = choose|j: int| 0 <= j < a2.len() && #[trigger] a2[j].1.hit && i - n <= j <= i + n;
                assert(a[j] == a2[j]);
            }
        }
        lemma_picks_agree(a, a2, n, k);
        if s.trailing > 0 {
            assert(in_window(a2, n, k)) by {
                assert(a2[h].1.hit);
            }
            assert(picks(a2, n, m) =~= picks(a2, n, k) + seq![em(a2, k)]);
            lemma_emit_all_fresh(s.last, seq![emit_of(x.0, x.1, Role::Context)]);
            assert(inputs.subrange(m, m) =~= Seq::<(Line, MatchInfo)>::empty());
            assert(inputs.subrange(b, k) =~= Seq::<(Line, MatchInfo)>::empty());
        } else {
            assert(!in_window(a2, n, k)) by {
                if in_window(a2, n, k) {
                    let j = choose|j: int| 0 <= j < a2.len() && #[trigger] a2[j].1.hit && k - n <= j <= k + n;
                    assert(inputs[j].1.hit);
                }
            }
            assert(picks(a2, n, m) =~= picks(a2, n, k));
            if n == 0 {
                assert(inputs.subrange(b, k) =~= Seq::<(Line, MatchInfo)>::empty());
                assert(inputs.subrange(m, m) =~= Seq::<(Line, MatchInfo)>::empty());
            } else if s.before.len() >= n {
                assert(s.before.drop_first().push(x) =~= inputs.subrange(b + 1, m));
            } else {
                assert(s.before.push(x) =~= inputs.subrange(b, m));
            }
        }
    }
}

/// Fed every line of an input whose line numbers strictly increase from 1
/// on, a `LineContext::new(n)` emits exactly the lines within `n` lines of
/// a hit, in input order, each once: the hits as targets, the others as
/// context.  Its `drain` adds nothing.
pub proof fn law_context_window(n: nat, inputs: Seq<(Line, MatchInfo)>)
    requires
        numbered_in_order(inputs),
    ensures
        run(fresh_state(n), inputs).1 == window_emits(inputs, n),
{
    lemma_run_inv(inputs, n, inputs.len() as int);
    assert(inputs.take(inputs.len() as int) =~= inputs);
}

/// What `NoContext` emits over `inputs`, one push after the other: each hit
/// as a target, nothing else.
pub open spec fn hits_only(inputs: Seq<(Line, MatchInfo)>) -> Seq<EmitOwned>
    decreases inputs.len(),
{
    if inputs.len() == 0 {
        Seq::empty()
    } else {
        hits_only(inputs.drop_last()) + (if inputs.last().1.hit {
            seq![emit_of(inputs.last().0, inputs.last().1, Role::Target)]
        } else {
            Seq::<EmitOwned>::empty()
        })
    }
}

proof fn lemma_picks_zero(inputs: Seq<(Line, MatchInfo)>, k: int)
    requires
        0 <= k <= inputs.len(),
    ensures
        picks(inputs, 0, k) == hits_only(inputs.take(k)),
    decreases k,
{
    if k == 0 {
        assert(inputs.take(0) =~= Seq::<(Line, MatchInfo)>::empty());
    } else {
        lemma_picks_zero(inputs, k - 1);
        let t = inputs.take(k);
        assert(t.drop_last() =~= inputs.take(k - 1));
        assert(t.last() == inputs[k - 1]);
        if inputs[k - 1].1.hit {
            assert(in_window(inputs, 0, k - 1));
        } else {
            assert(!in_window(inputs, 0, k - 1)) by {
                if in_window(inputs, 0, k - 1) {
                    let j = choose|j: int|
                        0 <= j < inputs.len() && #[trigger] inputs[j].1.hit && k - 1 - 0 <= j <= k - 1 + 0;
                    assert(j == k - 1);
                }
            }
        }
    }
}

/// A context of width 0 is no context: fed lines numbered from 1 upward,
/// `LineContext::new(0)` emits exactly what `NoContext` does, each hit once
/// as a target and nothing else.
pub proof fn law_context_zero_is_no_context(inputs: Seq<(Line, MatchInfo)>)
    requires
        numbered_in_order(inputs),
    ensures
        run(fresh_state(0), inputs).1 == hits_only(inputs),
{
    law_context_window(0, inputs);
    lemma_picks_zero(inputs, inputs.len() as int);
    assert(inputs.take(inputs.len() as int) =~= inputs);
}

} // verus!
