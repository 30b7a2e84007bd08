//! Line reading over an in-memory byte stream, a ring buffer of recent
//! lines, and ranges of context lines.

use vstd::prelude::*;
use vstd::utf8::*;

use crate::error::SelError;
use crate::ranges::{covers, is_canonical, merge_from, sort_by_start, spans_wf, spec_merge_ranges, lemma_merge_ranges, lemma_sort_by_start_props, sort_spans_by_start, sorted_by_start, starts_at_least, Span};
use crate::text::{index_of, find_byte, lemma_index_of, utf8_string};

verus! {

/// The error `BufRead::read_line` reports for bytes that are not UTF-8:
/// `InvalidData`, "stream did not contain valid UTF-8". Nothing is claimed
/// of the value.
#[verifier::external_body]
fn invalid_utf8_error() -> std::io::Error {
    std::io::Error::new(std::io::ErrorKind::InvalidData, "stream did not contain valid UTF-8")
}

/// `s` without its trailing `\n` and `\r` bytes.
pub open spec fn strip_eol(s: Seq<u8>) -> Seq<u8>
    decreases s.len(),
{
    if s.len() > 0 && (s.last() == 10u8 || s.last() == 13u8) {
        strip_eol(s.drop_last())
    } else {
        s
    }
}

/// Only line endings are cut from a line: what remains of `s` is a prefix
/// of it, every byte cut off is a `\n` or a `\r`, and the last byte kept
/// (if any) is neither, so trailing spaces and tabs stay.
pub proof fn law_strip_eol_cuts_only_line_endings(s: Seq<u8>)
    ensures
        strip_eol(s).len() <= s.len(),
        strip_eol(s) == s.take(strip_eol(s).len() as int),
        forall|k: int| strip_eol(s).len() <= k < s.len() ==> (#[trigger] s[k] == 10u8 || s[k] == 13u8),
        strip_eol(s).len() > 0 ==> strip_eol(s).last() != 10u8 && strip_eol(s).last() != 13u8,
    decreases s.len(),
{
    if s.len() > 0 && (s.last() == 10u8 || s.last() == 13u8) {
        let t = s.drop_last();
        law_strip_eol_cuts_only_line_endings(t);
        let r = strip_eol(t);
        assert(strip_eol(s) == r);
        assert(t.take(r.len() as int) =~= s.take(r.len() as int));
        assert forall|k: int| r.len() <= k < s.len() implies (#[trigger] s[k] == 10u8 || s[k] == 13u8) by {
            if k < t.len() {
                assert(s[k] == t[k]);
            }
        }
    } else {
        assert(s.take(s.len() as int) =~= s);
    }
}

/// End of the line starting at `pos`: just past its `\n`, or the end of
/// the data.
pub open spec fn chunk_end(data: Seq<u8>, pos: int) -> int {
    let i = pos + index_of(data.subrange(pos, data.len() as int), 10u8);
    if i < data.len() {
        i + 1
    } else {
        data.len() as int
    }
}

/// `s` without one trailing `\n`, and then without one `\r` before it.
pub open spec fn strip_newline_spec(s: Seq<u8>) -> Seq<u8> {
    if s.len() > 0 && s.last() == 10u8 {
        let t = s.drop_last();
        if t.len() > 0 && t.last() == 13u8 {
            t.drop_last()
        } else {
            t
        }
    } else {
        s
    }
}

/// Removes the line ending of a line read with its `\n`: the `\n`, and a
/// `\r` before it. A line without `\n` (the last of a file) is kept whole.
pub fn strip_newline(buf: &mut Vec<u8>)
    ensures
        final(buf)@ == strip_newline_spec(old(buf)@),
{
    let n = buf.len();
    if n > 0 && buf[n - 1] == 10u8 {
        buf.pop();
        let m = buf.len();
        if m > 0 && buf[m - 1] == 13u8 {
            buf.pop();
        }
    }
}

/// The raw lines of `data` from `pos` on, each with its `\n` (the last one
/// may have none): what successive `read_line` calls consume.
pub open spec fn chunks_from(data: Seq<u8>, pos: int) -> Seq<Seq<u8>>
    decreases data.len() - pos,
{
    if pos < 0 || pos >= data.len() {
        Seq::empty()
    } else {
        proof {
            lemma_index_of(data.subrange(pos, data.len() as int), 10u8);
        }
        seq![data.subrange(pos, chunk_end(data, pos))] + chunks_from(data, chunk_end(data, pos))
    }
}

/// The byte strings one after the other.
pub open spec fn concat_all(cs: Seq<Seq<u8>>) -> Seq<u8>
    decreases cs.len(),
{
    if cs.len() == 0 {
        Seq::empty()
    } else {
        cs[0] + concat_all(cs.drop_first())
    }
}

/// Reading lines splits the data at each `\n` and loses nothing: the raw
/// lines put together give back the data; none is empty; a `\n` only ends
/// one; and each but the last ends with one.
pub proof fn law_lines_cover_data(data: Seq<u8>, pos: int)
    requires
        0 <= pos <= data.len(),
    ensures
        concat_all(chunks_from(data, pos)) == data.subrange(pos, data.len() as int),
        forall|k: int| 0 <= k < chunks_from(data, pos).len() ==> {
            let c = #[trigger] chunks_from(data, pos)[k];
            &&& c.len() > 0
            &&& forall|j: int| 0 <= j < c.len() - 1 ==> c[j] != 10u8
            &&& k + 1 < chunks_from(data, pos).len() ==> c.last() == 10u8
        },
    decreases data.len() - pos,
{
    if pos == data.len() {
        assert(data.subrange(pos, data.len() as int) =~= Seq::<u8>::empty());
    } else {
        let rest = data.subrange(pos, data.len() as int);
        lemma_index_of(rest, 10u8);
        let e = chunk_end(data, pos);
        law_lines_cover_data(data, e);
        let c = data.subrange(pos, e);
        let cs = chunks_from(data, pos);
        let tail = chunks_from(data, e);
        assert(cs == seq![c] + tail);
        assert(cs.drop_first() =~= tail);
        assert(c + data.subrange(e, data.len() as int) =~= rest);
        assert forall|j: int| 0 <= j < c.len() - 1 implies c[j] != 10u8 by {
            assert(c[j] == rest[j]);
        }
        if e < data.len() {
            assert(c.last() == rest[index_of(rest, 10u8)]);
        }
        assert forall|k: int| 0 <= k < cs.len() implies {
            let d = #[trigger] cs[k];
            &&& d.len() > 0
            &&& forall|j: int| 0 <= j < d.len() - 1 ==> d[j] != 10u8
            &&& k + 1 < cs.len() ==> d.last() == 10u8
        } by {
            if k > 0 {
                assert(cs[k] == tail[k - 1]);
            } else if k + 1 < cs.len() {
                assert(tail.len() > 0);
                assert(e < data.len());
            }
        }
    }
}

/// A reader that yields lines with their line numbers (1-indexed).
pub struct LineReader {
    data: Vec<u8>,
    pos: usize,
    current_line: usize,
}

impl LineReader {
    /// The bytes read from.
    pub closed spec fn spec_data(&self) -> Seq<u8> {
        self.data@
    }

    /// How many bytes have been consumed.
    pub closed spec fn spec_pos(&self) -> int {
        self.pos as int
    }

    /// The number of the last line read.
    pub closed spec fn spec_current_line(&self) -> int {
        self.current_line as int
    }

    /// Each line read consumed at least one byte.
    #[verifier::type_invariant]
    spec fn consumed(self) -> bool {
        self.current_line <= self.pos <= self.data@.len()
    }

    /// Create a new line reader over `reader`.
    pub fn new(reader: &[u8]) -> (r: Self)
        ensures
            r.spec_data() == reader@,
            r.spec_pos() == 0,
            r.spec_current_line() == 0,
    {
        LineReader { data: vstd::slice::slice_to_vec(reader), pos: 0, current_line: 0 }
    }

    /// Read the next line, returning the line number and content without
    /// its trailing `\n` and `\r`.
    ///
    /// Returns `Ok(None)` at EOF; a line that is not UTF-8 is an I/O error.
    pub fn read_line(&mut self) -> (r: Result<Option<(usize, String)>, SelError>)
        ensures
            final(self).spec_data() == old(self).spec_data(),
            old(self).spec_pos() == old(self).spec_data().len() ==> {
                &&& r matches Ok(None)
                &&& final(self).spec_pos() == old(self).spec_pos()
                &&& final(self).spec_current_line() == old(self).spec_current_line()
            },
            old(self).spec_pos() < old(self).spec_data().len() ==> {
                let d = old(self).spec_data();
                let e = chunk_end(d, old(self).spec_pos());
                let t = strip_eol(d.subrange(old(self).spec_pos(), e));
                &&& final(self).spec_pos() == e
                &&& valid_utf8(t) ==> {
                    &&& r matches Ok(Some((n, s)))
                    &&& n == old(self).spec_current_line() + 1
                    &&& s@ == decode_utf8(t)
                    &&& final(self).spec_current_line() == n
                }
                &&& !valid_utf8(t) ==> {
                    &&& r matches Err(SelError::Io { .. })
                    &&& final(self).spec_current_line() == old(self).spec_current_line()
                }
            },
    {
        proof {
            use_type_invariant(&*self);
        }
        let len = self.data.len();
        if self.pos == len {
            return Ok(None);
        }
        let start = self.pos;
        let nl = find_byte(self.data.as_slice(), start, len, 10u8);
        let end = if nl < len {
            nl + 1
        } else {
            len
        };
        let mut stop = end;
        while stop > start && (self.data[stop - 1] == 10u8 || self.data[stop - 1] == 13u8)
            invariant
                start <= stop <= end <= len == self.data@.len(),
                strip_eol(self.data@.subrange(start as int, end as int)) == strip_eol(
                    self.data@.subrange(start as int, stop as int),
                ),
            decreases stop,
        {
            assert(self.data@.subrange(start as int, stop as int).drop_last() =~= self.data@.subrange(
                start as int,
                stop - 1,
            ));
            stop = stop - 1;
        }
        let chunk = vstd::slice::slice_to_vec(vstd::slice::slice_subrange(self.data.as_slice(), start, stop));
        self.pos = end;
        match utf8_string(chunk) {
            Some(line) => {
                self.current_line = self.current_line + 1;
                Ok(Some((self.current_line, line)))
            },
            None => Err(SelError::from(invalid_utf8_error())),
        }
    }

    /// Get the current line number.
    pub fn current_line(&self) -> (r: usize)
        ensures
            r == self.spec_current_line(),
    {
        self.current_line
    }

    /// Reset the line counter (useful when processing multiple files).
    pub fn reset_line_counter(&mut self)
        ensures
            final(self).spec_current_line() == 0,
            final(self).spec_pos() == old(self).spec_pos(),
            final(self).spec_data() == old(self).spec_data(),
    {
        proof {
            use_type_invariant(&*self);
        }
        self.current_line = 0;
    }
}

/// A context buffer for storing lines before a match.
///
/// This is used for implementing the `-c` context option.
pub struct ContextBuffer {
    buffer: Vec<Option<(usize, String)>>,
    capacity: usize,
    /// Current position in the circular buffer.
    pos: usize,
    /// Number of items currently in buffer.
    size: usize,
}

/// The entries of a ring of slots, oldest first: before it has wrapped,
/// the first `size` slots; after, from `pos` round to `pos`.
pub open spec fn ring_lines(b: Seq<Option<(usize, String)>>, pos: int, size: int) -> Seq<(usize, String)> {
    let v = b.map_values(|o: Option<(usize, String)>| o->0);
    if size < b.len() {
        v.take(size)
    } else {
        v.subrange(pos, b.len() as int) + v.take(pos)
    }
}

/// The lines kept after pushing `x` onto `lines` with room for `cap`: none
/// without room; when full, the oldest goes.
pub open spec fn ring_step(cap: nat, lines: Seq<(usize, String)>, x: (usize, String)) -> Seq<(usize, String)> {
    if cap == 0 {
        lines
    } else if lines.len() == cap {
        lines.drop_first().push(x)
    } else {
        lines.push(x)
    }
}

/// The lines kept after pushing each of `xs` onto an empty buffer with room
/// for `cap`.
pub open spec fn ring_run(cap: nat, xs: Seq<(usize, String)>) -> Seq<(usize, String)>
    decreases xs.len(),
{
    if xs.len() == 0 {
        Seq::empty()
    } else {
        ring_step(cap, ring_run(cap, xs.drop_last()), xs.last())
    }
}

/// A context buffer with room for `cap` lines holds the last `cap` lines
/// pushed (all of them while fewer were pushed; none when `cap` is 0),
/// oldest first. `new` starts from no lines and each `push` is one
/// `ring_step`, so `get_lines` after pushing `xs` gives `ring_run(cap, xs)`
/// and `len` its length.
pub proof fn law_context_buffer_keeps_last(cap: nat, xs: Seq<(usize, String)>)
    ensures
        ring_run(cap, xs) == xs.skip(xs.len() - (if xs.len() < cap { xs.len() as int } else { cap as int })),
        ring_run(cap, xs).len() == (if xs.len() < cap { xs.len() as int } else { cap as int }),
    decreases xs.len(),
{
    if xs.len() > 0 {
        let ys = xs.drop_last();
        law_context_buffer_keeps_last(cap, ys);
        let k = if ys.len() < cap { ys.len() as int } else { cap as int };
        let prev = ys.skip(ys.len() - k);
        if cap == 0 {
            assert(xs.skip(xs.len() as int) =~= Seq::<(usize, String)>::empty());
            assert(ys.skip(ys.len() as int) =~= Seq::<(usize, String)>::empty());
        } else if prev.len() == cap {
            assert(prev.drop_first().push(xs.last()) =~= xs.skip(xs.len() - cap));
        } else {
            assert(prev.push(xs.last()) =~= xs.skip(0));
        }
    } else {
        assert(xs.skip(0) =~= xs);
    }
}

impl ContextBuffer {
    /// The slots are filled from the front until the ring wraps; the write
    /// position is where the next line goes.
    pub closed spec fn wf(&self) -> bool {
        &&& self.buffer@.len() == self.capacity
        &&& self.size <= self.capacity
        &&& self.capacity == 0 ==> self.pos == 0 && self.size == 0
        &&& self.capacity > 0 ==> self.pos < self.capacity
        &&& self.size < self.capacity ==> self.pos == self.size
        &&& forall|i: int| 0 <= i < self.capacity ==> (#[trigger] self.buffer@[i] is Some <==> (i < self.size
            || self.size == self.capacity))
    }

    /// The stored lines, oldest first.
    pub closed spec fn spec_lines(&self) -> Seq<(usize, String)> {
        ring_lines(self.buffer@, self.pos as int, self.size as int)
    }

    /// How many lines the buffer keeps.
    pub closed spec fn spec_capacity(&self) -> nat {
        self.capacity as nat
    }

    /// Create a new context buffer with the given capacity.
    ///
    /// The buffer stores up to `capacity` lines before the current line.
    pub fn new(capacity: usize) -> (r: Self)
        ensures
            r.wf(),
            r.spec_capacity() == capacity,
            r.spec_lines().len() == 0,
    {
        let buffer = empty_slots(capacity);
        ContextBuffer { buffer, capacity, pos: 0, size: 0 }
    }

    /// Add a line to the buffer; when full, the oldest line goes.
    pub fn push(&mut self, line_no: usize, line: String)
        requires
            old(self).wf(),
        ensures
            final(self).wf(),
            final(self).spec_capacity() == old(self).spec_capacity(),
            final(self).spec_lines() == ring_step(old(self).spec_capacity(), old(self).spec_lines(), (line_no, line)),
    {
        if self.capacity == 0 {
            return;
        }
        let ghost b0 = self.buffer@;
        let ghost v0 = b0.map_values(|o: Option<(usize, String)>| o->0);
        let ghost p0 = self.pos as int;
        let was_empty = self.buffer[self.pos].is_none();
        self.buffer.set(self.pos, Some((line_no, line)));
        // Advance the write position round the ring.
        self.pos = if self.pos + 1 == self.capacity {
            0
        } else {
            self.pos + 1
        };
        if was_empty {
            self.size = self.size + 1;
        }
        proof {
            let b1 = self.buffer@;
            let v1 = b1.map_values(|o: Option<(usize, String)>| o->0);
            let cap = self.capacity as int;
            let x = (line_no, line);
            assert(v1 =~= v0.update(p0, x));
            if was_empty {
                assert(self.size as int == p0 + 1);
                if p0 + 1 < cap {
                    assert(v1.take(p0 + 1) =~= v0.take(p0).push(x));
                } else {
                    assert(self.pos == 0);
                    assert(v1.subrange(0, cap) + v1.take(0) =~= v0.take(p0).push(x));
                }
            } else {
                if p0 + 1 < cap {
                    assert(v1.subrange(p0 + 1, cap) + v1.take(p0 + 1) =~= (v0.subrange(p0, cap)
                        + v0.take(p0)).drop_first().push(x));
                } else {
                    assert(self.pos == 0);
                    assert(v1.subrange(0, cap) + v1.take(0) =~= (v0.subrange(p0, cap) + v0.take(
                        p0,
                    )).drop_first().push(x));
                }
            }
        }
    }

    /// Get the stored lines in order (oldest to newest).
    pub fn get_lines(&self) -> (r: Vec<(usize, String)>)
        requires
            self.wf(),
        ensures
            r@ == self.spec_lines(),
    {
        let mut result: Vec<(usize, String)> = Vec::new();
        if self.capacity == 0 {
            assert(self.spec_lines() =~= Seq::<(usize, String)>::empty());
            return result;
        }
        // Start from the oldest entry
        let start = if self.size == self.capacity {
            self.pos
        } else {
            0
        };
        let ghost v = self.buffer@.map_values(|o: Option<(usize, String)>| o->0);
        let ghost lines = self.spec_lines();
        assert(lines.len() == self.size) by {
            if self.size < self.capacity {
            } else {
            }
        }
        let mut i: usize = 0;
        while i < self.size
            invariant
                self.wf(),
                self.capacity > 0,
                start == (if self.size == self.capacity { self.pos } else { 0 }),
                i <= self.size,
                v == self.buffer@.map_values(|o: Option<(usize, String)>| o->0),
                lines == self.spec_lines(),
                lines.len() == self.size,
                result@ == lines.take(i as int),
            decreases self.size - i,
        {
            // The slot `i` places after the oldest, round the ring.
            let idx = if i >= self.capacity - start {
                i - (self.capacity - start)
            } else {
                start + i
            };
            assert(lines[i as int] == v[idx as int]);
            match &self.buffer[idx] {
                Some(entry) => {
                    result.push((entry.0, entry.1.clone()));
                },
                None => {
                    assert(false);
                },
            }
            assert(result@ =~= lines.take(i + 1));
            i = i + 1;
        }
        assert(lines.take(self.size as int) =~= lines);
        result
    }

    /// Get the number of lines currently stored.
    pub fn len(&self) -> (r: usize)
        requires
            self.wf(),
        ensures
            r == self.spec_lines().len(),
    {
        self.size
    }

    /// Check if the buffer is empty.
    pub fn is_empty(&self) -> (r: bool)
        requires
            self.wf(),
        ensures
            r == (self.spec_lines().len() == 0),
    {
        self.size == 0
    }

    /// Clear the buffer.
    pub fn clear(&mut self)
        requires
            old(self).wf(),
        ensures
            final(self).wf(),
            final(self).spec_capacity() == old(self).spec_capacity(),
            final(self).spec_lines().len() == 0,
    {
        self.buffer = empty_slots(self.capacity);
        self.pos = 0;
        self.size = 0;
    }

    /// Drain the buffer, returning all stored lines and clearing it.
    pub fn drain(&mut self) -> (r: Vec<(usize, String)>)
        requires
            old(self).wf(),
        ensures
            r@ == old(self).spec_lines(),
            final(self).wf(),
            final(self).spec_capacity() == old(self).spec_capacity(),
            final(self).spec_lines().len() == 0,
    {
        let result = self.get_lines();
        self.clear();
        result
    }
}

/// `n` empty slots.
fn empty_slots(n: usize) -> (r: Vec<Option<(usize, String)>>)
    ensures
        r@.len() == n,
        forall|i: int| 0 <= i < n ==> #[trigger] r@[i] is None,
{
    let mut v: Vec<Option<(usize, String)>> = Vec::new();
    let mut i: usize = 0;
    while i < n
        invariant
            i <= n,
            v@.len() == i,
            forall|k: int| 0 <= k < i ==> #[trigger] v@[k] is None,
        decreases n - i,
    {
        v.push(None);
        i = i + 1;
    }
    v
}

/// A context range representing a span of lines to output.
#[derive(Debug, Clone, Copy, PartialEq, Eq, Structural)]
pub struct ContextRange {
    pub start: usize,
    pub end: usize,
}

/// Two ranges overlap or touch: each starts at most one past the other's end.
pub open spec fn ranges_touch(a: Span, b: Span) -> bool {
    a.0 <= b.1 + 1 && b.0 <= a.1 + 1
}

/// The smallest range holding both.
pub open spec fn hull(a: Span, b: Span) -> Span {
    (if a.0 <= b.0 { a.0 } else { b.0 }, if a.1 >= b.1 { a.1 } else { b.1 })
}

/// Greedy merge of ranges taken in order, starting from the open range
/// `cur`: a range that touches the open one is merged into it; any other
/// closes it and opens itself.
pub open spec fn touch_merge_from(cur: Span, rest: Seq<Span>) -> Seq<Span>
    decreases rest.len(),
{
    if rest.len() == 0 {
        seq![cur]
    } else if ranges_touch(cur, rest[0]) {
        touch_merge_from(hull(cur, rest[0]), rest.drop_first())
    } else {
        seq![cur] + touch_merge_from(rest[0], rest.drop_first())
    }
}

/// What `merge_context_ranges` returns, as `(start, end)` pairs: the
/// ranges stably sorted by start, then merged greedily.
pub open spec fn spec_merge_context(s: Seq<Span>) -> Seq<Span> {
    let t = sort_by_start(s);
    if t.len() == 0 {
        t
    } else {
        touch_merge_from(t[0], t.drop_first())
    }
}

/// The ranges as `(start, end)` pairs.
pub open spec fn range_pairs(s: Seq<ContextRange>) -> Seq<Span> {
    s.map_values(|r: ContextRange| (r.start, r.end))
}

impl ContextRange {
    /// Create a new context range.
    pub fn new(start: usize, end: usize) -> (r: Self)
        ensures
            r.start == start,
            r.end == end,
    {
        ContextRange { start, end }
    }

    /// Create a context range centered around a target line.
    pub fn around(target: usize, context: usize) -> (r: Self)
        ensures
            r.start == (if target >= context { target - context } else { 0 }),
            r.end == (if target + context <= usize::MAX { target + context } else { usize::MAX as int }),
    {
        let start = target.saturating_sub(context);
        let end = target.saturating_add(context);
        ContextRange { start, end }
    }

    /// Check if this range overlaps with another, or touches it.
    pub fn overlaps(&self, other: &Self) -> (r: bool)
        ensures
            r == ranges_touch((self.start, self.end), (other.start, other.end)),
    {
        // Ranges overlap if one starts before or at the other's end
        // and ends at or after the other's start (one past counts).
        (self.start <= other.end || self.start - other.end == 1) && (other.start <= self.end
            || other.start - self.end == 1)
    }

    /// Merge this range with another (must be overlapping or adjacent).
    pub fn merge(&mut self, other: &Self)
        ensures
            (final(self).start, final(self).end) == hull((old(self).start, old(self).end), (other.start, other.end)),
    {
        if other.start < self.start {
            self.start = other.start;
        }
        if other.end > self.end {
            self.end = other.end;
        }
    }
}

/// Merge potentially overlapping context ranges into consolidated ranges.
pub fn merge_context_ranges(ranges: Vec<ContextRange>) -> (r: Vec<ContextRange>)
    ensures
        range_pairs(r@) == spec_merge_context(range_pairs(ranges@)),
{
    let mut pairs: Vec<Span> = Vec::new();
    let mut i: usize = 0;
    while i < ranges.len()
        invariant
            i <= ranges@.len(),
            pairs@ == range_pairs(ranges@.take(i as int)),
        decreases ranges@.len() - i,
    {
        pairs.push((ranges[i].start, ranges[i].end));
        assert(range_pairs(ranges@.take(i + 1)) =~= range_pairs(ranges@.take(i as int)).push(
            (ranges@[i as int].start, ranges@[i as int].end),
        ));
        i = i + 1;
    }
    assert(ranges@.take(ranges@.len() as int) =~= ranges@);
    let mut result: Vec<ContextRange> = Vec::new();
    if pairs.len() == 0 {
        assert(range_pairs(result@) =~= Seq::<Span>::empty());
        return result;
    }
    let sorted = sort_spans_by_start(&pairs);
    proof {
        lemma_sort_by_start_props(pairs@);
    }
    let mut current = ContextRange::new(sorted[0].0, sorted[0].1);
    let mut k: usize = 1;
    while k < sorted.len()
        invariant
            1 <= k <= sorted@.len(),
            sorted@ == sort_by_start(pairs@),
            pairs@ == range_pairs(ranges@),
            range_pairs(result@) + touch_merge_from((current.start, current.end), sorted@.subrange(
                k as int,
                sorted@.len() as int,
            )) == spec_merge_context(pairs@),
        decreases sorted@.len() - k,
    {
        let range = ContextRange::new(sorted[k].0, sorted[k].1);
        let ghost rest = sorted@.subrange(k as int, sorted@.len() as int);
        assert(rest[0] == (range.start, range.end));
        assert(rest.drop_first() =~= sorted@.subrange(k + 1, sorted@.len() as int));
        if current.overlaps(&range) {
            current.merge(&range);
        } else {
            proof {
                assert(range_pairs(result@.push(current)) =~= range_pairs(result@).push(
                    (current.start, current.end),
                ));
            }
            result.push(current);
            current = range;
        }
        k = k + 1;
    }
    proof {
        assert(sorted@.subrange(k as int, sorted@.len() as int) =~= Seq::<Span>::empty());
        assert(range_pairs(result@.push(current)) =~= range_pairs(result@).push(
            (current.start, current.end),
        ));
    }
    result.push(current);
    proof {
        assert(sorted@.subrange(1, sorted@.len() as int) =~= sorted@.drop_first());
    }
    result
}

proof fn lemma_touch_is_merge(cur: Span, rest: Seq<Span>)
    requires
        cur.0 <= cur.1,
        spans_wf(rest),
        sorted_by_start(rest),
        starts_at_least(rest, cur.0 as int),
    ensures
        touch_merge_from(cur, rest) == merge_from(cur, rest),
    decreases rest.len(),
{
    if rest.len() > 0 {
        let r0 = rest[0];
        let tail = rest.drop_first();
        assert(spans_wf(tail)) by {
            assert forall|i: int| 0 <= i < tail.len() implies #[trigger] tail[i].0 <= tail[i].1 by {
                assert(tail[i] == rest[i + 1]);
            }
        }
        assert(sorted_by_start(tail)) by {
            assert forall|i: int, j: int| 0 <= i < j < tail.len() implies #[trigger] tail[i].0
                <= #[trigger] tail[j].0 by {
                assert(tail[i] == rest[i + 1] && tail[j] == rest[j + 1]);
            }
        }
        assert(starts_at_least(tail, r0.0 as int)) by {
            assert forall|i: int| 0 <= i < tail.len() implies r0.0 <= #[trigger] tail[i].0 by {
                assert(tail[i] == rest[i + 1]);
            }
        }
        assert(r0.0 <= r0.1);
        if ranges_touch(cur, r0) {
            lemma_touch_is_merge(hull(cur, r0), tail);
        } else {
            lemma_touch_is_merge(r0, tail);
        }
    }
}

/// On ranges that each start no later than they end, merging context
/// ranges keeps exactly the lines they cover, and gives ranges in
/// increasing order, each separated from the next by a line none covers.
pub proof fn law_merge_context_ranges(rs: Seq<ContextRange>)
    requires
        forall|i: int| 0 <= i < rs.len() ==> #[trigger] rs[i].start <= rs[i].end,
    ensures
        forall|x: int|
            covers(spec_merge_context(range_pairs(rs)), x) <==> covers(range_pairs(rs), x),
        is_canonical(spec_merge_context(range_pairs(rs))),
{
    let p = range_pairs(rs);
    assert(spans_wf(p)) by {
        assert forall|i: int| 0 <= i < p.len() implies #[trigger] p[i].0 <= p[i].1 by {
            assert(p[i] == (rs[i].start, rs[i].end));
        }
    }
    let t = sort_by_start(p);
    lemma_sort_by_start_props(p);
    assert(spans_wf(t)) by {
        assert forall|i: int| 0 <= i < t.len() implies #[trigger] t[i].0 <= t[i].1 by {
            assert(t.contains(t[i]));
            assert(p.contains(t[i]));
        }
    }
    if t.len() > 0 {
        let tail = t.drop_first();
        assert(spans_wf(tail)) by {
            assert forall|i: int| 0 <= i < tail.len() implies #[trigger] tail[i].0 <= tail[i].1 by {
                assert(tail[i] == t[i + 1]);
            }
        }
        assert(sorted_by_start(tail)) by {
            assert forall|i: int, j: int| 0 <= i < j < tail.len() implies #[trigger] tail[i].0
                <= #[trigger] tail[j].0 by {
                assert(tail[i] == t[i + 1] && tail[j] == t[j + 1]);
            }
        }
        assert(starts_at_least(tail, t[0].0 as int)) by {
            assert forall|i: int| 0 <= i < tail.len() implies t[0].0 <= #[trigger] tail[i].0 by {
                assert(tail[i] == t[i + 1]);
            }
        }
        lemma_touch_is_merge(t[0], tail);
    }
    assert(spec_merge_context(p) == spec_merge_ranges(p));
    lemma_merge_ranges(p);
}

} // verus!
