//! Line starts of the input seen so far, and line/column lookup.

use vstd::prelude::*;

use super::span::Span;
use super::text::{lemma_utf8_len_concat, utf8_len, width_of};

verus! {

/// Byte offsets at which the lines of `text` start: 0, then one past each newline.
pub open spec fn line_starts(text: Seq<char>) -> Seq<int>
    decreases text.len(),
{
    if text.len() == 0 {
        seq![0int]
    } else {
        let before = line_starts(text.drop_last());
        if text.last() == '\n' {
            before.push(utf8_len(text) as int)
        } else {
            before
        }
    }
}

/// How many of the sorted offsets `starts` are at most `pos`.
pub open spec fn count_at_most(starts: Seq<int>, pos: int) -> int
    decreases starts.len(),
{
    if starts.len() == 0 {
        0
    } else {
        count_at_most(starts.drop_last(), pos) + if starts.last() <= pos { 1int } else { 0int }
    }
}

/// Line and column of byte offset `pos`, both counting from 1: the line is the number of line
/// starts at or before `pos`, the column the distance from the last of them plus one.
pub open spec fn line_column_of(text: Seq<char>, pos: int) -> (int, int) {
    let starts = line_starts(text);
    let line = count_at_most(starts, pos);
    (line, pos - starts[line - 1] + 1)
}

/// The offset of the end of a text grows with each character.
pub proof fn lemma_utf8_len_push(s: Seq<char>, c: char)
    ensures
        utf8_len(s.push(c)) == utf8_len(s) + utf8_len(seq![c]),
        utf8_len(seq![c]) >= 1,
{
    assert(s.push(c) =~= s + seq![c]);
    lemma_utf8_len_concat(s, seq![c]);
    super::text::lemma_utf8_len_char(c);
}

/// Line starts begin at 0, increase strictly, and stay within the text.
pub proof fn lemma_line_starts(text: Seq<char>)
    ensures
        line_starts(text).len() >= 1,
        line_starts(text)[0] == 0,
        forall|i: int, j: int|
            0 <= i < j < line_starts(text).len() ==> line_starts(text)[i] < line_starts(
                text,
            )[j],
        forall|i: int|
            0 <= i < line_starts(text).len() ==> line_starts(text)[i] <= utf8_len(text),
    decreases text.len(),
{
    if text.len() > 0 {
        let init = text.drop_last();
        lemma_line_starts(init);
        assert(text =~= init.push(text.last()));
        lemma_utf8_len_push(init, text.last());
    }
}

/// With sorted offsets whose first is 0, the count up to `pos` is the index just past the last
/// offset at or before `pos`.
pub proof fn lemma_count_at_most(starts: Seq<int>, pos: int, k: int)
    requires
        forall|i: int, j: int| 0 <= i < j < starts.len() ==> starts[i] < starts[j],
        0 <= k <= starts.len(),
        forall|i: int| 0 <= i < k ==> starts[i] <= pos,
        forall|i: int| k <= i < starts.len() ==> starts[i] > pos,
    ensures
        count_at_most(starts, pos) == k,
    decreases starts.len(),
{
    if starts.len() > 0 {
        let init = starts.drop_last();
        if k == starts.len() {
            lemma_count_at_most(init, pos, k - 1);
        } else {
            lemma_count_at_most(init, pos, k);
        }
    }
}

/// Passing an offset raises the count of offsets at or before a position.
pub proof fn lemma_count_at_most_mono(starts: Seq<int>, p: int, q: int, s: int)
    requires
        p <= q,
        0 <= s < starts.len(),
        p < starts[s] <= q,
    ensures
        count_at_most(starts, p) < count_at_most(starts, q),
    decreases starts.len(),
{
    let init = starts.drop_last();
    assert(starts.last() == starts[starts.len() - 1]);
    if s < starts.len() - 1 {
        assert(init[s] == starts[s]);
        lemma_count_at_most_mono(init, p, q, s);
    } else {
        lemma_count_at_most_le(init, p, q);
    }
}

/// The count of offsets at or before a position never shrinks as the position grows.
pub proof fn lemma_count_at_most_le(starts: Seq<int>, p: int, q: int)
    requires
        p <= q,
    ensures
        count_at_most(starts, p) <= count_at_most(starts, q),
    decreases starts.len(),
{
    if starts.len() > 0 {
        lemma_count_at_most_le(starts.drop_last(), p, q);
    }
}

/// Among sorted offsets starting at 0, the last one at or before `pos >= 0`.
proof fn lemma_last_at_most(starts: Seq<int>, pos: int) -> (i: int)
    requires
        starts.len() >= 1,
        starts[0] == 0,
        0 <= pos,
        forall|i: int, j: int| 0 <= i < j < starts.len() ==> starts[i] < starts[j],
    ensures
        0 <= i < starts.len(),
        starts[i] <= pos,
        forall|j: int| 0 <= j <= i ==> starts[j] <= pos,
        forall|j: int| i < j < starts.len() ==> starts[j] > pos,
    decreases starts.len(),
{
    if starts.len() > 1 {
        let init = starts.drop_last();
        let i = lemma_last_at_most(init, pos);
        assert(starts.last() == starts[starts.len() - 1]);
        if i + 1 == init.len() && starts.last() <= pos {
            (starts.len() - 1) as int
        } else {
            if i + 1 < init.len() {
                assert(init[i + 1] > pos);
                assert(starts[i + 1] == init[i + 1]);
                assert(starts[i + 1] < starts[starts.len() - 1]);
            }
            i
        }
    } else {
        0
    }
}

/// Lines and columns count from 1, and a line start is in column 1.
pub proof fn lemma_line_column_bounds(text: Seq<char>, p: int)
    requires
        0 <= p,
    ensures
        line_column_of(text, p).0 >= 1,
        line_column_of(text, p).1 >= 1,
        line_starts(text).contains(p) ==> line_column_of(text, p).1 == 1,
{
    let starts = line_starts(text);
    lemma_line_starts(text);
    let last = lemma_last_at_most(starts, p);
    lemma_count_at_most(starts, p, last + 1);
    if starts.contains(p) {
        let i = choose|i: int| 0 <= i < starts.len() && starts[i] == p;
        assert(i <= last);
        if i < last {
            assert(starts[i] < starts[last]);
        }
    }
}

/// A position past a line start is on a later line than a position before it.
pub proof fn lemma_line_increases(text: Seq<char>, p: int, q: int, s: int)
    requires
        p < s <= q,
        line_starts(text).contains(s),
    ensures
        line_column_of(text, p).0 < line_column_of(text, q).0,
{
    let starts = line_starts(text);
    let i = choose|i: int| 0 <= i < starts.len() && starts[i] == s;
    lemma_count_at_most_mono(starts, p, q, i);
}

/// Line and column of `pos` are at most `pos + 1`.
pub proof fn lemma_line_column_small(text: Seq<char>, pos: int)
    requires
        0 <= pos,
    ensures
        line_column_of(text, pos).0 <= pos + 1,
        line_column_of(text, pos).1 <= pos + 1,
{
    let starts = line_starts(text);
    lemma_line_starts(text);
    let last = lemma_last_at_most(starts, pos);
    lemma_count_at_most(starts, pos, last + 1);
    lemma_sorted_at_least_index(starts, last);
    assert(starts[last] >= 0) by {
        if last > 0 {
            assert(starts[0] < starts[last]);
        }
    }
}

/// Strictly increasing integers from 0 are each at least their index.
proof fn lemma_sorted_at_least_index(starts: Seq<int>, i: int)
    requires
        starts.len() >= 1,
        starts[0] == 0,
        forall|a: int, b: int| 0 <= a < b < starts.len() ==> starts[a] < starts[b],
        0 <= i < starts.len(),
    ensures
        starts[i] >= i,
    decreases i,
{
    if i > 0 {
        lemma_sorted_at_least_index(starts, i - 1);
        assert(starts[i - 1] < starts[i]);
    }
}

/// Line starts of a longer text: those of the shorter one, then only offsets past its end.
pub proof fn lemma_line_starts_extend(t: Seq<char>, u: Seq<char>)
    ensures
        line_starts(t + u).len() >= line_starts(t).len(),
        line_starts(t + u).take(line_starts(t).len() as int) == line_starts(t),
        forall|i: int|
            line_starts(t).len() <= i < line_starts(t + u).len() ==> #[trigger] line_starts(
                t + u,
            )[i] > utf8_len(t),
    decreases u.len(),
{
    if u.len() == 0 {
        assert(t + u =~= t);
        assert(line_starts(t).take(line_starts(t).len() as int) =~= line_starts(t));
    } else {
        let v = u.drop_last();
        lemma_line_starts_extend(t, v);
        assert((t + u).drop_last() =~= t + v);
        lemma_utf8_len_push(t + v, u.last());
        assert(t + u =~= (t + v).push(u.last()));
        lemma_utf8_len_concat(t, v);
        let a = line_starts(t + v);
        let b = line_starts(t + u);
        if (t + u).last() == '\n' {
            assert(b == a.push(utf8_len(t + u) as int));
            assert(b.take(line_starts(t).len() as int) =~= a.take(line_starts(t).len() as int));
        } else {
            assert(b == a);
        }
    }
}

/// Counting offsets at or before `pos` ignores offsets past `pos` added at the end.
proof fn lemma_count_at_most_extend(a: Seq<int>, b: Seq<int>, pos: int)
    requires
        b.len() >= a.len(),
        b.take(a.len() as int) == a,
        forall|i: int| a.len() <= i < b.len() ==> #[trigger] b[i] > pos,
    ensures
        count_at_most(b, pos) == count_at_most(a, pos),
    decreases b.len(),
{
    if b.len() > a.len() {
        let c = b.drop_last();
        assert(c.take(a.len() as int) =~= b.take(a.len() as int));
        lemma_count_at_most_extend(a, c, pos);
        assert(b.last() == b[b.len() - 1]);
    } else {
        assert(b =~= b.take(a.len() as int));
    }
}

/// Line and column of a position within a text do not change as the text grows.
pub proof fn lemma_line_column_extend(t: Seq<char>, u: Seq<char>, pos: int)
    requires
        0 <= pos <= utf8_len(t),
    ensures
        line_column_of(t + u, pos) == line_column_of(t, pos),
{
    lemma_line_starts_extend(t, u);
    let a = line_starts(t);
    let b = line_starts(t + u);
    lemma_count_at_most_extend(a, b, pos);
    lemma_line_starts(t);
    let last = lemma_last_at_most_pub(a, pos);
    lemma_count_at_most(a, pos, last + 1);
    assert(b[last] == b.take(a.len() as int)[last]);
}

/// Among sorted offsets starting at 0, the last one at or before `pos >= 0`.
pub proof fn lemma_last_at_most_pub(starts: Seq<int>, pos: int) -> (i: int)
    requires
        starts.len() >= 1,
        starts[0] == 0,
        0 <= pos,
        forall|i: int, j: int| 0 <= i < j < starts.len() ==> starts[i] < starts[j],
    ensures
        0 <= i < starts.len(),
        forall|j: int| 0 <= j <= i ==> starts[j] <= pos,
        forall|j: int| i < j < starts.len() ==> starts[j] > pos,
{
    lemma_last_at_most(starts, pos)
}

/// Tracks where lines start in the input seen so far.
pub struct LineColumnTracker {
    positions: Vec<usize>,
    input_len: usize,
    text: Ghost<Seq<char>>,
}

impl LineColumnTracker {
    /// The text seen so far.
    pub closed spec fn text(&self) -> Seq<char> {
        self.text@
    }

    /// The tracker's records agree with the text seen so far.
    pub closed spec fn wf(&self) -> bool {
        &&& self.positions@.len() == line_starts(self.text@).len()
        &&& forall|i: int|
            0 <= i < self.positions@.len() ==> self.positions@[i] == line_starts(self.text@)[i]
        &&& self.input_len == utf8_len(self.text@)
    }

    /// A tracker that has seen nothing yet.
    pub fn empty() -> (r: LineColumnTracker)
        ensures
            r.wf(),
            r.text() == Seq::<char>::empty(),
    {
        let r = LineColumnTracker { positions: vec![0], input_len: 0, text: Ghost(Seq::empty()) };
        assert(r.positions@ =~= seq![0usize]);
        assert(utf8_len(Seq::<char>::empty()) == 0) by {
            reveal_with_fuel(vstd::utf8::encode_utf8, 1);
        }
        r
    }

    /// A tracker that has seen `input`.
    pub fn new(input: &str) -> (r: LineColumnTracker)
        requires
            utf8_len(input@) <= usize::MAX,
        ensures
            r.wf(),
            r.text() == input@,
    {
        let mut r = LineColumnTracker::empty();
        let chars = super::text::chars_of(input);
        assert(chars@ == input@);
        r.extend(&chars);
        assert(r.text@ =~= input@);
        r
    }

    /// The byte length of what was seen fits `usize`.
    pub proof fn lemma_len_fits(&self)
        requires
            self.wf(),
        ensures
            utf8_len(self.text()) <= usize::MAX,
    {
    }

    /// Number of bytes seen so far.
    pub fn input_len(&self) -> (r: usize)
        requires
            self.wf(),
        ensures
            r == utf8_len(self.text()),
    {
        self.input_len
    }

    /// Takes in the next piece of input: records a line start after each newline in it.
    pub fn extend(&mut self, chunk: &Vec<char>)
        requires
            old(self).wf(),
            utf8_len(old(self).text() + chunk@) <= usize::MAX,
        ensures
            final(self).wf(),
            final(self).text() == old(self).text() + chunk@,
    {
        let ghost start = self.text@;
        let mut i: usize = 0;
        while i < chunk.len()
            invariant
                self.wf(),
                i <= chunk@.len(),
                self.text@ == start + chunk@.take(i as int),
                utf8_len(start + chunk@) <= usize::MAX,
            decreases chunk@.len() - i,
        {
            let c = chunk[i];
            let w = width_of(c);
            let ghost before = self.text@;
            proof {
                lemma_utf8_len_push(before, c);
                assert(chunk@.take(i + 1) =~= chunk@.take(i as int).push(c));
                assert(start + chunk@ =~= (before.push(c)) + chunk@.skip(i + 1));
                lemma_utf8_len_concat(before.push(c), chunk@.skip(i + 1));
            }
            self.input_len = self.input_len + w;
            self.text = Ghost(before.push(c));
            if c == '\n' {
                self.positions.push(self.input_len);
            }
            proof {
                assert(self.text@.drop_last() =~= before);
                assert(self.positions@.len() == line_starts(self.text@).len());
            }
            i += 1;
        }
        assert(chunk@.take(chunk@.len() as int) =~= chunk@);
    }

    /// Line and column of byte offset `position`, both counting from 1.
    pub fn line_column(&self, position: usize) -> (r: (u32, u32))
        requires
            self.wf(),
            line_column_of(self.text(), position as int).0 <= u32::MAX,
            line_column_of(self.text(), position as int).1 <= u32::MAX,
        ensures
            r.0 as int == line_column_of(self.text(), position as int).0,
            r.1 as int == line_column_of(self.text(), position as int).1,
    {
        proof {
            lemma_line_starts(self.text@);
        }
        let ghost starts = line_starts(self.text@);
        // Binary search for the number of line starts at or before `position`.
        let mut lo: usize = 0;
        let mut hi: usize = self.positions.len();
        while lo < hi
            invariant
                self.wf(),
                starts == line_starts(self.text@),
                0 <= lo <= hi <= starts.len(),
                forall|i: int| 0 <= i < lo ==> starts[i] <= position,
                forall|i: int| hi <= i < starts.len() ==> starts[i] > position,
                forall|i: int, j: int| 0 <= i < j < starts.len() ==> starts[i] < starts[j],
            decreases hi - lo,
        {
            let mid = lo + (hi - lo) / 2;
            if self.positions[mid] <= position {
                lo = mid + 1;
            } else {
                hi = mid;
            }
        }
        proof {
            lemma_count_at_most(starts, position as int, lo as int);
            assert(starts[0] <= position);
        }
        let line_start = self.positions[lo - 1];
        ((lo as u32), ((position - line_start + 1) as u32))
    }

    /// A span from `start` to `end` carrying the line and column of `start`.
    pub fn span_with_position(&self, start: usize, end: usize) -> (r: Span)
        requires
            self.wf(),
            line_column_of(self.text(), start as int).0 <= u32::MAX,
            line_column_of(self.text(), start as int).1 <= u32::MAX,
        ensures
            r.start == start,
            r.end == end,
            r.line == Some(line_column_of(self.text(), start as int).0 as u32),
            r.column == Some(line_column_of(self.text(), start as int).1 as u32),
    {
        let (line, column) = self.line_column(start);
        Span::with_position(start, end, line, column)
    }
}

} // verus!
