//! Counting stacks in the collapsed format that flamegraph generators read: one
//! line per distinct stack, `root;...;leaf count`.
use vstd::prelude::*;

use crate::assoc::{
    has_key, key_at, keys_unique, lemma_index_of, lemma_set_value, lemma_sum_by_set_value, lemma_sum_by_touch,
    lemma_touch, lemma_touched_value_le_sum, set_value, sum_by, touch, value_of,
};
use crate::parse::join_with;
use crate::text::{chars_of, compare_chars, dec, push_chars, push_dec, string_of};
use crate::types::{frame_display, frames_view, FrameView, StackFrame};

verus! {

/// The key of a stack: its frames from the root down, displayed and joined by `;`.
pub open spec fn collapsed_key(stack: Seq<FrameView>) -> Seq<char> {
    join_with(stack.reverse().map_values(|f: FrameView| frame_display(f)), ';')
}

/// The counts after one more sample of `key`.
pub open spec fn record_model(c: Seq<(Seq<char>, int)>, key: Seq<char>) -> Seq<(Seq<char>, int)> {
    let t = touch(c, key, 0int);
    set_value(t, key, value_of(t, key) + 1)
}

/// Recording one more sample of `key` keeps the count within the machine's counters.
pub open spec fn record_fits(c: Seq<(Seq<char>, int)>, key: Seq<char>) -> bool {
    value_of(touch(c, key, 0int), key) + 1 <= usize::MAX
}

/// One line of collapsed output, without its line break.
pub open spec fn collapsed_line(e: (Seq<char>, int)) -> Seq<char> {
    e.0 + seq![' '] + dec(e.1 as nat)
}

/// The collapsed lines of the counts, each ended by a line break.
pub open spec fn collapsed_text(c: Seq<(Seq<char>, int)>) -> Seq<char>
    decreases c.len(),
{
    if c.len() == 0 {
        Seq::empty()
    } else {
        collapsed_text(c.drop_last()) + collapsed_line(c.last()) + seq!['\n']
    }
}

/// Simple counter that maps stacks to the flamegraph collapsed format.
#[derive(Debug)]
pub struct Stats {
    /// The distinct stacks, in the order first seen, with their counts.
    pub counts: Vec<(String, usize)>,
}

impl View for Stats {
    type V = Seq<(Seq<char>, int)>;

    open spec fn view(&self) -> Seq<(Seq<char>, int)> {
        self.counts@.map_values(|p: (String, usize)| (p.0@, p.1 as int))
    }
}

/// The key of a stack.
pub fn collapsed_key_of(stack: &[StackFrame]) -> (k: Vec<char>)
    ensures
        k@ == collapsed_key(frames_view(stack@)),
{
    let n = stack.len();
    let ghost parts = frames_view(stack@).reverse().map_values(|f: FrameView| frame_display(f));
    let mut k: Vec<char> = Vec::new();
    let mut i: usize = 0;
    while i < n
        invariant
            i <= n,
            n == stack@.len(),
            parts == frames_view(stack@).reverse().map_values(|f: FrameView| frame_display(f)),
            k@ == join_with(parts.take(i as int), ';'),
        decreases n - i,
    {
        assert(parts[i as int] == frame_display(stack@[n - 1 - i]@));
        if i > 0 {
            k.push(';');
        }
        stack[n - 1 - i].push_display(&mut k);
        i = i + 1;
        assert(parts.take(i as int).drop_last() =~= parts.take(i - 1));
        if i == 1 {
            assert(k@ =~= join_with(parts.take(i as int), ';'));
        }
    }
    assert(parts.take(n as int) =~= parts);
    k
}

impl Stats {
    /// No stack recorded yet.
    pub fn new() -> (s: Stats)
        ensures
            s@ == Seq::<(Seq<char>, int)>::empty(),
    {
        let s = Stats { counts: Vec::new() };
        assert(s@ =~= Seq::<(Seq<char>, int)>::empty());
        s
    }

    /// The stacks are counted once each.
    pub open spec fn wf(&self) -> bool {
        keys_unique(self@)
    }

    /// Counts one more sample of the stack, given innermost frame first.
    pub fn record(&mut self, stack: &[StackFrame])
        requires
            old(self).wf(),
            record_fits(old(self)@, collapsed_key(frames_view(stack@))),
        ensures
            final(self)@ == record_model(old(self)@, collapsed_key(frames_view(stack@))),
            final(self).wf(),
    {
        let key = collapsed_key_of(stack);
        let ghost k = key@;
        proof {
            lemma_touch(self@, k, 0int);
        }
        let mut i: usize = 0;
        while i < self.counts.len()
            invariant
                i <= self.counts@.len(),
                self@ == old(self)@,
                keys_unique(self@),
                k == key@,
                k == collapsed_key(frames_view(stack@)),
                record_fits(old(self)@, k),
                forall|j: int| 0 <= j < i ==> self@[j].0 != k,
            decreases self.counts@.len() - i,
        {
            let name = chars_of(self.counts[i].0.as_str());
            if compare_chars(name.as_slice(), key.as_slice()) == 0 {
                proof {
                    lemma_index_of(self@, k, i as int);
                    lemma_set_value(self@, k, self@[i as int].1 + 1);
                }
                self.counts[i].1 = self.counts[i].1 + 1;
                assert(self@ =~= record_model(old(self)@, k));
                return;
            }
            i = i + 1;
        }
        assert(!has_key(self@, k));
        self.counts.push((string_of(key.as_slice()), 1));
        proof {
            let t = old(self)@.push((k, 0int));
            lemma_index_of(t, k, old(self)@.len() as int);
            lemma_set_value(t, k, 1);
        }
        assert(self@ =~= record_model(old(self)@, k));
    }

    /// Whether no stack has been recorded.
    pub fn is_empty(&self) -> (r: bool)
        ensures
            r == (self@.len() == 0),
    {
        self.counts.len() == 0
    }

    /// The collapsed lines, `stack count`, in the order the stacks were first seen.
    pub fn get_lines(&self) -> (lines: Vec<String>)
        ensures
            lines@.len() == self@.len(),
            forall|i: int| 0 <= i < lines@.len() ==> (#[trigger] lines@[i])@ == collapsed_line(self@[i]),
    {
        let mut lines: Vec<String> = Vec::new();
        let mut i: usize = 0;
        while i < self.counts.len()
            invariant
                i <= self.counts@.len(),
                lines@.len() == i,
                forall|j: int| 0 <= j < i ==> (#[trigger] lines@[j])@ == collapsed_line(self@[j]),
            decreases self.counts@.len() - i,
        {
            let mut buf = chars_of(self.counts[i].0.as_str());
            buf.push(' ');
            push_dec(&mut buf, self.counts[i].1 as u64);
            lines.push(string_of(buf.as_slice()));
            i = i + 1;
        }
        lines
    }

    /// The collapsed output: each line ended by a line break. When nothing was
    /// recorded this is empty, and the caller warns that no samples were collected.
    pub fn write_collapsed(&self) -> (text: String)
        ensures
            text@ == collapsed_text(self@),
    {
        let mut buf: Vec<char> = Vec::new();
        let mut i: usize = 0;
        while i < self.counts.len()
            invariant
                i <= self.counts@.len(),
                buf@ == collapsed_text(self@.take(i as int)),
            decreases self.counts@.len() - i,
        {
            let name = chars_of(self.counts[i].0.as_str());
            push_chars(&mut buf, name.as_slice());
            buf.push(' ');
            push_dec(&mut buf, self.counts[i].1 as u64);
            buf.push('\n');
            i = i + 1;
            assert(self@.take(i as int).drop_last() =~= self@.take(i - 1));
        }
        assert(self@.take(self@.len() as int) =~= self@);
        string_of(buf.as_slice())
    }

    /// The count recorded for a collapsed stack, if it was seen.
    pub fn get_count(&self, key: &str) -> (r: Option<usize>)
        requires
            self.wf(),
        ensures
            match r {
                Some(n) => has_key(self@, key@) && n == value_of(self@, key@),
                None => !has_key(self@, key@),
            },
    {
        let k = chars_of(key);
        let mut i: usize = 0;
        while i < self.counts.len()
            invariant
                i <= self.counts@.len(),
                keys_unique(self@),
                k@ == key@,
                forall|j: int| 0 <= j < i ==> self@[j].0 != key@,
            decreases self.counts@.len() - i,
        {
            let name = chars_of(self.counts[i].0.as_str());
            if compare_chars(name.as_slice(), k.as_slice()) == 0 {
                proof {
                    lemma_index_of(self@, key@, i as int);
                }
                return Some(self.counts[i].1);
            }
            i = i + 1;
        }
        None
    }
}

/// The count of a stack, as a number.
pub open spec fn count_of(v: int) -> int {
    v
}

/// Recording a stack adds exactly one sample to the counts: the counts always add up
/// to the number of stacks recorded.
pub proof fn law_record_counts_one_sample(c: Seq<(Seq<char>, int)>, key: Seq<char>)
    requires
        keys_unique(c),
    ensures
        sum_by(record_model(c, key), |v: int| count_of(v)) == sum_by(c, |v: int| count_of(v)) + 1,
        keys_unique(record_model(c, key)),
{
    let f = |v: int| count_of(v);
    let t = touch(c, key, 0int);
    lemma_touch(c, key, 0int);
    lemma_sum_by_touch(c, f, key, 0int);
    lemma_sum_by_set_value(t, f, key, value_of(t, key) + 1);
    lemma_set_value(t, key, value_of(t, key) + 1);
}

/// No stack is counted a negative number of times.
pub open spec fn counts_nonneg(c: Seq<(Seq<char>, int)>) -> bool {
    forall|i: int| 0 <= i < c.len() ==> (#[trigger] c[i]).1 >= 0
}

/// After at most `n` stacks, one more fits in the counters, and afterwards at most
/// `n + 1` stacks are counted.
pub proof fn lemma_record_bounded(c: Seq<(Seq<char>, int)>, key: Seq<char>, n: int)
    requires
        keys_unique(c),
        counts_nonneg(c),
        sum_by(c, |v: int| count_of(v)) <= n,
        n + 1 <= usize::MAX,
    ensures
        record_fits(c, key),
        counts_nonneg(record_model(c, key)),
        sum_by(record_model(c, key), |v: int| count_of(v)) <= n + 1,
{
    let f = |v: int| count_of(v);
    lemma_touched_value_le_sum(c, f, key, 0int);
    law_record_counts_one_sample(c, key);
    let t = touch(c, key, 0int);
    lemma_touch(c, key, 0int);
    let i = crate::assoc::index_of(t, key);
    assert(key_at(t, key, i));
    let r = record_model(c, key);
    assert forall|j: int| 0 <= j < r.len() implies (#[trigger] r[j]).1 >= 0 by {
        if j != i {
            assert(r[j] == t[j]);
            if j < c.len() {
                assert(t[j] == c[j]);
            }
        }
    }
}

} // verus!
