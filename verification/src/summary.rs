//! The summary report: for every function (or function and line), the share of
//! samples spent in it alone (`% self`) and with its callees (`% total`).
use vstd::prelude::*;

use crate::clock::{elapsed_since, instant_now};
use crate::assoc::{
    has_key, key_at, keys_unique, lemma_index_of, lemma_set_value, lemma_sum_by_bounds, lemma_sum_by_set_value, lemma_sum_by_touch,
    lemma_touch, set_value, sum_by, touch, value_of,
};
use crate::text::{chars_lt, chars_of, compare_chars, dec, push_chars, push_dec, push_str};
use crate::types::{frame_display, frames_view, FrameView, StackFrame};

verus! {

/// How a function is named when aggregating by function: `name - file:line`.
pub open spec fn name_function(f: FrameView) -> Seq<char> {
    f.name + seq![' ', '-', ' '] + f.relative_path + seq![':'] + dec(f.lineno as nat)
}

/// The distinct elements of `s`, in the order of their first occurrence.
pub open spec fn dedup<A>(s: Seq<A>) -> Seq<A>
    decreases s.len(),
{
    if s.len() == 0 {
        s
    } else {
        let d = dedup(s.drop_last());
        if d.contains(s.last()) {
            d
        } else {
            d.push(s.last())
        }
    }
}

/// The counts with one more sample spent in `n` itself.
pub open spec fn inc_self_model(c: Seq<(Seq<char>, (int, int))>, n: Seq<char>) -> Seq<(Seq<char>, (int, int))> {
    let t = touch(c, n, (0int, 0int));
    set_value(t, n, (value_of(t, n).0 + 1, value_of(t, n).1))
}

/// The counts with one more sample spent in `n` or its callees.
pub open spec fn inc_tot_model(c: Seq<(Seq<char>, (int, int))>, n: Seq<char>) -> Seq<(Seq<char>, (int, int))> {
    let t = touch(c, n, (0int, 0int));
    set_value(t, n, (value_of(t, n).0, value_of(t, n).1 + 1))
}

/// The counts with one more total sample for each of `names`, in order.
pub open spec fn inc_tots(c: Seq<(Seq<char>, (int, int))>, names: Seq<Seq<char>>) -> Seq<(Seq<char>, (int, int))>
    decreases names.len(),
{
    if names.len() == 0 {
        c
    } else {
        inc_tot_model(inc_tots(c, names.drop_last()), names.last())
    }
}

/// The statistics: counts by name and the number of samples.
pub struct SummaryModel {
    pub counts: Seq<(Seq<char>, (int, int))>,
    pub total_traces: int,
}

/// The statistics after one more sample, aggregated by function.
pub open spec fn add_function_name_model(m: SummaryModel, stack: Seq<FrameView>) -> SummaryModel {
    if stack.len() == 0 {
        m
    } else {
        SummaryModel {
            counts: inc_tots(
                inc_self_model(m.counts, name_function(stack[0])),
                dedup(stack.map_values(|f: FrameView| name_function(f))),
            ),
            total_traces: m.total_traces + 1,
        }
    }
}

/// The statistics after one more sample, aggregated by function and line: each
/// distinct frame of the sample adds to the total of its displayed name.
pub open spec fn add_lineno_model(m: SummaryModel, stack: Seq<FrameView>) -> SummaryModel {
    if stack.len() == 0 {
        m
    } else {
        SummaryModel {
            counts: inc_tots(
                inc_self_model(m.counts, frame_display(stack[0])),
                dedup(stack).map_values(|f: FrameView| frame_display(f)),
            ),
            total_traces: m.total_traces + 1,
        }
    }
}

/// One more sample keeps every counter within the machine's counters.
pub open spec fn add_fits(m: SummaryModel, stack_len: int) -> bool {
    &&& m.total_traces + 1 <= u32::MAX
    &&& forall|i: int|
        0 <= i < m.counts.len() ==> (#[trigger] m.counts[i]).1.0 + 1 <= u64::MAX && m.counts[i].1.1
            + stack_len <= u64::MAX
}

/// Self and total samples of one function.
#[derive(Debug, Clone, Copy)]
pub struct Counts {
    pub self_: u64,
    pub total: u64,
}

/// Aggregated samples by name.
#[derive(Debug)]
pub struct Stats {
    counts: Vec<(String, Counts)>,
    start_time: std::time::Instant,
    total_traces: u32,
}

impl View for Stats {
    type V = SummaryModel;

    closed spec fn view(&self) -> SummaryModel {
        SummaryModel {
            counts: self.counts@.map_values(
                |p: (String, Counts)| (p.0@, (p.1.self_ as int, p.1.total as int)),
            ),
            total_traces: self.total_traces as int,
        }
    }
}

/// Keeps the counts keyed uniquely while adding to one name.
proof fn lemma_inc(c: Seq<(Seq<char>, (int, int))>, n: Seq<char>, ds: int, dt: int)
    requires
        keys_unique(c),
    ensures
        keys_unique(set_value(touch(c, n, (0int, 0int)), n, (value_of(touch(c, n, (0int, 0int)), n).0 + ds, value_of(touch(c, n, (0int, 0int)), n).1 + dt))),
{
    let t = touch(c, n, (0int, 0int));
    lemma_touch(c, n, (0int, 0int));
    lemma_set_value(t, n, (value_of(t, n).0 + ds, value_of(t, n).1 + dt));
}

/// Finds or adds the record of `name`; its position.
fn entry_index(counts: &mut Vec<(String, Counts)>, name: &Vec<char>) -> (i: usize)
    requires
        keys_unique(counts_view(old(counts)@)),
    ensures
        counts_view(final(counts)@) == touch(counts_view(old(counts)@), name@, (0int, 0int)),
        key_at(counts_view(final(counts)@), name@, i as int),
        keys_unique(counts_view(final(counts)@)),
{
    proof {
        lemma_touch(counts_view(counts@), name@, (0int, 0int));
    }
    let mut i: usize = 0;
    while i < counts.len()
        invariant
            i <= counts@.len(),
            counts@ == old(counts)@,
            keys_unique(counts_view(old(counts)@)),
            forall|j: int| 0 <= j < i ==> counts_view(counts@)[j].0 != name@,
        decreases counts@.len() - i,
    {
        let k = chars_of(counts[i].0.as_str());
        if compare_chars(k.as_slice(), name.as_slice()) == 0 {
            assert(key_at(counts_view(counts@), name@, i as int));
            return i;
        }
        i = i + 1;
    }
    assert(!has_key(counts_view(counts@), name@));
    let n = counts.len();
    counts.push((crate::text::string_of(name.as_slice()), Counts { self_: 0, total: 0 }));
    assert(counts_view(counts@) =~= counts_view(old(counts)@).push((name@, (0int, 0int))));
    n
}

/// The views of the records.
pub open spec fn counts_view(c: Seq<(String, Counts)>) -> Seq<(Seq<char>, (int, int))> {
    c.map_values(|p: (String, Counts)| (p.0@, (p.1.self_ as int, p.1.total as int)))
}

/// The distinct elements of a list of names, in order of first occurrence.
fn dedup_names(names: &Vec<Vec<char>>) -> (d: Vec<Vec<char>>)
    ensures
        d@.len() == dedup(names@.map_values(|v: Vec<char>| v@)).len(),
        forall|i: int| 0 <= i < d@.len() ==> (#[trigger] d@[i])@ == dedup(names@.map_values(|v: Vec<char>| v@))[i],
{
    let ghost nv = names@.map_values(|v: Vec<char>| v@);
    let mut d: Vec<Vec<char>> = Vec::new();
    let mut i: usize = 0;
    while i < names.len()
        invariant
            i <= names@.len(),
            nv == names@.map_values(|v: Vec<char>| v@),
            d@.len() == dedup(nv.take(i as int)).len(),
            forall|j: int| 0 <= j < d@.len() ==> (#[trigger] d@[j])@ == dedup(nv.take(i as int))[j],
        decreases names@.len() - i,
    {
        let ghost dd = dedup(nv.take(i as int));
        let mut seen = false;
        let mut j: usize = 0;
        while j < d.len()
            invariant
                j <= d@.len(),
                i < names@.len(),
                d@.len() == dd.len(),
                forall|t: int| 0 <= t < d@.len() ==> (#[trigger] d@[t])@ == dd[t],
                seen == exists|t: int| 0 <= t < j && dd[t] == names@[i as int]@,
            decreases d@.len() - j,
        {
            if compare_chars(d[j].as_slice(), names[i].as_slice()) == 0 {
                seen = true;
            }
            j = j + 1;
        }
        let ghost next = nv.take(i + 1);
        assert(next.drop_last() =~= nv.take(i as int));
        assert(next.last() == names@[i as int]@);
        assert(seen == dd.contains(names@[i as int]@));
        if !seen {
            let copy = names[i].clone();
            assert(copy@ == names@[i as int]@);
            d.push(copy);
        }
        i = i + 1;
    }
    assert(nv.take(names@.len() as int) =~= nv);
    d
}

/// The distinct frames of a stack, in order of first occurrence.
fn dedup_frames(frames: &[StackFrame]) -> (d: Vec<StackFrame>)
    ensures
        frames_view(d@) == dedup(frames_view(frames@)),
{
    let ghost fv = frames_view(frames@);
    let mut d: Vec<StackFrame> = Vec::new();
    let mut i: usize = 0;
    while i < frames.len()
        invariant
            i <= frames@.len(),
            fv == frames_view(frames@),
            frames_view(d@) == dedup(fv.take(i as int)),
        decreases frames@.len() - i,
    {
        let ghost dd = dedup(fv.take(i as int));
        let mut seen = false;
        let mut j: usize = 0;
        while j < d.len()
            invariant
                j <= d@.len(),
                i < frames@.len(),
                frames_view(d@) == dd,
                seen == exists|t: int| 0 <= t < j && dd[t] == frames@[i as int]@,
            decreases d@.len() - j,
        {
            if d[j].same_as(&frames[i]) {
                seen = true;
            }
            assert(dd[j as int] == d@[j as int]@);
            j = j + 1;
        }
        let ghost next = fv.take(i + 1);
        assert(next.drop_last() =~= fv.take(i as int));
        assert(next.last() == frames@[i as int]@);
        assert(seen == dd.contains(frames@[i as int]@));
        if !seen {
            d.push(frames[i].duplicate());
            assert(frames_view(d@) =~= dd.push(frames@[i as int]@));
        }
        i = i + 1;
    }
    assert(fv.take(frames@.len() as int) =~= fv);
    d
}

proof fn lemma_inc_tots_fits(c: Seq<(Seq<char>, (int, int))>, names: Seq<Seq<char>>, bound: int)
    requires
        keys_unique(c),
        forall|i: int| 0 <= i < c.len() ==> (#[trigger] c[i]).1.1 + names.len() <= bound,
        names.len() <= bound,
    ensures
        keys_unique(inc_tots(c, names)),
        forall|i: int| 0 <= i < inc_tots(c, names).len() ==> (#[trigger] inc_tots(c, names)[i]).1.1 <= bound,
        forall|i: int| 0 <= i < inc_tots(c, names).len() ==> (#[trigger] inc_tots(c, names)[i]).1.0 <= if i < c.len() { c[i].1.0 } else { 0 },
        inc_tots(c, names).len() >= c.len(),
        forall|i: int| 0 <= i < c.len() ==> (#[trigger] inc_tots(c, names)[i]).0 == c[i].0,
        forall|i: int| 0 <= i < c.len() ==> (#[trigger] inc_tots(c, names)[i]).1.0 == c[i].1.0,
    decreases names.len(),
{
    if names.len() > 0 {
        let p = names.drop_last();
        assert forall|i: int| 0 <= i < c.len() implies (#[trigger] c[i]).1.1 + p.len() <= bound - 1 by {}
        lemma_inc_tots_fits(c, p, bound - 1);
        let d = inc_tots(c, p);
        let n = names.last();
        let t = touch(d, n, (0int, 0int));
        lemma_touch(d, n, (0int, 0int));
        let v = (value_of(t, n).0, value_of(t, n).1 + 1);
        lemma_set_value(t, n, v);
        let r = set_value(t, n, v);
        let k = index_of_in(t, n);
        assert forall|i: int| 0 <= i < r.len() implies (#[trigger] r[i]).1.1 <= bound by {
            if i == k {
                if i < d.len() {
                    assert(t[i] == d[i]);
                }
            } else {
                assert(r[i] == t[i]);
                if i < d.len() {
                    assert(t[i] == d[i]);
                }
            }
        }
        assert forall|i: int| 0 <= i < r.len() implies (#[trigger] r[i]).1.0 <= if i < c.len() { c[i].1.0 } else { 0 } by {
            if i < d.len() {
                assert(t[i] == d[i]);
            }
        }
        assert forall|i: int| 0 <= i < c.len() implies (#[trigger] r[i]).0 == c[i].0 && r[i].1.0 == c[i].1.0 by {
            assert(t[i] == d[i]);
        }
    }
}

spec fn index_of_in(t: Seq<(Seq<char>, (int, int))>, n: Seq<char>) -> int {
    crate::assoc::index_of(t, n)
}

impl Stats {
    const HEADER: &'static str = "% self  % total  name";

    /// Empty statistics.
    pub fn new() -> (s: Stats)
        ensures
            s@.counts.len() == 0,
            s@.total_traces == 0,
            s.wf(),
    {
        let s = Stats { counts: Vec::new(), start_time: instant_now(), total_traces: 0 };
        assert(s@.counts =~= Seq::<(Seq<char>, (int, int))>::empty());
        s
    }

    /// The names are counted once each.
    pub open spec fn wf(&self) -> bool {
        keys_unique(self@.counts)
    }

    /// The header line of the report.
    pub fn header() -> (h: &'static str)
        ensures
            h@ == "% self  % total  name"@,
    {
        Self::HEADER
    }

    fn inc(&mut self, name: &Vec<char>, ds: u64, dt: u64)
        requires
            old(self).wf(),
            value_of(touch(old(self)@.counts, name@, (0int, 0int)), name@).0 + ds <= u64::MAX,
            value_of(touch(old(self)@.counts, name@, (0int, 0int)), name@).1 + dt <= u64::MAX,
        ensures
            final(self)@.counts == set_value(
                touch(old(self)@.counts, name@, (0int, 0int)),
                name@,
                (
                    value_of(touch(old(self)@.counts, name@, (0int, 0int)), name@).0 + ds,
                    value_of(touch(old(self)@.counts, name@, (0int, 0int)), name@).1 + dt,
                ),
            ),
            final(self)@.total_traces == old(self)@.total_traces,
            final(self).wf(),
    {
        proof {
            assert(self@.counts == counts_view(self.counts@));
            lemma_inc(self@.counts, name@, ds as int, dt as int);
        }
        let i = entry_index(&mut self.counts, name);
        proof {
            lemma_index_of(counts_view(self.counts@), name@, i as int);
        }
        let c = self.counts[i].1;
        self.counts[i].1 = Counts { self_: c.self_ + ds, total: c.total + dt };
        assert(self@.counts =~= set_value(
            touch(old(self)@.counts, name@, (0int, 0int)),
            name@,
            (
                value_of(touch(old(self)@.counts, name@, (0int, 0int)), name@).0 + ds,
                value_of(touch(old(self)@.counts, name@, (0int, 0int)), name@).1 + dt,
            ),
        ));
    }

    fn inc_all_totals(&mut self, names: &Vec<Vec<char>>)
        requires
            old(self).wf(),
            forall|i: int| 0 <= i < old(self)@.counts.len() ==> (#[trigger] old(self)@.counts[i]).1.1 + names@.len() <= u64::MAX,
        ensures
            final(self)@.counts == inc_tots(old(self)@.counts, names@.map_values(|v: Vec<char>| v@)),
            final(self)@.total_traces == old(self)@.total_traces,
            final(self).wf(),
    {
        let ghost nv = names@.map_values(|v: Vec<char>| v@);
        let mut i: usize = 0;
        while i < names.len()
            invariant
                i <= names@.len(),
                nv == names@.map_values(|v: Vec<char>| v@),
                self.wf(),
                self@.counts == inc_tots(old(self)@.counts, nv.take(i as int)),
                self@.total_traces == old(self)@.total_traces,
                keys_unique(old(self)@.counts),
                forall|k: int| 0 <= k < old(self)@.counts.len() ==> (#[trigger] old(self)@.counts[k]).1.1 + names@.len() <= u64::MAX,
            decreases names@.len() - i,
        {
            proof {
                lemma_inc_tots_fits(old(self)@.counts, nv.take(i as int), (u64::MAX - (names@.len() - i)) as int);
                let t = touch(self@.counts, names@[i as int]@, (0int, 0int));
                lemma_touch(self@.counts, names@[i as int]@, (0int, 0int));
                let k = crate::assoc::index_of(t, names@[i as int]@);
                assert(key_at(t, names@[i as int]@, k));
                if k < self@.counts.len() {
                    assert(t[k] == self@.counts[k]);
                }
            }
            self.inc(&names[i], 0, 1);
            i = i + 1;
            assert(nv.take(i as int).drop_last() =~= nv.take(i - 1));
        }
        assert(nv.take(names@.len() as int) =~= nv);
    }

    /// Whether one more sample of `stack_len` frames fits in the counters.
    pub fn add_fits_check(&self, stack_len: usize) -> (b: bool)
        ensures
            b == add_fits(self@, stack_len as int),
    {
        if self.total_traces == u32::MAX {
            return false;
        }
        let mut i: usize = 0;
        while i < self.counts.len()
            invariant
                i <= self.counts@.len(),
                forall|k: int|
                    0 <= k < i ==> (#[trigger] self@.counts[k]).1.0 + 1 <= u64::MAX && self@.counts[k].1.1
                        + stack_len <= u64::MAX,
            decreases self.counts@.len() - i,
        {
            let c = self.counts[i].1;
            if c.self_ == u64::MAX || c.total > u64::MAX - stack_len as u64 {
                assert(self@.counts[i as int].1 == (c.self_ as int, c.total as int));
                return false;
            }
            i = i + 1;
        }
        true
    }

    /// Aggregates a sample, innermost frame first, by function name.
    pub fn add_function_name(&mut self, stack: &[StackFrame])
        requires
            old(self).wf(),
            add_fits(old(self)@, stack@.len() as int),
        ensures
            final(self)@ == add_function_name_model(old(self)@, frames_view(stack@)),
            final(self).wf(),
    {
        if stack.len() == 0 {
            return;
        }
        let ghost fv = frames_view(stack@);
        self.total_traces = self.total_traces + 1;
        let first = name_function_of(&stack[0]);
        proof {
            let t = touch(self@.counts, first@, (0int, 0int));
            lemma_touch(self@.counts, first@, (0int, 0int));
            let k = crate::assoc::index_of(t, first@);
            assert(key_at(t, first@, k));
            if k < self@.counts.len() {
                assert(t[k] == self@.counts[k]);
            }
        }
        self.inc(&first, 1, 0);
        let mut names: Vec<Vec<char>> = Vec::new();
        let mut i: usize = 0;
        while i < stack.len()
            invariant
                i <= stack@.len(),
                names@.len() == i,
                forall|j: int| 0 <= j < i ==> (#[trigger] names@[j])@ == name_function(stack@[j]@),
            decreases stack@.len() - i,
        {
            names.push(name_function_of(&stack[i]));
            i = i + 1;
        }
        assert(names@.map_values(|v: Vec<char>| v@) =~= fv.map_values(|f: FrameView| name_function(f)));
        let distinct = dedup_names(&names);
        let ghost dv = distinct@.map_values(|v: Vec<char>| v@);
        assert(dv =~= dedup(fv.map_values(|f: FrameView| name_function(f))));
        proof {
            lemma_dedup_len(fv.map_values(|f: FrameView| name_function(f)));
            lemma_set_value(touch(old(self)@.counts, first@, (0int, 0int)), first@, (0int, 0int));
        }
        self.inc_all_totals(&distinct);
    }

    /// Aggregates a sample, innermost frame first, by function name and line number.
    pub fn add_lineno(&mut self, stack: &[StackFrame])
        requires
            old(self).wf(),
            add_fits(old(self)@, stack@.len() as int),
        ensures
            final(self)@ == add_lineno_model(old(self)@, frames_view(stack@)),
            final(self).wf(),
    {
        if stack.len() == 0 {
            return;
        }
        let ghost fv = frames_view(stack@);
        self.total_traces = self.total_traces + 1;
        let mut first: Vec<char> = Vec::new();
        stack[0].push_display(&mut first);
        assert(first@ =~= frame_display(fv[0]));
        proof {
            let t = touch(self@.counts, first@, (0int, 0int));
            lemma_touch(self@.counts, first@, (0int, 0int));
            let k = crate::assoc::index_of(t, first@);
            assert(key_at(t, first@, k));
            if k < self@.counts.len() {
                assert(t[k] == self@.counts[k]);
            }
        }
        self.inc(&first, 1, 0);
        let frames = dedup_frames(stack);
        let mut names: Vec<Vec<char>> = Vec::new();
        let mut i: usize = 0;
        while i < frames.len()
            invariant
                i <= frames@.len(),
                names@.len() == i,
                forall|j: int| 0 <= j < i ==> (#[trigger] names@[j])@ == frame_display(frames@[j]@),
            decreases frames@.len() - i,
        {
            let mut n: Vec<char> = Vec::new();
            frames[i].push_display(&mut n);
            assert(n@ =~= frame_display(frames@[i as int]@));
            names.push(n);
            i = i + 1;
        }
        assert(names@.map_values(|v: Vec<char>| v@) =~= dedup(fv).map_values(|f: FrameView| frame_display(f)));
        proof {
            lemma_dedup_len(fv);
        }
        self.inc_all_totals(&names);
    }

    /// The time since the statistics were created, as the machine's clock reads it.
    pub fn elapsed_time(&self) -> std::time::Duration {
        elapsed_since(&self.start_time)
    }

    /// The number of samples aggregated.
    pub fn total_traces(&self) -> (n: u32)
        ensures
            n == self@.total_traces,
    {
        self.total_traces
    }
}

proof fn lemma_dedup_len<A>(s: Seq<A>)
    ensures
        dedup(s).len() <= s.len(),
    decreases s.len(),
{
    if s.len() > 0 {
        lemma_dedup_len(s.drop_last());
    }
}

/// The name of a frame when aggregating by function.
pub fn name_function_of(f: &StackFrame) -> (n: Vec<char>)
    ensures
        n@ == name_function(f@),
{
    let mut buf = chars_of(f.name.as_str());
    buf.push(' ');
    buf.push('-');
    buf.push(' ');
    let rel = chars_of(f.relative_path.as_str());
    push_chars(&mut buf, rel.as_slice());
    buf.push(':');
    push_dec(&mut buf, f.lineno as u64);
    assert(buf@ =~= name_function(f@));
    buf
}


// ----------------------------------------------------------------------------------------
// The rows of the report
// ----------------------------------------------------------------------------------------

/// A row of the report: self samples, total samples, name.
pub type RowModel = (int, int, Seq<char>);

/// The order of rows: by self samples, then total samples, then name.
pub open spec fn row_lt(a: RowModel, b: RowModel) -> bool {
    ||| a.0 < b.0
    ||| (a.0 == b.0 && a.1 < b.1)
    ||| (a.0 == b.0 && a.1 == b.1 && chars_lt(a.2, b.2))
}

/// The row of a record.
pub open spec fn entry_row(e: (Seq<char>, (int, int))) -> RowModel {
    (e.1.0, e.1.1, e.0)
}

/// Every row comes before the one ahead of it: the most samples first.
pub open spec fn sorted_desc(rows: Seq<RowModel>) -> bool {
    forall|i: int, j: int| 0 <= i < j < rows.len() ==> row_lt(#[trigger] rows[j], #[trigger] rows[i])
}

/// `rows` are the rows of `counts`, each once.
pub open spec fn rows_of(rows: Seq<RowModel>, counts: Seq<(Seq<char>, (int, int))>) -> bool {
    &&& rows.len() == counts.len()
    &&& forall|i: int| 0 <= i < rows.len() ==> counts.map_values(|e: (Seq<char>, (int, int))| entry_row(e)).contains(#[trigger] rows[i])
    &&& forall|k: int| 0 <= k < counts.len() ==> rows.contains(entry_row(#[trigger] counts[k]))
}

/// A row as printed: the name cut to at most `width` characters.
pub open spec fn shown_row(r: RowModel, width: int) -> RowModel {
    (r.0, r.1, if r.2.len() <= width { r.2 } else { r.2.take(width) })
}

/// A row of the summary report.
#[derive(Debug, Clone)]
pub struct SummaryRow {
    pub self_: u64,
    pub total: u64,
    pub name: String,
}

proof fn lemma_row_lt(a: RowModel, b: RowModel, c: RowModel)
    ensures
        !row_lt(a, a),
        !(row_lt(a, b) && row_lt(b, a)),
        row_lt(a, b) || row_lt(b, a) || a == b,
        row_lt(a, b) && row_lt(b, c) ==> row_lt(a, c),
{
    crate::text::lemma_chars_lt_total(a.2, b.2);
    crate::text::lemma_chars_lt_total(a.2, a.2);
    if row_lt(a, b) && row_lt(b, c) && a.0 == b.0 && b.0 == c.0 && a.1 == b.1 && b.1 == c.1 {
        crate::text::lemma_chars_lt_transitive(a.2, b.2, c.2);
    }
}

/// Compares rows: -1 when `a` comes first, 0 when equal, 1 otherwise.
fn compare_rows(a: &(u64, u64, Vec<char>), b: &(u64, u64, Vec<char>)) -> (r: i8)
    ensures
        r == -1 <==> row_lt((a.0 as int, a.1 as int, a.2@), (b.0 as int, b.1 as int, b.2@)),
        r == 1 <==> row_lt((b.0 as int, b.1 as int, b.2@), (a.0 as int, a.1 as int, a.2@)),
        r == 0 <==> (a.0 == b.0 && a.1 == b.1 && a.2@ == b.2@),
{
    proof {
        crate::text::lemma_chars_lt_total(a.2@, b.2@);
    }
    if a.0 < b.0 {
        -1
    } else if a.0 > b.0 {
        1
    } else if a.1 < b.1 {
        -1
    } else if a.1 > b.1 {
        1
    } else {
        compare_chars(a.2.as_slice(), b.2.as_slice())
    }
}

/// The model of an executable row.
pub open spec fn row_of(r: (u64, u64, Vec<char>)) -> RowModel {
    (r.0 as int, r.1 as int, r.2@)
}

impl Stats {
    /// The rows of the report, most samples first: at most `top` rows (all when
    /// `None`), each name cut to `truncate - 17` characters (no cut when `None`).
    pub fn report_rows(&self, top: Option<usize>, truncate: Option<usize>) -> (rows: Vec<SummaryRow>)
        requires
            self.wf(),
            truncate matches Some(t) ==> t >= 17,
        ensures
            exists|all: Seq<RowModel>|
                sorted_desc(all) && rows_of(all, self@.counts) && rows@.len() == (if all.len() < (match top { Some(n) => n as int, None => 65535 }) { all.len() as int } else { match top { Some(n) => n as int, None => 65535 } })
                && forall|i: int| 0 <= i < rows@.len() ==> (#[trigger] rows@[i]).self_ as int == all[i].0 && rows@[i].total as int == all[i].1 && rows@[i].name@ == shown_row(all[i], match truncate { Some(t) => t - 17, None => 65535 - 17 }).2,
    {
        let ghost top_in = top;
        let top = match top {
            Some(n) => n,
            None => 65535,
        };
        let width = match truncate {
            Some(t) => t - 17,
            None => 65535 - 17,
        };
        let ghost counts = self@.counts;
        let mut sorted: Vec<(u64, u64, Vec<char>)> = Vec::new();
        let mut i: usize = 0;
        while i < self.counts.len()
            invariant
                i <= self.counts@.len(),
                counts == self@.counts,
                counts == counts_view(self.counts@),
                keys_unique(counts),
                sorted_desc(rows_view(sorted@)),
                rows_of(rows_view(sorted@), counts.take(i as int)),
            decreases self.counts@.len() - i,
        {
            let ghost old_rows = rows_view(sorted@);
            let row = (self.counts[i].1.self_, self.counts[i].1.total, chars_of(self.counts[i].0.as_str()));
            let ghost x = row_of(row);
            assert(x == entry_row(counts[i as int]));
            let ghost co = counts.take(i as int);
            let ghost em = |e: (Seq<char>, (int, int))| entry_row(e);
            assert forall|j: int| 0 <= j < old_rows.len() implies #[trigger] old_rows[j] != x by {
                assert(co.map_values(em).contains(old_rows[j]));
                let k = choose|k: int| 0 <= k < co.map_values(em).len() && co.map_values(em)[k] == old_rows[j];
                assert(co[k] == counts[k]);
                if old_rows[j] == x {
                    assert(counts[k].0 == counts[i as int].0);
                }
            }
            let p = insert_desc(&mut sorted, row);
            proof {
                let new_rows = rows_view(sorted@);
                let ci = counts.take(i + 1);
                assert forall|j: int| 0 <= j < new_rows.len() implies ci.map_values(em).contains(#[trigger] new_rows[j]) by {
                    let y = new_rows[j];
                    if j == p {
                        assert(ci.map_values(em)[i as int] == y);
                    } else {
                        let jj = if j < p { j } else { j - 1 };
                        assert(y == old_rows[jj]);
                        assert(co.map_values(em).contains(y));
                        let k = choose|k: int| 0 <= k < co.map_values(em).len() && co.map_values(em)[k] == y;
                        assert(ci.map_values(em)[k] == co.map_values(em)[k]);
                    }
                }
                assert forall|k: int| 0 <= k < ci.len() implies new_rows.contains(entry_row(#[trigger] ci[k])) by {
                    if k < i {
                        assert(ci[k] == co[k]);
                        assert(old_rows.contains(entry_row(co[k])));
                        let j = choose|j: int| 0 <= j < old_rows.len() && old_rows[j] == entry_row(co[k]);
                        if j < p {
                            assert(new_rows[j] == old_rows[j]);
                        } else {
                            assert(new_rows[j + 1] == old_rows[j]);
                        }
                    } else {
                        assert(new_rows[p as int] == x);
                    }
                }
                assert(new_rows.len() == ci.len());
                assert(rows_of(new_rows, ci));
            }
            i = i + 1;
        }
        assert(counts.take(self.counts@.len() as int) =~= counts);
        let ghost all = rows_view(sorted@);
        let mut rows: Vec<SummaryRow> = Vec::new();
        let mut k: usize = 0;
        while k < sorted.len() && k < top
            invariant
                k <= sorted@.len(),
                all == rows_view(sorted@),
                k <= top,
                top == (match top_in { Some(n) => n, None => 65535 }),
                rows@.len() == k,
                forall|j: int| 0 <= j < k ==> (#[trigger] rows@[j]).self_ as int == all[j].0 && rows@[j].total as int == all[j].1 && rows@[j].name@ == shown_row(all[j], width as int).2,
            decreases sorted@.len() - k,
        {
            let name = &sorted[k].2;
            let shown = if name.len() <= width {
                crate::text::string_of(name.as_slice())
            } else {
                crate::text::string_of(&name.as_slice()[0..width])
            };
            rows.push(SummaryRow { self_: sorted[k].0, total: sorted[k].1, name: shown });
            k = k + 1;
        }
        assert(sorted_desc(all) && rows_of(all, self@.counts));
        assert(rows@.len() == (if all.len() < (match top_in { Some(n) => n as int, None => 65535 }) { all.len() as int } else { match top_in { Some(n) => n as int, None => 65535 } }));
        assert(forall|i: int| 0 <= i < rows@.len() ==> (#[trigger] rows@[i]).self_ as int == all[i].0 && rows@[i].total as int == all[i].1 && rows@[i].name@ == shown_row(all[i], match truncate { Some(t) => t - 17, None => 65535 - 17 }).2);
        rows
    }
}

/// The models of executable rows.
pub open spec fn rows_view(s: Seq<(u64, u64, Vec<char>)>) -> Seq<RowModel> {
    s.map_values(|r: (u64, u64, Vec<char>)| row_of(r))
}

/// Files `row` into rows sorted most samples first; its position.
fn insert_desc(sorted: &mut Vec<(u64, u64, Vec<char>)>, row: (u64, u64, Vec<char>)) -> (p: usize)
    requires
        sorted_desc(rows_view(old(sorted)@)),
        forall|j: int| 0 <= j < old(sorted)@.len() ==> #[trigger] rows_view(old(sorted)@)[j] != row_of(row),
    ensures
        p <= old(sorted)@.len(),
        rows_view(final(sorted)@) == rows_view(old(sorted)@).insert(p as int, row_of(row)),
        sorted_desc(rows_view(final(sorted)@)),
{
    let ghost old_rows = rows_view(sorted@);
    let ghost x = row_of(row);
    let mut p: usize = 0;
    while p < sorted.len() && compare_rows(&sorted[p], &row) != -1
        invariant
            p <= sorted@.len(),
            sorted@ == old(sorted)@,
            old_rows == rows_view(sorted@),
            x == row_of(row),
            forall|j: int| 0 <= j < p ==> !row_lt(#[trigger] old_rows[j], x),
        decreases sorted@.len() - p,
    {
        p = p + 1;
    }
    proof {
        assert forall|j: int| 0 <= j < p implies row_lt(x, #[trigger] old_rows[j]) by {
            lemma_row_lt(old_rows[j], x, x);
        }
    }
    sorted.insert(p, row);
    let ghost new_rows = rows_view(sorted@);
    assert(new_rows =~= old_rows.insert(p as int, x));
    proof {
        assert forall|a: int, b: int| 0 <= a < b < new_rows.len() implies row_lt(#[trigger] new_rows[b], #[trigger] new_rows[a]) by {
            if b < p {
                assert(new_rows[a] == old_rows[a] && new_rows[b] == old_rows[b]);
            } else if b == p {
                assert(new_rows[a] == old_rows[a]);
            } else if a == p {
                assert(new_rows[b] == old_rows[b - 1]);
                assert(row_lt(old_rows[p as int], x));
                if b - 1 > p {
                    assert(row_lt(old_rows[b - 1], old_rows[p as int]));
                    lemma_row_lt(old_rows[b - 1], old_rows[p as int], x);
                }
            } else if a < p {
                assert(new_rows[a] == old_rows[a] && new_rows[b] == old_rows[b - 1]);
                assert(row_lt(old_rows[b - 1], old_rows[a]));
            } else {
                assert(new_rows[a] == old_rows[a - 1] && new_rows[b] == old_rows[b - 1]);
            }
        }
    }
    p
}
/// The samples spent in a name itself.
pub open spec fn self_count(v: (int, int)) -> int {
    v.0
}

/// The samples spent in all names themselves.
pub open spec fn self_total(c: Seq<(Seq<char>, (int, int))>) -> int {
    sum_by(c, |v: (int, int)| self_count(v))
}

/// Adding to the totals leaves the samples spent in the names themselves alone.
proof fn lemma_inc_tots_self(c: Seq<(Seq<char>, (int, int))>, names: Seq<Seq<char>>)
    requires
        keys_unique(c),
    ensures
        self_total(inc_tots(c, names)) == self_total(c),
        keys_unique(inc_tots(c, names)),
    decreases names.len(),
{
    if names.len() > 0 {
        lemma_inc_tots_self(c, names.drop_last());
        let c1 = inc_tots(c, names.drop_last());
        let n = names.last();
        let f = |v: (int, int)| self_count(v);
        let t = touch(c1, n, (0int, 0int));
        lemma_touch(c1, n, (0int, 0int));
        lemma_sum_by_touch(c1, f, n, (0int, 0int));
        lemma_sum_by_set_value(t, f, n, (value_of(t, n).0, value_of(t, n).1 + 1));
        lemma_set_value(t, n, (value_of(t, n).0, value_of(t, n).1 + 1));
    }
}

/// One more sample of `n` itself adds one to the samples spent in the names themselves.
proof fn lemma_inc_self_total(c: Seq<(Seq<char>, (int, int))>, n: Seq<char>)
    requires
        keys_unique(c),
    ensures
        self_total(inc_self_model(c, n)) == self_total(c) + 1,
        keys_unique(inc_self_model(c, n)),
{
    let f = |v: (int, int)| self_count(v);
    let t = touch(c, n, (0int, 0int));
    lemma_touch(c, n, (0int, 0int));
    lemma_sum_by_touch(c, f, n, (0int, 0int));
    lemma_sum_by_set_value(t, f, n, (value_of(t, n).0 + 1, value_of(t, n).1));
    lemma_set_value(t, n, (value_of(t, n).0 + 1, value_of(t, n).1));
}

/// Every sample is spent in exactly one name itself: the `% self` column adds up to
/// all samples, whichever way the samples are aggregated.
pub proof fn law_self_counts_add_up(m: SummaryModel, stack: Seq<FrameView>)
    requires
        keys_unique(m.counts),
        self_total(m.counts) == m.total_traces,
    ensures
        self_total(add_function_name_model(m, stack).counts) == add_function_name_model(m, stack).total_traces,
        self_total(add_lineno_model(m, stack).counts) == add_lineno_model(m, stack).total_traces,
{
    if stack.len() > 0 {
        let a = inc_self_model(m.counts, name_function(stack[0]));
        lemma_inc_self_total(m.counts, name_function(stack[0]));
        lemma_inc_tots_self(a, dedup(stack.map_values(|f: FrameView| name_function(f))));
        let b = inc_self_model(m.counts, frame_display(stack[0]));
        lemma_inc_self_total(m.counts, frame_display(stack[0]));
        lemma_inc_tots_self(b, dedup(stack).map_values(|f: FrameView| frame_display(f)));
    }
}

/// The samples spent in a name or its callees.
pub open spec fn total_count(v: (int, int)) -> int {
    v.1
}

/// The samples spent in all names or their callees, added up.
pub open spec fn totals_sum(c: Seq<(Seq<char>, (int, int))>) -> int {
    sum_by(c, |v: (int, int)| total_count(v))
}

/// No name counts a negative number of samples.
pub open spec fn counts_nonneg(c: Seq<(Seq<char>, (int, int))>) -> bool {
    forall|i: int| 0 <= i < c.len() ==> (#[trigger] c[i]).1.0 >= 0 && c[i].1.1 >= 0
}

/// Adding `ds` samples to a name itself and `dt` to its total.
proof fn lemma_inc_bounded(c: Seq<(Seq<char>, (int, int))>, n: Seq<char>, ds: int, dt: int)
    requires
        keys_unique(c),
        counts_nonneg(c),
        ds >= 0,
        dt >= 0,
    ensures
        ({
            let t = touch(c, n, (0int, 0int));
            let r = set_value(t, n, (value_of(t, n).0 + ds, value_of(t, n).1 + dt));
            &&& keys_unique(r)
            &&& counts_nonneg(r)
            &&& self_total(r) == self_total(c) + ds
            &&& totals_sum(r) == totals_sum(c) + dt
        }),
{
    let t = touch(c, n, (0int, 0int));
    let v = value_of(t, n);
    let nv = (v.0 + ds, v.1 + dt);
    lemma_touch(c, n, (0int, 0int));
    lemma_set_value(t, n, nv);
    let fs = |v: (int, int)| self_count(v);
    let ft = |v: (int, int)| total_count(v);
    lemma_sum_by_touch(c, fs, n, (0int, 0int));
    lemma_sum_by_touch(c, ft, n, (0int, 0int));
    lemma_sum_by_set_value(t, fs, n, nv);
    lemma_sum_by_set_value(t, ft, n, nv);
    let i = crate::assoc::index_of(t, n);
    assert(key_at(t, n, i));
    let r = set_value(t, n, nv);
    assert(v.0 >= 0 && v.1 >= 0) by {
        if i < c.len() {
            assert(t[i] == c[i]);
        }
    }
    assert forall|j: int| 0 <= j < r.len() implies (#[trigger] r[j]).1.0 >= 0 && r[j].1.1 >= 0 by {
        if j != i {
            assert(r[j] == t[j]);
            if j < c.len() {
                assert(t[j] == c[j]);
            }
        }
    }
}

/// Adding to the totals of `names` adds their number to the sum of the totals.
proof fn lemma_inc_tots_bounded(c: Seq<(Seq<char>, (int, int))>, names: Seq<Seq<char>>)
    requires
        keys_unique(c),
        counts_nonneg(c),
    ensures
        keys_unique(inc_tots(c, names)),
        counts_nonneg(inc_tots(c, names)),
        self_total(inc_tots(c, names)) == self_total(c),
        totals_sum(inc_tots(c, names)) == totals_sum(c) + names.len(),
    decreases names.len(),
{
    if names.len() > 0 {
        lemma_inc_tots_bounded(c, names.drop_last());
        lemma_inc_bounded(inc_tots(c, names.drop_last()), names.last(), 0, 1);
    }
}

/// After at most `traces` samples of at most `frames` frames in all, one more sample
/// of `stack` fits in the counters, and the bounds grow by one sample and its frames,
/// whichever way the sample is aggregated.
pub proof fn lemma_add_bounded(m: SummaryModel, stack: Seq<FrameView>, traces: int, frames: int)
    requires
        keys_unique(m.counts),
        counts_nonneg(m.counts),
        self_total(m.counts) == m.total_traces,
        m.total_traces <= traces,
        totals_sum(m.counts) <= frames,
        traces + 1 < u32::MAX,
        frames + stack.len() <= u64::MAX,
    ensures
        add_fits(m, stack.len() as int),
        ({
            let a = add_function_name_model(m, stack);
            &&& keys_unique(a.counts) && counts_nonneg(a.counts)
            &&& self_total(a.counts) == a.total_traces && a.total_traces <= traces + 1
            &&& totals_sum(a.counts) <= frames + stack.len()
        }),
        ({
            let a = add_lineno_model(m, stack);
            &&& keys_unique(a.counts) && counts_nonneg(a.counts)
            &&& self_total(a.counts) == a.total_traces && a.total_traces <= traces + 1
            &&& totals_sum(a.counts) <= frames + stack.len()
        }),
{
    let fs = |v: (int, int)| self_count(v);
    let ft = |v: (int, int)| total_count(v);
    lemma_sum_by_bounds(m.counts, fs);
    lemma_sum_by_bounds(m.counts, ft);
    assert forall|i: int| 0 <= i < m.counts.len() implies (#[trigger] m.counts[i]).1.0 + 1 <= u64::MAX && m.counts[i].1.1
        + stack.len() <= u64::MAX by {
        assert(fs(m.counts[i].1) <= self_total(m.counts));
        assert(ft(m.counts[i].1) <= totals_sum(m.counts));
    }
    if stack.len() > 0 {
        let n1 = name_function(stack[0]);
        lemma_inc_bounded(m.counts, n1, 1, 0);
        let a = inc_self_model(m.counts, n1);
        let names1 = dedup(stack.map_values(|f: FrameView| name_function(f)));
        lemma_dedup_len(stack.map_values(|f: FrameView| name_function(f)));
        lemma_inc_tots_bounded(a, names1);
        let n2 = frame_display(stack[0]);
        lemma_inc_bounded(m.counts, n2, 1, 0);
        let b = inc_self_model(m.counts, n2);
        let names2 = dedup(stack).map_values(|f: FrameView| frame_display(f));
        lemma_dedup_len(stack);
        lemma_inc_tots_bounded(b, names2);
    }
}

} // verus!
