//! Aggregation of stack samples into callgrind statistics: for every function
//! the samples spent in it alone (exclusive), and for every caller/callee pair
//! the number of calls and the samples spent inside the callee (inclusive).
use vstd::prelude::*;

use crate::assoc::{
    has_key, index_of, key_at, keys_unique, lemma_index_of, lemma_set_value, lemma_sum_by_bounds,
    lemma_sum_by_set_value, lemma_sum_by_touch, lemma_touch, lemma_touched_value_le_sum, set_value,
    sum_by, touch, value_of,
};
use crate::types::{frames_view, FrameView, StackFrame};

verus! {

// ----------------------------------------------------------------------------------------
// The model
// ----------------------------------------------------------------------------------------

/// Statistics about one caller/callee pair.
pub struct CallModel {
    pub count: int,
    pub inclusive: int,
}

/// Statistics about one function: its exclusive samples and the calls it made.
pub struct LocModel {
    pub exclusive: int,
    pub calls: Seq<(FrameView, CallModel)>,
}

/// A function on the current stack, with the samples gathered while it was there.
pub struct EntryModel {
    pub frame: FrameView,
    pub exclusive: int,
    pub inclusive: int,
}

/// The statistics: the current stack (root first) and the per-function records.
pub struct StatsModel {
    pub stack: Seq<EntryModel>,
    pub locations: Seq<(FrameView, LocModel)>,
}

pub open spec fn empty_loc() -> LocModel {
    LocModel { exclusive: 0, calls: Seq::empty() }
}

pub open spec fn zero_call() -> CallModel {
    CallModel { count: 0, inclusive: 0 }
}

/// The records with `e` more exclusive samples for `f`.
pub open spec fn add_exclusive_model(
    locs: Seq<(FrameView, LocModel)>,
    f: FrameView,
    e: int,
) -> Seq<(FrameView, LocModel)> {
    let t = touch(locs, f, empty_loc());
    let l = value_of(t, f);
    set_value(t, f, LocModel { exclusive: l.exclusive + e, calls: l.calls })
}

/// The calls with one more call of `f`, which spent `inc` samples.
pub open spec fn bump_call_model(
    calls: Seq<(FrameView, CallModel)>,
    f: FrameView,
    inc: int,
) -> Seq<(FrameView, CallModel)> {
    let t = touch(calls, f, zero_call());
    let c = value_of(t, f);
    set_value(t, f, CallModel { count: c.count + 1, inclusive: c.inclusive + inc })
}

/// The records with one more call from `parent` to `child`, which spent `inc` samples.
pub open spec fn add_inclusive_model(
    locs: Seq<(FrameView, LocModel)>,
    parent: FrameView,
    child: FrameView,
    inc: int,
) -> Seq<(FrameView, LocModel)> {
    let t = touch(locs, parent, empty_loc());
    let l = value_of(t, parent);
    set_value(t, parent, LocModel { exclusive: l.exclusive, calls: bump_call_model(l.calls, child, inc) })
}

/// Adding `e` exclusive samples to `f` stays within the machine's counters.
pub open spec fn add_exclusive_fits(locs: Seq<(FrameView, LocModel)>, f: FrameView, e: int) -> bool {
    value_of(touch(locs, f, empty_loc()), f).exclusive + e <= usize::MAX
}

/// Recording a call from `parent` to `child` stays within the machine's counters.
pub open spec fn add_inclusive_fits(
    locs: Seq<(FrameView, LocModel)>,
    parent: FrameView,
    child: FrameView,
    inc: int,
) -> bool {
    let calls = value_of(touch(locs, parent, empty_loc()), parent).calls;
    let c = value_of(touch(calls, child, zero_call()), child);
    c.count + 1 <= usize::MAX && c.inclusive + inc <= usize::MAX
}

/// Pops the stack down to `keep` entries, moving each popped entry's samples into the
/// records and its inclusive samples into its parent.
pub open spec fn unwind(
    stack: Seq<EntryModel>,
    locs: Seq<(FrameView, LocModel)>,
    keep: nat,
) -> (Seq<EntryModel>, Seq<(FrameView, LocModel)>)
    decreases stack.len(),
{
    if stack.len() <= keep {
        (stack, locs)
    } else {
        let e = stack.last();
        let rest = stack.drop_last();
        let l1 = add_exclusive_model(locs, e.frame, e.exclusive);
        if rest.len() > 0 {
            let p = rest.last();
            unwind(
                rest.update(
                    rest.len() - 1,
                    EntryModel {
                        frame: p.frame,
                        exclusive: p.exclusive,
                        inclusive: p.inclusive + e.inclusive,
                    },
                ),
                add_inclusive_model(l1, p.frame, e.frame, e.inclusive),
                keep,
            )
        } else {
            unwind(rest, l1, keep)
        }
    }
}

/// Every counter that `unwind` touches stays within the machine's counters.
pub open spec fn unwind_fits(
    stack: Seq<EntryModel>,
    locs: Seq<(FrameView, LocModel)>,
    keep: nat,
) -> bool
    decreases stack.len(),
{
    if stack.len() <= keep {
        true
    } else {
        let e = stack.last();
        let rest = stack.drop_last();
        let l1 = add_exclusive_model(locs, e.frame, e.exclusive);
        &&& add_exclusive_fits(locs, e.frame, e.exclusive)
        &&& if rest.len() > 0 {
            let p = rest.last();
            &&& add_inclusive_fits(l1, p.frame, e.frame, e.inclusive)
            &&& p.inclusive + e.inclusive <= usize::MAX
            &&& unwind_fits(
                rest.update(
                    rest.len() - 1,
                    EntryModel {
                        frame: p.frame,
                        exclusive: p.exclusive,
                        inclusive: p.inclusive + e.inclusive,
                    },
                ),
                add_inclusive_model(l1, p.frame, e.frame, e.inclusive),
                keep,
            )
        } else {
            unwind_fits(rest, l1, keep)
        }
    }
}

/// The number of leading stack entries, from `i` on, whose frames agree with `rev`.
pub open spec fn common_from(stack: Seq<EntryModel>, rev: Seq<FrameView>, i: int) -> int
    decreases stack.len() - i,
{
    if 0 <= i < stack.len() && i < rev.len() && stack[i].frame == rev[i] {
        common_from(stack, rev, i + 1)
    } else {
        i
    }
}

/// Fresh stack entries for the frames of `rev` from position `from` on.
pub open spec fn fresh_entries(rev: Seq<FrameView>, from: int) -> Seq<EntryModel> {
    rev.subrange(from, rev.len() as int).map_values(
        |f: FrameView| EntryModel { frame: f, exclusive: 0, inclusive: 0 },
    )
}

/// The stack with one more sample in its innermost entry.
pub open spec fn bump_top(s: Seq<EntryModel>) -> Seq<EntryModel> {
    if s.len() == 0 {
        s
    } else {
        let t = s.last();
        s.update(
            s.len() - 1,
            EntryModel { frame: t.frame, exclusive: t.exclusive + 1, inclusive: t.inclusive + 1 },
        )
    }
}

/// The statistics after one more sample; `sample` lists frames innermost first.
pub open spec fn add_model(m: StatsModel, sample: Seq<FrameView>) -> StatsModel {
    let rev = sample.reverse();
    let k = common_from(m.stack, rev, 0);
    let u = unwind(m.stack, m.locations, k as nat);
    StatsModel { stack: bump_top(u.0 + fresh_entries(rev, k)), locations: u.1 }
}

/// Adding the sample keeps every counter within the machine's counters.
pub open spec fn add_fits(m: StatsModel, sample: Seq<FrameView>) -> bool {
    let rev = sample.reverse();
    let k = common_from(m.stack, rev, 0);
    let u = unwind(m.stack, m.locations, k as nat);
    let s2 = u.0 + fresh_entries(rev, k);
    &&& unwind_fits(m.stack, m.locations, k as nat)
    &&& s2.len() > 0 ==> s2.last().exclusive + 1 <= usize::MAX && s2.last().inclusive + 1
        <= usize::MAX
}

/// The records are keyed uniquely, as are the calls of each.
pub open spec fn locs_wf(locs: Seq<(FrameView, LocModel)>) -> bool {
    &&& keys_unique(locs)
    &&& forall|i: int| 0 <= i < locs.len() ==> keys_unique(#[trigger] locs[i].1.calls)
}

/// The statistics are well formed.
pub open spec fn stats_wf(m: StatsModel) -> bool {
    locs_wf(m.locations)
}

// ----------------------------------------------------------------------------------------
// Facts about the model
// ----------------------------------------------------------------------------------------

/// The sum of the exclusive samples of stack entries.
pub open spec fn stack_exclusive(s: Seq<EntryModel>) -> int
    decreases s.len(),
{
    if s.len() == 0 {
        0
    } else {
        stack_exclusive(s.drop_last()) + s.last().exclusive
    }
}

/// The sum of the exclusive samples of the records.
pub open spec fn locs_exclusive(l: Seq<(FrameView, LocModel)>) -> int
    decreases l.len(),
{
    if l.len() == 0 {
        0
    } else {
        locs_exclusive(l.drop_last()) + l.last().1.exclusive
    }
}

/// All samples counted so far, on the stack or in the records.
pub open spec fn total_exclusive(m: StatsModel) -> int {
    stack_exclusive(m.stack) + locs_exclusive(m.locations)
}

proof fn lemma_stack_exclusive_update(s: Seq<EntryModel>, i: int, x: EntryModel)
    requires
        0 <= i < s.len(),
    ensures
        stack_exclusive(s.update(i, x)) == stack_exclusive(s) - s[i].exclusive + x.exclusive,
    decreases s.len(),
{
    if i == s.len() - 1 {
        assert(s.update(i, x).drop_last() =~= s.drop_last());
    } else {
        lemma_stack_exclusive_update(s.drop_last(), i, x);
        assert(s.update(i, x).drop_last() =~= s.drop_last().update(i, x));
    }
}

proof fn lemma_stack_exclusive_append(a: Seq<EntryModel>, b: Seq<EntryModel>)
    ensures
        stack_exclusive(a + b) == stack_exclusive(a) + stack_exclusive(b),
    decreases b.len(),
{
    if b.len() == 0 {
        assert(a + b =~= a);
    } else {
        lemma_stack_exclusive_append(a, b.drop_last());
        assert((a + b).drop_last() =~= a + b.drop_last());
    }
}

proof fn lemma_fresh_exclusive(rev: Seq<FrameView>, from: int)
    requires
        0 <= from <= rev.len(),
    ensures
        stack_exclusive(fresh_entries(rev, from)) == 0,
        fresh_entries(rev, from).len() == rev.len() - from,
    decreases rev.len() - from,
{
    let f = fresh_entries(rev, from);
    if f.len() > 0 {
        lemma_fresh_exclusive(rev.drop_last(), from);
        assert(f.drop_last() =~= fresh_entries(rev.drop_last(), from));
    }
}

proof fn lemma_locs_exclusive_update(l: Seq<(FrameView, LocModel)>, i: int, x: (FrameView, LocModel))
    requires
        0 <= i < l.len(),
    ensures
        locs_exclusive(l.update(i, x)) == locs_exclusive(l) - l[i].1.exclusive + x.1.exclusive,
    decreases l.len(),
{
    if i == l.len() - 1 {
        assert(l.update(i, x).drop_last() =~= l.drop_last());
    } else {
        lemma_locs_exclusive_update(l.drop_last(), i, x);
        assert(l.update(i, x).drop_last() =~= l.drop_last().update(i, x));
    }
}

proof fn lemma_add_exclusive_model(locs: Seq<(FrameView, LocModel)>, f: FrameView, e: int)
    requires
        locs_wf(locs),
    ensures
        locs_exclusive(add_exclusive_model(locs, f, e)) == locs_exclusive(locs) + e,
        locs_wf(add_exclusive_model(locs, f, e)),
{
    let t = touch(locs, f, empty_loc());
    lemma_touch(locs, f, empty_loc());
    if !has_key(locs, f) {
        assert(t.drop_last() =~= locs);
        assert(locs_exclusive(t) == locs_exclusive(locs));
    }
    let l = value_of(t, f);
    let i = index_of(t, f);
    assert(key_at(t, f, i));
    let nl = LocModel { exclusive: l.exclusive + e, calls: l.calls };
    lemma_set_value(t, f, nl);
    lemma_locs_exclusive_update(t, i, (f, nl));
    let r = set_value(t, f, nl);
    assert forall|j: int| 0 <= j < r.len() implies keys_unique(#[trigger] r[j].1.calls) by {
        if j == i {
        } else {
            assert(r[j] == t[j]);
            if j < locs.len() {
                assert(t[j] == locs[j]);
            }
        }
    }
}

proof fn lemma_add_inclusive_model(
    locs: Seq<(FrameView, LocModel)>,
    parent: FrameView,
    child: FrameView,
    inc: int,
)
    requires
        locs_wf(locs),
    ensures
        locs_exclusive(add_inclusive_model(locs, parent, child, inc)) == locs_exclusive(locs),
        locs_wf(add_inclusive_model(locs, parent, child, inc)),
{
    let t = touch(locs, parent, empty_loc());
    lemma_touch(locs, parent, empty_loc());
    if !has_key(locs, parent) {
        assert(t.drop_last() =~= locs);
        assert(locs_exclusive(t) == locs_exclusive(locs));
    }
    let l = value_of(t, parent);
    let i = index_of(t, parent);
    assert(key_at(t, parent, i));
    assert(keys_unique(l.calls)) by {
        if i < locs.len() {
            assert(t[i] == locs[i]);
        }
    }
    let ct = touch(l.calls, child, zero_call());
    lemma_touch(l.calls, child, zero_call());
    let c = value_of(ct, child);
    lemma_set_value(ct, child, CallModel { count: c.count + 1, inclusive: c.inclusive + inc });
    let nl = LocModel { exclusive: l.exclusive, calls: bump_call_model(l.calls, child, inc) };
    lemma_set_value(t, parent, nl);
    lemma_locs_exclusive_update(t, i, (parent, nl));
    let r = set_value(t, parent, nl);
    assert forall|j: int| 0 <= j < r.len() implies keys_unique(#[trigger] r[j].1.calls) by {
        if j == i {
        } else {
            assert(r[j] == t[j]);
            if j < locs.len() {
                assert(t[j] == locs[j]);
            }
        }
    }
}

/// `unwind` pops down to `keep` entries, leaves their frames alone, keeps the records
/// well formed, and moves exclusive samples from the stack into the records.
pub proof fn lemma_unwind(stack: Seq<EntryModel>, locs: Seq<(FrameView, LocModel)>, keep: nat)
    requires
        locs_wf(locs),
    ensures
        ({
            let u = unwind(stack, locs, keep);
            &&& u.0.len() == if stack.len() <= keep {
                stack.len() as int
            } else {
                keep as int
            }
            &&& forall|j: int| 0 <= j < u.0.len() ==> (#[trigger] u.0[j]).frame == stack[j].frame
            &&& forall|j: int| 0 <= j < u.0.len() - 1 ==> #[trigger] u.0[j] == stack[j]
            &&& locs_wf(u.1)
            &&& stack_exclusive(u.0) + locs_exclusive(u.1) == stack_exclusive(stack)
                + locs_exclusive(locs)
        }),
    decreases stack.len(),
{
    if stack.len() <= keep {
    } else {
        let e = stack.last();
        let rest = stack.drop_last();
        let l1 = add_exclusive_model(locs, e.frame, e.exclusive);
        lemma_add_exclusive_model(locs, e.frame, e.exclusive);
        if rest.len() > 0 {
            let p = rest.last();
            let np = EntryModel {
                frame: p.frame,
                exclusive: p.exclusive,
                inclusive: p.inclusive + e.inclusive,
            };
            let r2 = rest.update(rest.len() - 1, np);
            let l2 = add_inclusive_model(l1, p.frame, e.frame, e.inclusive);
            lemma_add_inclusive_model(l1, p.frame, e.frame, e.inclusive);
            lemma_stack_exclusive_update(rest, rest.len() - 1, np);
            lemma_unwind(r2, l2, keep);
        } else {
            lemma_unwind(rest, l1, keep);
        }
    }
}

/// Conservation of samples: each sample with at least one frame adds exactly one to
/// the exclusive samples counted, over the stack and the records together, and an
/// empty sample adds none.
pub proof fn law_add_counts_one_sample(m: StatsModel, sample: Seq<FrameView>)
    requires
        stats_wf(m),
    ensures
        total_exclusive(add_model(m, sample)) == total_exclusive(m) + if sample.len() > 0 {
            1int
        } else {
            0int
        },
        stats_wf(add_model(m, sample)),
{
    let rev = sample.reverse();
    let k = common_from(m.stack, rev, 0);
    lemma_common_from(m.stack, rev, 0);
    let u = unwind(m.stack, m.locations, k as nat);
    lemma_unwind(m.stack, m.locations, k as nat);
    let fr = fresh_entries(rev, k);
    lemma_fresh_exclusive(rev, k);
    lemma_stack_exclusive_append(u.0, fr);
    let s2 = u.0 + fr;
    if s2.len() > 0 {
        let t = s2.last();
        lemma_stack_exclusive_update(
            s2,
            s2.len() - 1,
            EntryModel { frame: t.frame, exclusive: t.exclusive + 1, inclusive: t.inclusive + 1 },
        );
    }
}

/// `common_from` stays within both sequences, and the frames before it agree.
pub proof fn lemma_common_from(stack: Seq<EntryModel>, rev: Seq<FrameView>, i: int)
    requires
        0 <= i <= stack.len(),
        i <= rev.len(),
    ensures
        i <= common_from(stack, rev, i) <= stack.len(),
        common_from(stack, rev, i) <= rev.len(),
        forall|j: int|
            i <= j < common_from(stack, rev, i) ==> #[trigger] stack[j].frame == rev[j],
    decreases stack.len() - i,
{
    if 0 <= i < stack.len() && i < rev.len() && stack[i].frame == rev[i] {
        lemma_common_from(stack, rev, i + 1);
    }
}

// ----------------------------------------------------------------------------------------
// Bounds on the counters
// ----------------------------------------------------------------------------------------

/// The sum of the inclusive samples of stack entries.
pub open spec fn stack_inclusive(s: Seq<EntryModel>) -> int
    decreases s.len(),
{
    if s.len() == 0 {
        0
    } else {
        stack_inclusive(s.drop_last()) + s.last().inclusive
    }
}

/// The number of calls of a record.
pub open spec fn call_count_of(c: CallModel) -> int {
    c.count
}

/// The inclusive samples of a record of calls.
pub open spec fn call_inclusive_of(c: CallModel) -> int {
    c.inclusive
}

/// All calls made by one function.
pub open spec fn calls_count(l: LocModel) -> int {
    sum_by(l.calls, |c: CallModel| call_count_of(c))
}

/// All inclusive samples of the calls made by one function.
pub open spec fn calls_inclusive(l: LocModel) -> int {
    sum_by(l.calls, |c: CallModel| call_inclusive_of(c))
}

/// All calls recorded.
pub open spec fn locs_calls(locs: Seq<(FrameView, LocModel)>) -> int {
    sum_by(locs, |l: LocModel| calls_count(l))
}

/// All inclusive samples of the calls recorded.
pub open spec fn locs_call_inclusive(locs: Seq<(FrameView, LocModel)>) -> int {
    sum_by(locs, |l: LocModel| calls_inclusive(l))
}

/// No stack entry counts anything negative.
pub open spec fn stack_nonneg(s: Seq<EntryModel>) -> bool {
    forall|i: int| 0 <= i < s.len() ==> (#[trigger] s[i]).exclusive >= 0 && s[i].inclusive >= 0
}

/// No record of calls counts anything negative.
pub open spec fn calls_nonneg(c: Seq<(FrameView, CallModel)>) -> bool {
    forall|i: int| 0 <= i < c.len() ==> (#[trigger] c[i]).1.count >= 0 && c[i].1.inclusive >= 0
}

/// No record counts anything negative.
pub open spec fn locs_nonneg(l: Seq<(FrameView, LocModel)>) -> bool {
    forall|i: int| 0 <= i < l.len() ==> (#[trigger] l[i]).1.exclusive >= 0 && calls_nonneg(l[i].1.calls)
}

/// After `samples` samples of `frames` frames in all, the counters are bounded: the
/// exclusive and inclusive samples on the stack and in the records by the samples,
/// the entries on the stack and the calls recorded by the frames, and the inclusive
/// samples of the calls by the samples for each call.
pub open spec fn counters_bounded(m: StatsModel, samples: int, frames: int) -> bool {
    &&& stack_nonneg(m.stack)
    &&& locs_nonneg(m.locations)
    &&& total_exclusive(m) <= samples
    &&& stack_inclusive(m.stack) <= samples
    &&& m.stack.len() + locs_calls(m.locations) <= frames
    &&& locs_call_inclusive(m.locations) <= samples * locs_calls(m.locations)
}

proof fn lemma_stack_sums(s: Seq<EntryModel>)
    requires
        stack_nonneg(s),
    ensures
        stack_exclusive(s) >= 0,
        stack_inclusive(s) >= 0,
        forall|i: int| 0 <= i < s.len() ==> (#[trigger] s[i]).exclusive <= stack_exclusive(s) && s[i].inclusive
            <= stack_inclusive(s),
    decreases s.len(),
{
    if s.len() > 0 {
        let t = s.drop_last();
        assert forall|i: int| 0 <= i < t.len() implies (#[trigger] t[i]).exclusive >= 0 && t[i].inclusive >= 0 by {
            assert(t[i] == s[i]);
        }
        lemma_stack_sums(t);
        assert(s[s.len() - 1] == s.last());
        assert forall|i: int| 0 <= i < s.len() implies (#[trigger] s[i]).exclusive <= stack_exclusive(s) && s[i].inclusive
            <= stack_inclusive(s) by {
            if i < t.len() {
                assert(t[i] == s[i]);
            }
        }
    }
}

proof fn lemma_stack_inclusive_update(s: Seq<EntryModel>, i: int, x: EntryModel)
    requires
        0 <= i < s.len(),
    ensures
        stack_inclusive(s.update(i, x)) == stack_inclusive(s) - s[i].inclusive + x.inclusive,
    decreases s.len(),
{
    if i == s.len() - 1 {
        assert(s.update(i, x).drop_last() =~= s.drop_last());
    } else {
        lemma_stack_inclusive_update(s.drop_last(), i, x);
        assert(s.update(i, x).drop_last() =~= s.drop_last().update(i, x));
    }
}

proof fn lemma_stack_inclusive_append(a: Seq<EntryModel>, b: Seq<EntryModel>)
    ensures
        stack_inclusive(a + b) == stack_inclusive(a) + stack_inclusive(b),
    decreases b.len(),
{
    if b.len() == 0 {
        assert(a + b =~= a);
    } else {
        lemma_stack_inclusive_append(a, b.drop_last());
        assert((a + b).drop_last() =~= a + b.drop_last());
    }
}

proof fn lemma_fresh_inclusive(rev: Seq<FrameView>, from: int)
    requires
        0 <= from <= rev.len(),
    ensures
        stack_inclusive(fresh_entries(rev, from)) == 0,
        stack_nonneg(fresh_entries(rev, from)),
    decreases rev.len() - from,
{
    let f = fresh_entries(rev, from);
    if f.len() > 0 {
        lemma_fresh_inclusive(rev.drop_last(), from);
        assert(f.drop_last() =~= fresh_entries(rev.drop_last(), from));
    }
}

proof fn lemma_locs_exclusive_bounds(l: Seq<(FrameView, LocModel)>)
    requires
        locs_nonneg(l),
    ensures
        locs_exclusive(l) >= 0,
        forall|i: int| 0 <= i < l.len() ==> (#[trigger] l[i]).1.exclusive <= locs_exclusive(l),
    decreases l.len(),
{
    if l.len() > 0 {
        let t = l.drop_last();
        assert forall|i: int| 0 <= i < t.len() implies (#[trigger] t[i]).1.exclusive >= 0 && calls_nonneg(t[i].1.calls) by {
            assert(t[i] == l[i]);
        }
        lemma_locs_exclusive_bounds(t);
        assert(l[l.len() - 1] == l.last());
        assert forall|i: int| 0 <= i < l.len() implies (#[trigger] l[i]).1.exclusive <= locs_exclusive(l) by {
            if i < t.len() {
                assert(t[i] == l[i]);
            }
        }
    }
}

/// The calls of every record count nothing negative in all.
proof fn lemma_calls_sums(locs: Seq<(FrameView, LocModel)>)
    requires
        locs_nonneg(locs),
    ensures
        forall|j: int| 0 <= j < locs.len() ==> calls_count(#[trigger] locs[j].1) >= 0 && calls_inclusive(locs[j].1) >= 0,
        locs_calls(locs) >= 0,
        locs_call_inclusive(locs) >= 0,
{
    assert forall|j: int| 0 <= j < locs.len() implies calls_count(#[trigger] locs[j].1) >= 0 && calls_inclusive(locs[j].1) >= 0 by {
        let c = locs[j].1.calls;
        assert(calls_nonneg(c));
        lemma_sum_by_bounds(c, |x: CallModel| call_count_of(x));
        lemma_sum_by_bounds(c, |x: CallModel| call_inclusive_of(x));
    }
    lemma_sum_by_bounds(locs, |l: LocModel| calls_count(l));
    lemma_sum_by_bounds(locs, |l: LocModel| calls_inclusive(l));
}

/// The record of `f` after `touch` is one of the records or a fresh one.
proof fn lemma_touched_loc(locs: Seq<(FrameView, LocModel)>, f: FrameView)
    requires
        locs_nonneg(locs),
    ensures
        value_of(touch(locs, f, empty_loc()), f).exclusive >= 0,
        calls_nonneg(value_of(touch(locs, f, empty_loc()), f).calls),
        value_of(touch(locs, f, empty_loc()), f).exclusive <= locs_exclusive(locs),
        locs_nonneg(touch(locs, f, empty_loc())),
        calls_count(value_of(touch(locs, f, empty_loc()), f)) <= locs_calls(locs),
        calls_inclusive(value_of(touch(locs, f, empty_loc()), f)) <= locs_call_inclusive(locs),
{
    let t = touch(locs, f, empty_loc());
    lemma_locs_exclusive_bounds(locs);
    lemma_calls_sums(locs);
    lemma_touched_value_le_sum(locs, |l: LocModel| calls_count(l), f, empty_loc());
    lemma_touched_value_le_sum(locs, |l: LocModel| calls_inclusive(l), f, empty_loc());
    assert(calls_count(empty_loc()) == 0);
    assert(calls_inclusive(empty_loc()) == 0);
    if has_key(locs, f) {
        let i = index_of(locs, f);
        assert(key_at(locs, f, i));
    } else {
        assert(key_at(t, f, locs.len() as int));
        let i = index_of(t, f);
        assert(key_at(t, f, i));
        if i < locs.len() {
            assert(t[i] == locs[i]);
            assert(key_at(locs, f, i));
        }
        assert(calls_nonneg(empty_loc().calls));
        assert forall|j: int| 0 <= j < t.len() implies (#[trigger] t[j]).1.exclusive >= 0 && calls_nonneg(t[j].1.calls) by {
            if j < locs.len() {
                assert(t[j] == locs[j]);
            }
        }
    }
}

/// Adding exclusive samples keeps the counts of calls and the signs.
proof fn lemma_add_exclusive_bounded(locs: Seq<(FrameView, LocModel)>, f: FrameView, e: int)
    requires
        locs_nonneg(locs),
        e >= 0,
    ensures
        locs_nonneg(add_exclusive_model(locs, f, e)),
        locs_calls(add_exclusive_model(locs, f, e)) == locs_calls(locs),
        locs_call_inclusive(add_exclusive_model(locs, f, e)) == locs_call_inclusive(locs),
{
    let t = touch(locs, f, empty_loc());
    lemma_touched_loc(locs, f);
    let l = value_of(t, f);
    let nl = LocModel { exclusive: l.exclusive + e, calls: l.calls };
    let g = |x: LocModel| calls_count(x);
    let h = |x: LocModel| calls_inclusive(x);
    lemma_sum_by_touch(locs, g, f, empty_loc());
    lemma_sum_by_touch(locs, h, f, empty_loc());
    if !has_key(locs, f) {
        assert(key_at(t, f, locs.len() as int));
    }
    lemma_sum_by_set_value(t, g, f, nl);
    lemma_sum_by_set_value(t, h, f, nl);
    let i = index_of(t, f);
    assert(key_at(t, f, i));
    let r = set_value(t, f, nl);
    assert forall|j: int| 0 <= j < r.len() implies (#[trigger] r[j]).1.exclusive >= 0 && calls_nonneg(r[j].1.calls) by {
        if j != i {
            assert(r[j] == t[j]);
        }
    }
}

/// One more call: the calls count one more and the inclusive samples `inc` more.
proof fn lemma_bump_call_bounded(calls: Seq<(FrameView, CallModel)>, child: FrameView, inc: int)
    requires
        calls_nonneg(calls),
        inc >= 0,
    ensures
        calls_nonneg(bump_call_model(calls, child, inc)),
        sum_by(bump_call_model(calls, child, inc), |c: CallModel| call_count_of(c)) == sum_by(calls, |c: CallModel| call_count_of(c)) + 1,
        sum_by(bump_call_model(calls, child, inc), |c: CallModel| call_inclusive_of(c)) == sum_by(calls, |c: CallModel| call_inclusive_of(c)) + inc,
        value_of(touch(calls, child, zero_call()), child).count <= sum_by(calls, |c: CallModel| call_count_of(c)),
        value_of(touch(calls, child, zero_call()), child).inclusive <= sum_by(calls, |c: CallModel| call_inclusive_of(c)),
{
    let fc = |c: CallModel| call_count_of(c);
    let fi = |c: CallModel| call_inclusive_of(c);
    let t = touch(calls, child, zero_call());
    lemma_touched_value_le_sum(calls, fc, child, zero_call());
    lemma_touched_value_le_sum(calls, fi, child, zero_call());
    lemma_sum_by_touch(calls, fc, child, zero_call());
    lemma_sum_by_touch(calls, fi, child, zero_call());
    if !has_key(calls, child) {
        assert(key_at(t, child, calls.len() as int));
    }
    let c = value_of(t, child);
    let nc = CallModel { count: c.count + 1, inclusive: c.inclusive + inc };
    lemma_sum_by_set_value(t, fc, child, nc);
    lemma_sum_by_set_value(t, fi, child, nc);
    let i = index_of(t, child);
    assert(key_at(t, child, i));
    let r = set_value(t, child, nc);
    assert forall|j: int| 0 <= j < r.len() implies (#[trigger] r[j]).1.count >= 0 && r[j].1.inclusive >= 0 by {
        if j != i {
            assert(r[j] == t[j]);
            if j < calls.len() {
                assert(t[j] == calls[j]);
            }
        }
    }
}

/// One more call from `parent` to `child`: the calls recorded count one more, their
/// inclusive samples `inc` more, and the counters it adds to are within those totals.
proof fn lemma_add_inclusive_bounded(locs: Seq<(FrameView, LocModel)>, parent: FrameView, child: FrameView, inc: int)
    requires
        locs_nonneg(locs),
        inc >= 0,
    ensures
        locs_nonneg(add_inclusive_model(locs, parent, child, inc)),
        locs_calls(add_inclusive_model(locs, parent, child, inc)) == locs_calls(locs) + 1,
        locs_call_inclusive(add_inclusive_model(locs, parent, child, inc)) == locs_call_inclusive(locs) + inc,
        value_of(touch(value_of(touch(locs, parent, empty_loc()), parent).calls, child, zero_call()), child).count
            <= locs_calls(locs),
        value_of(touch(value_of(touch(locs, parent, empty_loc()), parent).calls, child, zero_call()), child).inclusive
            <= locs_call_inclusive(locs),
{
    let t = touch(locs, parent, empty_loc());
    lemma_touched_loc(locs, parent);
    let l = value_of(t, parent);
    lemma_bump_call_bounded(l.calls, child, inc);
    let nl = LocModel { exclusive: l.exclusive, calls: bump_call_model(l.calls, child, inc) };
    let g = |x: LocModel| calls_count(x);
    let h = |x: LocModel| calls_inclusive(x);
    lemma_sum_by_touch(locs, g, parent, empty_loc());
    lemma_sum_by_touch(locs, h, parent, empty_loc());
    if !has_key(locs, parent) {
        assert(key_at(t, parent, locs.len() as int));
    }
    lemma_sum_by_set_value(t, g, parent, nl);
    lemma_sum_by_set_value(t, h, parent, nl);
    let i = index_of(t, parent);
    assert(key_at(t, parent, i));
    let r = set_value(t, parent, nl);
    assert forall|j: int| 0 <= j < r.len() implies (#[trigger] r[j]).1.exclusive >= 0 && calls_nonneg(r[j].1.calls) by {
        if j != i {
            assert(r[j] == t[j]);
        }
    }
}

/// Popping the stack stays within the counters and keeps the bounds: the exclusive and
/// inclusive samples do not grow, and each popped entry that becomes a call trades an
/// entry on the stack for a call recorded.
proof fn lemma_unwind_bounded(stack: Seq<EntryModel>, locs: Seq<(FrameView, LocModel)>, keep: nat, samples: int, frames: int)
    requires
        locs_wf(locs),
        stack_nonneg(stack),
        locs_nonneg(locs),
        stack_exclusive(stack) + locs_exclusive(locs) <= samples,
        stack_inclusive(stack) <= samples,
        stack.len() + locs_calls(locs) <= frames,
        locs_call_inclusive(locs) <= samples * locs_calls(locs),
        0 <= samples <= usize::MAX,
        samples * frames <= usize::MAX,
        frames <= usize::MAX,
    ensures
        unwind_fits(stack, locs, keep),
        stack_nonneg(unwind(stack, locs, keep).0),
        locs_nonneg(unwind(stack, locs, keep).1),
        stack_inclusive(unwind(stack, locs, keep).0) <= samples,
        unwind(stack, locs, keep).0.len() + locs_calls(unwind(stack, locs, keep).1) <= frames,
        locs_call_inclusive(unwind(stack, locs, keep).1) <= samples * locs_calls(unwind(stack, locs, keep).1),
    decreases stack.len(),
{
    if stack.len() > keep {
        let e = stack.last();
        let rest = stack.drop_last();
        lemma_stack_sums(stack);
        lemma_locs_exclusive_bounds(locs);
        lemma_calls_sums(locs);
        assert(stack[stack.len() - 1] == e);
        lemma_touched_loc(locs, e.frame);
        assert forall|i: int| 0 <= i < rest.len() implies (#[trigger] rest[i]).exclusive >= 0 && rest[i].inclusive >= 0 by {
            assert(rest[i] == stack[i]);
        }
        let l1 = add_exclusive_model(locs, e.frame, e.exclusive);
        lemma_add_exclusive_model(locs, e.frame, e.exclusive);
        lemma_add_exclusive_bounded(locs, e.frame, e.exclusive);
        lemma_stack_sums(rest);
        if rest.len() > 0 {
            let p = rest.last();
            assert(rest[rest.len() - 1] == p);
            let np = EntryModel { frame: p.frame, exclusive: p.exclusive, inclusive: p.inclusive + e.inclusive };
            let r2 = rest.update(rest.len() - 1, np);
            let l2 = add_inclusive_model(l1, p.frame, e.frame, e.inclusive);
            lemma_add_inclusive_model(l1, p.frame, e.frame, e.inclusive);
            lemma_add_inclusive_bounded(l1, p.frame, e.frame, e.inclusive);
            lemma_stack_exclusive_update(rest, rest.len() - 1, np);
            lemma_stack_inclusive_update(rest, rest.len() - 1, np);
            let c = locs_calls(locs);
            assert(c + 2 <= frames);
            vstd::arithmetic::mul::lemma_mul_inequality(c + 1, frames, samples);
            vstd::arithmetic::mul::lemma_mul_is_commutative(c + 1, samples);
            vstd::arithmetic::mul::lemma_mul_is_commutative(frames, samples);
            vstd::arithmetic::mul::lemma_mul_is_distributive_add(samples, c, 1);
            vstd::arithmetic::mul::lemma_mul_basics(samples);
            assert forall|i: int| 0 <= i < r2.len() implies (#[trigger] r2[i]).exclusive >= 0 && r2[i].inclusive >= 0 by {
                if i < rest.len() - 1 {
                    assert(r2[i] == rest[i]);
                }
            }
            lemma_unwind_bounded(r2, l2, keep, samples, frames);
        } else {
            lemma_unwind_bounded(rest, l1, keep, samples, frames);
        }
    }
}

/// Bounds that hold for some numbers of samples and frames hold for larger numbers too.
pub proof fn lemma_bounded_larger(m: StatsModel, samples: int, frames: int, s2: int, f2: int)
    requires
        counters_bounded(m, samples, frames),
        0 <= samples <= s2,
        frames <= f2,
    ensures
        counters_bounded(m, s2, f2),
{
    lemma_calls_sums(m.locations);
    let c = locs_calls(m.locations);
    vstd::arithmetic::mul::lemma_mul_inequality(samples, s2, c);
}

/// Adding a sample stays within the counters when the bounds leave room for it, and
/// keeps the bounds with one more sample and its frames.
pub proof fn lemma_add_bounded(m: StatsModel, sample: Seq<FrameView>, samples: int, frames: int)
    requires
        stats_wf(m),
        counters_bounded(m, samples, frames),
        samples >= 0,
        (samples + 1) * (frames + sample.len()) <= usize::MAX,
        samples + 1 <= usize::MAX,
        frames + sample.len() <= usize::MAX,
    ensures
        add_fits(m, sample),
        counters_bounded(add_model(m, sample), samples + 1, frames + sample.len()),
        stats_wf(add_model(m, sample)),
{
    let rev = sample.reverse();
    let k = common_from(m.stack, rev, 0);
    lemma_common_from(m.stack, rev, 0);
    assert(frames >= 0) by {
        lemma_calls_sums(m.locations);
    }
    vstd::arithmetic::mul::lemma_mul_upper_bound(samples, samples + 1, frames, frames + sample.len());
    lemma_unwind(m.stack, m.locations, k as nat);
    lemma_unwind_bounded(m.stack, m.locations, k as nat, samples, frames);
    let u = unwind(m.stack, m.locations, k as nat);
    let fr = fresh_entries(rev, k);
    lemma_fresh_exclusive(rev, k);
    lemma_fresh_inclusive(rev, k);
    lemma_stack_exclusive_append(u.0, fr);
    lemma_stack_inclusive_append(u.0, fr);
    let s2 = u.0 + fr;
    assert forall|i: int| 0 <= i < s2.len() implies (#[trigger] s2[i]).exclusive >= 0 && s2[i].inclusive >= 0 by {
        if i < u.0.len() {
            assert(s2[i] == u.0[i]);
        } else {
            assert(s2[i] == fr[i - u.0.len()]);
        }
    }
    lemma_stack_sums(s2);
    lemma_locs_exclusive_bounds(u.1);
    lemma_calls_sums(u.1);
    law_add_counts_one_sample(m, sample);
    if s2.len() > 0 {
        let t = s2.last();
        assert(s2[s2.len() - 1] == t);
        let nt = EntryModel { frame: t.frame, exclusive: t.exclusive + 1, inclusive: t.inclusive + 1 };
        lemma_stack_inclusive_update(s2, s2.len() - 1, nt);
        let b = bump_top(s2);
        assert forall|i: int| 0 <= i < b.len() implies (#[trigger] b[i]).exclusive >= 0 && b[i].inclusive >= 0 by {
            if i < s2.len() - 1 {
                assert(b[i] == s2[i]);
            }
        }
    }
    let c = locs_calls(u.1);
    vstd::arithmetic::mul::lemma_mul_inequality(samples, samples + 1, c);
}

// ----------------------------------------------------------------------------------------
// The executable statistics
// ----------------------------------------------------------------------------------------

/// How often one function called another, and the samples spent in those calls.
#[derive(Debug, Clone, Copy)]
pub struct Call {
    /// How many times has the outer function called the inner one?
    pub count: usize,
    /// How many samples were found inside the inner function (including all
    /// sub-functions), when called by the outer?
    pub inclusive: usize,
}

impl View for Call {
    type V = CallModel;

    open spec fn view(&self) -> CallModel {
        CallModel { count: self.count as int, inclusive: self.inclusive as int }
    }
}

/// Stats about a single function.
#[derive(Debug)]
pub struct Location {
    /// How many samples were found inside this function only, not including calls to
    /// sub-functions?
    pub exclusive: usize,
    /// Data about the calls from this function to other functions.
    pub calls: Vec<(StackFrame, Call)>,
}

/// The views of a list of calls.
pub open spec fn calls_view(c: Seq<(StackFrame, Call)>) -> Seq<(FrameView, CallModel)> {
    c.map_values(|p: (StackFrame, Call)| (p.0@, p.1@))
}

impl View for Location {
    type V = LocModel;

    open spec fn view(&self) -> LocModel {
        LocModel { exclusive: self.exclusive as int, calls: calls_view(self.calls@) }
    }
}

/// The views of a list of records.
pub open spec fn locs_view(l: Seq<(StackFrame, Location)>) -> Seq<(FrameView, LocModel)> {
    l.map_values(|p: (StackFrame, Location)| (p.0@, p.1@))
}

/// Stats about all functions found in the samples.
#[derive(Debug)]
pub struct Locations(pub Vec<(StackFrame, Location)>);

impl View for Locations {
    type V = Seq<(FrameView, LocModel)>;

    open spec fn view(&self) -> Seq<(FrameView, LocModel)> {
        locs_view(self.0@)
    }
}

/// Information about a function currently on the stack.
#[derive(Debug)]
pub struct StackEntry {
    pub frame: StackFrame,
    /// How many samples were found inside this call only?
    pub exclusive: usize,
    /// How many samples were found in this call, and sub-calls?
    pub inclusive: usize,
}

impl View for StackEntry {
    type V = EntryModel;

    open spec fn view(&self) -> EntryModel {
        EntryModel {
            frame: self.frame@,
            exclusive: self.exclusive as int,
            inclusive: self.inclusive as int,
        }
    }
}

/// The views of stack entries.
pub open spec fn entries_view(s: Seq<StackEntry>) -> Seq<EntryModel> {
    s.map_values(|e: StackEntry| e@)
}

/// Tracks statistics about a program being sampled.
#[derive(Debug)]
pub struct Stats {
    /// The current stack, along with tracking information. The root function is at
    /// element zero.
    stack: Vec<StackEntry>,
    /// Overall stats about this program.
    locations: Locations,
}

impl View for Stats {
    type V = StatsModel;

    closed spec fn view(&self) -> StatsModel {
        StatsModel { stack: entries_view(self.stack@), locations: self.locations@ }
    }
}

/// The position of `f` among the calls, adding a zero record if it is new.
fn call_index(calls: &mut Vec<(StackFrame, Call)>, f: &StackFrame) -> (i: usize)
    requires
        keys_unique(calls_view(old(calls)@)),
    ensures
        calls_view(final(calls)@) == touch(calls_view(old(calls)@), f@, zero_call()),
        key_at(calls_view(final(calls)@), f@, i as int),
        keys_unique(calls_view(final(calls)@)),
{
    proof {
        lemma_touch(calls_view(calls@), f@, zero_call());
    }
    let mut i: usize = 0;
    while i < calls.len()
        invariant
            i <= calls@.len(),
            calls@ == old(calls)@,
            keys_unique(calls_view(old(calls)@)),
            forall|j: int| 0 <= j < i ==> calls_view(calls@)[j].0 != f@,
        decreases calls@.len() - i,
    {
        if calls[i].0.same_as(f) {
            assert(key_at(calls_view(calls@), f@, i as int));
            return i;
        }
        i = i + 1;
    }
    assert(!has_key(calls_view(calls@), f@));
    let n = calls.len();
    calls.push((f.duplicate(), Call { count: 0, inclusive: 0 }));
    assert(calls_view(calls@) =~= calls_view(old(calls)@).push((f@, zero_call())));
    n
}

impl Locations {
    /// Gets the position of the record for a frame. If it has never been seen before, an
    /// empty record is added first.
    fn location(&mut self, frame: &StackFrame) -> (i: usize)
        requires
            locs_wf(old(self)@),
        ensures
            final(self)@ == touch(old(self)@, frame@, empty_loc()),
            key_at(final(self)@, frame@, i as int),
            locs_wf(final(self)@),
    {
        proof {
            lemma_touch(self@, frame@, empty_loc());
        }
        let mut i: usize = 0;
        while i < self.0.len()
            invariant
                i <= self.0@.len(),
                self.0@ == old(self).0@,
                locs_wf(old(self)@),
                forall|j: int| 0 <= j < i ==> self@[j].0 != frame@,
            decreases self.0@.len() - i,
        {
            if self.0[i].0.same_as(frame) {
                assert(key_at(self@, frame@, i as int));
                return i;
            }
            i = i + 1;
        }
        assert(!has_key(self@, frame@));
        let n = self.0.len();
        self.0.push((frame.duplicate(), Location { exclusive: 0, calls: Vec::new() }));
        assert(calls_view(Seq::<(StackFrame, Call)>::empty()) =~= Seq::empty());
        assert(self@ =~= old(self)@.push((frame@, empty_loc())));
        proof {
            let s = self@;
            assert forall|j: int| 0 <= j < s.len() implies keys_unique(#[trigger] s[j].1.calls) by {
                if j < old(self)@.len() {
                    assert(s[j] == old(self)@[j]);
                }
            }
        }
        n
    }

    /// Adds the exclusive samples of a popped stack entry to its function's record.
    fn add_exclusive(&mut self, entry: &StackEntry)
        requires
            locs_wf(old(self)@),
            add_exclusive_fits(old(self)@, entry.frame@, entry.exclusive as int),
        ensures
            final(self)@ == add_exclusive_model(old(self)@, entry.frame@, entry.exclusive as int),
            locs_wf(final(self)@),
    {
        let i = self.location(&entry.frame);
        proof {
            lemma_index_of(self@, entry.frame@, i as int);
            lemma_add_exclusive_model(old(self)@, entry.frame@, entry.exclusive as int);
        }
        let ghost t = self@;
        self.0[i].1.exclusive = self.0[i].1.exclusive + entry.exclusive;
        assert(self@ =~= add_exclusive_model(old(self)@, entry.frame@, entry.exclusive as int));
    }

    /// Adds one call from `parent` to the function of `child`, with its inclusive samples.
    fn add_inclusive(&mut self, parent: &StackFrame, child: &StackEntry)
        requires
            locs_wf(old(self)@),
            add_inclusive_fits(old(self)@, parent@, child.frame@, child.inclusive as int),
        ensures
            final(self)@ == add_inclusive_model(
                old(self)@,
                parent@,
                child.frame@,
                child.inclusive as int,
            ),
            locs_wf(final(self)@),
    {
        let i = self.location(parent);
        let ghost t = self@;
        proof {
            lemma_index_of(t, parent@, i as int);
            lemma_add_inclusive_model(old(self)@, parent@, child.frame@, child.inclusive as int);
            assert(keys_unique(t[i as int].1.calls));
        }
        let j = call_index(&mut self.0[i].1.calls, &child.frame);
        let ghost ct = calls_view(self.0@[i as int].1.calls@);
        proof {
            lemma_index_of(ct, child.frame@, j as int);
        }
        self.0[i].1.calls[j].1.count = self.0[i].1.calls[j].1.count + 1;
        self.0[i].1.calls[j].1.inclusive = self.0[i].1.calls[j].1.inclusive + child.inclusive;
        assert(calls_view(self.0@[i as int].1.calls@) =~= bump_call_model(
            t[i as int].1.calls,
            child.frame@,
            child.inclusive as int,
        ));
        assert(self@ =~= add_inclusive_model(
            old(self)@,
            parent@,
            child.frame@,
            child.inclusive as int,
        ));
    }
}


impl Stats {
    /// Creates an empty stats tracker.
    pub fn new() -> (s: Stats)
        ensures
            s@.stack.len() == 0,
            s@.locations.len() == 0,
            stats_wf(s@),
    {
        let s = Stats { stack: Vec::new(), locations: Locations(Vec::new()) };
        assert(s@.stack =~= Seq::empty());
        assert(s@.locations =~= Seq::empty());
        s
    }

    /// Adds a single stack sample, innermost frame first.
    pub fn add(&mut self, stack: &Vec<StackFrame>)
        requires
            stats_wf(old(self)@),
            add_fits(old(self)@, frames_view(stack@)),
        ensures
            final(self)@ == add_model(old(self)@, frames_view(stack@)),
            stats_wf(final(self)@),
    {
        let n = stack.len();
        let ghost sample = frames_view(stack@);
        let ghost rev = sample.reverse();
        assert(rev.len() == n);
        assert forall|j: int| 0 <= j < n implies #[trigger] rev[j] == stack@[n - 1 - j]@ by {}
        // 1. The frames that the previous stack and this one have in common, from the
        // root on, stay as they are.
        let max_common = if self.stack.len() < n {
            self.stack.len()
        } else {
            n
        };
        let mut common: usize = 0;
        while common < max_common && self.stack[common].frame.same_as(&stack[n - 1 - common])
            invariant
                common <= max_common,
                max_common <= self.stack@.len(),
                max_common <= n,
                n == stack@.len(),
                rev == frames_view(stack@).reverse(),
                self@ == old(self)@,
                common_from(self@.stack, rev, 0) == common_from(self@.stack, rev, common as int),
            decreases max_common - common,
        {
            assert(self@.stack[common as int].frame == rev[common as int]);
            common = common + 1;
        }
        proof {
            if common < max_common {
                assert(self@.stack[common as int].frame != rev[common as int]);
            }
            assert(common_from(self@.stack, rev, common as int) == common);
        }
        // 2. Entries only on the previous stack are popped, and their samples go into
        // the records; inclusive samples also go to the parent.
        let ghost target = unwind(self@.stack, self@.locations, common as nat);
        proof {
            lemma_unwind(self@.stack, self@.locations, common as nat);
        }
        while self.stack.len() > common
            invariant
                unwind(self@.stack, self@.locations, common as nat) == target,
                unwind_fits(self@.stack, self@.locations, common as nat),
                locs_wf(self@.locations),
                common <= n,
            decreases self.stack@.len(),
        {
            let ghost before = self@;
            let entry = self.stack.pop().unwrap();
            assert(entry@ == before.stack.last());
            assert(self@.stack =~= before.stack.drop_last());
            self.locations.add_exclusive(&entry);
            let m = self.stack.len();
            if m > 0 {
                self.locations.add_inclusive(&self.stack[m - 1].frame, &entry);
                self.stack[m - 1].inclusive = self.stack[m - 1].inclusive + entry.inclusive;
                assert(self@.stack =~= before.stack.drop_last().update(
                    m - 1,
                    EntryModel {
                        frame: before.stack[m - 1].frame,
                        exclusive: before.stack[m - 1].exclusive,
                        inclusive: before.stack[m - 1].inclusive + entry.inclusive,
                    },
                ));
            }
        }
        proof {
            lemma_unwind(old(self)@.stack, old(self)@.locations, common as nat);
        }
        // 3. Frames only on the new stack are pushed.
        let mut i: usize = common;
        while i < n
            invariant
                common <= i <= n,
                n == stack@.len(),
                rev == frames_view(stack@).reverse(),
                rev.len() == n,
                self@.stack == target.0 + fresh_entries(rev, common as int).take(
                    i - common,
                ),
                self@.locations == target.1,
                locs_wf(self@.locations),
            decreases n - i,
        {
            let ghost before = self@.stack;
            let f = stack[n - 1 - i].duplicate();
            assert(f@ == rev[i as int]);
            self.stack.push(StackEntry { frame: f, exclusive: 0, inclusive: 0 });
            i = i + 1;
            assert(fresh_entries(rev, common as int).take(i - common) =~= fresh_entries(
                rev,
                common as int,
            ).take(i - 1 - common).push(EntryModel { frame: rev[i - 1], exclusive: 0, inclusive: 0 }));
            assert(self@.stack =~= before.push(
                EntryModel { frame: rev[i - 1], exclusive: 0, inclusive: 0 },
            ));
        }
        assert(fresh_entries(rev, common as int).take(n - common) =~= fresh_entries(
            rev,
            common as int,
        ));
        // 4. The sample itself counts for the innermost frame.
        let m = self.stack.len();
        if m > 0 {
            let ghost before = self@.stack;
            self.stack[m - 1].exclusive = self.stack[m - 1].exclusive + 1;
            self.stack[m - 1].inclusive = self.stack[m - 1].inclusive + 1;
            assert(self@.stack =~= bump_top(before));
        }
    }

    /// Finishes adding samples: whatever remains on the stack goes into the records.
    pub fn finish(&mut self)
        requires
            stats_wf(old(self)@),
            add_fits(old(self)@, Seq::empty()),
        ensures
            final(self)@ == add_model(old(self)@, Seq::empty()),
            final(self)@.stack.len() == 0,
            stats_wf(final(self)@),
    {
        let empty: Vec<StackFrame> = Vec::new();
        assert(frames_view(empty@) =~= Seq::<FrameView>::empty());
        self.add(&empty);
        proof {
            law_finish_empties_stack(old(self)@);
        }
    }
}

/// Finishing leaves no entry on the stack: all samples are in the records.
pub proof fn law_finish_empties_stack(m: StatsModel)
    requires
        stats_wf(m),
    ensures
        add_model(m, Seq::empty()).stack.len() == 0,
        total_exclusive(add_model(m, Seq::empty())) == total_exclusive(m),
        locs_exclusive(add_model(m, Seq::empty()).locations) == total_exclusive(m),
{
    let rev = Seq::<FrameView>::empty().reverse();
    assert(rev =~= Seq::<FrameView>::empty());
    lemma_common_from(m.stack, rev, 0);
    let k = common_from(m.stack, rev, 0);
    lemma_unwind(m.stack, m.locations, k as nat);
    lemma_fresh_exclusive(rev, k);
    law_add_counts_one_sample(m, Seq::empty());
    let r = add_model(m, Seq::empty());
    assert(r.stack.len() == 0);
    assert(r.stack =~= Seq::<EntryModel>::empty());
}


// ----------------------------------------------------------------------------------------
// Writing the callgrind file
// ----------------------------------------------------------------------------------------

/// `s` with the entry `(k, v)` filed in key order: an entry whose key `k` does not
/// tell apart keeps its key and takes the value `v`. This is how a sorted map
/// collects entries.
pub open spec fn sorted_insert<V>(s: Seq<(FrameView, V)>, k: FrameView, v: V) -> Seq<(FrameView, V)>
    decreases s.len(),
{
    if s.len() == 0 {
        seq![(k, v)]
    } else if crate::types::frame_lt(k, s[0].0) {
        seq![(k, v)] + s
    } else if crate::types::frame_same_place(k, s[0].0) {
        seq![(s[0].0, v)] + s.drop_first()
    } else {
        seq![s[0]] + sorted_insert(s.drop_first(), k, v)
    }
}

/// The entries of `s` collected, in order, into a map sorted by frame.
pub open spec fn sorted_by_frame<V>(s: Seq<(FrameView, V)>) -> Seq<(FrameView, V)>
    decreases s.len(),
{
    if s.len() == 0 {
        s
    } else {
        sorted_insert(sorted_by_frame(s.drop_last()), s.last().0, s.last().1)
    }
}

/// Where `sorted_insert` files an entry, given the first position `p` whose key is not
/// before `k`.
proof fn lemma_sorted_insert_at<V>(s: Seq<(FrameView, V)>, k: FrameView, v: V, p: int)
    requires
        0 <= p <= s.len(),
        forall|j: int|
            0 <= j < p ==> !crate::types::frame_lt(k, #[trigger] s[j].0)
                && !crate::types::frame_same_place(k, s[j].0),
        p < s.len() ==> (crate::types::frame_lt(k, s[p].0) && !crate::types::frame_same_place(
            k,
            s[p].0,
        )) || (crate::types::frame_same_place(k, s[p].0) && !crate::types::frame_lt(k, s[p].0)),
    ensures
        sorted_insert(s, k, v) == if p < s.len() && crate::types::frame_same_place(k, s[p].0) {
            s.take(p) + seq![(s[p].0, v)] + s.skip(p + 1)
        } else {
            s.take(p) + seq![(k, v)] + s.skip(p)
        },
    decreases p,
{
    if p == 0 {
        if s.len() == 0 {
            assert(s.take(0) + seq![(k, v)] + s.skip(0) =~= seq![(k, v)]);
        } else if crate::types::frame_same_place(k, s[0].0) {
            assert(s.take(0) + seq![(s[0].0, v)] + s.skip(1) =~= seq![(s[0].0, v)]
                + s.drop_first());
        } else {
            assert(s.take(0) + seq![(k, v)] + s.skip(0) =~= seq![(k, v)] + s);
        }
    } else {
        let t = s.drop_first();
        assert forall|j: int|
            0 <= j < p - 1 implies !crate::types::frame_lt(k, #[trigger] t[j].0)
            && !crate::types::frame_same_place(k, t[j].0) by {
            assert(t[j] == s[j + 1]);
        }
        assert(!crate::types::frame_lt(k, s[0].0) && !crate::types::frame_same_place(k, s[0].0));
        lemma_sorted_insert_at(t, k, v, p - 1);
        if p < s.len() && crate::types::frame_same_place(k, s[p].0) {
            assert(seq![s[0]] + (t.take(p - 1) + seq![(t[p - 1].0, v)] + t.skip(p)) =~= s.take(
                p,
            ) + seq![(s[p].0, v)] + s.skip(p + 1));
        } else {
            assert(seq![s[0]] + (t.take(p - 1) + seq![(k, v)] + t.skip(p - 1)) =~= s.take(p)
                + seq![(k, v)] + s.skip(p));
        }
    }
}

/// Pairs of positions `(key, value)` into `s`, read as entries.
pub open spec fn picked<T: View>(s: Seq<(StackFrame, T)>, r: Seq<(usize, usize)>) -> Seq<(FrameView, T::V)> {
    r.map_values(|p: (usize, usize)| (s[p.0 as int].0@, s[p.1 as int].1@))
}

/// The entries of `s` by view.
pub open spec fn entries_of<T: View>(s: Seq<(StackFrame, T)>) -> Seq<(FrameView, T::V)> {
    s.map_values(|p: (StackFrame, T)| (p.0@, p.1@))
}

/// Positions in `r` all point into `s`.
pub open spec fn positions_in(r: Seq<(usize, usize)>, n: int) -> bool {
    forall|j: int| 0 <= j < r.len() ==> (#[trigger] r[j]).0 < n && r[j].1 < n
}

/// Files entry `idx` of `s` into the sorted positions `r`.
fn insert_sorted<T: View>(r: &mut Vec<(usize, usize)>, s: &Vec<(StackFrame, T)>, idx: usize)
    requires
        idx < s@.len(),
        positions_in(old(r)@, s@.len() as int),
    ensures
        positions_in(final(r)@, s@.len() as int),
        picked(s@, final(r)@) == sorted_insert(picked(s@, old(r)@), s@[idx as int].0@, s@[idx as int].1@),
{
    let ghost m = picked(s@, r@);
    let ghost k = s@[idx as int].0@;
    let mut p: usize = 0;
    let mut c: i8 = if r.len() > 0 {
        s[r[0].0].0.compare(&s[idx].0)
    } else {
        1
    };
    while p < r.len() && c == -1
        invariant
            p <= r@.len(),
            r@ == old(r)@,
            m == picked(s@, r@),
            positions_in(r@, s@.len() as int),
            idx < s@.len(),
            k == s@[idx as int].0@,
            p < r@.len() ==> (c == -1 <==> crate::types::frame_lt(m[p as int].0, k)) && (c == 0
                <==> crate::types::frame_same_place(m[p as int].0, k)) && (c == 1
                <==> crate::types::frame_lt(k, m[p as int].0)) && (c == -1 || c == 0 || c == 1),
            forall|j: int|
                0 <= j < p ==> !crate::types::frame_lt(k, #[trigger] m[j].0)
                    && !crate::types::frame_same_place(k, m[j].0),
        decreases r@.len() - p,
    {
        p = p + 1;
        if p < r.len() {
            c = s[r[p].0].0.compare(&s[idx].0);
        }
    }
    proof {
        lemma_sorted_insert_at(m, k, s@[idx as int].1@, p as int);
    }
    if p < r.len() && c == 0 {
        let key = r[p].0;
        r.set(p, (key, idx));
        assert(picked(s@, r@) =~= m.take(p as int) + seq![(m[p as int].0, s@[idx as int].1@)]
            + m.skip(p + 1));
    } else {
        r.insert(p, (idx, idx));
        assert(picked(s@, r@) =~= m.take(p as int) + seq![(k, s@[idx as int].1@)] + m.skip(
            p as int,
        ));
    }
}

/// The positions of the entries of `s`, collected into a map sorted by frame.
fn sorted_positions<T: View>(s: &Vec<(StackFrame, T)>) -> (r: Vec<(usize, usize)>)
    ensures
        positions_in(r@, s@.len() as int),
        picked(s@, r@) == sorted_by_frame(entries_of(s@)),
{
    let mut r: Vec<(usize, usize)> = Vec::new();
    let mut i: usize = 0;
    while i < s.len()
        invariant
            i <= s@.len(),
            positions_in(r@, s@.len() as int),
            picked(s@, r@) == sorted_by_frame(entries_of(s@).take(i as int)),
        decreases s@.len() - i,
    {
        insert_sorted(&mut r, s, i);
        i = i + 1;
        assert(entries_of(s@).take(i as int).drop_last() =~= entries_of(s@).take(i - 1));
    }
    assert(entries_of(s@).take(s@.len() as int) =~= entries_of(s@));
    r
}

/// A line break.
pub open spec fn nl() -> Seq<char> {
    seq!['\n']
}

/// The lines for one call from `parent`.
pub open spec fn call_text(parent: FrameView, c: (FrameView, CallModel)) -> Seq<char> {
    "cfl="@ + crate::types::frame_path(c.0) + nl() + "cfn="@ + c.0.name + nl() + "calls="@
        + crate::text::dec(c.1.count as nat) + seq![' '] + crate::text::dec(c.0.lineno as nat)
        + nl() + crate::text::dec(parent.lineno as nat) + seq![' '] + crate::text::dec(
        c.1.inclusive as nat,
    ) + nl()
}

/// The lines for the calls from `parent`, in the given order.
pub open spec fn calls_text(parent: FrameView, cs: Seq<(FrameView, CallModel)>) -> Seq<char>
    decreases cs.len(),
{
    if cs.len() == 0 {
        Seq::empty()
    } else {
        calls_text(parent, cs.drop_last()) + call_text(parent, cs.last())
    }
}

/// The block for one function: its exclusive samples, then its calls sorted by frame.
pub open spec fn location_text(l: (FrameView, LocModel)) -> Seq<char> {
    nl() + "fl="@ + crate::types::frame_path(l.0) + nl() + "fn="@ + l.0.name + nl()
        + crate::text::dec(l.0.lineno as nat) + seq![' '] + crate::text::dec(
        l.1.exclusive as nat,
    ) + nl() + calls_text(l.0, sorted_by_frame(l.1.calls))
}

/// The blocks for the functions, in the given order.
pub open spec fn locations_text(ls: Seq<(FrameView, LocModel)>) -> Seq<char>
    decreases ls.len(),
{
    if ls.len() == 0 {
        Seq::empty()
    } else {
        locations_text(ls.drop_last()) + location_text(ls.last())
    }
}

/// The first lines of a function's block: its file (the absolute path when it is
/// known, the relative path otherwise) and its name.
pub open spec fn block_head(f: FrameView) -> Seq<char> {
    nl() + "fl="@ + (match f.absolute_path {
        Some(p) => p,
        None => f.relative_path,
    }) + nl() + "fn="@ + f.name + nl()
}

proof fn lemma_occurs_in_longer(a: Seq<char>, b: Seq<char>, part: Seq<char>, k: int)
    requires
        crate::text::occurs_at(a, part, k),
    ensures
        crate::text::occurs_at(a + b, part, k),
        crate::text::occurs_at(b + a, part, k + b.len()),
{
    assert((a + b).subrange(k, k + part.len()) =~= a.subrange(k, k + part.len()));
    assert((b + a).subrange(k + b.len(), k + b.len() + part.len()) =~= a.subrange(k, k + part.len()));
}

/// A part of the block of one function stands in the blocks of all of them.
proof fn lemma_locations_text_part(ls: Seq<(FrameView, LocModel)>, i: int, part: Seq<char>, k0: int) -> (k: int)
    requires
        0 <= i < ls.len(),
        crate::text::occurs_at(location_text(ls[i]), part, k0),
    ensures
        crate::text::occurs_at(locations_text(ls), part, k),
    decreases ls.len(),
{
    let init = ls.drop_last();
    let l = ls.last();
    if i == ls.len() - 1 {
        lemma_occurs_in_longer(location_text(l), locations_text(init), part, k0);
        k0 + locations_text(init).len()
    } else {
        assert(init[i] == ls[i]);
        let k = lemma_locations_text_part(init, i, part, k0);
        lemma_occurs_in_longer(locations_text(init), location_text(l), part, k);
        k
    }
}

proof fn lemma_locations_text_block(ls: Seq<(FrameView, LocModel)>, i: int) -> (k: int)
    requires
        0 <= i < ls.len(),
    ensures
        crate::text::occurs_at(locations_text(ls), block_head(ls[i].0), k),
{
    let l = ls[i];
    let h = block_head(l.0);
    let rest = crate::text::dec(l.0.lineno as nat) + seq![' '] + crate::text::dec(l.1.exclusive as nat) + nl()
        + calls_text(l.0, sorted_by_frame(l.1.calls));
    assert(location_text(l) =~= h + rest);
    assert((h + rest).subrange(0, h.len() as int) =~= h);
    lemma_locations_text_part(ls, i, h, 0)
}

/// The first lines of a call: the file of the function called (the absolute path when
/// it is known, the relative path otherwise) and its name.
pub open spec fn call_head(f: FrameView) -> Seq<char> {
    "cfl="@ + (match f.absolute_path {
        Some(p) => p,
        None => f.relative_path,
    }) + nl() + "cfn="@ + f.name + nl()
}

proof fn lemma_calls_text_call(parent: FrameView, cs: Seq<(FrameView, CallModel)>, j: int) -> (k: int)
    requires
        0 <= j < cs.len(),
    ensures
        crate::text::occurs_at(calls_text(parent, cs), call_head(cs[j].0), k),
    decreases cs.len(),
{
    let init = cs.drop_last();
    let c = cs.last();
    if j == cs.len() - 1 {
        let h = call_head(c.0);
        let rest = "calls="@ + crate::text::dec(c.1.count as nat) + seq![' '] + crate::text::dec(c.0.lineno as nat)
            + nl() + crate::text::dec(parent.lineno as nat) + seq![' '] + crate::text::dec(c.1.inclusive as nat) + nl();
        assert(call_text(parent, c) =~= h + rest);
        assert((h + rest).subrange(0, h.len() as int) =~= h);
        lemma_occurs_in_longer(call_text(parent, c), calls_text(parent, init), h, 0);
        calls_text(parent, init).len() as int
    } else {
        assert(init[j] == cs[j]);
        let k = lemma_calls_text_call(parent, init, j);
        lemma_occurs_in_longer(calls_text(parent, init), call_text(parent, c), call_head(cs[j].0), k);
        k
    }
}

/// Each function block of the callgrind file begins by naming its function's file as
/// the path of its frame (absolute when known), and then its name.
pub proof fn law_blocks_name_their_file(m: StatsModel)
    ensures
        forall|i: int|
            0 <= i < sorted_by_frame(m.locations).len() ==> crate::text::contains_chars(
                callgrind_text(m),
                #[trigger] block_head(sorted_by_frame(m.locations)[i].0),
            ),
{
    let ls = sorted_by_frame(m.locations);
    assert forall|i: int| 0 <= i < ls.len() implies crate::text::contains_chars(
        callgrind_text(m),
        #[trigger] block_head(ls[i].0),
    ) by {
        let k = lemma_locations_text_block(ls, i);
        lemma_occurs_in_longer(locations_text(ls), callgrind_header(), block_head(ls[i].0), k);
        assert(callgrind_text(m) == callgrind_header() + locations_text(ls));
        assert(crate::text::occurs_at(callgrind_text(m), block_head(ls[i].0), k + callgrind_header().len()));
    }
}

/// Each call written in the callgrind file names the file of the function called as
/// the path of its frame (absolute when known), as that function's own block does, and
/// then its name.
pub proof fn law_calls_name_their_file(m: StatsModel)
    ensures
        forall|i: int, j: int|
            0 <= i < sorted_by_frame(m.locations).len() && 0 <= j < sorted_by_frame(
                sorted_by_frame(m.locations)[i].1.calls,
            ).len() ==> crate::text::contains_chars(
                callgrind_text(m),
                #[trigger] call_head(sorted_by_frame(sorted_by_frame(m.locations)[i].1.calls)[j].0),
            ),
{
    let ls = sorted_by_frame(m.locations);
    assert forall|i: int, j: int|
        0 <= i < ls.len() && 0 <= j < sorted_by_frame(ls[i].1.calls).len() implies crate::text::contains_chars(
        callgrind_text(m),
        #[trigger] call_head(sorted_by_frame(ls[i].1.calls)[j].0),
    ) by {
        let l = ls[i];
        let cs = sorted_by_frame(l.1.calls);
        let k1 = lemma_calls_text_call(l.0, cs, j);
        let head = nl() + "fl="@ + crate::types::frame_path(l.0) + nl() + "fn="@ + l.0.name + nl()
            + crate::text::dec(l.0.lineno as nat) + seq![' '] + crate::text::dec(l.1.exclusive as nat) + nl();
        assert(location_text(l) =~= head + calls_text(l.0, cs));
        lemma_occurs_in_longer(calls_text(l.0, cs), head, call_head(cs[j].0), k1);
        let k2 = lemma_locations_text_part(ls, i, call_head(cs[j].0), k1 + head.len());
        lemma_occurs_in_longer(locations_text(ls), callgrind_header(), call_head(cs[j].0), k2);
        assert(callgrind_text(m) == callgrind_header() + locations_text(ls));
        assert(crate::text::occurs_at(callgrind_text(m), call_head(cs[j].0), k2 + callgrind_header().len()));
    }
}

/// The header of a callgrind file.
pub open spec fn callgrind_header() -> Seq<char> {
    "# callgrind format"@ + nl() + "version: 1"@ + nl() + "creator: rbspy"@ + nl()
        + "events: Samples"@ + nl()
}

/// The callgrind file for the statistics, functions sorted by frame.
pub open spec fn callgrind_text(m: StatsModel) -> Seq<char> {
    callgrind_header() + locations_text(sorted_by_frame(m.locations))
}

/// Appends the lines for one call.
fn push_call(buf: &mut Vec<char>, parent: &StackFrame, cframe: &StackFrame, call: &Call)
    ensures
        final(buf)@ == old(buf)@ + call_text(parent@, (cframe@, call@)),
{
    crate::text::push_str(buf, "cfl=");
    let p = crate::text::chars_of(cframe.path().as_str());
    crate::text::push_chars(buf, p.as_slice());
    buf.push('\n');
    crate::text::push_str(buf, "cfn=");
    let nm = crate::text::chars_of(cframe.name.as_str());
    crate::text::push_chars(buf, nm.as_slice());
    buf.push('\n');
    crate::text::push_str(buf, "calls=");
    crate::text::push_dec(buf, call.count as u64);
    buf.push(' ');
    crate::text::push_dec(buf, cframe.lineno as u64);
    buf.push('\n');
    crate::text::push_dec(buf, parent.lineno as u64);
    buf.push(' ');
    crate::text::push_dec(buf, call.inclusive as u64);
    buf.push('\n');
    assert(buf@ =~= old(buf)@ + call_text(parent@, (cframe@, call@)));
}

/// Appends the block for one function.
fn push_location(buf: &mut Vec<char>, frame: &StackFrame, loc: &Location)
    ensures
        final(buf)@ == old(buf)@ + location_text((frame@, loc@)),
{
    buf.push('\n');
    crate::text::push_str(buf, "fl=");
    let p = crate::text::chars_of(frame.path().as_str());
    crate::text::push_chars(buf, p.as_slice());
    buf.push('\n');
    crate::text::push_str(buf, "fn=");
    let nm = crate::text::chars_of(frame.name.as_str());
    crate::text::push_chars(buf, nm.as_slice());
    buf.push('\n');
    crate::text::push_dec(buf, frame.lineno as u64);
    buf.push(' ');
    crate::text::push_dec(buf, loc.exclusive as u64);
    buf.push('\n');
    let ghost head = buf@;
    let order = sorted_positions(&loc.calls);
    let ghost cs = picked(loc.calls@, order@);
    assert(entries_of(loc.calls@) == calls_view(loc.calls@));
    let mut j: usize = 0;
    while j < order.len()
        invariant
            j <= order@.len(),
            positions_in(order@, loc.calls@.len() as int),
            cs == picked(loc.calls@, order@),
            buf@ == head + calls_text(frame@, cs.take(j as int)),
        decreases order@.len() - j,
    {
        let (ki, vi) = order[j];
        push_call(buf, frame, &loc.calls[ki].0, &loc.calls[vi].1);
        j = j + 1;
        assert(cs.take(j as int).drop_last() =~= cs.take(j - 1));
    }
    assert(cs.take(order@.len() as int) =~= cs);
    assert(buf@ =~= old(buf)@ + location_text((frame@, loc@)));
}

impl Stats {
    /// Writes a callgrind file based on the statistics collected, functions (and the
    /// calls of each) sorted by frame.
    pub fn write(&self) -> (text: String)
        ensures
            text@ == callgrind_text(self@),
    {
        let mut buf: Vec<char> = Vec::new();
        crate::text::push_str(&mut buf, "# callgrind format");
        buf.push('\n');
        crate::text::push_str(&mut buf, "version: 1");
        buf.push('\n');
        crate::text::push_str(&mut buf, "creator: rbspy");
        buf.push('\n');
        crate::text::push_str(&mut buf, "events: Samples");
        buf.push('\n');
        assert(buf@ =~= callgrind_header());
        let locs = &self.locations.0;
        let order = sorted_positions(locs);
        let ghost ls = picked(locs@, order@);
        assert(entries_of(locs@) == self@.locations);
        let mut i: usize = 0;
        while i < order.len()
            invariant
                i <= order@.len(),
                positions_in(order@, locs@.len() as int),
                ls == picked(locs@, order@),
                buf@ == callgrind_header() + locations_text(ls.take(i as int)),
            decreases order@.len() - i,
        {
            let (ki, vi) = order[i];
            push_location(&mut buf, &locs[ki].0, &locs[vi].1);
            i = i + 1;
            assert(ls.take(i as int).drop_last() =~= ls.take(i - 1));
        }
        assert(ls.take(order@.len() as int) =~= ls);
        crate::text::string_of(buf.as_slice())
    }

    /// Whether every stack entry has gone into the records.
    pub fn stack_is_empty(&self) -> (r: bool)
        ensures
            r == (self@.stack.len() == 0),
    {
        self.stack.len() == 0
    }

    /// The number of functions with a record.
    pub fn location_count(&self) -> (n: usize)
        ensures
            n == self@.locations.len(),
    {
        self.locations.0.len()
    }

    /// The position of the record of `frame`, if it has one.
    fn find_location(&self, frame: &StackFrame) -> (r: Option<usize>)
        ensures
            match r {
                Some(i) => key_at(self@.locations, frame@, i as int),
                None => !has_key(self@.locations, frame@),
            },
    {
        let mut i: usize = 0;
        while i < self.locations.0.len()
            invariant
                i <= self.locations.0@.len(),
                forall|j: int| 0 <= j < i ==> self@.locations[j].0 != frame@,
            decreases self.locations.0@.len() - i,
        {
            if self.locations.0[i].0.same_as(frame) {
                return Some(i);
            }
            i = i + 1;
        }
        None
    }

    /// The exclusive samples and the number of distinct callees of `frame`, if it has
    /// a record.
    pub fn location_summary(&self, frame: &StackFrame) -> (r: Option<(usize, usize)>)
        requires
            stats_wf(self@),
        ensures
            match r {
                Some((e, c)) => has_key(self@.locations, frame@) && e == value_of(
                    self@.locations,
                    frame@,
                ).exclusive && c == value_of(self@.locations, frame@).calls.len(),
                None => !has_key(self@.locations, frame@),
            },
    {
        match self.find_location(frame) {
            Some(i) => {
                proof {
                    lemma_index_of(self@.locations, frame@, i as int);
                }
                Some((self.locations.0[i].1.exclusive, self.locations.0[i].1.calls.len()))
            },
            None => None,
        }
    }

    /// The statistics of the calls from `parent` to `child`, if there were any.
    pub fn call_between(&self, parent: &StackFrame, child: &StackFrame) -> (r: Option<Call>)
        requires
            stats_wf(self@),
        ensures
            match r {
                Some(c) => has_key(self@.locations, parent@) && has_key(
                    value_of(self@.locations, parent@).calls,
                    child@,
                ) && c@ == value_of(value_of(self@.locations, parent@).calls, child@),
                None => !has_key(self@.locations, parent@) || !has_key(
                    value_of(self@.locations, parent@).calls,
                    child@,
                ),
            },
    {
        match self.find_location(parent) {
            Some(i) => {
                proof {
                    lemma_index_of(self@.locations, parent@, i as int);
                }
                let calls = &self.locations.0[i].1.calls;
                let ghost cv = calls_view(calls@);
                assert(cv == value_of(self@.locations, parent@).calls);
                assert(keys_unique(self@.locations[i as int].1.calls));
                let mut j: usize = 0;
                while j < calls.len()
                    invariant
                        j <= calls@.len(),
                        cv == calls_view(calls@),
                        keys_unique(cv),
                        cv == value_of(self@.locations, parent@).calls,
                        has_key(self@.locations, parent@),
                        forall|t: int| 0 <= t < j ==> cv[t].0 != child@,
                    decreases calls@.len() - j,
                {
                    if calls[j].0.same_as(child) {
                        proof {
                            lemma_index_of(cv, child@, j as int);
                        }
                        return Some(calls[j].1);
                    }
                    j = j + 1;
                }
                assert(!has_key(cv, child@));
                None
            },
            None => None,
        }
    }
}
} // verus!
