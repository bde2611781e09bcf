//! The output formats, and the outputters that collect traces for each of them.
use vstd::prelude::*;

use crate::assoc::{keys_unique, sum_by};
use crate::callgrind;
use crate::flamegraph;
use crate::pprof;
use crate::speedscope::{self, SpeedscopeError};
use crate::summary;
use crate::types::{frames_view, unknown_frame, FrameView, StackFrame, StackTrace};

verus! {

// ----------------------------------------------------------------------------------------
// Dropping unknown frames
// ----------------------------------------------------------------------------------------

/// Whether a frame is anything but the unknown C function.
pub open spec fn known_frame() -> spec_fn(FrameView) -> bool {
    |f: FrameView| f != unknown_frame()
}

/// The frames of a trace other than the unknown C function, in order; the unknown
/// frame alone when nothing else is left.
pub open spec fn filter_unknown_model(trace: Seq<FrameView>) -> Seq<FrameView> {
    let kept = trace.filter(known_frame());
    if kept.len() == 0 {
        seq![unknown_frame()]
    } else {
        kept
    }
}

/// Drops the unknown C functions from a trace before it is reported: most of the time
/// they are of no use. A trace of unknown frames only becomes one unknown frame.
pub fn filter_unknown(trace: &[StackFrame]) -> (r: Vec<StackFrame>)
    ensures
        frames_view(r@) == filter_unknown_model(frames_view(trace@)),
{
    let unknown = StackFrame::unknown_c_function();
    let ghost fv = frames_view(trace@);
    let ghost pred = known_frame();
    let mut kept: Vec<StackFrame> = Vec::new();
    let mut i: usize = 0;
    while i < trace.len()
        invariant
            i <= trace@.len(),
            fv == frames_view(trace@),
            pred == known_frame(),
            unknown@ == unknown_frame(),
            frames_view(kept@) == fv.take(i as int).filter(pred),
        decreases trace@.len() - i,
    {
        proof {
            assert(fv.take(i + 1) =~= fv.take(i as int).push(fv[i as int]));
            fv.take(i as int).lemma_filter_push(fv[i as int], pred);
        }
        if !trace[i].same_as(&unknown) {
            let ghost before = kept@;
            kept.push(trace[i].duplicate());
            assert(frames_view(kept@) =~= frames_view(before).push(trace@[i as int]@));
        }
        i = i + 1;
    }
    assert(fv.take(trace@.len() as int) =~= fv);
    if kept.len() == 0 {
        let mut r: Vec<StackFrame> = Vec::new();
        r.push(unknown);
        assert(frames_view(r@) =~= seq![unknown_frame()]);
        r
    } else {
        kept
    }
}

// ----------------------------------------------------------------------------------------
// Output formats
// ----------------------------------------------------------------------------------------

/// The formats that a profile can be written in.
#[allow(non_camel_case_types)]
#[derive(Debug, Clone, Copy, PartialEq, Eq, Structural, Hash)]
pub enum OutputFormat {
    flamegraph,
    collapsed,
    callgrind,
    speedscope,
    summary,
    summary_by_line,
    pprof,
}

/// The file name ending for each format.
pub open spec fn extension_of(f: OutputFormat) -> Seq<char> {
    match f {
        OutputFormat::flamegraph => "flamegraph.svg"@,
        OutputFormat::collapsed => "collapsed.txt"@,
        OutputFormat::callgrind => "callgrind.txt"@,
        OutputFormat::speedscope => "speedscope.json"@,
        OutputFormat::summary => "summary.txt"@,
        OutputFormat::summary_by_line => "summary_by_line.txt"@,
        OutputFormat::pprof => "profile.pb.gz"@,
    }
}

// ----------------------------------------------------------------------------------------
// Outputters
// ----------------------------------------------------------------------------------------

/// Collects stacks for a flamegraph, which a renderer draws from the counts.
#[derive(Debug)]
pub struct Flamegraph(pub flamegraph::Stats);

/// Collapsed stacks: the intermediate flamegraph format, for further processing or
/// for other flamegraph generators.
#[derive(Debug)]
pub struct Collapsed(pub flamegraph::Stats);

/// Collects stacks for a callgrind file.
#[derive(Debug)]
pub struct Callgrind(pub callgrind::Stats);

/// Collects stacks for the summary by function.
#[derive(Debug)]
pub struct Summary(pub summary::Stats);

/// Collects stacks for the summary by function and line.
#[derive(Debug)]
pub struct SummaryLine(pub summary::Stats);

/// Collects stacks for a speedscope profile.
#[derive(Debug)]
pub struct Speedscope(pub speedscope::Stats);

/// Collects stacks for a pprof profile.
#[derive(Debug)]
pub struct Pprof(pub pprof::Stats);

impl Flamegraph {
    /// Counts the trace's stack.
    pub fn record(&mut self, stack: &StackTrace)
        requires
            old(self).0.wf(),
            flamegraph::record_fits(old(self).0@, flamegraph::collapsed_key(frames_view(stack.trace@))),
        ensures
            final(self).0@ == flamegraph::record_model(old(self).0@, flamegraph::collapsed_key(frames_view(stack.trace@))),
            final(self).0.wf(),
    {
        self.0.record(stack.trace.as_slice());
    }
}

impl Collapsed {
    /// Counts the trace's stack.
    pub fn record(&mut self, stack: &StackTrace)
        requires
            old(self).0.wf(),
            flamegraph::record_fits(old(self).0@, flamegraph::collapsed_key(frames_view(stack.trace@))),
        ensures
            final(self).0@ == flamegraph::record_model(old(self).0@, flamegraph::collapsed_key(frames_view(stack.trace@))),
            final(self).0.wf(),
    {
        self.0.record(stack.trace.as_slice());
    }

    /// The collapsed stacks, one line each.
    pub fn complete(&self) -> (text: String)
        ensures
            text@ == flamegraph::collapsed_text(self.0@),
    {
        self.0.write_collapsed()
    }
}

impl Callgrind {
    /// Adds the trace, without its unknown frames.
    pub fn record(&mut self, stack: &StackTrace)
        requires
            callgrind::stats_wf(old(self).0@),
            callgrind::add_fits(old(self).0@, filter_unknown_model(frames_view(stack.trace@))),
        ensures
            final(self).0@ == callgrind::add_model(old(self).0@, filter_unknown_model(frames_view(stack.trace@))),
            callgrind::stats_wf(final(self).0@),
    {
        let frames = filter_unknown(stack.trace.as_slice());
        self.0.add(&frames);
    }

    /// Finishes the statistics and writes the callgrind file.
    pub fn complete(&mut self) -> (text: String)
        requires
            callgrind::stats_wf(old(self).0@),
            callgrind::add_fits(old(self).0@, Seq::empty()),
        ensures
            final(self).0@ == callgrind::add_model(old(self).0@, Seq::empty()),
            text@ == callgrind::callgrind_text(final(self).0@),
    {
        self.0.finish();
        self.0.write()
    }
}

impl Summary {
    /// Aggregates the trace, without its unknown frames, by function.
    pub fn record(&mut self, stack: &StackTrace)
        requires
            old(self).0.wf(),
            summary::add_fits(old(self).0@, filter_unknown_model(frames_view(stack.trace@)).len() as int),
        ensures
            final(self).0@ == summary::add_function_name_model(old(self).0@, filter_unknown_model(frames_view(stack.trace@))),
            final(self).0.wf(),
    {
        let frames = filter_unknown(stack.trace.as_slice());
        self.0.add_function_name(frames.as_slice());
    }
}

impl SummaryLine {
    /// Aggregates the trace, without its unknown frames, by function and line.
    pub fn record(&mut self, stack: &StackTrace)
        requires
            old(self).0.wf(),
            summary::add_fits(old(self).0@, filter_unknown_model(frames_view(stack.trace@)).len() as int),
        ensures
            final(self).0@ == summary::add_lineno_model(old(self).0@, filter_unknown_model(frames_view(stack.trace@))),
            final(self).0.wf(),
    {
        let frames = filter_unknown(stack.trace.as_slice());
        self.0.add_lineno(frames.as_slice());
    }
}

impl Speedscope {
    /// Records the trace: see `speedscope::record_model`.
    pub fn record(&mut self, stack: &StackTrace) -> (r: Result<(), SpeedscopeError>)
        requires
            speedscope::speedscope_wf(old(self).0@),
            speedscope::record_fits(old(self).0@, stack.trace@.len() as int),
        ensures
            (final(self).0@, r) == speedscope::record_model(old(self).0@, *stack),
            speedscope::speedscope_wf(final(self).0@),
    {
        self.0.record(stack)
    }
}

impl Pprof {
    /// Records the trace at its time, or at the clock's time for a trace without one.
    pub fn record(&mut self, stack: &StackTrace)
        requires
            pprof::pprof_wf(old(self).0@),
            pprof::record_fits(old(self).0@, stack.trace@.len() as int),
        ensures
            stack.time matches Some(t) ==> final(self).0@ == pprof::record_model(old(self).0@, *stack, t.total_nanos()),
            exists|t: int| pprof::clock_range(t) && final(self).0@ == pprof::record_model(old(self).0@, *stack, t),
            pprof::pprof_wf(final(self).0@),
            pprof::references_resolve(old(self).0@) ==> pprof::references_resolve(final(self).0@),
    {
        self.0.record(stack)
    }
}

/// The outputter of one of the formats.
#[derive(Debug)]
pub enum Outputter {
    Flamegraph(Flamegraph),
    Collapsed(Collapsed),
    Callgrind(Callgrind),
    Summary(Summary),
    SummaryLine(SummaryLine),
    Speedscope(Speedscope),
    Pprof(Pprof),
}

/// The model of an outputter: the model of its statistics.
pub enum OutputterModel {
    Flamegraph(Seq<(Seq<char>, int)>),
    Collapsed(Seq<(Seq<char>, int)>),
    Callgrind(callgrind::StatsModel),
    Summary(summary::SummaryModel),
    SummaryLine(summary::SummaryModel),
    Speedscope(speedscope::SpeedscopeModel),
    Pprof(pprof::PprofModel),
}

impl View for Outputter {
    type V = OutputterModel;

    open spec fn view(&self) -> OutputterModel {
        match self {
            Outputter::Flamegraph(o) => OutputterModel::Flamegraph(o.0@),
            Outputter::Collapsed(o) => OutputterModel::Collapsed(o.0@),
            Outputter::Callgrind(o) => OutputterModel::Callgrind(o.0@),
            Outputter::Summary(o) => OutputterModel::Summary(o.0@),
            Outputter::SummaryLine(o) => OutputterModel::SummaryLine(o.0@),
            Outputter::Speedscope(o) => OutputterModel::Speedscope(o.0@),
            Outputter::Pprof(o) => OutputterModel::Pprof(o.0@),
        }
    }
}

/// The format that an outputter writes.
pub open spec fn format_of(o: OutputterModel) -> OutputFormat {
    match o {
        OutputterModel::Flamegraph(_) => OutputFormat::flamegraph,
        OutputterModel::Collapsed(_) => OutputFormat::collapsed,
        OutputterModel::Callgrind(_) => OutputFormat::callgrind,
        OutputterModel::Summary(_) => OutputFormat::summary,
        OutputterModel::SummaryLine(_) => OutputFormat::summary_by_line,
        OutputterModel::Speedscope(_) => OutputFormat::speedscope,
        OutputterModel::Pprof(_) => OutputFormat::pprof,
    }
}

/// The statistics of an outputter are well formed.
pub open spec fn outputter_wf(o: OutputterModel) -> bool {
    match o {
        OutputterModel::Flamegraph(c) => keys_unique(c),
        OutputterModel::Collapsed(c) => keys_unique(c),
        OutputterModel::Callgrind(m) => callgrind::stats_wf(m),
        OutputterModel::Summary(m) => keys_unique(m.counts),
        OutputterModel::SummaryLine(m) => keys_unique(m.counts),
        OutputterModel::Speedscope(m) => speedscope::speedscope_wf(m),
        OutputterModel::Pprof(m) => pprof::pprof_wf(m) && pprof::references_resolve(m),
    }
}

/// Recording the trace keeps every counter and table within the machine's limits.
pub open spec fn record_fits(o: OutputterModel, t: StackTrace) -> bool {
    let frames = frames_view(t.trace@);
    match o {
        OutputterModel::Flamegraph(c) => flamegraph::record_fits(c, flamegraph::collapsed_key(frames)),
        OutputterModel::Collapsed(c) => flamegraph::record_fits(c, flamegraph::collapsed_key(frames)),
        OutputterModel::Callgrind(m) => callgrind::add_fits(m, filter_unknown_model(frames)),
        OutputterModel::Summary(m) => summary::add_fits(m, filter_unknown_model(frames).len() as int),
        OutputterModel::SummaryLine(m) => summary::add_fits(m, filter_unknown_model(frames).len() as int),
        OutputterModel::Speedscope(m) => speedscope::record_fits(m, t.trace@.len() as int),
        OutputterModel::Pprof(m) => pprof::record_fits(m, t.trace@.len() as int),
    }
}

/// Whether recording the trace reads the clock: a pprof trace without a time.
pub open spec fn reads_clock(o: OutputterModel, t: StackTrace) -> bool {
    o is Pprof && t.time is None
}

/// The outcome of recording a trace, where `now` is the time the clock reads if it is
/// read at all.
pub open spec fn record_outcome(o: OutputterModel, t: StackTrace, now: int) -> (OutputterModel, Result<(), SpeedscopeError>) {
    let frames = frames_view(t.trace@);
    match o {
        OutputterModel::Flamegraph(c) => (
            OutputterModel::Flamegraph(flamegraph::record_model(c, flamegraph::collapsed_key(frames))),
            Ok(()),
        ),
        OutputterModel::Collapsed(c) => (
            OutputterModel::Collapsed(flamegraph::record_model(c, flamegraph::collapsed_key(frames))),
            Ok(()),
        ),
        OutputterModel::Callgrind(m) => (
            OutputterModel::Callgrind(callgrind::add_model(m, filter_unknown_model(frames))),
            Ok(()),
        ),
        OutputterModel::Summary(m) => (
            OutputterModel::Summary(summary::add_function_name_model(m, filter_unknown_model(frames))),
            Ok(()),
        ),
        OutputterModel::SummaryLine(m) => (
            OutputterModel::SummaryLine(summary::add_lineno_model(m, filter_unknown_model(frames))),
            Ok(()),
        ),
        OutputterModel::Speedscope(m) => {
            let (m2, r) = speedscope::record_model(m, t);
            (OutputterModel::Speedscope(m2), r)
        },
        OutputterModel::Pprof(m) => {
            let at = match t.time {
                Some(x) => x.total_nanos(),
                None => now,
            };
            (OutputterModel::Pprof(pprof::record_model(m, t, at)), Ok(()))
        },
    }
}

impl Outputter {
    /// Records a trace: see `record_outcome`. Only a pprof trace without a time
    /// depends on the clock.
    pub fn record(&mut self, stack: &StackTrace) -> (r: Result<(), SpeedscopeError>)
        requires
            outputter_wf(old(self)@),
            record_fits(old(self)@, *stack),
        ensures
            exists|now: int| (final(self)@, r) == record_outcome(old(self)@, *stack, now),
            !reads_clock(old(self)@, *stack) ==> forall|now: int|
                (final(self)@, r) == #[trigger] record_outcome(old(self)@, *stack, now),
            outputter_wf(final(self)@),
    {
        match self {
            Outputter::Flamegraph(o) => {
                o.record(stack);
                assert((self@, Ok::<(), SpeedscopeError>(())) == record_outcome(old(self)@, *stack, 0int));
                Ok(())
            },
            Outputter::Collapsed(o) => {
                o.record(stack);
                assert((self@, Ok::<(), SpeedscopeError>(())) == record_outcome(old(self)@, *stack, 0int));
                Ok(())
            },
            Outputter::Callgrind(o) => {
                o.record(stack);
                assert((self@, Ok::<(), SpeedscopeError>(())) == record_outcome(old(self)@, *stack, 0int));
                Ok(())
            },
            Outputter::Summary(o) => {
                o.record(stack);
                assert((self@, Ok::<(), SpeedscopeError>(())) == record_outcome(old(self)@, *stack, 0int));
                Ok(())
            },
            Outputter::SummaryLine(o) => {
                o.record(stack);
                assert((self@, Ok::<(), SpeedscopeError>(())) == record_outcome(old(self)@, *stack, 0int));
                Ok(())
            },
            Outputter::Speedscope(o) => {
                let r = o.record(stack);
                assert((self@, r) == record_outcome(old(self)@, *stack, 0int));
                r
            },
            Outputter::Pprof(o) => {
                o.record(stack);
                proof {
                    let t = choose|t: int| pprof::clock_range(t) && o.0@ == pprof::record_model(old(self)@->Pprof_0, *stack, t);
                    assert((self@, Ok::<(), SpeedscopeError>(())) == record_outcome(old(self)@, *stack, t));
                }
                Ok(())
            },
        }
    }

    /// The format this outputter writes.
    pub fn format(&self) -> (f: OutputFormat)
        ensures
            f == format_of(self@),
    {
        match self {
            Outputter::Flamegraph(_) => OutputFormat::flamegraph,
            Outputter::Collapsed(_) => OutputFormat::collapsed,
            Outputter::Callgrind(_) => OutputFormat::callgrind,
            Outputter::Summary(_) => OutputFormat::summary,
            Outputter::SummaryLine(_) => OutputFormat::summary_by_line,
            Outputter::Speedscope(_) => OutputFormat::speedscope,
            Outputter::Pprof(_) => OutputFormat::pprof,
        }
    }
}

/// The model of a fresh outputter for a format.
pub open spec fn initial_model(f: OutputFormat) -> OutputterModel {
    match f {
        OutputFormat::flamegraph => OutputterModel::Flamegraph(Seq::empty()),
        OutputFormat::collapsed => OutputterModel::Collapsed(Seq::empty()),
        OutputFormat::callgrind => OutputterModel::Callgrind(
            callgrind::StatsModel { stack: Seq::empty(), locations: Seq::empty() },
        ),
        OutputFormat::summary => OutputterModel::Summary(
            summary::SummaryModel { counts: Seq::empty(), total_traces: 0 },
        ),
        OutputFormat::summary_by_line => OutputterModel::SummaryLine(
            summary::SummaryModel { counts: Seq::empty(), total_traces: 0 },
        ),
        OutputFormat::speedscope => OutputterModel::Speedscope(
            speedscope::SpeedscopeModel {
                samples: Seq::empty(),
                frames: Seq::empty(),
                frame_to_index: Seq::empty(),
                weights: Seq::empty(),
                prev_time: None,
            },
        ),
        OutputFormat::pprof => OutputterModel::Pprof(
            pprof::PprofModel { profile: pprof::initial_profile(), known: Seq::empty(), prev_time: None },
        ),
    }
}

impl OutputFormat {
    /// The file name ending for files of this format.
    pub fn extension(&self) -> (s: String)
        ensures
            s@ == extension_of(*self),
    {
        match self {
            OutputFormat::flamegraph => "flamegraph.svg".to_owned(),
            OutputFormat::collapsed => "collapsed.txt".to_owned(),
            OutputFormat::callgrind => "callgrind.txt".to_owned(),
            OutputFormat::speedscope => "speedscope.json".to_owned(),
            OutputFormat::summary => "summary.txt".to_owned(),
            OutputFormat::summary_by_line => "summary_by_line.txt".to_owned(),
            OutputFormat::pprof => "profile.pb.gz".to_owned(),
        }
    }

    /// A fresh outputter for this format.
    pub fn outputter(self) -> (o: Outputter)
        ensures
            o@ == initial_model(self),
            outputter_wf(o@),
    {
        match self {
            OutputFormat::flamegraph => Outputter::Flamegraph(Flamegraph(flamegraph::Stats::new())),
            OutputFormat::collapsed => Outputter::Collapsed(Collapsed(flamegraph::Stats::new())),
            OutputFormat::callgrind => {
                let s = callgrind::Stats::new();
                assert(s@.stack =~= Seq::empty());
                assert(s@.locations =~= Seq::empty());
                Outputter::Callgrind(Callgrind(s))
            },
            OutputFormat::summary => {
                let s = summary::Stats::new();
                assert(s@.counts =~= Seq::empty());
                Outputter::Summary(Summary(s))
            },
            OutputFormat::summary_by_line => {
                let s = summary::Stats::new();
                assert(s@.counts =~= Seq::empty());
                Outputter::SummaryLine(SummaryLine(s))
            },
            OutputFormat::speedscope => {
                let s = speedscope::Stats::new();
                assert(s@.samples =~= Seq::empty());
                assert(s@.frames =~= Seq::empty());
                assert(s@.frame_to_index =~= Seq::empty());
                assert(s@.weights =~= Seq::empty());
                Outputter::Speedscope(Speedscope(s))
            },
            OutputFormat::pprof => {
                let s = pprof::Stats::new();
                assert(s@.known =~= Seq::empty());
                Outputter::Pprof(Pprof(s))
            },
        }
    }
}

// ----------------------------------------------------------------------------------------
// Room in the counters
// ----------------------------------------------------------------------------------------

/// After `traces` traces of `frames` frames in all (each trace counted with one frame
/// more, for the unknown frame that stands for a trace without known ones), the
/// counters and tables of the statistics are bounded by those numbers.
pub open spec fn outputter_bounded(o: OutputterModel, traces: int, frames: int) -> bool {
    match o {
        OutputterModel::Flamegraph(c) => flamegraph::counts_nonneg(c) && sum_by(c, |v: int| flamegraph::count_of(v))
            <= traces,
        OutputterModel::Collapsed(c) => flamegraph::counts_nonneg(c) && sum_by(c, |v: int| flamegraph::count_of(v))
            <= traces,
        OutputterModel::Callgrind(m) => callgrind::counters_bounded(m, traces, frames),
        OutputterModel::Summary(m) => summary::counts_nonneg(m.counts) && summary::self_total(m.counts)
            == m.total_traces && m.total_traces <= traces && summary::totals_sum(m.counts) <= frames,
        OutputterModel::SummaryLine(m) => summary::counts_nonneg(m.counts) && summary::self_total(m.counts)
            == m.total_traces && m.total_traces <= traces && summary::totals_sum(m.counts) <= frames,
        OutputterModel::Speedscope(m) => m.frames.len() <= frames,
        OutputterModel::Pprof(m) => m.known.len() <= frames && m.profile.function.len() <= frames
            && m.profile.string_table.len() <= 3 + 2 * frames + 2 * traces,
    }
}

/// There is room in the machine's counters for `traces` traces of `frames` frames in
/// all (counted as `outputter_bounded` counts them).
pub open spec fn within_limits(traces: int, frames: int) -> bool {
    &&& 0 <= traces
    &&& traces + 1 < u32::MAX
    &&& 0 <= frames
    &&& (traces + 1) * (frames + 1) <= usize::MAX
    &&& 2 * (traces + 1) + 2 * (frames + 1) <= i64::MAX
}

/// Fewer traces and frames leave at least as much room.
pub proof fn lemma_within_limits_smaller(traces: int, frames: int, t: int, f: int)
    requires
        within_limits(traces, frames),
        0 <= t <= traces,
        0 <= f <= frames,
    ensures
        within_limits(t, f),
{
    vstd::arithmetic::mul::lemma_mul_upper_bound(t + 1, traces + 1, f + 1, frames + 1);
}

/// A fresh outputter is bounded by no traces.
pub proof fn lemma_initial_bounded(f: OutputFormat)
    ensures
        outputter_bounded(initial_model(f), 0, 0),
{
    let e = Seq::<(FrameView, callgrind::LocModel)>::empty();
    assert(callgrind::locs_calls(e) == 0);
    assert(callgrind::locs_call_inclusive(e) == 0);
    assert(callgrind::locs_exclusive(e) == 0);
    assert(summary::self_total(Seq::<(Seq<char>, (int, int))>::empty()) == 0);
    assert(summary::totals_sum(Seq::<(Seq<char>, (int, int))>::empty()) == 0);
    assert(pprof::initial_profile().string_table.len() == 3);
}

/// When there is room for one more trace, recording it fits in the counters, and the
/// statistics are then bounded by one trace more and its frames.
pub proof fn lemma_record_bounded(o: OutputterModel, t: StackTrace, now: int, traces: int, frames: int)
    requires
        outputter_wf(o),
        outputter_bounded(o, traces, frames),
        0 <= traces,
        0 <= frames,
        within_limits(traces + 1, frames + t.trace@.len() + 1),
    ensures
        record_fits(o, t),
        outputter_bounded(record_outcome(o, t, now).0, traces + 1, frames + t.trace@.len() + 1),
{
    let n = t.trace@.len() as int;
    let fv = frames_view(t.trace@);
    let a = traces + 2;
    let b = frames + n + 2;
    vstd::arithmetic::mul::lemma_mul_inequality(2, a, b);
    vstd::arithmetic::mul::lemma_mul_inequality(2, b, a);
    vstd::arithmetic::mul::lemma_mul_is_commutative(a, b);
    vstd::arithmetic::mul::lemma_mul_upper_bound(traces + 1, a, frames + n + 1, b);
    vstd::arithmetic::mul::lemma_mul_nonnegative(a - 2, b - 2);
    vstd::arithmetic::mul::lemma_mul_is_distributive_sub(a - 2, b, 2);
    vstd::arithmetic::mul::lemma_mul_is_distributive_sub_other_way(b, a, 2);
    assert(2 * a + 2 * b <= a * b + 4);
    assert(usize::MAX <= u64::MAX);
    fv.lemma_filter_len(known_frame());
    let flen = filter_unknown_model(fv).len();
    assert(flen <= n + 1);
    match o {
        OutputterModel::Flamegraph(c) => {
            flamegraph::lemma_record_bounded(c, flamegraph::collapsed_key(fv), traces);
        },
        OutputterModel::Collapsed(c) => {
            flamegraph::lemma_record_bounded(c, flamegraph::collapsed_key(fv), traces);
        },
        OutputterModel::Callgrind(m) => {
            vstd::arithmetic::mul::lemma_mul_left_inequality(traces + 1, frames + flen, frames + n + 1);
            callgrind::lemma_add_bounded(m, filter_unknown_model(fv), traces, frames);
        },
        OutputterModel::Summary(m) => {
            summary::lemma_add_bounded(m, filter_unknown_model(fv), traces, frames);
        },
        OutputterModel::SummaryLine(m) => {
            summary::lemma_add_bounded(m, filter_unknown_model(fv), traces, frames);
        },
        OutputterModel::Speedscope(m) => {
            speedscope::lemma_record_frames(m, t);
        },
        OutputterModel::Pprof(m) => {
            let at = match t.time {
                Some(x) => x.total_nanos(),
                None => now,
            };
            assert(usize::MAX == u32::MAX || usize::MAX == u64::MAX);
            assert(m.known.len() + n < usize::MAX);
            assert(m.profile.function.len() + n < usize::MAX);
            assert(m.profile.string_table.len() + 2 * n + 2 < 2 * a + 2 * b);
            pprof::lemma_record_sizes(m, t, at);
        },
    }
}

/// Bounds that hold for some numbers of traces and frames hold for larger numbers too.
pub proof fn lemma_bounded_larger(o: OutputterModel, traces: int, frames: int, t2: int, f2: int)
    requires
        outputter_bounded(o, traces, frames),
        0 <= traces <= t2,
        frames <= f2,
    ensures
        outputter_bounded(o, t2, f2),
{
    if let OutputterModel::Callgrind(m) = o {
        callgrind::lemma_bounded_larger(m, traces, frames, t2, f2);
    }
}

/// Completing the outputter keeps its counters within the machine's limits (only the
/// callgrind outputter still adds to them when it completes).
pub open spec fn complete_fits(o: OutputterModel) -> bool {
    match o {
        OutputterModel::Callgrind(m) => callgrind::add_fits(m, Seq::empty()),
        _ => true,
    }
}

/// Statistics within the limits can be completed.
pub proof fn lemma_complete_fits(o: OutputterModel, traces: int, frames: int)
    requires
        outputter_wf(o),
        outputter_bounded(o, traces, frames),
        within_limits(traces, frames),
    ensures
        complete_fits(o),
{
    if let OutputterModel::Callgrind(m) = o {
        vstd::arithmetic::mul::lemma_mul_upper_bound(traces + 1, traces + 1, frames, frames + 1);
        vstd::arithmetic::mul::lemma_mul_increases(traces + 1, frames + 1);
        vstd::arithmetic::mul::lemma_mul_upper_bound(traces + 1, traces + 1, 1, frames + 1);
        vstd::arithmetic::mul::lemma_mul_basics(traces + 1);
        assert((traces + 1) * (frames + 0) <= (traces + 1) * (frames + 1));
        callgrind::lemma_add_bounded(m, Seq::empty(), traces, frames);
    }
}

// ----------------------------------------------------------------------------------------
// Recording with the limits checked
// ----------------------------------------------------------------------------------------

/// Why the recorder did not record a trace.
#[derive(Debug, Clone, Copy, PartialEq, Eq)]
pub enum RecordError {
    /// The outputter refused the trace.
    Format(SpeedscopeError),
    /// One more trace would not fit in the machine's counters.
    TooLarge,
}

/// An outputter that counts the traces and frames it was given, so that each trace is
/// checked against the machine's limits before it is recorded.
pub struct Recorder {
    out: Outputter,
    traces: usize,
    frames: usize,
}

/// What recording gave, with the outputter's error wrapped as the recorder's.
pub open spec fn as_record_result(r: Result<(), SpeedscopeError>) -> Result<(), RecordError> {
    match r {
        Ok(()) => Ok(()),
        Err(e) => Err(RecordError::Format(e)),
    }
}

impl Recorder {
    #[verifier::type_invariant]
    spec fn inv(self) -> bool {
        &&& outputter_wf(self.out@)
        &&& outputter_bounded(self.out@, self.traces as int, self.frames as int)
        &&& within_limits(self.traces as int, self.frames as int)
    }

    /// The statistics collected so far.
    pub closed spec fn model(self) -> OutputterModel {
        self.out@
    }

    /// How many traces were given, and how many frames they had in all, each trace
    /// counted with one frame more.
    pub closed spec fn counted(self) -> (int, int) {
        (self.traces as int, self.frames as int)
    }

    /// A recorder of the format that has recorded nothing.
    pub fn new(format: OutputFormat) -> (r: Self)
        ensures
            r.model() == initial_model(format),
            r.counted() == (0int, 0int),
    {
        proof {
            lemma_initial_bounded(format);
        }
        Recorder { out: format.outputter(), traces: 0, frames: 0 }
    }

    /// Records the trace when there is room for it; otherwise changes nothing and says so.
    pub fn record(&mut self, stack: &StackTrace) -> (r: Result<(), RecordError>)
        ensures
            ({
                let (t, f) = old(self).counted();
                let room = within_limits(t + 1, f + stack.trace@.len() + 1);
                &&& !room ==> r == Err::<(), RecordError>(RecordError::TooLarge) && *final(self) == *old(self)
                &&& room ==> final(self).counted() == (t + 1, f + stack.trace@.len() + 1)
                &&& room ==> exists|now: int|
                    (#[trigger] record_outcome(old(self).model(), *stack, now)).0 == final(self).model() && r
                        == as_record_result(record_outcome(old(self).model(), *stack, now).1)
                &&& room && !reads_clock(old(self).model(), *stack) ==> forall|now: int|
                    (#[trigger] record_outcome(old(self).model(), *stack, now)).0 == final(self).model() && r
                        == as_record_result(record_outcome(old(self).model(), *stack, now).1)
            }),
    {
        proof {
            use_type_invariant(&*self);
        }
        let t: u128 = self.traces as u128 + 1;
        let f: u128 = self.frames as u128 + stack.trace.len() as u128 + 1;
        if t + 1 >= u32::MAX as u128 {
            return Err(RecordError::TooLarge);
        }
        proof {
            vstd::arithmetic::mul::lemma_mul_upper_bound(t + 1, 0x1_0000_0000int, f + 1, 0x4_0000_0000_0000_0000int);
        }
        if (t + 1) * (f + 1) > usize::MAX as u128 || 2 * (t + 1) + 2 * (f + 1) > i64::MAX as u128 {
            return Err(RecordError::TooLarge);
        }
        proof {
            vstd::arithmetic::mul::lemma_mul_increases(t + 1, f + 1);
        }
        let mut taken = Recorder::new(OutputFormat::flamegraph);
        std::mem::swap(self, &mut taken);
        proof {
            use_type_invariant(&taken);
        }
        let Recorder { mut out, traces, frames } = taken;
        let ghost before = out@;
        proof {
            lemma_record_bounded(before, *stack, 0int, traces as int, frames as int);
        }
        let res = out.record(stack);
        let ghost now = choose|now: int| (out@, res) == record_outcome(before, *stack, now);
        proof {
            lemma_record_bounded(before, *stack, now, traces as int, frames as int);
        }
        *self = Recorder { out, traces: t as usize, frames: f as usize };
        match res {
            Ok(()) => Ok(()),
            Err(e) => Err(RecordError::Format(e)),
        }
    }

    /// The outputter, to be completed and written out.
    pub fn into_outputter(self) -> (o: Outputter)
        ensures
            o@ == self.model(),
            outputter_wf(o@),
            complete_fits(o@),
    {
        proof {
            use_type_invariant(&self);
            lemma_complete_fits(self.out@, self.traces as int, self.frames as int);
        }
        self.out
    }
}

} // verus!
