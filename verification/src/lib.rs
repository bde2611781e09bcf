//! A sampling profiler's data model and report formats, with their contracts.
use vstd::prelude::*;

pub mod address_finder;
pub mod assoc;
pub mod callgrind;
pub mod cli;
pub mod clock;
pub mod descendents;
pub mod flamegraph;
pub mod output;
pub mod parse;
pub mod pprof;
pub mod proc_maps;
pub mod sampling;
pub mod speedscope;
pub mod storage;
pub mod summary;
pub mod text;
pub mod types;

use crate::output::{
    complete_fits, format_of, initial_model, lemma_complete_fits, lemma_initial_bounded, lemma_record_bounded,
    lemma_within_limits_smaller, outputter_bounded, outputter_wf, record_outcome, within_limits, OutputFormat, Outputter,
    OutputterModel,
};
use crate::speedscope::SpeedscopeError;
use crate::types::StackTrace;

verus! {

/// The outcome of recording `traces` in order, stopping at the first error; the
/// trace at position `i`, if it reads the clock, reads `nows[i]`.
pub open spec fn run_outcome(o: OutputterModel, traces: Seq<StackTrace>, nows: Seq<int>) -> (OutputterModel, Result<(), SpeedscopeError>)
    decreases traces.len(),
{
    if traces.len() == 0 {
        (o, Ok(()))
    } else {
        let (m, r) = run_outcome(o, traces.drop_last(), nows);
        if r is Err {
            (m, r)
        } else {
            record_outcome(m, traces.last(), nows[traces.len() - 1])
        }
    }
}

/// The frames of the traces in all, each trace counted with one frame more (for the
/// unknown frame that stands for a trace without known ones).
pub open spec fn frames_budget(traces: Seq<StackTrace>) -> int
    decreases traces.len(),
{
    if traces.len() == 0 {
        0
    } else {
        frames_budget(traces.drop_last()) + traces.last().trace@.len() + 1
    }
}

/// There is room in the machine's counters for recording all of the traces.
pub open spec fn traces_fit(traces: Seq<StackTrace>) -> bool {
    within_limits(traces.len() as int, frames_budget(traces))
}

/// A prefix of the traces needs no more frames than all of them.
proof fn lemma_budget_prefix(traces: Seq<StackTrace>, k: int)
    requires
        0 <= k <= traces.len(),
    ensures
        0 <= frames_budget(traces.take(k)) <= frames_budget(traces),
        k < traces.len() ==> frames_budget(traces.take(k + 1)) == frames_budget(traces.take(k))
            + traces[k].trace@.len() + 1,
    decreases traces.len() - k,
{
    if k < traces.len() {
        assert(traces.take(k + 1).drop_last() =~= traces.take(k));
        assert(traces.take(k + 1).last() == traces[k]);
        lemma_budget_prefix(traces, k + 1);
        lemma_budget_nonneg(traces.take(k));
    } else {
        assert(traces.take(k) =~= traces);
        lemma_budget_nonneg(traces);
    }
}

proof fn lemma_budget_nonneg(traces: Seq<StackTrace>)
    ensures
        frames_budget(traces) >= 0,
    decreases traces.len(),
{
    if traces.len() > 0 {
        lemma_budget_nonneg(traces.drop_last());
    }
}

/// Whether there is room in the machine's counters for recording all of the traces.
pub fn traces_fit_check(traces: &[StackTrace]) -> (b: bool)
    ensures
        b == traces_fit(traces@),
{
    let n = traces.len();
    if n >= 0xffff_fffe {
        return false;
    }
    let mut f: u128 = 0;
    let mut i: usize = 0;
    while i < n
        invariant
            n == traces@.len(),
            n + 1 < u32::MAX,
            i <= n,
            f == frames_budget(traces@.take(i as int)),
            f <= usize::MAX,
        decreases n - i,
    {
        proof {
            lemma_budget_prefix(traces@, i as int);
        }
        f = f + traces[i].trace.len() as u128 + 1;
        i = i + 1;
        if f > usize::MAX as u128 {
            proof {
                lemma_budget_prefix(traces@, i as int);
                let bud = frames_budget(traces@);
                vstd::arithmetic::mul::lemma_mul_increases(n + 1, bud + 1);
            }
            return false;
        }
    }
    proof {
        assert(traces@.take(n as int) =~= traces@);
        vstd::arithmetic::mul::lemma_mul_upper_bound(n + 1, 0x1_0000_0000int, f + 1, 0x2_0000_0000_0000_0000int);
    }
    (n as u128 + 1) * (f + 1) <= usize::MAX as u128 && 2 * (n as u128 + 1) + 2 * (f + 1) <= i64::MAX as u128
}

/// Once recording has failed, later traces change nothing.
proof fn lemma_error_stays(o: OutputterModel, ts: Seq<StackTrace>, ns: Seq<int>, k: int)
    requires
        0 <= k <= ts.len(),
        run_outcome(o, ts.take(k), ns).1 is Err,
    ensures
        run_outcome(o, ts, ns) == run_outcome(o, ts.take(k), ns),
    decreases ts.len() - k,
{
    if k < ts.len() {
        assert(ts.take(k + 1).drop_last() =~= ts.take(k));
        lemma_error_stays(o, ts, ns, k + 1);
    } else {
        assert(ts.take(k) =~= ts);
    }
}

/// Only a pprof outputter reads the clock, and recording keeps the kind of outputter.
proof fn lemma_run_without_clock(o: OutputterModel, ts: Seq<StackTrace>, n1: Seq<int>, n2: Seq<int>)
    requires
        !(o is Pprof),
    ensures
        run_outcome(o, ts, n1) == run_outcome(o, ts, n2),
        format_of(run_outcome(o, ts, n1).0) == format_of(o),
    decreases ts.len(),
{
    if ts.len() > 0 {
        lemma_run_without_clock(o, ts.drop_last(), n1, n2);
    }
}

/// The report `r` is what recording gave: the outputter's statistics, or the error.
pub open spec fn report_agrees(r: Result<Outputter, SpeedscopeError>, outcome: (OutputterModel, Result<(), SpeedscopeError>)) -> bool {
    match r {
        Ok(o) => outcome == (o@, Ok::<(), SpeedscopeError>(())),
        Err(e) => outcome.1 == Err::<(), SpeedscopeError>(e),
    }
}

/// Generates a report of `format` from traces that were recorded earlier: each trace
/// is recorded in order, and the first error ends the report. The outputter that
/// comes back holds the statistics, which the caller writes out. The traces must fit
/// in the machine's counters, which `traces_fit_check` tells.
pub fn report(format: OutputFormat, traces: &[StackTrace]) -> (r: Result<Outputter, SpeedscopeError>)
    requires
        traces_fit(traces@),
    ensures
        exists|ns: Seq<int>| report_agrees(r, #[trigger] run_outcome(initial_model(format), traces@, ns)),
        format != OutputFormat::pprof ==> forall|ns: Seq<int>|
            report_agrees(r, #[trigger] run_outcome(initial_model(format), traces@, ns)),
        r matches Ok(o) ==> outputter_wf(o@) && complete_fits(o@),
{
    let ghost init = initial_model(format);
    let mut out = format.outputter();
    proof {
        lemma_initial_bounded(format);
        assert(traces@.take(0) =~= Seq::<StackTrace>::empty());
    }
    let ghost mut nows: Seq<int> = Seq::empty();
    let mut i: usize = 0;
    while i < traces.len()
        invariant
            i <= traces@.len(),
            init == initial_model(format),
            nows.len() == i,
            run_outcome(init, traces@.take(i as int), nows) == (out@, Ok::<(), SpeedscopeError>(())),
            outputter_wf(out@),
            outputter_bounded(out@, i as int, frames_budget(traces@.take(i as int))),
            traces_fit(traces@),
        decreases traces@.len() - i,
    {
        let ghost before = out@;
        let ghost budget = frames_budget(traces@.take(i as int));
        proof {
            lemma_budget_prefix(traces@, i as int);
            lemma_budget_prefix(traces@, i + 1);
            lemma_within_limits_smaller(
                traces@.len() as int,
                frames_budget(traces@),
                i + 1,
                frames_budget(traces@.take(i + 1)),
            );
            lemma_record_bounded(before, traces@[i as int], 0int, i as int, budget);
        }
        let res = out.record(&traces[i]);
        let ghost now = choose|now: int| (out@, res) == record_outcome(before, traces@[i as int], now);
        proof {
            lemma_record_bounded(before, traces@[i as int], now, i as int, budget);
            let ext = nows.push(now);
            lemma_prefix_nows(init, traces@.take(i as int), nows, ext);
            assert(traces@.take(i + 1).drop_last() =~= traces@.take(i as int));
            assert(traces@.take(i + 1).last() == traces@[i as int]);
            nows = ext;
        }
        match res {
            Ok(()) => {},
            Err(e) => {
                proof {
                    lemma_error_stays(init, traces@, nows, i + 1);
                    if format != OutputFormat::pprof {
                        assert forall|ns: Seq<int>| report_agrees(Err(e), #[trigger] run_outcome(init, traces@, ns)) by {
                            lemma_run_without_clock(init, traces@, ns, nows);
                        }
                    }
                }
                return Err(e);
            },
        }
        i = i + 1;
    }
    proof {
        assert(traces@.take(traces@.len() as int) =~= traces@);
        lemma_complete_fits(out@, traces@.len() as int, frames_budget(traces@));
        if format != OutputFormat::pprof {
            assert forall|ns: Seq<int>| report_agrees(Ok(out), #[trigger] run_outcome(init, traces@, ns)) by {
                lemma_run_without_clock(init, traces@, ns, nows);
            }
        }
    }
    Ok(out)
}

/// Readings of the clock past the traces do not matter.
proof fn lemma_prefix_nows(o: OutputterModel, ts: Seq<StackTrace>, n1: Seq<int>, n2: Seq<int>)
    requires
        n1.len() >= ts.len(),
        n2.len() >= ts.len(),
        forall|j: int| 0 <= j < ts.len() ==> n1[j] == n2[j],
    ensures
        run_outcome(o, ts, n1) == run_outcome(o, ts, n2),
    decreases ts.len(),
{
    if ts.len() > 0 {
        lemma_prefix_nows(o, ts.drop_last(), n1, n2);
    }
}

} // verus!
