//! Sampling on a regular schedule: the n-th sample is due at the start time plus n
//! times the time between samples, so that delays do not add up.
use vstd::prelude::*;

use std::collections::HashSet;

use crate::clock::{duration_secs, duration_subsec_nanos, elapsed_since, instant_now};
use crate::types::Pid;

verus! {

broadcast use vstd::std_specs::hash::group_hash_axioms;

/// Nanoseconds in a second.
pub const BILLION: u64 = 1_000_000_000;

/// The value of `x` as `x as u32` gives it: its low 32 bits.
pub open spec fn low_u32(x: u64) -> u32 {
    (x % 0x1_0000_0000) as u32
}

/// The time to sleep until the sample due `target` nanoseconds after the start, at
/// `elapsed` nanoseconds after it; or, when it is late, by how much. Both in 32 bits.
pub open spec fn sleep_time_model(target: u64, elapsed: u64) -> Result<u32, u32> {
    if target < elapsed {
        Err(low_u32((elapsed - target) as u64))
    } else {
        Ok(low_u32((target - elapsed) as u64))
    }
}

/// The nanoseconds of a reading of the clock, as 64-bit arithmetic that wraps gives
/// them.
pub open spec fn clock_nanos(secs: u64, subsec: u32) -> u64 {
    ((secs * BILLION + subsec) % 0x1_0000_0000_0000_0000) as u64
}

/// The time to sleep before the sample due at `target_elapsed` nanoseconds after the
/// start, at `nanos_elapsed` nanoseconds after it, or by how much that sample is late.
pub fn sleep_time(target_elapsed: u64, nanos_elapsed: u64) -> (r: Result<u32, u32>)
    ensures
        r == sleep_time_model(target_elapsed, nanos_elapsed),
{
    if target_elapsed < nanos_elapsed {
        let d = nanos_elapsed - target_elapsed;
        assert(d as u32 == d % 0x1_0000_0000) by (bit_vector);
        Err(d as u32)
    } else {
        let d = target_elapsed - nanos_elapsed;
        assert(d as u32 == d % 0x1_0000_0000) by (bit_vector);
        Ok(d as u32)
    }
}

/// Each sample is due one period after the one before: at the same reading of the
/// clock, the next sample's sleep is one period longer, as long as that fits in the
/// 32 bits that the sleep is given in.
pub proof fn law_next_sample_one_period_later(k: u64, n: u64, elapsed: u64, x: u32)
    requires
        (k + 2) * n <= u64::MAX,
        sleep_time_model(((k + 1) * n) as u64, elapsed) == Ok::<u32, u32>(x),
        x + n <= u32::MAX,
    ensures
        sleep_time_model(((k + 2) * n) as u64, elapsed) == Ok::<u32, u32>((x + n) as u32),
{
    let t1 = (k + 1) * n;
    let t2 = (k + 2) * n;
    vstd::arithmetic::mul::lemma_mul_is_distributive_add_other_way(n as int, k + 1, 1);
    vstd::arithmetic::mul::lemma_mul_basics(n as int);
    vstd::arithmetic::mul::lemma_mul_nonnegative(k + 1, n as int);
    assert(t2 == t1 + n);
    let a = t1 - elapsed;
    let m: int = 0x1_0000_0000;
    let q = a / m;
    let r = a % m;
    vstd::arithmetic::div_mod::lemma_fundamental_div_mod(a, m);
    assert(r == x);
    vstd::arithmetic::div_mod::lemma_fundamental_div_mod_converse(a + n, m, q, r + n);
}

/// The schedule of samples.
pub struct SampleTime {
    start_time: std::time::Instant,
    nanos_between_samples: u64,
    num_samples: u64,
}

/// The model of a schedule: the instant it starts from, the time between samples and
/// how many are past.
pub struct ScheduleModel {
    pub start_time: std::time::Instant,
    pub nanos_between_samples: u64,
    pub num_samples: u64,
}

impl View for SampleTime {
    type V = ScheduleModel;

    closed spec fn view(&self) -> ScheduleModel {
        ScheduleModel {
            start_time: self.start_time,
            nanos_between_samples: self.nanos_between_samples,
            num_samples: self.num_samples,
        }
    }
}

impl SampleTime {
    /// A schedule of `rate` samples a second, starting now.
    pub fn new(rate: u32) -> (s: SampleTime)
        requires
            rate > 0,
        ensures
            s@.nanos_between_samples == BILLION / (rate as u64),
            s@.num_samples == 0,
    {
        SampleTime { start_time: instant_now(), nanos_between_samples: BILLION / (rate as u64), num_samples: 0 }
    }

    /// Whether the next sample's due time still fits in 64 bits of nanoseconds.
    pub fn next_fits(&self) -> (b: bool)
        ensures
            b == (self@.num_samples < u64::MAX && (self@.num_samples + 1) * self@.nanos_between_samples
                <= u64::MAX),
    {
        if self.num_samples == u64::MAX {
            return false;
        }
        let next = self.num_samples + 1;
        match next.checked_mul(self.nanos_between_samples) {
            Some(_) => true,
            None => false,
        }
    }

    /// Moves on to the next sample, and gives the time to sleep until it is due
    /// (`Ok`), or by how much it is already late (`Err`), in nanoseconds; the
    /// elapsed time is whatever the clock reads.
    pub fn get_sleep_time(&mut self) -> (r: Result<u32, u32>)
        requires
            old(self)@.num_samples < u64::MAX,
            (old(self)@.num_samples + 1) * old(self)@.nanos_between_samples <= u64::MAX,
        ensures
            final(self)@.num_samples == old(self)@.num_samples + 1,
            final(self)@.nanos_between_samples == old(self)@.nanos_between_samples,
            final(self)@.start_time == old(self)@.start_time,
            exists|secs: u64, subsec: u32|
                subsec < BILLION && r == #[trigger] sleep_time_model(
                    (final(self)@.num_samples * final(self)@.nanos_between_samples) as u64,
                    clock_nanos(secs, subsec),
                ),
    {
        let next = self.num_samples + 1;
        let target_elapsed = next * self.nanos_between_samples;
        let elapsed = elapsed_since(&self.start_time);
        let secs = duration_secs(&elapsed);
        let subsec = duration_subsec_nanos(&elapsed);
        let nanos_elapsed = reading_nanos(secs, subsec);
        self.num_samples = next;
        let r = sleep_time(target_elapsed, nanos_elapsed);
        assert(r == sleep_time_model(
            (self@.num_samples * self@.nanos_between_samples) as u64,
            clock_nanos(secs, subsec),
        ));
        r
    }
}

/// The nanoseconds of a reading of the clock, computed as 64-bit arithmetic that
/// wraps computes them.
fn reading_nanos(secs: u64, subsec: u32) -> (n: u64)
    ensures
        n == clock_nanos(secs, subsec),
{
    let n = secs.wrapping_mul(BILLION).wrapping_add(subsec as u64);
    proof {
        vstd::arithmetic::mul::lemma_mul_is_commutative(secs as int, BILLION as int);
    }
    n
}

// ----------------------------------------------------------------------------------------
// The sampling loop's decisions
// ----------------------------------------------------------------------------------------

/// How an attempt to take a trace went.
#[derive(Debug, Clone, Copy, PartialEq, Eq, Structural)]
pub enum TraceOutcome {
    /// A trace was taken and handed on.
    Collected,
    /// The process has ended.
    ProcessEnded,
    /// Taking the trace failed.
    Failed,
}

/// What the sampling loop does after an attempt.
#[derive(Debug, Clone, Copy, PartialEq, Eq, Structural)]
pub enum NextStep {
    /// Go on sampling.
    Continue,
    /// Stop: the process has ended.
    Finish,
    /// Stop with the error: too many traces failed.
    GiveUp,
    /// Stop every recorder: the time limit has passed.
    TimeUp,
}

/// Sampling gives up when more than twenty traces failed and they are more than half
/// of all the attempts.
pub open spec fn too_many_errors(errors: int, total: int) -> bool {
    errors > 20 && 2 * errors > total
}

/// What the sampling loop does after an attempt with that outcome, when `errors` of
/// the `total` attempts so far failed and `time_up` says whether the time limit has
/// passed: an ended process finishes the loop, too many failures give up, and
/// otherwise the loop stops at the time limit or goes on.
pub open spec fn next_step_model(outcome: TraceOutcome, errors: int, total: int, time_up: bool) -> NextStep {
    match outcome {
        TraceOutcome::ProcessEnded => NextStep::Finish,
        TraceOutcome::Failed if too_many_errors(errors, total) => NextStep::GiveUp,
        _ => if time_up {
            NextStep::TimeUp
        } else {
            NextStep::Continue
        },
    }
}

/// How many traces the loop tried to take, and how many of those failed.
#[derive(Debug, Clone, Copy)]
pub struct SampleCounts {
    pub total: u64,
    pub errors: u64,
}

impl SampleCounts {
    /// No attempt yet.
    pub fn new() -> (c: SampleCounts)
        ensures
            c.total == 0,
            c.errors == 0,
    {
        SampleCounts { total: 0, errors: 0 }
    }

    /// Counts one attempt and decides what the loop does next, given whether the time
    /// limit has passed (the clock is read by the caller).
    pub fn step(&mut self, outcome: TraceOutcome, time_up: bool) -> (s: NextStep)
        requires
            old(self).total < u64::MAX,
            old(self).errors < u64::MAX,
        ensures
            final(self).total == old(self).total + 1,
            final(self).errors == if outcome == TraceOutcome::Failed {
                old(self).errors + 1
            } else {
                old(self).errors as int
            },
            s == next_step_model(outcome, final(self).errors as int, final(self).total as int, time_up),
    {
        let s = self.attempt(outcome);
        match s {
            NextStep::Continue => if time_up {
                NextStep::TimeUp
            } else {
                NextStep::Continue
            },
            _ => s,
        }
    }

    /// Counts one attempt and decides what the loop does next.
    pub fn attempt(&mut self, outcome: TraceOutcome) -> (s: NextStep)
        requires
            old(self).total < u64::MAX,
            old(self).errors < u64::MAX,
        ensures
            final(self).total == old(self).total + 1,
            match outcome {
                TraceOutcome::Collected => final(self).errors == old(self).errors && s == NextStep::Continue,
                TraceOutcome::ProcessEnded => final(self).errors == old(self).errors && s == NextStep::Finish,
                TraceOutcome::Failed => final(self).errors == old(self).errors + 1 && s == (if too_many_errors(
                    final(self).errors as int,
                    final(self).total as int,
                ) {
                    NextStep::GiveUp
                } else {
                    NextStep::Continue
                }),
            },
    {
        self.total = self.total + 1;
        match outcome {
            TraceOutcome::Collected => NextStep::Continue,
            TraceOutcome::ProcessEnded => NextStep::Finish,
            TraceOutcome::Failed => {
                self.errors = self.errors + 1;
                if self.errors > 20 && self.errors as u128 * 2 > self.total as u128 {
                    NextStep::GiveUp
                } else {
                    NextStep::Continue
                }
            },
        }
    }
}

/// The processes among `found` that are not recorded yet, in order, each once.
pub open spec fn new_pids(recorded: Set<Pid>, found: Seq<Pid>) -> Seq<Pid>
    decreases found.len(),
{
    if found.len() == 0 {
        Seq::empty()
    } else {
        let prev = new_pids(recorded, found.drop_last());
        let p = found.last();
        if recorded.contains(p) || prev.contains(p) {
            prev
        } else {
            prev.push(p)
        }
    }
}

/// A process gets a recorder when it was found and is not recorded yet.
pub proof fn law_new_pids(recorded: Set<Pid>, found: Seq<Pid>, x: Pid)
    ensures
        new_pids(recorded, found).contains(x) <==> found.contains(x) && !recorded.contains(x),
    decreases found.len(),
{
    if found.len() > 0 {
        law_new_pids(recorded, found.drop_last(), x);
        let prev = new_pids(recorded, found.drop_last());
        let p = found.last();
        if found.contains(x) && x != p {
            let i = choose|i: int| 0 <= i < found.len() && found[i] == x;
            assert(found.drop_last()[i] == x);
        }
        if found.drop_last().contains(x) {
            let i = choose|i: int| 0 <= i < found.drop_last().len() && found.drop_last()[i] == x;
            assert(found[i] == x);
        }
        assert(found[found.len() - 1] == p);
        if !(recorded.contains(p) || prev.contains(p)) {
            assert(prev.push(p)[prev.len() as int] == p);
            if prev.push(p).contains(x) && x != p {
                let i = choose|i: int| 0 <= i < prev.push(p).len() && prev.push(p)[i] == x;
                assert(prev[i] == x);
            }
            if prev.contains(x) {
                let i = choose|i: int| 0 <= i < prev.len() && prev[i] == x;
                assert(prev.push(p)[i] == x);
            }
        }
    }
}

/// No process gets two recorders from one look at the processes.
pub proof fn law_new_pids_distinct(recorded: Set<Pid>, found: Seq<Pid>)
    ensures
        new_pids(recorded, found).no_duplicates(),
    decreases found.len(),
{
    if found.len() > 0 {
        law_new_pids_distinct(recorded, found.drop_last());
        let prev = new_pids(recorded, found.drop_last());
        let p = found.last();
        if !(recorded.contains(p) || prev.contains(p)) {
            let s = prev.push(p);
            assert forall|i: int, j: int| 0 <= i < s.len() && 0 <= j < s.len() && i != j implies s[i] != s[j] by {
                if i < prev.len() && j < prev.len() {
                    assert(s[i] == prev[i] && s[j] == prev[j]);
                } else if i < prev.len() {
                    assert(s[i] == prev[i]);
                    assert(prev.contains(prev[i]));
                } else {
                    assert(s[j] == prev[j]);
                    assert(prev.contains(prev[j]));
                }
            }
        }
    }
}

/// The processes that have recorders after a run of looks at the processes, each look
/// marking what it found (as `start_new_targets` does).
pub open spec fn recorded_after(recorded: Set<Pid>, looks: Seq<Seq<Pid>>) -> Set<Pid>
    decreases looks.len(),
{
    if looks.len() == 0 {
        recorded
    } else {
        recorded_after(recorded, looks.drop_last()).union(looks.last().to_set())
    }
}

/// The processes that get a recorder over a run of looks, in the order they start:
/// each look starts those it found that had none yet (as `start_new_targets` does).
pub open spec fn started_over(recorded: Set<Pid>, looks: Seq<Seq<Pid>>) -> Seq<Pid>
    decreases looks.len(),
{
    if looks.len() == 0 {
        Seq::empty()
    } else {
        started_over(recorded, looks.drop_last()) + new_pids(
            recorded_after(recorded, looks.drop_last()),
            looks.last(),
        )
    }
}

/// Over a whole run of looks at the processes, each process gets at most one recorder:
/// no process is started twice, none that had a recorder before the run is started,
/// and each process started was found by some look and has a recorder afterwards.
pub proof fn law_each_process_started_once(recorded: Set<Pid>, looks: Seq<Seq<Pid>>)
    ensures
        started_over(recorded, looks).no_duplicates(),
        forall|x: Pid| #[trigger] started_over(recorded, looks).contains(x) ==> !recorded.contains(x)
            && recorded_after(recorded, looks).contains(x),
        forall|x: Pid| #[trigger] recorded.contains(x) ==> recorded_after(recorded, looks).contains(x),
    decreases looks.len(),
{
    if looks.len() > 0 {
        let prefix = looks.drop_last();
        let last = looks.last();
        law_each_process_started_once(recorded, prefix);
        let s = started_over(recorded, prefix);
        let r = recorded_after(recorded, prefix);
        let n = new_pids(r, last);
        law_new_pids_distinct(r, last);
        assert forall|x: Pid| #[trigger] n.contains(x) implies !r.contains(x) && last.contains(x) by {
            law_new_pids(r, last, x);
        }
        let all = s + n;
        assert(all == started_over(recorded, looks));
        assert forall|i: int, j: int| 0 <= i < all.len() && 0 <= j < all.len() && i != j implies all[i] != all[j] by {
            if i < s.len() && j < s.len() {
                assert(all[i] == s[i] && all[j] == s[j]);
            } else if i >= s.len() && j >= s.len() {
                assert(all[i] == n[i - s.len()] && all[j] == n[j - s.len()]);
            } else if i < s.len() {
                assert(s.contains(s[i]));
                assert(n.contains(n[j - s.len()]));
                assert(all[i] == s[i] && all[j] == n[j - s.len()]);
            } else {
                assert(s.contains(s[j]));
                assert(n.contains(n[i - s.len()]));
                assert(all[j] == s[j] && all[i] == n[i - s.len()]);
            }
        }
        assert forall|x: Pid| #[trigger] all.contains(x) implies !recorded.contains(x) && recorded_after(
            recorded,
            looks,
        ).contains(x) by {
            let k = choose|k: int| 0 <= k < all.len() && all[k] == x;
            if k < s.len() {
                assert(s[k] == x);
                assert(s.contains(x));
            } else {
                assert(n[k - s.len()] == x);
                assert(n.contains(x));
                assert(last.to_set().contains(x));
            }
        }
    }
}

/// Marks the processes found as recorded and gives those that were not recorded
/// yet, in order, each once: a recorder starts for each of them.
pub fn start_new_targets(recorded: &mut HashSet<Pid>, found: &[Pid]) -> (fresh: Vec<Pid>)
    ensures
        fresh@ == new_pids(old(recorded)@, found@),
        final(recorded)@ == old(recorded)@.union(found@.to_set()),
        fresh@.no_duplicates(),
        forall|p: Pid| fresh@.contains(p) ==> !old(recorded)@.contains(p),
{
    let ghost start = recorded@;
    let mut fresh: Vec<Pid> = Vec::new();
    let mut i: usize = 0;
    while i < found.len()
        invariant
            i <= found@.len(),
            recorded@ == start.union(found@.take(i as int).to_set()),
            fresh@ == new_pids(start, found@.take(i as int)),
            start == old(recorded)@,
        decreases found@.len() - i,
    {
        let p = found[i];
        let ghost prefix = found@.take(i as int);
        proof {
            law_new_pids(start, prefix, p);
            assert(found@.take(i + 1).drop_last() =~= prefix);
            assert(found@.take(i + 1).last() == p);
            assert(prefix.to_set().contains(p) <==> prefix.contains(p));
        }
        let is_new = recorded.insert(p);
        if is_new {
            fresh.push(p);
        }
        i = i + 1;
        proof {
            assert(found@.take(i as int).to_set() =~= prefix.to_set().insert(p)) by {
                assert forall|x: Pid| found@.take(i as int).to_set().contains(x) <==> prefix.to_set().insert(p).contains(x) by {
                    assert(found@.take(i as int).to_set().contains(x) <==> found@.take(i as int).contains(x));
                    assert(prefix.to_set().contains(x) <==> prefix.contains(x));
                    if found@.take(i as int).contains(x) && x != p {
                        let j = choose|j: int| 0 <= j < found@.take(i as int).len() && found@.take(i as int)[j] == x;
                        assert(prefix[j] == x);
                    }
                    if prefix.contains(x) {
                        let j = choose|j: int| 0 <= j < prefix.len() && prefix[j] == x;
                        assert(found@.take(i as int)[j] == x);
                    }
                    assert(found@.take(i as int)[i - 1] == p);
                }
            }
            assert(recorded@ =~= start.union(found@.take(i as int).to_set()));
        }
    }
    assert(found@.take(found@.len() as int) =~= found@);
    proof {
        law_new_pids_distinct(start, found@);
        assert forall|p: Pid| fresh@.contains(p) implies !start.contains(p) by {
            law_new_pids(start, found@, p);
        }
    }
    fresh
}

/// One look of the loop that starts recorders: once `done` (the root process's
/// recorder has finished, or recording was stopped) it starts no recorder and the
/// loop ends (`None`); otherwise it marks the processes found and the root as
/// recorded, and gives those among them, the root last, that had no recorder yet.
pub fn watch_step(recorded: &mut HashSet<Pid>, done: bool, root: Pid, found: &[Pid]) -> (r: Option<Vec<Pid>>)
    ensures
        done ==> r is None && final(recorded)@ == old(recorded)@,
        !done ==> (r matches Some(v) && v@ == new_pids(old(recorded)@, found@.push(root))
            && final(recorded)@ == old(recorded)@.union(found@.push(root).to_set())),
{
    if done {
        return None;
    }
    let mut look: Vec<Pid> = Vec::new();
    let mut i: usize = 0;
    while i < found.len()
        invariant
            i <= found@.len(),
            look@ == found@.take(i as int),
        decreases found@.len() - i,
    {
        look.push(found[i]);
        i = i + 1;
        assert(look@ =~= found@.take(i as int));
    }
    look.push(root);
    assert(look@ =~= found@.push(root));
    Some(start_new_targets(recorded, look.as_slice()))
}

/// What the recorders' results come to: success when any recorder succeeded (or
/// there was none), else the last error. A recording of several processes thus
/// succeeds even when the parent is no Ruby process.
pub fn combine_results<E>(results: Vec<Result<(), E>>) -> (r: Result<(), E>)
    ensures
        r == if results@.len() == 0 || exists|i: int| 0 <= i < results@.len() && (#[trigger] results@[i]) is Ok {
            Ok(())
        } else {
            results@.last()
        },
{
    let mut results = results;
    let n = results.len();
    if n == 0 {
        return Ok(());
    }
    let mut any_ok = false;
    let mut i: usize = 0;
    while i < n
        invariant
            i <= n,
            n == results@.len(),
            any_ok <==> exists|j: int| 0 <= j < i && (#[trigger] results@[j]) is Ok,
        decreases n - i,
    {
        if results[i].is_ok() {
            any_ok = true;
        }
        i = i + 1;
    }
    if any_ok {
        Ok(())
    } else {
        let ghost before = results@;
        match results.pop() {
            Some(last) => {
                assert(last == before.last());
                last
            },
            None => Ok(()),
        }
    }
}

} // verus!
