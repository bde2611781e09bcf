//! Profiles for speedscope (https://speedscope.app), "sampled" kind: one list of
//! samples per process, each sample a list of indexes into a shared table of
//! frames, root first, with a weight.
use vstd::prelude::*;

use crate::assoc::{
    has_key, key_at, keys_unique, lemma_index_of, lemma_sum_by_set_value, lemma_sum_by_touch, sum_by, touch, value_of,
};
use crate::text::{copy_opt_string, opt_view};
use crate::types::{frames_view, FrameView, Pid, StackFrame, StackTrace, Timestamp};

verus! {

/// A frame of the shared table.
#[derive(Debug, Clone, PartialEq, Eq)]
pub struct Frame {
    pub name: String,
    pub file: Option<String>,
    pub line: Option<u32>,
    pub col: Option<u32>,
}

/// The model of a frame of the table.
pub struct FrameModel {
    pub name: Seq<char>,
    pub file: Option<Seq<char>>,
    pub line: Option<u32>,
    pub col: Option<u32>,
}

impl View for Frame {
    type V = FrameModel;

    open spec fn view(&self) -> FrameModel {
        FrameModel { name: self.name@, file: opt_view(self.file), line: self.line, col: self.col }
    }
}

/// The table frame for a stack frame: its name, file and line.
pub open spec fn frame_model(f: FrameView) -> FrameModel {
    FrameModel { name: f.name, file: Some(f.relative_path), line: Some(f.lineno), col: None }
}

impl Frame {
    /// The table frame for a stack frame.
    pub fn new(stack_frame: &StackFrame) -> (f: Frame)
        ensures
            f@ == frame_model(stack_frame@),
    {
        Frame {
            name: stack_frame.name.clone(),
            file: Some(stack_frame.relative_path.clone()),
            line: Some(stack_frame.lineno),
            col: None,
        }
    }
}

/// The weight of a sample.
#[derive(Debug, Clone, Copy, PartialEq, Eq)]
pub enum Weight {
    /// The time since the previous sample (zero for the first).
    Elapsed { secs: u64, nanos: u32 },
    /// One unit, for samples recorded without a time.
    Unit,
}

/// Why a trace could not be recorded.
#[derive(Debug, Clone, Copy, PartialEq, Eq)]
pub enum SpeedscopeError {
    /// The trace was taken before the previous one.
    TimeWentBackwards,
}

/// The model of the statistics.
pub struct SpeedscopeModel {
    pub samples: Seq<(Option<Pid>, Seq<Seq<usize>>)>,
    pub frames: Seq<FrameModel>,
    pub frame_to_index: Seq<(FrameView, usize)>,
    pub weights: Seq<Weight>,
    pub prev_time: Option<Timestamp>,
}

/// Aggregated samples for speedscope.
#[derive(Debug)]
pub struct Stats {
    samples: Vec<(Option<Pid>, Vec<Vec<usize>>)>,
    frames: Vec<Frame>,
    frame_to_index: Vec<(StackFrame, usize)>,
    weights: Vec<Weight>,
    prev_time: Option<Timestamp>,
}

impl View for Stats {
    type V = SpeedscopeModel;

    closed spec fn view(&self) -> SpeedscopeModel {
        SpeedscopeModel {
            samples: self.samples@.map_values(
                |p: (Option<Pid>, Vec<Vec<usize>>)| (p.0, p.1@.map_values(|v: Vec<usize>| v@)),
            ),
            frames: self.frames@.map_values(|f: Frame| f@),
            frame_to_index: self.frame_to_index@.map_values(|p: (StackFrame, usize)| (p.0@, p.1)),
            weights: self.weights@,
            prev_time: self.prev_time,
        }
    }
}

/// The state after looking up (and perhaps adding) the table index of `f`, and the index.
pub open spec fn frame_index_model(s: SpeedscopeModel, f: FrameView) -> (SpeedscopeModel, usize) {
    if has_key(s.frame_to_index, f) {
        (s, value_of(s.frame_to_index, f))
    } else {
        let i = s.frames.len() as usize;
        (
            SpeedscopeModel {
                frames: s.frames.push(frame_model(f)),
                frame_to_index: s.frame_to_index.push((f, i)),
                ..s
            },
            i,
        )
    }
}

/// The state after looking up the table indexes of the frames, in order, and the indexes.
pub open spec fn frame_indices_model(s: SpeedscopeModel, frames: Seq<FrameView>) -> (SpeedscopeModel, Seq<usize>)
    decreases frames.len(),
{
    if frames.len() == 0 {
        (s, Seq::empty())
    } else {
        let (s1, ids) = frame_indices_model(s, frames.drop_last());
        let (s2, id) = frame_index_model(s1, frames.last());
        (s2, ids.push(id))
    }
}

/// The samples with one more sample for process `pid`.
pub open spec fn push_sample(
    samples: Seq<(Option<Pid>, Seq<Seq<usize>>)>,
    pid: Option<Pid>,
    sample: Seq<usize>,
) -> Seq<(Option<Pid>, Seq<Seq<usize>>)> {
    let t = touch(samples, pid, Seq::<Seq<usize>>::empty());
    crate::assoc::set_value(t, pid, value_of(t, pid).push(sample))
}

/// The duration from `prev` to `now`, when `now` is not earlier.
pub open spec fn duration_between(prev: Timestamp, now: Timestamp) -> Weight {
    let d = now.total_nanos() - prev.total_nanos();
    Weight::Elapsed { secs: (d / 1_000_000_000) as u64, nanos: (d % 1_000_000_000) as u32 }
}

/// The outcome of recording a trace: the samples gain the trace, root first, for its
/// process; then the weight is the time since the previous trace, zero for the first
/// trace with a time, one unit for a trace without a time. A trace taken before the
/// previous one is an error, after its sample has been added.
pub open spec fn record_model(s: SpeedscopeModel, t: StackTrace) -> (SpeedscopeModel, Result<(), SpeedscopeError>) {
    let (s1, ids) = frame_indices_model(s, frames_view(t.trace@));
    let s2 = SpeedscopeModel { samples: push_sample(s1.samples, t.pid, ids.reverse()), ..s1 };
    match t.time {
        Some(time) => match s2.prev_time {
            Some(prev) => if time.total_nanos() >= prev.total_nanos() {
                (SpeedscopeModel { weights: s2.weights.push(duration_between(prev, time)), prev_time: Some(time), ..s2 }, Ok(()))
            } else {
                (s2, Err(SpeedscopeError::TimeWentBackwards))
            },
            None => (SpeedscopeModel { weights: s2.weights.push(Weight::Elapsed { secs: 0, nanos: 0 }), prev_time: Some(time), ..s2 }, Ok(())),
        },
        None => (SpeedscopeModel { weights: s2.weights.push(Weight::Unit), ..s2 }, Ok(())),
    }
}

/// Every index of `ids` is below `n`.
pub open spec fn indexes_below(ids: Seq<usize>, n: int) -> bool {
    forall|k: int| 0 <= k < ids.len() ==> #[trigger] ids[k] < n
}

/// Every sample refers to frames among the first `n` of the table.
pub open spec fn samples_in_table(samples: Seq<(Option<Pid>, Seq<Seq<usize>>)>, n: int) -> bool {
    forall|p: int, j: int|
        0 <= p < samples.len() && 0 <= j < samples[p].1.len() ==> indexes_below(#[trigger] samples[p].1[j], n)
}

/// The tables are keyed uniquely and every index, of the lookup table and of the
/// samples, points into the frame table.
pub open spec fn speedscope_wf(s: SpeedscopeModel) -> bool {
    &&& keys_unique(s.frame_to_index)
    &&& keys_unique(s.samples)
    &&& forall|i: int| 0 <= i < s.frame_to_index.len() ==> (#[trigger] s.frame_to_index[i]).1 < s.frames.len()
    &&& samples_in_table(s.samples, s.frames.len() as int)
}

/// The frame table can take the frames of one more trace.
pub open spec fn record_fits(s: SpeedscopeModel, n: int) -> bool {
    s.frames.len() + n < usize::MAX
}

/// How many samples a list of samples holds, over all processes.
pub open spec fn sample_count(samples: Seq<(Option<Pid>, Seq<Seq<usize>>)>) -> int {
    sum_by(samples, |v: Seq<Seq<usize>>| v.len() as int)
}

/// Recording a trace adds one sample; when it succeeds it also adds one weight, so
/// that samples and weights stay in step.
pub proof fn law_record_adds_one_sample(s: SpeedscopeModel, t: StackTrace)
    requires
        speedscope_wf(s),
    ensures
        sample_count(record_model(s, t).0.samples) == sample_count(s.samples) + 1,
        record_model(s, t).1 is Ok ==> record_model(s, t).0.weights.len() == s.weights.len() + 1,
        record_model(s, t).1 is Err ==> record_model(s, t).0.weights == s.weights,
{
    let (s1, ids) = frame_indices_model(s, frames_view(t.trace@));
    lemma_frame_indices_samples(s, frames_view(t.trace@));
    let f = |v: Seq<Seq<usize>>| v.len() as int;
    let e = Seq::<Seq<usize>>::empty();
    let tt = touch(s1.samples, t.pid, e);
    lemma_sum_by_touch(s1.samples, f, t.pid, e);
    crate::assoc::lemma_touch(s1.samples, t.pid, e);
    lemma_sum_by_set_value(tt, f, t.pid, value_of(tt, t.pid).push(ids.reverse()));
}

/// Looking up frame indexes leaves the weights and the previous time as they were.
proof fn lemma_frame_indices_keep_time(s: SpeedscopeModel, frames: Seq<FrameView>)
    ensures
        frame_indices_model(s, frames).0.weights == s.weights,
        frame_indices_model(s, frames).0.prev_time == s.prev_time,
    decreases frames.len(),
{
    if frames.len() > 0 {
        lemma_frame_indices_keep_time(s, frames.drop_last());
    }
}

/// After a trace with a time, recording a trace taken no earlier succeeds and weighs
/// it by exactly the time between the two: whole seconds, and the nanoseconds below a
/// second, that add up to the difference of the two times.
pub proof fn law_weight_is_time_between(s: SpeedscopeModel, t: StackTrace, prev: Timestamp, time: Timestamp)
    requires
        s.prev_time == Some(prev),
        t.time == Some(time),
        prev.nanos < 1_000_000_000,
        time.nanos < 1_000_000_000,
        time.total_nanos() >= prev.total_nanos(),
    ensures
        record_model(s, t).1 is Ok,
        record_model(s, t).0.weights.len() == s.weights.len() + 1,
        record_model(s, t).0.weights.take(s.weights.len() as int) == s.weights,
        record_model(s, t).0.prev_time == Some(time),
        ({
            let w = record_model(s, t).0.weights.last();
            &&& w matches Weight::Elapsed { secs, nanos }
            &&& w->secs * 1_000_000_000 + w->nanos == time.total_nanos() - prev.total_nanos()
            &&& w->nanos < 1_000_000_000
        }),
{
    lemma_frame_indices_keep_time(s, frames_view(t.trace@));
    let d = time.total_nanos() - prev.total_nanos();
    vstd::arithmetic::div_mod::lemma_fundamental_div_mod(d, 1_000_000_000);
    assert(0 <= d % 1_000_000_000 < 1_000_000_000);
    assert(d < 0x1_0000_0000_0000_0000 * 1_000_000_000);
    vstd::arithmetic::div_mod::lemma_div_is_ordered(d, 0x1_0000_0000_0000_0000 * 1_000_000_000 - 1, 1_000_000_000);
    vstd::arithmetic::div_mod::lemma_div_by_multiple(0x1_0000_0000_0000_0000, 1_000_000_000);
    assert(0 <= d / 1_000_000_000 <= u64::MAX);
    let w = record_model(s, t).0.weights;
    assert(w.take(s.weights.len() as int) =~= s.weights);
}

/// The weight of a recorded trace: one unit for a trace without a time, zero for the
/// first trace with a time; a trace taken before the previous one is refused, and then
/// neither the weights nor the previous time change.
pub proof fn law_record_weights(s: SpeedscopeModel, t: StackTrace)
    ensures
        t.time is None ==> record_model(s, t).1 is Ok && record_model(s, t).0.weights == s.weights.push(Weight::Unit)
            && record_model(s, t).0.prev_time == s.prev_time,
        t.time is Some && s.prev_time is None ==> record_model(s, t).1 is Ok && record_model(s, t).0.weights
            == s.weights.push(Weight::Elapsed { secs: 0, nanos: 0 }) && record_model(s, t).0.prev_time == t.time,
        t.time matches Some(time) && s.prev_time matches Some(prev) && time.total_nanos() < prev.total_nanos()
            ==> record_model(s, t).1 == Err::<(), SpeedscopeError>(SpeedscopeError::TimeWentBackwards)
            && record_model(s, t).0.weights == s.weights && record_model(s, t).0.prev_time == s.prev_time,
{
    lemma_frame_indices_keep_time(s, frames_view(t.trace@));
}

/// Recording a trace adds at most one frame to the table for each of its frames.
pub proof fn lemma_record_frames(s: SpeedscopeModel, t: StackTrace)
    ensures
        s.frames.len() <= record_model(s, t).0.frames.len() <= s.frames.len() + t.trace@.len(),
{
    lemma_frame_indices_len(s, frames_view(t.trace@));
}

proof fn lemma_frame_indices_len(s: SpeedscopeModel, frames: Seq<FrameView>)
    ensures
        s.frames.len() <= frame_indices_model(s, frames).0.frames.len() <= s.frames.len() + frames.len(),
    decreases frames.len(),
{
    if frames.len() > 0 {
        lemma_frame_indices_len(s, frames.drop_last());
    }
}

/// Looking up frames leaves the samples and weights alone.
proof fn lemma_frame_indices_samples(s: SpeedscopeModel, frames: Seq<FrameView>)
    requires
        speedscope_wf(s),
    ensures
        frame_indices_model(s, frames).0.samples == s.samples,
        frame_indices_model(s, frames).0.weights == s.weights,
        frame_indices_model(s, frames).0.prev_time == s.prev_time,
        keys_unique(frame_indices_model(s, frames).0.samples),
    decreases frames.len(),
{
    if frames.len() > 0 {
        lemma_frame_indices_samples(s, frames.drop_last());
    }
}

impl Stats {
    /// Empty statistics.
    pub fn new() -> (s: Stats)
        ensures
            s@.samples.len() == 0,
            s@.frames.len() == 0,
            s@.frame_to_index.len() == 0,
            s@.weights.len() == 0,
            s@.prev_time is None,
            speedscope_wf(s@),
    {
        let s = Stats {
            samples: Vec::new(),
            frames: Vec::new(),
            frame_to_index: Vec::new(),
            weights: Vec::new(),
            prev_time: None,
        };
        assert(s@.samples =~= Seq::<(Option<Pid>, Seq<Seq<usize>>)>::empty());
        assert(s@.frame_to_index =~= Seq::<(FrameView, usize)>::empty());
        s
    }

    fn frame_index(&mut self, frame: &StackFrame) -> (i: usize)
        requires
            speedscope_wf(old(self)@),
            old(self)@.frames.len() + 1 < usize::MAX,
        ensures
            (final(self)@, i) == frame_index_model(old(self)@, frame@),
            speedscope_wf(final(self)@),
            old(self)@.frames.len() <= final(self)@.frames.len() <= old(self)@.frames.len() + 1,
            i < final(self)@.frames.len(),
            final(self)@.samples == old(self)@.samples,
    {
        let ghost known = self@.frame_to_index;
        let mut k: usize = 0;
        while k < self.frame_to_index.len()
            invariant
                k <= self.frame_to_index@.len(),
                self@ == old(self)@,
                known == self@.frame_to_index,
                speedscope_wf(self@),
                forall|j: int| 0 <= j < k ==> (#[trigger] known[j]).0 != frame@,
            decreases self.frame_to_index@.len() - k,
        {
            if self.frame_to_index[k].0.same_as(frame) {
                proof {
                    lemma_index_of(known, frame@, k as int);
                    assert(known[k as int].1 < self@.frames.len());
                }
                return self.frame_to_index[k].1;
            }
            k = k + 1;
        }
        assert(!has_key(known, frame@));
        let len = self.frames.len();
        self.frames.push(Frame::new(frame));
        self.frame_to_index.push((frame.duplicate(), len));
        proof {
            let m = frame_index_model(old(self)@, frame@).0;
            assert(self@.frames =~= m.frames);
            assert(self@.frame_to_index =~= m.frame_to_index);
            let f = self@.frame_to_index;
            assert forall|a: int, b: int| 0 <= a < f.len() && 0 <= b < f.len() && f[a].0 == f[b].0 implies a == b by {
                if a < known.len() && b == known.len() {
                    assert(key_at(known, frame@, a));
                }
                if b < known.len() && a == known.len() {
                    assert(key_at(known, frame@, b));
                }
            }
            assert forall|j: int| 0 <= j < f.len() implies (#[trigger] f[j]).1 < self@.frames.len() by {
                if j < known.len() {
                    assert(f[j] == known[j]);
                }
            }
            let ss = self@.samples;
            assert forall|p: int, j: int| 0 <= p < ss.len() && 0 <= j < ss[p].1.len() implies indexes_below(
                #[trigger] ss[p].1[j],
                self@.frames.len() as int,
            ) by {
                assert(indexes_below(old(self)@.samples[p].1[j], old(self)@.frames.len() as int));
            }
        }
        len
    }

    fn frame_indices(&mut self, trace: &[StackFrame]) -> (ids: Vec<usize>)
        requires
            speedscope_wf(old(self)@),
            record_fits(old(self)@, trace@.len() as int),
        ensures
            (final(self)@, ids@) == frame_indices_model(old(self)@, frames_view(trace@)),
            speedscope_wf(final(self)@),
            indexes_below(ids@, final(self)@.frames.len() as int),
            final(self)@.samples == old(self)@.samples,
    {
        let ghost fv = frames_view(trace@);
        let mut ids: Vec<usize> = Vec::new();
        let mut i: usize = 0;
        while i < trace.len()
            invariant
                i <= trace@.len(),
                fv == frames_view(trace@),
                speedscope_wf(self@),
                record_fits(old(self)@, trace@.len() as int),
                self@.frames.len() <= old(self)@.frames.len() + i,
                (self@, ids@) == frame_indices_model(old(self)@, fv.take(i as int)),
                indexes_below(ids@, self@.frames.len() as int),
                self@.samples == old(self)@.samples,
            decreases trace@.len() - i,
        {
            assert(fv.take(i + 1).drop_last() =~= fv.take(i as int));
            assert(fv.take(i + 1).last() == trace@[i as int]@);
            let ghost before = ids@;
            let id = self.frame_index(&trace[i]);
            ids.push(id);
            assert forall|k: int| 0 <= k < ids@.len() implies #[trigger] ids@[k] < self@.frames.len() by {
                if k < before.len() {
                    assert(before[k] == ids@[k]);
                }
            }
            i = i + 1;
        }
        assert(fv.take(trace@.len() as int) =~= fv);
        ids
    }

    fn push_sample(&mut self, pid: Option<Pid>, sample: Vec<usize>)
        requires
            speedscope_wf(old(self)@),
            indexes_below(sample@, old(self)@.frames.len() as int),
        ensures
            final(self)@ == (SpeedscopeModel { samples: push_sample(old(self)@.samples, pid, sample@), ..old(self)@ }),
            speedscope_wf(final(self)@),
    {
        let ghost ss = self@.samples;
        proof {
            crate::assoc::lemma_touch(ss, pid, Seq::<Seq<usize>>::empty());
        }
        let mut k: usize = 0;
        while k < self.samples.len()
            invariant
                k <= self.samples@.len(),
                self@ == old(self)@,
                ss == self@.samples,
                speedscope_wf(self@),
                indexes_below(sample@, old(self)@.frames.len() as int),
                forall|j: int| 0 <= j < k ==> (#[trigger] ss[j]).0 != pid,
            decreases self.samples@.len() - k,
        {
            if self.samples[k].0 == pid {
                proof {
                    lemma_index_of(ss, pid, k as int);
                    crate::assoc::lemma_set_value(ss, pid, ss[k as int].1.push(sample@));
                }
                let ghost before = self.samples@;
                let ghost sg = sample;
                self.samples[k].1.push(sample);
                proof {
                    let after = self.samples@;
                    assert(after.len() == before.len());
                    assert(after[k as int].0 == pid);
                    assert(after[k as int].1@ == before[k as int].1@.push(sg));
                    assert(before[k as int].1@.push(sg).map_values(|v: Vec<usize>| v@)
                        =~= before[k as int].1@.map_values(|v: Vec<usize>| v@).push(sg@));
                    assert forall|j: int| 0 <= j < after.len() && j != k implies after[j] == before[j] by {}
                    let ns = self@.samples;
                    let n = self@.frames.len() as int;
                    assert(ns[k as int].1 =~= ss[k as int].1.push(sg@));
                    assert forall|p: int, j: int| 0 <= p < ns.len() && 0 <= j < ns[p].1.len() implies indexes_below(
                        #[trigger] ns[p].1[j],
                        n,
                    ) by {
                        if p == k {
                            if j == ss[p].1.len() {
                                assert(ns[p].1[j] == sg@);
                            } else {
                                assert(ns[p].1[j] == ss[p].1[j]);
                                assert(indexes_below(ss[p].1[j], n));
                            }
                        } else {
                            assert(after[p] == before[p]);
                            assert(ns[p] == ss[p]);
                            assert(indexes_below(ss[p].1[j], n));
                        }
                    }
                }
                assert(self@.samples =~= push_sample(old(self)@.samples, pid, sample@));
                return;
            }
            k = k + 1;
        }
        assert(!has_key(ss, pid));
        let ghost sv = sample@;
        let mut fresh: Vec<Vec<usize>> = Vec::new();
        fresh.push(sample);
        self.samples.push((pid, fresh));
        proof {
            assert(fresh@.map_values(|v: Vec<usize>| v@) =~= seq![sv]);
            let t = ss.push((pid, Seq::<Seq<usize>>::empty()));
            lemma_index_of(t, pid, ss.len() as int);
            crate::assoc::lemma_set_value(t, pid, seq![sample@]);
            assert(Seq::<Seq<usize>>::empty().push(sample@) =~= seq![sample@]);
            let ns = self@.samples;
            let n = self@.frames.len() as int;
            assert forall|p: int, j: int| 0 <= p < ns.len() && 0 <= j < ns[p].1.len() implies indexes_below(
                #[trigger] ns[p].1[j],
                n,
            ) by {
                if p == ss.len() {
                    assert(ns[p].1[j] == sv);
                } else {
                    assert(ns[p] == ss[p]);
                }
            }
        }
        assert(self@.samples =~= push_sample(old(self)@.samples, pid, sample@));
    }

    /// Records a trace: see `record_model`.
    pub fn record(&mut self, stack: &StackTrace) -> (r: Result<(), SpeedscopeError>)
        requires
            speedscope_wf(old(self)@),
            record_fits(old(self)@, stack.trace@.len() as int),
        ensures
            (final(self)@, r) == record_model(old(self)@, *stack),
            speedscope_wf(final(self)@),
    {
        let mut frame_indices = self.frame_indices(stack.trace.as_slice());
        let ghost ids = frame_indices@;
        reverse_vec(&mut frame_indices);
        assert forall|k: int| 0 <= k < frame_indices@.len() implies #[trigger] frame_indices@[k] < self@.frames.len() by {
            assert(frame_indices@[k] == ids[ids.len() - 1 - k]);
        }
        self.push_sample(stack.pid, frame_indices);
        match stack.time {
            Some(time) => {
                match self.prev_time {
                    Some(prev) => {
                        let a = time.secs as u128 * 1_000_000_000 + time.nanos as u128;
                        let b = prev.secs as u128 * 1_000_000_000 + prev.nanos as u128;
                        if a < b {
                            return Err(SpeedscopeError::TimeWentBackwards);
                        }
                        let d = a - b;
                        let w = Weight::Elapsed { secs: (d / 1_000_000_000) as u64, nanos: (d % 1_000_000_000) as u32 };
                        assert(w == duration_between(prev, time));
                        self.weights.push(w);
                    },
                    None => {
                        self.weights.push(Weight::Elapsed { secs: 0, nanos: 0 });
                    },
                }
                self.prev_time = stack.time;
            },
            None => {
                self.weights.push(Weight::Unit);
            },
        }
        Ok(())
    }

    /// The samples of each process, each sample the frame indexes from the root down.
    pub fn samples(&self) -> (s: &Vec<(Option<Pid>, Vec<Vec<usize>>)>)
        ensures
            s@.map_values(|p: (Option<Pid>, Vec<Vec<usize>>)| (p.0, p.1@.map_values(|v: Vec<usize>| v@))) == self@.samples,
    {
        &self.samples
    }

    /// The table of frames.
    pub fn frames(&self) -> (f: &Vec<Frame>)
        ensures
            f@.map_values(|x: Frame| x@) == self@.frames,
    {
        &self.frames
    }

    /// The weights of the samples, in order.
    pub fn weights(&self) -> (w: &Vec<Weight>)
        ensures
            w@ == self@.weights,
    {
        &self.weights
    }
}

/// Reverses a vector in place.
fn reverse_vec(v: &mut Vec<usize>)
    ensures
        final(v)@ == old(v)@.reverse(),
{
    let n = v.len();
    let mut out: Vec<usize> = Vec::new();
    let mut i: usize = 0;
    while i < n
        invariant
            i <= n,
            n == v@.len(),
            v@ == old(v)@,
            out@.len() == i,
            forall|j: int| 0 <= j < i ==> #[trigger] out@[j] == v@[n - 1 - j],
        decreases n - i,
    {
        out.push(v[n - 1 - i]);
        i = i + 1;
    }
    assert(out@ =~= old(v)@.reverse());
    *v = out;
}

} // verus!
