//! Profiles in the pprof format: samples refer to locations, locations to
//! functions, and all text goes through a table of strings.
use vstd::prelude::*;

use crate::clock::{duration_secs, duration_since_epoch, duration_subsec_nanos, system_time_now};
use crate::text::{chars_of, compare_chars, string_of};
use crate::types::{frames_view, FrameView, Pid, StackFrame, StackTrace, Timestamp};

verus! {

/// What the values of a sample measure: indexes into the string table.
#[derive(Debug, Clone, Copy, PartialEq, Eq)]
pub struct ValueType {
    pub ty: i64,
    pub unit: i64,
}

/// A label of a sample: a key with a string or a number.
#[derive(Debug, Clone, Copy, PartialEq, Eq)]
pub struct Label {
    pub key: i64,
    pub str: i64,
    pub num: i64,
    pub num_unit: i64,
}

/// One measured sample: where it was taken, its values and its labels.
#[derive(Debug, Clone, PartialEq, Eq)]
pub struct Sample {
    pub location_id: Vec<u64>,
    pub value: Vec<i64>,
    pub label: Vec<Label>,
}

/// An address range mapped into the profiled program.
#[derive(Debug, Clone, Copy, PartialEq, Eq)]
pub struct Mapping {
    pub id: u64,
    pub memory_start: u64,
    pub memory_limit: u64,
    pub file_offset: u64,
    pub filename: i64,
    pub build_id: i64,
    pub has_functions: bool,
    pub has_filenames: bool,
    pub has_line_numbers: bool,
    pub has_inline_frames: bool,
}

/// A line in a function.
#[derive(Debug, Clone, Copy, PartialEq, Eq)]
pub struct Line {
    pub function_id: u64,
    pub line: i64,
}

/// A program location.
#[derive(Debug, Clone, PartialEq, Eq)]
pub struct Location {
    pub id: u64,
    pub mapping_id: u64,
    pub address: u64,
    pub line: Vec<Line>,
    pub is_folded: bool,
}

/// A function: its name and file as indexes into the string table.
#[derive(Debug, Clone, Copy, PartialEq, Eq)]
pub struct Function {
    pub id: u64,
    pub name: i64,
    pub system_name: i64,
    pub filename: i64,
    pub start_line: i64,
}

/// A profile.
#[derive(Debug, Clone, PartialEq, Eq)]
pub struct Profile {
    pub sample_type: Vec<ValueType>,
    pub sample: Vec<Sample>,
    pub mapping: Vec<Mapping>,
    pub location: Vec<Location>,
    pub function: Vec<Function>,
    pub string_table: Vec<String>,
    pub drop_frames: i64,
    pub keep_frames: i64,
    pub time_nanos: i64,
    pub duration_nanos: i64,
    pub period_type: Option<ValueType>,
    pub period: i64,
    pub comment: Vec<i64>,
    pub default_sample_type: i64,
}

/// The model of a sample.
pub struct SampleModel {
    pub location_id: Seq<u64>,
    pub value: Seq<i64>,
    pub label: Seq<Label>,
}

/// The model of a location.
pub struct LocationModel {
    pub id: u64,
    pub mapping_id: u64,
    pub address: u64,
    pub line: Seq<Line>,
    pub is_folded: bool,
}

/// The model of a profile.
pub struct ProfileModel {
    pub sample_type: Seq<ValueType>,
    pub sample: Seq<SampleModel>,
    pub mapping: Seq<Mapping>,
    pub location: Seq<LocationModel>,
    pub function: Seq<Function>,
    pub string_table: Seq<Seq<char>>,
    pub drop_frames: i64,
    pub keep_frames: i64,
    pub time_nanos: i64,
    pub duration_nanos: i64,
    pub period_type: Option<ValueType>,
    pub period: i64,
    pub comment: Seq<i64>,
    pub default_sample_type: i64,
}

impl View for Sample {
    type V = SampleModel;

    open spec fn view(&self) -> SampleModel {
        SampleModel { location_id: self.location_id@, value: self.value@, label: self.label@ }
    }
}

impl View for Location {
    type V = LocationModel;

    open spec fn view(&self) -> LocationModel {
        LocationModel {
            id: self.id,
            mapping_id: self.mapping_id,
            address: self.address,
            line: self.line@,
            is_folded: self.is_folded,
        }
    }
}

impl View for Profile {
    type V = ProfileModel;

    open spec fn view(&self) -> ProfileModel {
        ProfileModel {
            sample_type: self.sample_type@,
            sample: self.sample@.map_values(|s: Sample| s@),
            mapping: self.mapping@,
            location: self.location@.map_values(|l: Location| l@),
            function: self.function@,
            string_table: self.string_table@.map_values(|s: String| s@),
            drop_frames: self.drop_frames,
            keep_frames: self.keep_frames,
            time_nanos: self.time_nanos,
            duration_nanos: self.duration_nanos,
            period_type: self.period_type,
            period: self.period,
            comment: self.comment@,
            default_sample_type: self.default_sample_type,
        }
    }
}

/// The state of the recorder: the profile, the frames with a location so far (with
/// their location ids), and the time of the previous sample.
pub struct PprofModel {
    pub profile: ProfileModel,
    pub known: Seq<(FrameView, u64)>,
    pub prev_time: Option<int>,
}

// ----------------------------------------------------------------------------------------
// The model of recording
// ----------------------------------------------------------------------------------------

/// The first position of `t` in the table, or the table's length when it is absent.
pub open spec fn first_pos(st: Seq<Seq<char>>, t: Seq<char>) -> int
    decreases st.len(),
{
    if st.len() == 0 {
        0
    } else if st[0] == t {
        0
    } else {
        1 + first_pos(st.drop_first(), t)
    }
}

/// The table with `t` added if missing, and the index of `t` in it.
pub open spec fn string_id_model(st: Seq<Seq<char>>, t: Seq<char>) -> (Seq<Seq<char>>, i64) {
    if first_pos(st, t) < st.len() {
        (st, first_pos(st, t) as i64)
    } else {
        (st.push(t), st.len() as i64)
    }
}

/// Function `f` of the profile is the one of the frame: same name and file.
pub open spec fn function_matches(fun: Function, st: Seq<Seq<char>>, f: FrameView) -> bool {
    &&& 0 <= fun.name < st.len()
    &&& 0 <= fun.filename < st.len()
    &&& st[fun.name as int] == f.name
    &&& st[fun.filename as int] == f.relative_path
}

/// The first position of a function for the frame, or the number of functions.
pub open spec fn first_function(funcs: Seq<Function>, st: Seq<Seq<char>>, f: FrameView) -> int
    decreases funcs.len(),
{
    if funcs.len() == 0 {
        0
    } else if function_matches(funcs[0], st, f) {
        0
    } else {
        1 + first_function(funcs.drop_first(), st, f)
    }
}

/// The largest function id, or 0.
pub open spec fn max_function_id(funcs: Seq<Function>) -> int
    decreases funcs.len(),
{
    if funcs.len() == 0 {
        0
    } else {
        let m = max_function_id(funcs.drop_last());
        if funcs.last().id > m {
            funcs.last().id as int
        } else {
            m
        }
    }
}

/// The functions and strings after looking up (and perhaps adding) the function of
/// `f`, and its id.
pub open spec fn function_id_model(funcs: Seq<Function>, st: Seq<Seq<char>>, f: FrameView) -> (Seq<Function>, Seq<Seq<char>>, u64) {
    let i = first_function(funcs, st, f);
    if i < funcs.len() {
        (funcs, st, funcs[i].id)
    } else {
        let id = (max_function_id(funcs) + 1) as u64;
        let (st1, n) = string_id_model(st, f.name);
        let (st2, fl) = string_id_model(st1, f.relative_path);
        (funcs.push(Function { id, name: n, system_name: 0, filename: fl, start_line: 0 }), st2, id)
    }
}

/// The first position of the frame among the known ones, or their number.
pub open spec fn first_known(known: Seq<(FrameView, u64)>, f: FrameView) -> int
    decreases known.len(),
{
    if known.len() == 0 {
        0
    } else if known[0].0 == f {
        0
    } else {
        1 + first_known(known.drop_first(), f)
    }
}

/// The state after looking up (and perhaps adding) the location of `f`, and its id.
pub open spec fn location_id_model(s: PprofModel, f: FrameView) -> (PprofModel, u64) {
    let i = first_known(s.known, f);
    if i < s.known.len() {
        (s, s.known[i].1)
    } else {
        let id = (s.known.len() + 1) as u64;
        let (funcs, st, fid) = function_id_model(s.profile.function, s.profile.string_table, f);
        let loc = LocationModel {
            id,
            mapping_id: 0,
            address: 0,
            line: seq![Line { function_id: fid, line: f.lineno as i64 }],
            is_folded: false,
        };
        (
            PprofModel {
                profile: ProfileModel {
                    location: s.profile.location.push(loc),
                    function: funcs,
                    string_table: st,
                    ..s.profile
                },
                known: s.known.push((f, id)),
                prev_time: s.prev_time,
            },
            id,
        )
    }
}

/// The state after looking up the locations of the frames, in order, and their ids.
pub open spec fn location_ids_model(s: PprofModel, frames: Seq<FrameView>) -> (PprofModel, Seq<u64>)
    decreases frames.len(),
{
    if frames.len() == 0 {
        (s, Seq::empty())
    } else {
        let (s1, ids) = location_ids_model(s, frames.drop_last());
        let (s2, id) = location_id_model(s1, frames.last());
        (s2, ids.push(id))
    }
}

/// The model with a string looked up in the table.
pub open spec fn with_string(s: PprofModel, t: Seq<char>) -> (PprofModel, i64) {
    let (st, id) = string_id_model(s.profile.string_table, t);
    (PprofModel { profile: ProfileModel { string_table: st, ..s.profile }, ..s }, id)
}

/// The characters of `pid`.
pub open spec fn pid_key() -> Seq<char> {
    seq!['p', 'i', 'd']
}

/// The characters of `thread_id`.
pub open spec fn thread_id_key() -> Seq<char> {
    seq!['t', 'h', 'r', 'e', 'a', 'd', '_', 'i', 'd']
}

/// The state after making the labels of a sample (its process and thread), and the
/// labels.
pub open spec fn labels_model(s: PprofModel, pid: Option<Pid>, thread_id: Option<usize>) -> (PprofModel, Seq<Label>) {
    let (s1, l1) = match pid {
        Some(p) => {
            let (s1, k) = with_string(s, pid_key());
            (s1, seq![Label { key: k, str: 0, num: p as i64, num_unit: 0 }])
        },
        None => (s, Seq::empty()),
    };
    match thread_id {
        Some(t) => {
            let (s2, k) = with_string(s1, thread_id_key());
            (s2, l1.push(Label { key: k, str: 0, num: t as i64, num_unit: 0 }))
        },
        None => (s1, l1),
    }
}

/// The state after adding a sample of `trace` that took `value` nanoseconds.
pub open spec fn add_sample_model(s: PprofModel, trace: Seq<FrameView>, pid: Option<Pid>, thread_id: Option<usize>, value: i64) -> PprofModel {
    let (s1, ids) = location_ids_model(s, trace);
    let (s2, labels) = labels_model(s1, pid, thread_id);
    PprofModel {
        profile: ProfileModel {
            sample: s2.profile.sample.push(SampleModel { location_id: ids, value: seq![value], label: labels }),
            ..s2.profile
        },
        ..s2
    }
}

/// The nanoseconds from `prev` to `now` (both counted from the UNIX epoch, negative
/// before it), truncated to 64 bits as a signed number; zero when `now` is earlier.
pub open spec fn elapsed_nanos(prev: Option<int>, now: int) -> i64 {
    match prev {
        Some(p) => if now >= p {
            (now - p) as i64
        } else {
            0
        },
        None => 0,
    }
}

/// A reading of the wall clock in nanoseconds from the UNIX epoch lies in this range:
/// its seconds fit in 64 bits.
pub open spec fn clock_range(n: int) -> bool {
    -0x1_0000_0000_0000_0000_0000_0000 < n < 0x1_0000_0000_0000_0000_0000_0000
}

/// The state after recording a trace taken at `now`.
pub open spec fn record_model(s: PprofModel, t: StackTrace, now: int) -> PprofModel {
    let s1 = add_sample_model(s, frames_view(t.trace@), t.pid, t.thread_id, elapsed_nanos(s.prev_time, now));
    PprofModel { prev_time: Some(now), ..s1 }
}

/// The recorder's tables are consistent: every location and function id is its
/// position plus one, and every function names strings of the table.
pub open spec fn pprof_wf(s: PprofModel) -> bool {
    &&& forall|i: int| 0 <= i < s.known.len() ==> (#[trigger] s.known[i]).1 == i + 1
    &&& forall|i: int| 0 <= i < s.profile.function.len() ==> (#[trigger] s.profile.function[i]).id == i + 1
    &&& forall|i: int| 0 <= i < s.profile.function.len() ==> 0 <= (#[trigger] s.profile.function[i]).name < s.profile.string_table.len() && 0 <= s.profile.function[i].filename < s.profile.string_table.len()
    &&& s.prev_time matches Some(p) ==> clock_range(p)
}

/// The tables stay small enough for the ids of one more sample of `n` frames.
pub open spec fn record_fits(s: PprofModel, n: int) -> bool {
    &&& s.known.len() + n < usize::MAX
    &&& s.profile.function.len() + n < usize::MAX
    &&& s.profile.string_table.len() + 2 * n + 2 < i64::MAX
}

// ----------------------------------------------------------------------------------------
// The recorder
// ----------------------------------------------------------------------------------------

/// The time now in nanoseconds from the UNIX epoch (negative before it), as the
/// machine's clock reads it; nothing more is stated of its value.
fn time_now() -> (t: i128)
    ensures
        clock_range(t as int),
{
    let now = system_time_now();
    match duration_since_epoch(&now) {
        Ok(d) => duration_secs(&d) as i128 * 1_000_000_000 + duration_subsec_nanos(&d) as i128,
        Err(d) => -(duration_secs(&d) as i128 * 1_000_000_000 + duration_subsec_nanos(&d) as i128),
    }
}

/// Collects traces into a pprof profile.
#[derive(Debug)]
pub struct Stats {
    pub profile: Profile,
    known_frames: Vec<(StackFrame, u64)>,
    prev_time: Option<i128>,
}

impl View for Stats {
    type V = PprofModel;

    closed spec fn view(&self) -> PprofModel {
        PprofModel {
            profile: self.profile@,
            known: self.known_frames@.map_values(|p: (StackFrame, u64)| (p.0@, p.1)),
            prev_time: match self.prev_time {
                Some(t) => Some(t as int),
                None => None,
            },
        }
    }
}

/// The profile that a new recorder starts with: the empty string, then `wall` and
/// `nanoseconds` for the one sample type.
pub open spec fn initial_profile() -> ProfileModel {
    ProfileModel {
        sample_type: seq![ValueType { ty: 1, unit: 2 }],
        sample: Seq::empty(),
        mapping: Seq::empty(),
        location: Seq::empty(),
        function: Seq::empty(),
        string_table: seq![
            Seq::empty(),
            seq!['w', 'a', 'l', 'l'],
            seq!['n', 'a', 'n', 'o', 's', 'e', 'c', 'o', 'n', 'd', 's'],
        ],
        drop_frames: 0,
        keep_frames: 0,
        time_nanos: 0,
        duration_nanos: 0,
        period_type: None,
        period: 0,
        comment: Seq::empty(),
        default_sample_type: 0,
    }
}

proof fn lemma_first_pos(st: Seq<Seq<char>>, t: Seq<char>, i: int)
    requires
        0 <= i <= st.len(),
        forall|j: int| 0 <= j < i ==> st[j] != t,
        i < st.len() ==> st[i] == t,
    ensures
        first_pos(st, t) == i,
    decreases i,
{
    if i > 0 {
        assert forall|j: int| 0 <= j < i - 1 implies st.drop_first()[j] != t by {
            assert(st.drop_first()[j] == st[j + 1]);
        }
        lemma_first_pos(st.drop_first(), t, i - 1);
    }
}

proof fn lemma_first_pos_nonneg(st: Seq<Seq<char>>, t: Seq<char>)
    ensures
        0 <= first_pos(st, t) <= st.len(),
    decreases st.len(),
{
    if st.len() > 0 {
        lemma_first_pos_nonneg(st.drop_first(), t);
    }
}

proof fn lemma_first_function(funcs: Seq<Function>, st: Seq<Seq<char>>, f: FrameView, i: int)
    requires
        0 <= i <= funcs.len(),
        forall|j: int| 0 <= j < i ==> !function_matches(#[trigger] funcs[j], st, f),
        i < funcs.len() ==> function_matches(funcs[i], st, f),
    ensures
        first_function(funcs, st, f) == i,
    decreases i,
{
    if i > 0 {
        assert forall|j: int| 0 <= j < i - 1 implies !function_matches(#[trigger] funcs.drop_first()[j], st, f) by {
            assert(funcs.drop_first()[j] == funcs[j + 1]);
        }
        lemma_first_function(funcs.drop_first(), st, f, i - 1);
    }
}

proof fn lemma_first_known(known: Seq<(FrameView, u64)>, f: FrameView, i: int)
    requires
        0 <= i <= known.len(),
        forall|j: int| 0 <= j < i ==> (#[trigger] known[j]).0 != f,
        i < known.len() ==> known[i].0 == f,
    ensures
        first_known(known, f) == i,
    decreases i,
{
    if i > 0 {
        assert forall|j: int| 0 <= j < i - 1 implies (#[trigger] known.drop_first()[j]).0 != f by {
            assert(known.drop_first()[j] == known[j + 1]);
        }
        lemma_first_known(known.drop_first(), f, i - 1);
    }
}

proof fn lemma_max_function_id(funcs: Seq<Function>)
    requires
        forall|i: int| 0 <= i < funcs.len() ==> (#[trigger] funcs[i]).id == i + 1,
    ensures
        max_function_id(funcs) == funcs.len(),
    decreases funcs.len(),
{
    if funcs.len() > 0 {
        lemma_max_function_id(funcs.drop_last());
    }
}

// ----------------------------------------------------------------------------------------
// Every reference of the profile resolves
// ----------------------------------------------------------------------------------------

/// Every id that the profile uses names one of its entries: locations are numbered
/// from one in order, each names a function of the table, each sample names
/// locations, and each label's key is a string of the table.
pub open spec fn references_resolve(s: PprofModel) -> bool {
    let p = s.profile;
    &&& p.location.len() == s.known.len()
    &&& forall|i: int|
        0 <= i < p.location.len() ==> (#[trigger] p.location[i]).id == i + 1 && p.location[i].line.len() == 1
            && 1 <= p.location[i].line[0].function_id <= p.function.len()
    &&& forall|i: int, k: int|
        0 <= i < p.sample.len() && 0 <= k < p.sample[i].location_id.len() ==> 1
            <= #[trigger] p.sample[i].location_id[k] <= p.location.len()
    &&& forall|i: int, k: int|
        0 <= i < p.sample.len() && 0 <= k < p.sample[i].label.len() ==> 0
            <= #[trigger] p.sample[i].label[k].key < p.string_table.len()
}

proof fn lemma_string_id_model(st: Seq<Seq<char>>, t: Seq<char>)
    requires
        st.len() < i64::MAX,
    ensures
        0 <= string_id_model(st, t).1 < string_id_model(st, t).0.len(),
        string_id_model(st, t).0.len() >= st.len(),
        string_id_model(st, t).0.len() <= st.len() + 1,
{
    lemma_first_pos_nonneg(st, t);
}

proof fn lemma_first_function_bound(funcs: Seq<Function>, st: Seq<Seq<char>>, f: FrameView)
    ensures
        0 <= first_function(funcs, st, f) <= funcs.len(),
    decreases funcs.len(),
{
    if funcs.len() > 0 {
        lemma_first_function_bound(funcs.drop_first(), st, f);
    }
}

proof fn lemma_first_known_bound(known: Seq<(FrameView, u64)>, f: FrameView)
    ensures
        0 <= first_known(known, f) <= known.len(),
    decreases known.len(),
{
    if known.len() > 0 {
        lemma_first_known_bound(known.drop_first(), f);
    }
}

/// Looking up a location keeps the tables consistent and every reference resolved,
/// and gives the id of a location of the profile.
proof fn lemma_location_id_refs(s: PprofModel, f: FrameView)
    requires
        pprof_wf(s),
        references_resolve(s),
        s.profile.string_table.len() + 2 < i64::MAX,
        s.known.len() + 1 < usize::MAX,
        s.profile.function.len() + 1 < usize::MAX,
    ensures
        location_id_model(s, f).0.profile.string_table.len() <= s.profile.string_table.len() + 2,
        location_id_model(s, f).0.known.len() <= s.known.len() + 1,
        location_id_model(s, f).0.profile.function.len() <= s.profile.function.len() + 1,
        pprof_wf(location_id_model(s, f).0),
        references_resolve(location_id_model(s, f).0),
        1 <= location_id_model(s, f).1 <= location_id_model(s, f).0.profile.location.len(),
        location_id_model(s, f).0.profile.location.len() >= s.profile.location.len(),
        location_id_model(s, f).0.profile.string_table.len() >= s.profile.string_table.len(),
        location_id_model(s, f).0.profile.sample == s.profile.sample,
{
    let i = first_known(s.known, f);
    lemma_first_known_bound(s.known, f);
    if i < s.known.len() {
        assert(s.known[i].1 == i + 1);
    } else {
        let funcs = s.profile.function;
        let st = s.profile.string_table;
        let j = first_function(funcs, st, f);
        lemma_first_function_bound(funcs, st, f);
        lemma_max_function_id(funcs);
        let (st1, n) = string_id_model(st, f.name);
        lemma_string_id_model(st, f.name);
        lemma_string_id_model(st1, f.relative_path);
        let r = location_id_model(s, f).0;
        let fid = function_id_model(funcs, st, f).2;
        if j < funcs.len() {
            assert(funcs[j].id == j + 1);
            assert(r.profile.function == funcs);
        } else {
            assert(fid == funcs.len() + 1);
            assert(r.profile.function.len() == funcs.len() + 1);
        }
        assert(1 <= fid <= r.profile.function.len());
        assert(r.profile.location == s.profile.location.push(r.profile.location.last()));
        assert(r.known == s.known.push((f, (s.known.len() + 1) as u64)));
        assert forall|k: int| 0 <= k < r.profile.location.len() implies (#[trigger] r.profile.location[k]).id == k + 1
            && r.profile.location[k].line.len() == 1 && 1 <= r.profile.location[k].line[0].function_id
            <= r.profile.function.len() by {
            if k < s.profile.location.len() {
                assert(r.profile.location[k] == s.profile.location[k]);
            }
        }
        assert forall|k: int| 0 <= k < r.known.len() implies (#[trigger] r.known[k]).1 == k + 1 by {
            if k < s.known.len() {
                assert(r.known[k] == s.known[k]);
            }
        }
        assert forall|k: int| 0 <= k < r.profile.function.len() implies (#[trigger] r.profile.function[k]).id == k + 1 by {
            if k < funcs.len() {
                assert(r.profile.function[k] == funcs[k]);
            }
        }
        assert forall|k: int| 0 <= k < r.profile.function.len() implies 0 <= (#[trigger] r.profile.function[k]).name
            < r.profile.string_table.len() && 0 <= r.profile.function[k].filename < r.profile.string_table.len() by {
            if k < funcs.len() {
                assert(r.profile.function[k] == funcs[k]);
            }
        }
    }
}

/// Looking up the locations of frames keeps the tables consistent and every reference
/// resolved, and gives ids of locations of the profile.
proof fn lemma_location_ids_refs(s: PprofModel, frames: Seq<FrameView>)
    requires
        pprof_wf(s),
        references_resolve(s),
        s.profile.string_table.len() + 2 * frames.len() + 2 < i64::MAX,
        s.known.len() + frames.len() < usize::MAX,
        s.profile.function.len() + frames.len() < usize::MAX,
    ensures
        location_ids_model(s, frames).0.profile.string_table.len() <= s.profile.string_table.len() + 2 * frames.len(),
        location_ids_model(s, frames).0.known.len() <= s.known.len() + frames.len(),
        location_ids_model(s, frames).0.profile.function.len() <= s.profile.function.len() + frames.len(),
        pprof_wf(location_ids_model(s, frames).0),
        references_resolve(location_ids_model(s, frames).0),
        forall|k: int| 0 <= k < location_ids_model(s, frames).1.len() ==> 1 <= #[trigger] location_ids_model(s, frames).1[k]
            <= location_ids_model(s, frames).0.profile.location.len(),
        location_ids_model(s, frames).1.len() == frames.len(),
        location_ids_model(s, frames).0.profile.string_table.len() >= s.profile.string_table.len(),
        location_ids_model(s, frames).0.profile.sample == s.profile.sample,
    decreases frames.len(),
{
    if frames.len() > 0 {
        lemma_location_ids_refs(s, frames.drop_last());
        let (s1, ids) = location_ids_model(s, frames.drop_last());
        lemma_location_id_refs(s1, frames.last());
        let (s2, id) = location_id_model(s1, frames.last());
        assert forall|k: int| 0 <= k < ids.push(id).len() implies 1 <= #[trigger] ids.push(id)[k]
            <= s2.profile.location.len() by {
            if k < ids.len() {
                assert(ids.push(id)[k] == ids[k]);
            }
        }
    }
}

/// Making the labels only adds strings, and their keys are strings of the table.
proof fn lemma_labels_refs(s: PprofModel, pid: Option<Pid>, thread_id: Option<usize>)
    requires
        s.profile.string_table.len() + 2 < i64::MAX,
    ensures
        labels_model(s, pid, thread_id).0.profile.string_table.len() >= s.profile.string_table.len(),
        labels_model(s, pid, thread_id).0.profile.string_table.len() <= s.profile.string_table.len() + 2,
        forall|k: int| 0 <= k < labels_model(s, pid, thread_id).1.len() ==> 0 <= (#[trigger] labels_model(s, pid, thread_id).1[k]).key
            < labels_model(s, pid, thread_id).0.profile.string_table.len(),
        labels_model(s, pid, thread_id).0.profile.function == s.profile.function,
        labels_model(s, pid, thread_id).0.profile.location == s.profile.location,
        labels_model(s, pid, thread_id).0.profile.sample == s.profile.sample,
        labels_model(s, pid, thread_id).0.known == s.known,
{
    lemma_string_id_model(s.profile.string_table, pid_key());
    let s1 = match pid {
        Some(p) => with_string(s, pid_key()).0,
        None => s,
    };
    lemma_string_id_model(s1.profile.string_table, thread_id_key());
}

// ----------------------------------------------------------------------------------------
// Every location describes its frame
// ----------------------------------------------------------------------------------------

/// Location `id` of the profile is one of the frame `f`: its line is the frame's line,
/// and it names a function whose name and file, in the string table, are the frame's
/// name and relative path.
pub open spec fn location_describes(s: PprofModel, f: FrameView, id: u64) -> bool {
    let p = s.profile;
    let st = p.string_table;
    &&& 1 <= id <= p.location.len()
    &&& p.location[id - 1].line.len() >= 1
    &&& p.location[id - 1].line[0].line == f.lineno as i64
    &&& 1 <= p.location[id - 1].line[0].function_id <= p.function.len()
    &&& 0 <= p.function[p.location[id - 1].line[0].function_id - 1].name < st.len()
    &&& 0 <= p.function[p.location[id - 1].line[0].function_id - 1].filename < st.len()
    &&& st[p.function[p.location[id - 1].line[0].function_id - 1].name as int] == f.name
    &&& st[p.function[p.location[id - 1].line[0].function_id - 1].filename as int] == f.relative_path
}

/// Every frame with a location is described by its location.
pub open spec fn locations_describe_frames(s: PprofModel) -> bool {
    forall|i: int| 0 <= i < s.known.len() ==> #[trigger] location_describes(s, s.known[i].0, s.known[i].1)
}

/// `s2` keeps every location, function and string of `s` where it was.
pub open spec fn extends(s: PprofModel, s2: PprofModel) -> bool {
    &&& s2.profile.location.len() >= s.profile.location.len()
    &&& forall|j: int| 0 <= j < s.profile.location.len() ==> s2.profile.location[j] == #[trigger] s.profile.location[j]
    &&& s2.profile.function.len() >= s.profile.function.len()
    &&& forall|j: int| 0 <= j < s.profile.function.len() ==> s2.profile.function[j] == #[trigger] s.profile.function[j]
    &&& s2.profile.string_table.len() >= s.profile.string_table.len()
    &&& forall|j: int|
        0 <= j < s.profile.string_table.len() ==> s2.profile.string_table[j] == #[trigger] s.profile.string_table[j]
}

proof fn lemma_describes_stable(s: PprofModel, s2: PprofModel, f: FrameView, id: u64)
    requires
        location_describes(s, f, id),
        extends(s, s2),
    ensures
        location_describes(s2, f, id),
{
    let loc = s.profile.location[id - 1];
    assert(s2.profile.location[id - 1] == loc);
    let fid = loc.line[0].function_id;
    let fun = s.profile.function[fid - 1];
    assert(s2.profile.function[fid - 1] == fun);
    assert(s2.profile.string_table[fun.name as int] == s.profile.string_table[fun.name as int]);
    assert(s2.profile.string_table[fun.filename as int] == s.profile.string_table[fun.filename as int]);
}

proof fn lemma_extends_trans(a: PprofModel, b: PprofModel, c: PprofModel)
    requires
        extends(a, b),
        extends(b, c),
    ensures
        extends(a, c),
{
    assert forall|j: int| 0 <= j < a.profile.location.len() implies c.profile.location[j] == #[trigger] a.profile.location[j] by {
        assert(c.profile.location[j] == b.profile.location[j]);
    }
    assert forall|j: int| 0 <= j < a.profile.function.len() implies c.profile.function[j] == #[trigger] a.profile.function[j] by {
        assert(c.profile.function[j] == b.profile.function[j]);
    }
    assert forall|j: int|
        0 <= j < a.profile.string_table.len() implies c.profile.string_table[j] == #[trigger] a.profile.string_table[j] by {
        assert(c.profile.string_table[j] == b.profile.string_table[j]);
    }
}

proof fn lemma_first_pos_found(st: Seq<Seq<char>>, t: Seq<char>)
    ensures
        first_pos(st, t) < st.len() ==> st[first_pos(st, t)] == t,
    decreases st.len(),
{
    if st.len() > 0 && st[0] != t {
        lemma_first_pos_found(st.drop_first(), t);
        lemma_first_pos_nonneg(st.drop_first(), t);
    }
}

/// Looking up a string keeps the table's strings where they were and gives the position
/// of the string.
proof fn lemma_string_id_found(st: Seq<Seq<char>>, t: Seq<char>)
    ensures
        string_id_model(st, t).0.len() >= st.len(),
        forall|j: int| 0 <= j < st.len() ==> string_id_model(st, t).0[j] == #[trigger] st[j],
        st.len() < i64::MAX ==> 0 <= string_id_model(st, t).1 < string_id_model(st, t).0.len()
            && string_id_model(st, t).0[string_id_model(st, t).1 as int] == t,
{
    lemma_first_pos_found(st, t);
    lemma_first_pos_nonneg(st, t);
}

proof fn lemma_first_function_found(funcs: Seq<Function>, st: Seq<Seq<char>>, f: FrameView)
    ensures
        first_function(funcs, st, f) < funcs.len() ==> function_matches(funcs[first_function(funcs, st, f)], st, f),
    decreases funcs.len(),
{
    if funcs.len() > 0 && !function_matches(funcs[0], st, f) {
        lemma_first_function_found(funcs.drop_first(), st, f);
        lemma_first_function_bound(funcs.drop_first(), st, f);
        if first_function(funcs.drop_first(), st, f) < funcs.len() - 1 {
            assert(funcs.drop_first()[first_function(funcs.drop_first(), st, f)] == funcs[first_function(funcs, st, f)]);
        }
    }
}

proof fn lemma_first_known_found(known: Seq<(FrameView, u64)>, f: FrameView)
    ensures
        first_known(known, f) < known.len() ==> known[first_known(known, f)].0 == f,
    decreases known.len(),
{
    if known.len() > 0 && known[0].0 != f {
        lemma_first_known_found(known.drop_first(), f);
        lemma_first_known_bound(known.drop_first(), f);
        if first_known(known.drop_first(), f) < known.len() - 1 {
            assert(known.drop_first()[first_known(known.drop_first(), f)] == known[first_known(known, f)]);
        }
    }
}

/// Looking up the location of a frame gives a location that describes it, keeps what
/// the profile held, and keeps every location describing its frame.
proof fn lemma_location_id_describes(s: PprofModel, f: FrameView)
    requires
        pprof_wf(s),
        references_resolve(s),
        locations_describe_frames(s),
        s.profile.string_table.len() + 2 < i64::MAX,
        s.known.len() + 1 < usize::MAX,
        s.profile.function.len() + 1 < usize::MAX,
    ensures
        extends(s, location_id_model(s, f).0),
        locations_describe_frames(location_id_model(s, f).0),
        location_describes(location_id_model(s, f).0, f, location_id_model(s, f).1),
        location_id_model(s, f).0.known.len() >= s.known.len(),
        forall|j: int| 0 <= j < s.known.len() ==> location_id_model(s, f).0.known[j] == #[trigger] s.known[j],
{
    let i = first_known(s.known, f);
    lemma_first_known_bound(s.known, f);
    lemma_first_known_found(s.known, f);
    lemma_location_id_refs(s, f);
    let r = location_id_model(s, f).0;
    if i < s.known.len() {
        assert(location_describes(s, s.known[i].0, s.known[i].1));
    } else {
        let funcs = s.profile.function;
        let st = s.profile.string_table;
        let j = first_function(funcs, st, f);
        lemma_first_function_bound(funcs, st, f);
        lemma_first_function_found(funcs, st, f);
        lemma_max_function_id(funcs);
        let (st1, n) = string_id_model(st, f.name);
        lemma_string_id_found(st, f.name);
        lemma_string_id_found(st1, f.relative_path);
        let (st2, fl) = string_id_model(st1, f.relative_path);
        let id = (s.known.len() + 1) as u64;
        assert(r.profile.location == s.profile.location.push(r.profile.location.last()));
        assert(r.known == s.known.push((f, id)));
        assert(s.profile.location.len() == s.known.len());
        if j < funcs.len() {
            assert(funcs[j].id == j + 1);
            assert(r.profile.function == funcs);
            assert(r.profile.string_table == st);
        } else {
            assert(r.profile.function == funcs.push(Function { id, name: n, system_name: 0, filename: fl, start_line: 0 }).update(
                funcs.len() as int,
                r.profile.function.last(),
            ));
            assert(r.profile.function[funcs.len() as int].name == n);
            assert(r.profile.function[funcs.len() as int].filename == fl);
            assert(st2[n as int] == st1[n as int]);
            assert(r.profile.string_table == st2);
        }
        assert(extends(s, r));
        assert(location_describes(r, f, id));
        assert forall|k: int| 0 <= k < r.known.len() implies #[trigger] location_describes(r, r.known[k].0, r.known[k].1) by {
            if k < s.known.len() {
                assert(r.known[k] == s.known[k]);
                assert(location_describes(s, s.known[k].0, s.known[k].1));
                lemma_describes_stable(s, r, s.known[k].0, s.known[k].1);
            }
        }
    }
}

proof fn lemma_location_ids_describe(s: PprofModel, frames: Seq<FrameView>)
    requires
        pprof_wf(s),
        references_resolve(s),
        locations_describe_frames(s),
        s.profile.string_table.len() + 2 * frames.len() + 2 < i64::MAX,
        s.known.len() + frames.len() < usize::MAX,
        s.profile.function.len() + frames.len() < usize::MAX,
    ensures
        extends(s, location_ids_model(s, frames).0),
        locations_describe_frames(location_ids_model(s, frames).0),
        location_ids_model(s, frames).1.len() == frames.len(),
        forall|k: int|
            0 <= k < frames.len() ==> location_describes(
                location_ids_model(s, frames).0,
                frames[k],
                #[trigger] location_ids_model(s, frames).1[k],
            ),
    decreases frames.len(),
{
    if frames.len() > 0 {
        let init = frames.drop_last();
        lemma_location_ids_describe(s, init);
        lemma_location_ids_refs(s, init);
        let (s1, ids) = location_ids_model(s, init);
        lemma_location_id_describes(s1, frames.last());
        let (s2, id) = location_id_model(s1, frames.last());
        lemma_extends_trans(s, s1, s2);
        assert forall|k: int| 0 <= k < frames.len() implies location_describes(
            s2,
            frames[k],
            #[trigger] ids.push(id)[k],
        ) by {
            if k < init.len() {
                assert(ids.push(id)[k] == ids[k]);
                assert(init[k] == frames[k]);
                lemma_describes_stable(s1, s2, frames[k], ids[k]);
            }
        }
    } else {
        assert(extends(s, s));
    }
}

/// Making the labels keeps what the profile held.
proof fn lemma_labels_extend(s: PprofModel, pid: Option<Pid>, thread_id: Option<usize>)
    ensures
        extends(s, labels_model(s, pid, thread_id).0),
        labels_model(s, pid, thread_id).0.known == s.known,
{
    lemma_string_id_found(s.profile.string_table, pid_key());
    let s1 = match pid {
        Some(p) => with_string(s, pid_key()).0,
        None => s,
    };
    lemma_string_id_found(s1.profile.string_table, thread_id_key());
    let r = labels_model(s, pid, thread_id).0;
    assert forall|j: int|
        0 <= j < s.profile.string_table.len() implies r.profile.string_table[j] == #[trigger] s.profile.string_table[j] by {
        assert(s1.profile.string_table[j] == s.profile.string_table[j]);
    }
}

/// After a trace is recorded, every location describes the frame it was made for: each
/// location of the new sample has the line of its frame and names a function with the
/// frame's name and relative path, and so does every location made before.
pub proof fn law_locations_describe_frames(s: PprofModel, t: StackTrace, now: int)
    requires
        pprof_wf(s),
        references_resolve(s),
        locations_describe_frames(s),
        record_fits(s, t.trace@.len() as int),
    ensures
        locations_describe_frames(record_model(s, t, now)),
        record_model(s, t, now).profile.sample.last().location_id.len() == t.trace@.len(),
        forall|k: int|
            0 <= k < t.trace@.len() ==> location_describes(
                record_model(s, t, now),
                t.trace@[k]@,
                #[trigger] record_model(s, t, now).profile.sample.last().location_id[k],
            ),
{
    let fv = frames_view(t.trace@);
    lemma_location_ids_describe(s, fv);
    let (s1, ids) = location_ids_model(s, fv);
    lemma_labels_extend(s1, t.pid, t.thread_id);
    let s2 = labels_model(s1, t.pid, t.thread_id).0;
    let r = record_model(s, t, now);
    assert(r.profile.sample.last().location_id == ids);
    assert forall|k: int| 0 <= k < t.trace@.len() implies location_describes(r, t.trace@[k]@, #[trigger] ids[k]) by {
        assert(fv[k] == t.trace@[k]@);
        lemma_describes_stable(s1, s2, fv[k], ids[k]);
    }
    assert forall|i: int| 0 <= i < r.known.len() implies #[trigger] location_describes(r, r.known[i].0, r.known[i].1) by {
        assert(location_describes(s1, s1.known[i].0, s1.known[i].1));
        lemma_describes_stable(s1, s2, s1.known[i].0, s1.known[i].1);
    }
}

/// Recording a trace of `n` frames adds at most `n` locations and functions, and at
/// most `2 * n + 2` strings.
pub proof fn lemma_record_sizes(s: PprofModel, t: StackTrace, now: int)
    requires
        pprof_wf(s),
        references_resolve(s),
        record_fits(s, t.trace@.len() as int),
    ensures
        record_model(s, t, now).known.len() <= s.known.len() + t.trace@.len(),
        record_model(s, t, now).profile.function.len() <= s.profile.function.len() + t.trace@.len(),
        record_model(s, t, now).profile.string_table.len() <= s.profile.string_table.len() + 2 * t.trace@.len() + 2,
{
    let trace = frames_view(t.trace@);
    lemma_location_ids_refs(s, trace);
    let (s1, ids) = location_ids_model(s, trace);
    lemma_labels_refs(s1, t.pid, t.thread_id);
}

/// Recording keeps every reference of the profile resolved: the profile written out
/// names only locations, functions and strings that it holds.
pub proof fn law_record_keeps_references(s: PprofModel, t: StackTrace, now: int)
    requires
        pprof_wf(s),
        references_resolve(s),
        record_fits(s, t.trace@.len() as int),
        clock_range(now),
    ensures
        references_resolve(record_model(s, t, now)),
        pprof_wf(record_model(s, t, now)),
{
    let trace = frames_view(t.trace@);
    lemma_location_ids_refs(s, trace);
    let (s1, ids) = location_ids_model(s, trace);
    lemma_labels_refs(s1, t.pid, t.thread_id);
    let (s2, labels) = labels_model(s1, t.pid, t.thread_id);
    let r = record_model(s, t, now);
    let smp = SampleModel { location_id: ids, value: seq![elapsed_nanos(s.prev_time, now)], label: labels };
    assert(r.profile.sample == s2.profile.sample.push(smp));
    assert forall|i: int, k: int| 0 <= i < r.profile.sample.len() && 0 <= k < r.profile.sample[i].location_id.len() implies 1
        <= #[trigger] r.profile.sample[i].location_id[k] <= r.profile.location.len() by {
        if i < s.profile.sample.len() {
            assert(r.profile.sample[i] == s.profile.sample[i]);
        }
    }
    assert forall|i: int, k: int| 0 <= i < r.profile.sample.len() && 0 <= k < r.profile.sample[i].label.len() implies 0
        <= #[trigger] r.profile.sample[i].label[k].key < r.profile.string_table.len() by {
        if i < s.profile.sample.len() {
            assert(r.profile.sample[i] == s.profile.sample[i]);
        }
    }
    assert forall|k: int| 0 <= k < r.profile.function.len() implies 0 <= (#[trigger] r.profile.function[k]).name
        < r.profile.string_table.len() && 0 <= r.profile.function[k].filename < r.profile.string_table.len() by {
        assert(r.profile.function[k] == s1.profile.function[k]);
    }
}

impl Stats {
    /// A recorder with an empty profile.
    pub fn new() -> (s: Stats)
        ensures
            s@.profile == initial_profile(),
            s@.known.len() == 0,
            s@.prev_time is None,
            pprof_wf(s@),
            references_resolve(s@),
    {
        let st = vec![
            string_of(Vec::<char>::new().as_slice()),
            string_of(vec!['w', 'a', 'l', 'l'].as_slice()),
            string_of(vec!['n', 'a', 'n', 'o', 's', 'e', 'c', 'o', 'n', 'd', 's'].as_slice()),
        ];
        let s = Stats {
            profile: Profile {
                sample_type: vec![ValueType { ty: 1, unit: 2 }],
                sample: Vec::new(),
                mapping: Vec::new(),
                location: Vec::new(),
                function: Vec::new(),
                string_table: st,
                drop_frames: 0,
                keep_frames: 0,
                time_nanos: 0,
                duration_nanos: 0,
                period_type: None,
                period: 0,
                comment: Vec::new(),
                default_sample_type: 0,
            },
            known_frames: Vec::new(),
            prev_time: None,
        };
        assert(s@.profile.string_table =~= initial_profile().string_table);
        assert(s@.profile.sample =~= initial_profile().sample);
        assert(s@.profile.location =~= initial_profile().location);
        assert(s@.profile.sample_type =~= initial_profile().sample_type);
        assert(s@.known =~= Seq::<(FrameView, u64)>::empty());
        s
    }

    /// The index of `text` in the string table, adding it at the end if missing.
    fn string_id(&mut self, text: &Vec<char>) -> (id: i64)
        ensures
            (final(self)@.profile.string_table, id) == string_id_model(old(self)@.profile.string_table, text@),
            final(self)@ == (PprofModel { profile: ProfileModel { string_table: final(self)@.profile.string_table, ..old(self)@.profile }, ..old(self)@ }),
    {
        let ghost st = self@.profile.string_table;
        let mut i: usize = 0;
        while i < self.profile.string_table.len()
            invariant
                i <= self.profile.string_table@.len(),
                self@ == old(self)@,
                st == self@.profile.string_table,
                forall|j: int| 0 <= j < i ==> st[j] != text@,
            decreases self.profile.string_table@.len() - i,
        {
            let s = chars_of(self.profile.string_table[i].as_str());
            if compare_chars(s.as_slice(), text.as_slice()) == 0 {
                proof {
                    lemma_first_pos(st, text@, i as int);
                }
                return i as i64;
            }
            i = i + 1;
        }
        proof {
            lemma_first_pos(st, text@, i as int);
        }
        let n = self.profile.string_table.len();
        self.profile.string_table.push(string_of(text.as_slice()));
        assert(self@.profile.string_table =~= st.push(text@));
        n as i64
    }
}


impl Stats {
    /// The id of the function of `frame`, adding the function (and its strings) if it
    /// is new: the next id after the largest.
    fn get_or_create_function_id(&mut self, frame: &StackFrame) -> (id: u64)
        requires
            pprof_wf(old(self)@),
            old(self)@.profile.function.len() + 1 < usize::MAX,
            old(self)@.profile.string_table.len() + 2 < i64::MAX,
        ensures
            (final(self)@.profile.function, final(self)@.profile.string_table, id) == function_id_model(old(self)@.profile.function, old(self)@.profile.string_table, frame@),
            final(self)@ == (PprofModel { profile: ProfileModel { function: final(self)@.profile.function, string_table: final(self)@.profile.string_table, ..old(self)@.profile }, ..old(self)@ }),
            pprof_wf(final(self)@),
    {
        let ghost funcs = self@.profile.function;
        let ghost st = self@.profile.string_table;
        let name = chars_of(frame.name.as_str());
        let rel = chars_of(frame.relative_path.as_str());
        let mut i: usize = 0;
        while i < self.profile.function.len()
            invariant
                i <= self.profile.function@.len(),
                self@ == old(self)@,
                funcs == self@.profile.function,
                st == self@.profile.string_table,
                pprof_wf(self@),
                name@ == frame@.name,
                rel@ == frame@.relative_path,
                forall|j: int| 0 <= j < i ==> !function_matches(#[trigger] funcs[j], st, frame@),
            decreases self.profile.function@.len() - i,
        {
            let f = self.profile.function[i];
            assert(funcs[i as int] == f);
            assert(0 <= f.name < st.len() && 0 <= f.filename < st.len());
            assert(st == self.profile.string_table@.map_values(|s: String| s@));
            assert(st.len() == self.profile.string_table.len());
            let ni = f.name as usize;
            let fi = f.filename as usize;
            assert(ni as int == f.name as int);
            assert(fi as int == f.filename as int);
            let fname = chars_of(self.profile.string_table[ni].as_str());
            let ffile = chars_of(self.profile.string_table[fi].as_str());
            if compare_chars(fname.as_slice(), name.as_slice()) == 0 && compare_chars(ffile.as_slice(), rel.as_slice()) == 0 {
                proof {
                    lemma_first_function(funcs, st, frame@, i as int);
                }
                return f.id;
            }
            i = i + 1;
        }
        proof {
            lemma_first_function(funcs, st, frame@, i as int);
        }
        let mut max: u64 = 0;
        let mut j: usize = 0;
        while j < self.profile.function.len()
            invariant
                j <= self.profile.function@.len(),
                funcs == self@.profile.function,
                max == max_function_id(funcs.take(j as int)),
            decreases self.profile.function@.len() - j,
        {
            assert(funcs.take(j + 1).drop_last() =~= funcs.take(j as int));
            if self.profile.function[j].id > max {
                max = self.profile.function[j].id;
            }
            j = j + 1;
        }
        assert(funcs.take(funcs.len() as int) =~= funcs);
        proof {
            lemma_max_function_id(funcs);
        }
        let next_id = max + 1;
        let n = self.string_id(&name);
        let fl = self.string_id(&rel);
        self.profile.function.push(Function { id: next_id, name: n, system_name: 0, filename: fl, start_line: 0 });
        proof {
            let s1 = string_id_model(st, frame@.name).0;
            assert(s1.len() >= st.len());
            assert(self@.profile.string_table.len() >= s1.len());
            lemma_first_pos_nonneg(st, frame@.name);
            lemma_first_pos_nonneg(s1, frame@.relative_path);
            assert(0 <= n < s1.len());
            assert(0 <= fl < self@.profile.string_table.len());
            let nf = self@.profile.function;
            assert forall|k: int| 0 <= k < nf.len() implies 0 <= (#[trigger] nf[k]).name < self@.profile.string_table.len() && 0 <= nf[k].filename < self@.profile.string_table.len() by {
                if k < funcs.len() {
                    assert(nf[k] == funcs[k]);
                }
            }
        }
        next_id
    }

    /// The id of the location of `frame`, adding the location (and its function) if the
    /// frame is new: the number of known frames.
    fn get_or_create_location_id(&mut self, frame: &StackFrame) -> (id: u64)
        requires
            pprof_wf(old(self)@),
            old(self)@.profile.function.len() + 1 < usize::MAX,
            old(self)@.profile.string_table.len() + 2 < i64::MAX,
            old(self)@.known.len() + 1 < usize::MAX,
        ensures
            (final(self)@, id) == location_id_model(old(self)@, frame@),
            pprof_wf(final(self)@),
    {
        let ghost known = self@.known;
        let mut i: usize = 0;
        while i < self.known_frames.len()
            invariant
                i <= self.known_frames@.len(),
                self@ == old(self)@,
                known == self@.known,
                pprof_wf(self@),
                forall|j: int| 0 <= j < i ==> (#[trigger] known[j]).0 != frame@,
            decreases self.known_frames@.len() - i,
        {
            if self.known_frames[i].0.same_as(frame) {
                proof {
                    lemma_first_known(known, frame@, i as int);
                }
                return self.known_frames[i].1;
            }
            i = i + 1;
        }
        proof {
            lemma_first_known(known, frame@, i as int);
        }
        let next_id = self.known_frames.len() as u64 + 1;
        self.known_frames.push((frame.duplicate(), next_id));
        assert(self@.known =~= known.push((frame@, next_id)));
        assert(pprof_wf(self@));
        let fid = self.get_or_create_function_id(frame);
        let newloc = Location {
            id: next_id,
            mapping_id: 0,
            address: 0,
            line: vec![Line { function_id: fid, line: frame.lineno as i64 }],
            is_folded: false,
        };
        assert(newloc@.line =~= seq![Line { function_id: fid, line: frame.lineno as i64 }]);
        let ghost locs_before = self@.profile.location;
        self.profile.location.push(newloc);
        assert(self@.profile.location =~= locs_before.push(newloc@));
        proof {
            let (m, _) = location_id_model(old(self)@, frame@);
            assert(self@.known =~= m.known);
            assert(self@.profile.location =~= m.profile.location);
            assert(self@.profile == m.profile);
        }
        next_id
    }

    /// The location ids of the frames of `trace`, in order.
    fn location_ids(&mut self, trace: &[StackFrame]) -> (ids: Vec<u64>)
        requires
            pprof_wf(old(self)@),
            record_fits(old(self)@, trace@.len() as int),
        ensures
            (final(self)@, ids@) == location_ids_model(old(self)@, frames_view(trace@)),
            pprof_wf(final(self)@),
            final(self)@.known.len() <= old(self)@.known.len() + trace@.len(),
            final(self)@.profile.function.len() <= old(self)@.profile.function.len() + trace@.len(),
            final(self)@.profile.string_table.len() <= old(self)@.profile.string_table.len() + 2 * trace@.len(),
            final(self)@.profile.sample == old(self)@.profile.sample,
            final(self)@.prev_time == old(self)@.prev_time,
    {
        let ghost fv = frames_view(trace@);
        let mut ids: Vec<u64> = Vec::new();
        let mut i: usize = 0;
        while i < trace.len()
            invariant
                i <= trace@.len(),
                fv == frames_view(trace@),
                pprof_wf(self@),
                record_fits(old(self)@, trace@.len() as int),
                (self@, ids@) == location_ids_model(old(self)@, fv.take(i as int)),
                self@.known.len() <= old(self)@.known.len() + i,
                self@.profile.function.len() <= old(self)@.profile.function.len() + i,
                self@.profile.string_table.len() <= old(self)@.profile.string_table.len() + 2 * i,
                self@.profile.sample == old(self)@.profile.sample,
                self@.prev_time == old(self)@.prev_time,
            decreases trace@.len() - i,
        {
            assert(fv.take(i + 1).drop_last() =~= fv.take(i as int));
            assert(fv.take(i + 1).last() == trace@[i as int]@);
            let ghost before = self@;
            let id = self.get_or_create_location_id(&trace[i]);
            proof {
                let t = first_known(before.known, trace@[i as int]@);
                if t >= before.known.len() {
                    let ff = first_function(before.profile.function, before.profile.string_table, trace@[i as int]@);
                    if ff >= before.profile.function.len() {
                        let s1 = string_id_model(before.profile.string_table, trace@[i as int]@.name).0;
                        assert(s1.len() <= before.profile.string_table.len() + 1);
                    }
                }
            }
            ids.push(id);
            i = i + 1;
        }
        assert(fv.take(trace@.len() as int) =~= fv);
        ids
    }

    /// The labels of a sample: its process and its thread, when known.
    fn labels(&mut self, stack: &StackTrace) -> (labels: Vec<Label>)
        ensures
            (final(self)@, labels@) == labels_model(old(self)@, stack.pid, stack.thread_id),
    {
        let mut labels: Vec<Label> = Vec::new();
        if let Some(pid) = stack.pid {
            let key = self.string_id(&vec!['p', 'i', 'd']);
            labels.push(Label { key, str: 0, num: pid as i64, num_unit: 0 });
        }
        let ghost mid = self@;
        let ghost l1 = labels@;
        if let Some(thread_id) = stack.thread_id {
            let key = self.string_id(&vec!['t', 'h', 'r', 'e', 'a', 'd', '_', 'i', 'd']);
            labels.push(Label { key, str: 0, num: thread_id as i64, num_unit: 0 });
        }
        proof {
            let (s1, ll1) = labels_model(old(self)@, stack.pid, None);
            assert(ll1 =~= l1);
            assert(labels_model(old(self)@, stack.pid, stack.thread_id).1 =~= labels@);
        }
        labels
    }

    /// Adds a sample of `stack` that took `sample_time` nanoseconds.
    fn add_sample(&mut self, stack: &StackTrace, sample_time: i64)
        requires
            pprof_wf(old(self)@),
            record_fits(old(self)@, stack.trace@.len() as int),
        ensures
            final(self)@ == add_sample_model(old(self)@, frames_view(stack.trace@), stack.pid, stack.thread_id, sample_time),
            pprof_wf(final(self)@),
    {
        let location_id = self.location_ids(stack.trace.as_slice());
        let ghost s1 = self@;
        let label = self.labels(stack);
        let ghost s2 = self@;
        assert(s2.profile.sample == s1.profile.sample);
        let s = Sample { location_id, value: vec![sample_time], label };
        assert(s@.value =~= seq![sample_time]);
        self.profile.sample.push(s);
        proof {
            let m = add_sample_model(old(self)@, frames_view(stack.trace@), stack.pid, stack.thread_id, sample_time);
            assert(self@.profile.sample =~= s2.profile.sample.push(s@));
            assert(self@.profile.sample =~= m.profile.sample);
        }
    }

    /// Records a trace taken at `now`, in nanoseconds from the UNIX epoch (negative
    /// before it): the sample's value is the time since the previous sample, in
    /// nanoseconds (zero for the first, or when samples arrive out of order).
    pub fn record_at(&mut self, stack: &StackTrace, now: i128)
        requires
            pprof_wf(old(self)@),
            record_fits(old(self)@, stack.trace@.len() as int),
            clock_range(now as int),
        ensures
            final(self)@ == record_model(old(self)@, *stack, now as int),
            pprof_wf(final(self)@),
            references_resolve(old(self)@) ==> references_resolve(final(self)@),
    {
        proof {
            if references_resolve(self@) {
                law_record_keeps_references(self@, *stack, now as int);
            }
        }
        let ns_since_last_sample: i64 = match self.prev_time {
            Some(prev) => {
                if now >= prev {
                    (now - prev) as i64
                } else {
                    0
                }
            },
            None => 0,
        };
        assert(ns_since_last_sample == elapsed_nanos(self@.prev_time, now as int));
        self.add_sample(stack, ns_since_last_sample);
        self.prev_time = Some(now);
    }

    /// Records a trace at the time it was taken, or, for a trace without a time, at the
    /// time the machine's clock reads now.
    pub fn record(&mut self, stack: &StackTrace)
        requires
            pprof_wf(old(self)@),
            record_fits(old(self)@, stack.trace@.len() as int),
        ensures
            stack.time matches Some(t) ==> final(self)@ == record_model(old(self)@, *stack, t.total_nanos()),
            exists|t: int| clock_range(t) && final(self)@ == record_model(old(self)@, *stack, t),
            pprof_wf(final(self)@),
            references_resolve(old(self)@) ==> references_resolve(final(self)@),
    {
        let this_time: i128 = match stack.time {
            Some(t) => t.secs as i128 * 1_000_000_000 + t.nanos as i128,
            None => time_now(),
        };
        self.record_at(stack, this_time);
    }
}
} // verus!
