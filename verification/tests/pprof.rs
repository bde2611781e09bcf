use rbspy::pprof::{Function, Label, Line, Location, Profile, Sample, Stats, ValueType};
use rbspy::types::{StackFrame, StackTrace, Timestamp};

fn s(frames: Vec<StackFrame>, time: Timestamp) -> StackTrace {
    StackTrace { trace: frames, pid: Some(9), thread_id: Some(999), time: Some(time) }
}

fn f(i: u32) -> StackFrame {
    StackFrame {
        name: format!("func{}", i),
        relative_path: format!("file{}.rb", i),
        absolute_path: None,
        lineno: i,
    }
}

fn fdup() -> StackFrame {
    StackFrame {
        name: "funcX".to_owned(),
        relative_path: "file1.rb".to_owned(),
        absolute_path: None,
        lineno: 42,
    }
}

fn plus(t: Timestamp, nanos: u32) -> Timestamp {
    let total = t.nanos + nanos;
    Timestamp { secs: t.secs + (total / 1_000_000_000) as u64, nanos: total % 1_000_000_000 }
}

fn start() -> Timestamp {
    Timestamp { secs: 1_700_000_000, nanos: 999_999_900 }
}

fn test_stats() -> Stats {
    let mut stats = Stats::new();
    let mut time = start();
    stats.record(&s(vec![f(1)], time));
    time = plus(time, 200);
    stats.record(&s(vec![f(3), f(2), f(1)], time));
    time = plus(time, 400);
    stats.record(&s(vec![f(2), f(1)], time));
    time = plus(time, 600);
    stats.record(&s(vec![f(3), f(1)], time));
    time = plus(time, 800);
    stats.record(&s(vec![f(2), f(1)], time));
    time = plus(time, 1000);
    stats.record(&s(vec![f(3), fdup(), f(1)], time));
    stats
}

fn labels() -> Vec<Label> {
    vec![Label { key: 5, str: 0, num: 9, num_unit: 0 }, Label { key: 6, str: 0, num: 999, num_unit: 0 }]
}

#[test]
fn tolerate_stacktrace_timestamps_arriving_out_of_order() {
    let mut stats = Stats::new();
    let time = start();
    stats.record(&s(vec![f(1)], time));
    let earlier = Timestamp { secs: time.secs, nanos: time.nanos - 200 };
    stats.record(&s(vec![f(3), f(2), f(1)], earlier));
    assert_eq!(stats.profile.sample.len(), 2);
    assert_eq!(stats.profile.sample[1].value, vec![0]);
}

#[test]
fn can_collect_traces_and_write_to_pprof_format() {
    let actual = test_stats().profile;
    let expected = Profile {
        sample_type: vec![ValueType { ty: 1, unit: 2 }],
        sample: vec![
            Sample { location_id: vec![1], value: vec![0], label: labels() },
            Sample { location_id: vec![2, 3, 1], value: vec![200], label: labels() },
            Sample { location_id: vec![3, 1], value: vec![400], label: labels() },
            Sample { location_id: vec![2, 1], value: vec![600], label: labels() },
            Sample { location_id: vec![3, 1], value: vec![800], label: labels() },
            Sample { location_id: vec![2, 4, 1], value: vec![1000], label: labels() },
        ],
        mapping: vec![],
        location: vec![
            Location { id: 1, mapping_id: 0, address: 0, line: vec![Line { function_id: 1, line: 1 }], is_folded: false },
            Location { id: 2, mapping_id: 0, address: 0, line: vec![Line { function_id: 2, line: 3 }], is_folded: false },
            Location { id: 3, mapping_id: 0, address: 0, line: vec![Line { function_id: 3, line: 2 }], is_folded: false },
            Location { id: 4, mapping_id: 0, address: 0, line: vec![Line { function_id: 4, line: 42 }], is_folded: false },
        ],
        function: vec![
            Function { id: 1, name: 3, system_name: 0, filename: 4, start_line: 0 },
            Function { id: 2, name: 7, system_name: 0, filename: 8, start_line: 0 },
            Function { id: 3, name: 9, system_name: 0, filename: 10, start_line: 0 },
            Function { id: 4, name: 11, system_name: 0, filename: 4, start_line: 0 },
        ],
        string_table: vec![
            "".to_string(),
            "wall".to_string(),
            "nanoseconds".to_string(),
            "func1".to_string(),
            "file1.rb".to_string(),
            "pid".to_string(),
            "thread_id".to_string(),
            "func3".to_string(),
            "file3.rb".to_string(),
            "func2".to_string(),
            "file2.rb".to_string(),
            "funcX".to_string(),
        ],
        drop_frames: 0,
        keep_frames: 0,
        time_nanos: 0,
        duration_nanos: 0,
        period_type: None,
        period: 0,
        comment: vec![],
        default_sample_type: 0,
    };
    assert_eq!(actual, expected, "stats don't match");
}

#[test]
fn record_at_uses_the_given_time_for_traces_without_one() {
    let mut stats = Stats::new();
    let untimed = StackTrace { trace: vec![f(1)], pid: None, thread_id: None, time: None };
    stats.record_at(&untimed, 10_000_000_000);
    stats.record_at(&untimed, 12_000_000_005);
    assert_eq!(stats.profile.sample[0].value, vec![0]);
    assert_eq!(stats.profile.sample[1].value, vec![2_000_000_005]);
    assert!(stats.profile.sample[0].label.is_empty());
    assert_eq!(stats.profile.location.len(), 1);
}

#[test]
fn new_profile_has_the_wall_time_sample_type() {
    let stats = Stats::new();
    assert_eq!(stats.profile.sample_type, vec![ValueType { ty: 1, unit: 2 }]);
    assert_eq!(stats.profile.string_table, vec!["".to_string(), "wall".to_string(), "nanoseconds".to_string()]);
    assert!(stats.profile.sample.is_empty());
}

#[test]
fn a_first_trace_without_time_weighs_nothing() {
    let mut stats = Stats::new();
    stats.record(&StackTrace { trace: vec![f(1)], pid: Some(3), thread_id: None, time: None });
    assert_eq!(stats.profile.sample.len(), 1);
    assert_eq!(stats.profile.sample[0].value, vec![0]);
    assert_eq!(stats.profile.sample[0].label, vec![Label { key: 5, str: 0, num: 3, num_unit: 0 }]);
}

#[test]
fn clock_readings_before_the_epoch_are_timed_too() {
    let mut stats = Stats::new();
    let untimed = StackTrace { trace: vec![f(1)], pid: None, thread_id: None, time: None };
    stats.record_at(&untimed, -3_000_000_000);
    stats.record_at(&untimed, -1_000_000_000);
    stats.record_at(&untimed, -2_000_000_000);
    assert_eq!(stats.profile.sample[1].value, vec![2_000_000_000]);
    assert_eq!(stats.profile.sample[2].value, vec![0]);
}
