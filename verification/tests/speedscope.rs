use rbspy::speedscope::{Frame, SpeedscopeError, Stats, Weight};
use rbspy::types::{StackFrame, StackTrace, Timestamp};

fn f(i: u32) -> StackFrame {
    StackFrame {
        name: format!("func{}", i),
        relative_path: format!("file{}.rb", i),
        absolute_path: None,
        lineno: i,
    }
}

fn t(frames: Vec<StackFrame>, pid: Option<i32>, time: Option<Timestamp>) -> StackTrace {
    StackTrace { trace: frames, pid, thread_id: None, time }
}

#[test]
fn samples_list_frame_indexes_root_first() {
    let mut stats = Stats::new();
    let t0 = Timestamp { secs: 5, nanos: 999_999_000 };
    let t1 = Timestamp { secs: 6, nanos: 500 };
    stats.record(&t(vec![f(2), f(1)], Some(7), Some(t0))).unwrap();
    stats.record(&t(vec![f(3), f(1)], Some(7), Some(t1))).unwrap();
    stats.record(&t(vec![f(1)], Some(8), Some(t1))).unwrap();
    assert_eq!(stats.frames().len(), 3);
    assert_eq!(
        stats.frames()[0],
        Frame { name: "func2".to_string(), file: Some("file2.rb".to_string()), line: Some(2), col: None }
    );
    let samples = stats.samples();
    assert_eq!(samples.len(), 2);
    assert_eq!(samples[0], (Some(7), vec![vec![1, 0], vec![1, 2]]));
    assert_eq!(samples[1], (Some(8), vec![vec![1]]));
    assert_eq!(
        stats.weights(),
        &vec![
            Weight::Elapsed { secs: 0, nanos: 0 },
            Weight::Elapsed { secs: 0, nanos: 1500 },
            Weight::Elapsed { secs: 0, nanos: 0 },
        ]
    );
}

#[test]
fn traces_without_time_weigh_one_unit() {
    let mut stats = Stats::new();
    stats.record(&t(vec![f(1)], None, None)).unwrap();
    assert_eq!(stats.weights(), &vec![Weight::Unit]);
    assert_eq!(stats.samples()[0].0, None);
}

#[test]
fn a_trace_from_the_past_is_an_error() {
    let mut stats = Stats::new();
    stats.record(&t(vec![f(1)], Some(1), Some(Timestamp { secs: 10, nanos: 0 }))).unwrap();
    let r = stats.record(&t(vec![f(1)], Some(1), Some(Timestamp { secs: 9, nanos: 0 })));
    assert_eq!(r, Err(SpeedscopeError::TimeWentBackwards));
    // The sample was added before the error, without a weight.
    assert_eq!(stats.samples()[0].1.len(), 2);
    assert_eq!(stats.weights().len(), 1);
}

#[test]
fn frames_are_shared_between_processes() {
    let mut stats = Stats::new();
    stats.record(&t(vec![f(1)], Some(1), None)).unwrap();
    stats.record(&t(vec![f(1)], Some(2), None)).unwrap();
    assert_eq!(stats.frames().len(), 1);
    assert_eq!(stats.samples().len(), 2);
}

#[test]
fn frame_new_keeps_name_file_and_line() {
    let frame = Frame::new(&f(4));
    assert_eq!(frame.name, "func4");
    assert_eq!(frame.file, Some("file4.rb".to_string()));
    assert_eq!(frame.line, Some(4));
    assert_eq!(frame.col, None);
}
