use rbspy::output::{filter_unknown, OutputFormat, Outputter, RecordError, Recorder};
use rbspy::{report, traces_fit_check};
use rbspy::speedscope::SpeedscopeError;
use rbspy::types::{StackFrame, StackTrace, Timestamp};

fn f(i: u32) -> StackFrame {
    StackFrame {
        name: format!("func{}", i),
        relative_path: format!("file{}.rb", i),
        absolute_path: None,
        lineno: i,
    }
}

fn trace(frames: Vec<StackFrame>, secs: u64) -> StackTrace {
    StackTrace { trace: frames, pid: Some(1), thread_id: Some(2), time: Some(Timestamp { secs, nanos: 0 }) }
}

#[test]
fn unknown_frames_are_dropped() {
    let u = StackFrame::unknown_c_function();
    assert_eq!(filter_unknown(&[u.clone(), f(1), u.clone(), f(2)]), vec![f(1), f(2)]);
    assert_eq!(filter_unknown(&[f(1)]), vec![f(1)]);
}

#[test]
fn a_trace_of_unknown_frames_keeps_one() {
    let u = StackFrame::unknown_c_function();
    assert_eq!(filter_unknown(&[u.clone(), u.clone()]), vec![u.clone()]);
    assert_eq!(filter_unknown(&[]), vec![u]);
}

#[test]
fn extensions_of_the_formats() {
    assert_eq!(OutputFormat::flamegraph.extension(), "flamegraph.svg");
    assert_eq!(OutputFormat::collapsed.extension(), "collapsed.txt");
    assert_eq!(OutputFormat::callgrind.extension(), "callgrind.txt");
    assert_eq!(OutputFormat::speedscope.extension(), "speedscope.json");
    assert_eq!(OutputFormat::summary.extension(), "summary.txt");
    assert_eq!(OutputFormat::summary_by_line.extension(), "summary_by_line.txt");
    assert_eq!(OutputFormat::pprof.extension(), "profile.pb.gz");
}

#[test]
fn each_format_has_its_outputter() {
    let formats = [
        OutputFormat::flamegraph,
        OutputFormat::collapsed,
        OutputFormat::callgrind,
        OutputFormat::speedscope,
        OutputFormat::summary,
        OutputFormat::summary_by_line,
        OutputFormat::pprof,
    ];
    for fmt in formats {
        assert_eq!(fmt.outputter().format(), fmt);
    }
}

#[test]
fn report_collapsed_counts_each_stack() {
    let traces = vec![trace(vec![f(2), f(1)], 1), trace(vec![f(2), f(1)], 2), trace(vec![f(1)], 3)];
    match report(OutputFormat::collapsed, &traces).unwrap() {
        Outputter::Collapsed(c) => {
            assert_eq!(c.complete(), "func1 - file1.rb:1;func2 - file2.rb:2 2\nfunc1 - file1.rb:1 1\n");
        },
        other => panic!("unexpected outputter {:?}", other),
    }
}

#[test]
fn report_callgrind_leaves_out_unknown_frames() {
    let u = StackFrame::unknown_c_function();
    let traces = vec![trace(vec![u.clone(), f(1)], 1)];
    match report(OutputFormat::callgrind, &traces).unwrap() {
        Outputter::Callgrind(mut c) => {
            let text = c.complete();
            assert!(text.contains("fn=func1\n1 1\n"));
            assert!(!text.contains("unknown"));
        },
        other => panic!("unexpected outputter {:?}", other),
    }
}

#[test]
fn report_summary_by_function_and_by_line() {
    let traces = vec![trace(vec![f(2), f(1)], 1), trace(vec![f(1)], 2)];
    match report(OutputFormat::summary, &traces).unwrap() {
        Outputter::Summary(s) => {
            let rows = s.0.report_rows(None, None);
            assert_eq!(rows.len(), 2);
            assert_eq!((rows[0].self_, rows[0].total, rows[0].name.as_str()), (1, 2, "func1 - file1.rb:1"));
            assert_eq!((rows[1].self_, rows[1].total, rows[1].name.as_str()), (1, 1, "func2 - file2.rb:2"));
        },
        other => panic!("unexpected outputter {:?}", other),
    }
    match report(OutputFormat::summary_by_line, &traces).unwrap() {
        Outputter::SummaryLine(s) => assert_eq!(s.0.total_traces(), 2),
        other => panic!("unexpected outputter {:?}", other),
    }
}

#[test]
fn report_speedscope_stops_at_a_trace_from_the_past() {
    let traces = vec![trace(vec![f(1)], 5), trace(vec![f(1)], 4), trace(vec![f(1)], 6)];
    assert!(matches!(report(OutputFormat::speedscope, &traces), Err(SpeedscopeError::TimeWentBackwards)));
    let ordered = vec![trace(vec![f(1)], 4), trace(vec![f(1)], 6)];
    match report(OutputFormat::speedscope, &ordered).unwrap() {
        Outputter::Speedscope(s) => assert_eq!(s.0.weights().len(), 2),
        other => panic!("unexpected outputter {:?}", other),
    }
}

#[test]
fn report_pprof_and_flamegraph_collect_samples() {
    let traces = vec![trace(vec![f(1)], 1), trace(vec![f(1)], 3)];
    match report(OutputFormat::pprof, &traces).unwrap() {
        Outputter::Pprof(p) => {
            assert_eq!(p.0.profile.sample.len(), 2);
            assert_eq!(p.0.profile.sample[1].value, vec![2_000_000_000]);
        },
        other => panic!("unexpected outputter {:?}", other),
    }
    match report(OutputFormat::flamegraph, &traces).unwrap() {
        Outputter::Flamegraph(g) => assert_eq!(g.0.get_count("func1 - file1.rb:1"), Some(2)),
        other => panic!("unexpected outputter {:?}", other),
    }
}

#[test]
fn report_of_no_traces_is_empty() {
    match report(OutputFormat::collapsed, &[]).unwrap() {
        Outputter::Collapsed(c) => assert_eq!(c.complete(), ""),
        other => panic!("unexpected outputter {:?}", other),
    }
}

#[test]
fn ordinary_traces_fit_in_the_counters() {
    let traces = vec![trace(vec![f(2), f(1)], 1), trace(vec![f(1)], 2)];
    assert!(traces_fit_check(&traces));
    assert!(traces_fit_check(&[]));
}

#[test]
fn recorder_collects_what_report_collects() {
    let traces = vec![trace(vec![f(2), f(1)], 1), trace(vec![f(2), f(1)], 2), trace(vec![f(1)], 3)];
    let mut rec = Recorder::new(OutputFormat::collapsed);
    for t in &traces {
        assert_eq!(rec.record(t), Ok(()));
    }
    match rec.into_outputter() {
        Outputter::Collapsed(c) => {
            assert_eq!(c.complete(), "func1 - file1.rb:1;func2 - file2.rb:2 2\nfunc1 - file1.rb:1 1\n");
        },
        other => panic!("unexpected outputter {:?}", other),
    }
}

#[test]
fn recorder_passes_on_the_outputters_error() {
    let mut rec = Recorder::new(OutputFormat::speedscope);
    assert_eq!(rec.record(&trace(vec![f(1)], 5)), Ok(()));
    assert_eq!(rec.record(&trace(vec![f(1)], 4)), Err(RecordError::Format(SpeedscopeError::TimeWentBackwards)));
}

#[test]
fn recorder_callgrind_completes() {
    let mut rec = Recorder::new(OutputFormat::callgrind);
    assert_eq!(rec.record(&trace(vec![f(2), f(1)], 1)), Ok(()));
    match rec.into_outputter() {
        Outputter::Callgrind(mut c) => assert!(c.complete().contains("fn=func2\n")),
        other => panic!("unexpected outputter {:?}", other),
    }
}
