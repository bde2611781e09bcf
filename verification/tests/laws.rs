use rbspy::descendents::descendents_of;
use rbspy::flamegraph;
use rbspy::parse::split_chars;
use rbspy::summary;
use rbspy::types::{StackFrame, StackTrace, Timestamp};

fn f(i: u32) -> StackFrame {
    StackFrame {
        name: format!("func{}", i),
        relative_path: format!("file{}.rb", i),
        absolute_path: None,
        lineno: i,
    }
}

#[test]
fn split_pieces_join_back_to_the_text() {
    let text: Vec<char> = "a,b,,c,".chars().collect();
    let pieces = split_chars(&text, ',');
    let strings: Vec<String> = pieces.iter().map(|p| p.iter().collect()).collect();
    assert_eq!(strings, vec!["a", "b", "", "c", ""]);
    assert_eq!(strings.join(","), "a,b,,c,");
    assert_eq!(split_chars(&[], ',').len(), 1);
}

#[test]
fn collapsed_counts_add_up_to_the_samples() {
    let mut stats = flamegraph::Stats::new();
    let stacks = vec![vec![f(1)], vec![f(2), f(1)], vec![f(1)], vec![f(3)], vec![f(2), f(1)]];
    for s in &stacks {
        stats.record(s);
    }
    let total: usize = stats.counts.iter().map(|(_, c)| *c).sum();
    assert_eq!(total, stacks.len());
}

#[test]
fn self_percentages_add_up_to_all_samples() {
    let mut by_name = summary::Stats::new();
    let mut by_line = summary::Stats::new();
    let stacks = vec![vec![f(1)], vec![f(3), f(2), f(1)], vec![f(2), f(2)], vec![f(3)]];
    for s in &stacks {
        by_name.add_function_name(s);
        by_line.add_lineno(s);
    }
    for stats in [&by_name, &by_line] {
        let rows = stats.report_rows(None, None);
        let self_sum: u64 = rows.iter().map(|r| r.self_).sum();
        assert_eq!(self_sum, stats.total_traces() as u64);
    }
}

#[test]
fn descendents_begin_with_the_process() {
    let pairs = vec![(2, 1), (3, 2)];
    assert_eq!(descendents_of(2, &pairs).unwrap()[0], 2);
    assert_eq!(descendents_of(3, &pairs).unwrap(), vec![3]);
}

#[test]
fn speedscope_samples_and_weights_stay_in_step() {
    let mut stats = rbspy::speedscope::Stats::new();
    for secs in [1u64, 2, 2, 5] {
        let t = StackTrace { trace: vec![f(1), f(2)], pid: Some((secs % 2) as i32), thread_id: None, time: Some(Timestamp { secs, nanos: 0 }) };
        stats.record(&t).unwrap();
    }
    let count: usize = stats.samples().iter().map(|(_, s)| s.len()).sum();
    assert_eq!(count, 4);
    assert_eq!(stats.weights().len(), 4);
    // Every index of every sample names a frame of the table.
    for (_, samples) in stats.samples() {
        for sample in samples {
            assert!(sample.iter().all(|i| *i < stats.frames().len()));
        }
    }
}

#[test]
fn pprof_references_resolve() {
    let mut stats = rbspy::pprof::Stats::new();
    for secs in [1u64, 2, 3] {
        let t = StackTrace { trace: vec![f(secs as u32), f(1)], pid: Some(4), thread_id: Some(5), time: Some(Timestamp { secs, nanos: 0 }) };
        stats.record(&t);
    }
    let p = &stats.profile;
    for (i, loc) in p.location.iter().enumerate() {
        assert_eq!(loc.id, i as u64 + 1);
        assert!(loc.line[0].function_id >= 1 && loc.line[0].function_id as usize <= p.function.len());
    }
    for s in &p.sample {
        assert!(s.location_id.iter().all(|id| *id >= 1 && (*id as usize) <= p.location.len()));
        assert!(s.label.iter().all(|l| l.key >= 0 && (l.key as usize) < p.string_table.len()));
    }
}
