use rbspy::callgrind::Stats;
use rbspy::types::StackFrame;

// A test stack frame.
fn f(i: u32) -> StackFrame {
    StackFrame {
        name: format!("func{}", i),
        relative_path: format!("file{}.rb", i),
        absolute_path: None,
        lineno: i,
    }
}

// A stack frame from the same file as another one.
fn fdup() -> StackFrame {
    StackFrame {
        name: "funcX".to_owned(),
        relative_path: "file1.rb".to_owned(),
        absolute_path: None,
        lineno: 42,
    }
}

fn assert_location(stats: &Stats, f: StackFrame, exclusive: usize, children: usize) {
    let (e, c) = stats.location_summary(&f).expect("no location");
    assert_eq!(e, exclusive, "Bad exclusive time for {:?}", f);
    assert_eq!(c, children, "Bad children count for {:?}", f);
}

fn assert_inclusive(stats: &Stats, parent: StackFrame, child: StackFrame, count: usize, inclusive: usize) {
    let call = stats.call_between(&parent, &child).expect("no call");
    assert_eq!(call.count, count, "Bad inclusive count for {:?} in {:?}", child, parent);
    assert_eq!(call.inclusive, inclusive, "Bad inclusive time for {:?} in {:?}", child, parent);
}

fn build_test_stats() -> Stats {
    let mut stats = Stats::new();
    stats.add(&vec![f(1)]);
    stats.add(&vec![f(3), f(2), f(1)]);
    stats.add(&vec![f(2), f(1)]);
    stats.add(&vec![f(3), f(1)]);
    stats.add(&vec![f(2), f(1)]);
    stats.add(&vec![f(3), fdup(), f(1)]);
    stats.finish();
    stats
}

#[test]
fn stats_aggregate() {
    let stats = &build_test_stats();
    assert!(stats.stack_is_empty(), "Stack not empty");
    assert_eq!(stats.location_count(), 4, "Bad location count");
    assert_location(stats, f(1), 1, 3);
    assert_location(stats, f(2), 2, 1);
    assert_location(stats, f(3), 3, 0);
    assert_location(stats, fdup(), 0, 1);
    assert_inclusive(stats, f(1), f(2), 2, 3);
    assert_inclusive(stats, f(1), f(3), 1, 1);
    assert_inclusive(stats, f(1), fdup(), 1, 1);
    assert_inclusive(stats, f(2), f(3), 1, 1);
    assert_inclusive(stats, fdup(), f(3), 1, 1);
}

#[test]
fn stats_write() {
    let expected = "# callgrind format
version: 1
creator: rbspy
events: Samples

fl=file1.rb
fn=func1
1 1
cfl=file1.rb
cfn=funcX
calls=1 42
1 1
cfl=file2.rb
cfn=func2
calls=2 2
1 3
cfl=file3.rb
cfn=func3
calls=1 3
1 1

fl=file1.rb
fn=funcX
42 0
cfl=file3.rb
cfn=func3
calls=1 3
42 1

fl=file2.rb
fn=func2
2 2
cfl=file3.rb
cfn=func3
calls=1 3
2 1

fl=file3.rb
fn=func3
3 3
";
    let actual = build_test_stats().write();
    assert_eq!(actual, expected, "Unexpected callgrind output");
}

#[test]
fn every_sample_lands_in_exactly_one_exclusive_count() {
    // Six samples were added: after finishing, the exclusive counts add up to six.
    let stats = build_test_stats();
    let total: usize = [f(1), f(2), f(3), fdup()]
        .iter()
        .map(|fr| stats.location_summary(fr).unwrap().0)
        .sum();
    assert_eq!(total, 6);
}

#[test]
fn finishing_empties_the_stack() {
    let mut stats = Stats::new();
    stats.add(&vec![f(2), f(1)]);
    assert!(!stats.stack_is_empty());
    assert_eq!(stats.location_count(), 0);
    stats.finish();
    assert!(stats.stack_is_empty());
    assert_eq!(stats.location_summary(&f(2)), Some((1, 0)));
    assert_eq!(stats.location_summary(&f(1)), Some((0, 1)));
    assert!(stats.call_between(&f(2), &f(1)).is_none());
}

#[test]
fn empty_stats_write_only_the_header() {
    let mut stats = Stats::new();
    stats.finish();
    assert_eq!(stats.write(), "# callgrind format\nversion: 1\ncreator: rbspy\nevents: Samples\n");
}
