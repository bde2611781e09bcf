use rbspy::summary::Stats;
use rbspy::types::StackFrame;

fn f(i: u32) -> StackFrame {
    StackFrame {
        name: format!("func{}", i),
        relative_path: format!("file{}.rb", i),
        absolute_path: None,
        lineno: i,
    }
}

// The report as the summary writes it: percentages of all samples, two decimals.
fn render(stats: &Stats, top: Option<usize>, truncate: Option<usize>) -> String {
    let mut out = String::new();
    out.push_str(Stats::header());
    out.push('\n');
    let total = stats.total_traces() as f64;
    for row in stats.report_rows(top, truncate) {
        out.push_str(&format!(
            "{:>6.2} {:>8.2}  {}\n",
            100.0 * (row.self_ as f64) / total,
            100.0 * (row.total as f64) / total,
            row.name
        ));
    }
    out
}

#[test]
fn stats_by_function() {
    let mut stats = Stats::new();
    stats.add_function_name(&vec![f(1)]);
    stats.add_function_name(&vec![f(3), f(2), f(1)]);
    stats.add_function_name(&vec![f(2), f(1)]);
    stats.add_function_name(&vec![f(3), f(1)]);
    stats.add_function_name(&vec![f(2), f(3), f(1)]);

    let expected = "% self  % total  name
 40.00    60.00  func3 - file3.rb:3
 40.00    60.00  func2 - file2.rb:2
 20.00   100.00  func1 - file1.rb:1
";
    assert_eq!(render(&stats, None, None), expected, "Unexpected summary output");
}

#[test]
fn stats_by_line_number() {
    let mut stats = Stats::new();
    stats.add_lineno(&vec![f(1)]);
    stats.add_lineno(&vec![f(3), f(2), f(1)]);
    stats.add_lineno(&vec![f(2), f(1)]);
    stats.add_lineno(&vec![f(3), f(1)]);
    stats.add_lineno(&vec![f(2), f(3), f(1)]);

    let expected = "% self  % total  name
 40.00    60.00  func3 - file3.rb:3
 40.00    60.00  func2 - file2.rb:2
 20.00   100.00  func1 - file1.rb:1
";
    assert_eq!(render(&stats, None, None), expected, "Unexpected summary output");
}

#[test]
fn recursion_counts_once_in_the_total() {
    let mut stats = Stats::new();
    stats.add_function_name(&vec![f(1), f(1), f(1)]);
    let rows = stats.report_rows(None, None);
    assert_eq!(rows.len(), 1);
    assert_eq!(rows[0].self_, 1);
    assert_eq!(rows[0].total, 1);
    assert_eq!(stats.total_traces(), 1);
}

#[test]
fn lines_of_one_function_are_told_apart() {
    let mut a = f(1);
    a.lineno = 10;
    let mut b = f(1);
    b.lineno = 20;
    let mut by_line = Stats::new();
    by_line.add_lineno(&vec![a.clone()]);
    by_line.add_lineno(&vec![b.clone()]);
    assert_eq!(by_line.report_rows(None, None).len(), 2);
    let mut by_name = Stats::new();
    by_name.add_function_name(&vec![a]);
    by_name.add_function_name(&vec![b]);
    let rows = by_name.report_rows(None, None);
    assert_eq!(rows.len(), 2);
}

#[test]
fn top_and_truncate_limit_the_rows() {
    let mut stats = Stats::new();
    stats.add_function_name(&vec![f(1)]);
    stats.add_function_name(&vec![f(2)]);
    stats.add_function_name(&vec![f(2)]);
    let rows = stats.report_rows(Some(1), Some(20));
    assert_eq!(rows.len(), 1);
    assert_eq!(rows[0].self_, 2);
    assert_eq!(rows[0].name, "fun");
}

#[test]
fn empty_stacks_are_not_counted() {
    let mut stats = Stats::new();
    stats.add_function_name(&vec![]);
    stats.add_lineno(&vec![]);
    assert_eq!(stats.total_traces(), 0);
    assert_eq!(stats.report_rows(None, None).len(), 0);
}

#[test]
fn room_for_another_sample() {
    let mut stats = Stats::new();
    assert!(stats.add_fits_check(3));
    stats.add_function_name(&[f(1), f(2)]);
    assert!(stats.add_fits_check(3));
    assert!(!stats.add_fits_check(usize::MAX));
}
