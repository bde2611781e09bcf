use rbspy::flamegraph::Stats;
use rbspy::types::StackFrame;

fn f(i: u32) -> StackFrame {
    StackFrame {
        name: format!("func{}", i),
        relative_path: format!("file{}.rb", i),
        absolute_path: None,
        lineno: i,
    }
}

fn build_stats() -> Stats {
    let mut stats = Stats::new();
    stats.record(&vec![f(1)]);
    stats.record(&vec![f(2), f(1)]);
    stats.record(&vec![f(2), f(1)]);
    stats.record(&vec![f(2), f(3), f(1)]);
    stats.record(&vec![f(2), f(3), f(1)]);
    stats.record(&vec![f(2), f(3), f(1)]);
    stats
}

fn assert_contains(stats: &Stats, s: &str, val: usize) {
    assert_eq!(stats.get_count(s), Some(val));
}

#[test]
fn test_stats() {
    let stats = build_stats();
    assert_contains(&stats, "func1 - file1.rb:1", 1);
    assert_contains(&stats, "func1 - file1.rb:1;func3 - file3.rb:3;func2 - file2.rb:2", 3);
    assert_contains(&stats, "func1 - file1.rb:1;func2 - file2.rb:2", 2);
}

#[test]
fn test_collapsed() {
    let stats = build_stats();
    let collapsed_text = stats.write_collapsed();
    assert!(collapsed_text.contains("func1 - file1.rb:1 1"));
    assert!(collapsed_text.contains("func1 - file1.rb:1;func3 - file3.rb:3;func2 - file2.rb:2 3"));
    assert!(collapsed_text.contains("func1 - file1.rb:1;func2 - file2.rb:2 2"));
}

#[test]
fn collapsed_lines_in_order_first_seen() {
    let stats = build_stats();
    assert_eq!(
        stats.write_collapsed(),
        "func1 - file1.rb:1 1\nfunc1 - file1.rb:1;func2 - file2.rb:2 2\nfunc1 - file1.rb:1;func3 - file3.rb:3;func2 - file2.rb:2 3\n"
    );
    assert_eq!(stats.get_lines().len(), 3);
    assert_eq!(stats.get_lines()[1], "func1 - file1.rb:1;func2 - file2.rb:2 2");
}

#[test]
fn empty_stats_collapse_to_nothing() {
    let stats = Stats::new();
    assert!(stats.is_empty());
    assert_eq!(stats.write_collapsed(), "");
    assert_eq!(stats.get_count("func1 - file1.rb:1"), None);
}

#[test]
fn absolute_paths_are_shown_when_known() {
    let mut stats = Stats::new();
    let frame = StackFrame {
        name: "main".to_string(),
        relative_path: "a.rb".to_string(),
        absolute_path: Some("/src/a.rb".to_string()),
        lineno: 7,
    };
    stats.record(&vec![frame]);
    assert_eq!(stats.get_count("main - /src/a.rb:7"), Some(1));
}
