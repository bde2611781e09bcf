use std::collections::HashSet;

use rbspy::sampling::{
    combine_results, sleep_time, start_new_targets, watch_step, NextStep, SampleCounts, SampleTime, TraceOutcome,
};

#[test]
fn sleep_until_the_sample_is_due() {
    assert_eq!(sleep_time(10_000_000, 4_000_000), Ok(6_000_000));
    assert_eq!(sleep_time(10_000_000, 10_000_000), Ok(0));
}

#[test]
fn a_late_sample_says_how_late() {
    assert_eq!(sleep_time(10_000_000, 13_000_000), Err(3_000_000));
}

#[test]
fn differences_keep_their_low_32_bits() {
    assert_eq!(sleep_time(0x1_0000_0005, 0), Ok(5));
    assert_eq!(sleep_time(0, 0x2_0000_0007), Err(7));
}

#[test]
fn schedule_starts_empty_and_counts_samples() {
    let mut s = SampleTime::new(100);
    // The first sample is due 10ms after the start: it cannot be late yet by much.
    match s.get_sleep_time() {
        Ok(sleep) => assert!(sleep <= 10_000_000),
        Err(late) => assert!(late < 1_000_000_000),
    }
}

#[test]
fn sampling_gives_up_after_many_failures() {
    let mut c = SampleCounts::new();
    for _ in 0..20 {
        assert_eq!(c.attempt(TraceOutcome::Failed), NextStep::Continue);
    }
    assert_eq!(c.attempt(TraceOutcome::Failed), NextStep::GiveUp);
    assert_eq!(c.total, 21);
    assert_eq!(c.errors, 21);
}

#[test]
fn failures_among_many_successes_are_tolerated() {
    let mut c = SampleCounts::new();
    for _ in 0..50 {
        assert_eq!(c.attempt(TraceOutcome::Collected), NextStep::Continue);
    }
    for _ in 0..30 {
        assert_eq!(c.attempt(TraceOutcome::Failed), NextStep::Continue);
    }
    assert_eq!(c.errors, 30);
    assert_eq!(c.attempt(TraceOutcome::ProcessEnded), NextStep::Finish);
    assert_eq!(c.total, 81);
}

#[test]
fn only_new_processes_start_recorders() {
    let mut recorded: HashSet<i32> = HashSet::new();
    assert_eq!(start_new_targets(&mut recorded, &[5, 6, 5, 1]), vec![5, 6, 1]);
    assert_eq!(start_new_targets(&mut recorded, &[6, 7, 1]), vec![7]);
    assert_eq!(recorded.len(), 4);
    assert!(recorded.contains(&7));
}

#[test]
fn any_success_makes_the_recording_succeed() {
    assert_eq!(combine_results::<String>(vec![]), Ok(()));
    assert_eq!(combine_results(vec![Err("a".to_string()), Ok(()), Err("b".to_string())]), Ok(()));
    assert_eq!(combine_results(vec![Err("a".to_string()), Err("b".to_string())]), Err("b".to_string()));
}

#[test]
fn over_a_run_each_process_starts_once() {
    let mut recorded = HashSet::new();
    recorded.insert(1);
    let mut started = Vec::new();
    for look in [vec![1, 2, 3], vec![3, 4, 2], vec![4, 1, 5, 5]] {
        started.extend(start_new_targets(&mut recorded, &look));
    }
    assert_eq!(started, vec![2, 3, 4, 5]);
    assert_eq!(recorded.len(), 5);
}

#[test]
fn the_next_due_time_fits() {
    let s = SampleTime::new(100);
    assert!(s.next_fits());
}

#[test]
fn the_time_limit_stops_the_loop_after_the_attempt() {
    let mut c = SampleCounts::new();
    assert_eq!(c.step(TraceOutcome::Collected, false), NextStep::Continue);
    assert_eq!(c.step(TraceOutcome::Collected, true), NextStep::TimeUp);
    assert_eq!(c.step(TraceOutcome::ProcessEnded, true), NextStep::Finish);
    assert_eq!(c.step(TraceOutcome::Failed, true), NextStep::TimeUp);
    assert_eq!(c.total, 4);
    assert_eq!(c.errors, 1);
}

#[test]
fn watching_starts_the_root_last_and_stops_when_done() {
    let mut recorded = HashSet::new();
    assert_eq!(watch_step(&mut recorded, false, 1, &[3, 2]), Some(vec![3, 2, 1]));
    assert_eq!(watch_step(&mut recorded, false, 1, &[3, 4]), Some(vec![4]));
    assert_eq!(watch_step(&mut recorded, true, 1, &[5]), None);
    assert_eq!(recorded.len(), 4);
    assert!(!recorded.contains(&5));
}
