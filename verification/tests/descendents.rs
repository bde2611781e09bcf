use std::collections::HashMap;

use rbspy::descendents::{descendents_of, descendents_of_within, get_descendents, map_parents_to_children, status_file_ppid, DescendentsError};

#[test]
fn test_get_descendents() {
    let mut map = HashMap::new();
    map.insert(1, vec![2]);
    let desc = get_descendents(1, map).unwrap();
    assert_eq!(desc, vec![1, 2]);
}

#[test]
fn test_get_descendents_depth_2() {
    let mut map = HashMap::new();
    map.insert(1, vec![2, 3]);
    map.insert(2, vec![4]);
    let desc = get_descendents(1, map).unwrap();
    assert_eq!(desc, vec![1, 3, 2, 4]);
}

#[test]
fn test_status_file_ppid() {
    let status = "Name:\tkthreadd\nState:\tS (sleeping)\nTgid:\t2\nNgid:\t0\nPid:\t0\nPPid:\t1234\n";
    assert_eq!(status_file_ppid(status).unwrap(), 1234)
}

#[test]
fn status_file_without_ppid_line() {
    let status = "Name:\tkthreadd\nPid:\t0\n";
    assert_eq!(status_file_ppid(status), Err(DescendentsError::PpidNotFound));
}

#[test]
fn status_file_with_bad_ppid() {
    let status = "PPid:\tabc\n";
    assert_eq!(status_file_ppid(status), Err(DescendentsError::InvalidPpid));
}

#[test]
fn parents_map_to_their_children_in_order() {
    let pairs = vec![(2, 1), (3, 1), (4, 2)];
    let map = map_parents_to_children(&pairs);
    assert_eq!(map.get(&1), Some(&vec![2, 3]));
    assert_eq!(map.get(&2), Some(&vec![4]));
    assert_eq!(map.get(&3), None);
}

#[test]
fn descendents_start_with_the_root() {
    let pairs = vec![(2, 1), (3, 1), (4, 2), (9, 8)];
    let desc = descendents_of(1, &pairs).unwrap();
    assert_eq!(desc, vec![1, 3, 2, 4]);
    let alone = descendents_of(5, &pairs).unwrap();
    assert_eq!(alone, vec![5]);
}

#[test]
fn descendents_are_the_root_and_everything_below_it() {
    let mut map = HashMap::new();
    map.insert(1, vec![2, 3]);
    map.insert(2, vec![4]);
    map.insert(4, vec![5]);
    map.insert(9, vec![8]);
    let desc = get_descendents(1, map).unwrap();
    assert_eq!(desc, vec![1, 3, 2, 4, 5]);
}

#[test]
fn a_walk_within_a_step_limit() {
    let pairs = vec![(2, 1), (3, 1), (4, 2)];
    assert_eq!(descendents_of_within(1, &pairs, 4), Some(vec![1, 3, 2, 4]));
    assert_eq!(descendents_of_within(1, &pairs, 3), None);
    let cycle = vec![(2, 1), (1, 2)];
    assert_eq!(descendents_of_within(1, &cycle, 10), None);
}
