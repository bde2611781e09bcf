use rbspy::proc_maps::{get_heap_map, get_ruby_map, libruby_map, maps_contain_addr, parse_proc_maps, MapRange};

const MAP_TXT: &str = "00400000-00507000 r-xp 00000000 00:14 205736                             /usr/bin/fish
00708000-0070a000 rw-p 00000000 00:00 0 
0178c000-01849000 rw-p 00000000 00:00 0                                  [heap]
";

fn expected_maps() -> Vec<MapRange> {
    vec![
        MapRange {
            range_start: 0x00400000,
            range_end: 0x00507000,
            offset: 0,
            dev: "00:14".to_string(),
            flags: "r-xp".to_string(),
            inode: 205736,
            pathname: Some("/usr/bin/fish".to_string()),
        },
        MapRange {
            range_start: 0x00708000,
            range_end: 0x0070a000,
            offset: 0,
            dev: "00:00".to_string(),
            flags: "rw-p".to_string(),
            inode: 0,
            pathname: None,
        },
        MapRange {
            range_start: 0x0178c000,
            range_end: 0x01849000,
            offset: 0,
            dev: "00:00".to_string(),
            flags: "rw-p".to_string(),
            inode: 0,
            pathname: Some("[heap]".to_string()),
        },
    ]
}

#[test]
fn proc_maps_test_parse_maps() {
    let vec = parse_proc_maps(MAP_TXT);
    assert_eq!(vec, expected_maps());
}

#[test]
fn linux_maps_test_parse_maps() {
    let vec = parse_proc_maps(MAP_TXT);
    assert_eq!(vec, expected_maps());
}

#[test]
fn parse_stops_at_first_empty_line() {
    let text = "00400000-00507000 r-xp 00000000 00:14 1 /a\n\n0178c000-01849000 rw-p 00000000 00:00 0\n";
    let vec = parse_proc_maps(text);
    assert_eq!(vec.len(), 1);
    assert_eq!(vec[0].pathname, Some("/a".to_string()));
}

#[test]
fn maps_contain_addresses_in_their_ranges() {
    let maps = expected_maps();
    assert!(maps_contain_addr(0x00400000, &maps));
    assert!(maps_contain_addr(0x00506fff, &maps));
    // The end of a range counts as inside it.
    assert!(maps_contain_addr(0x00507000, &maps));
    assert!(!maps_contain_addr(0x00507001, &maps));
    assert!(maps_contain_addr(0x0178c000, &maps));
    assert!(!maps_contain_addr(0x10, &maps));
    assert!(maps[0].contains_addr(0x00450000));
    assert!(!maps[1].contains_addr(0x00450000));
}

#[test]
fn map_range_accessors() {
    let maps = expected_maps();
    assert_eq!(maps[0].size(), 0x00507000 - 0x00400000);
    assert_eq!(maps[0].start(), 0x00400000);
    assert_eq!(maps[0].filename(), &Some("/usr/bin/fish".to_string()));
    assert!(maps[0].is_exec());
    assert!(!maps[0].is_write());
    assert!(maps[0].is_read());
    assert!(maps[1].is_write());
    assert!(!maps[1].is_exec());
}

#[test]
fn finds_ruby_libruby_and_heap_maps() {
    let text = "00400000-00507000 r-xp 00000000 00:14 1 /usr/local/bin/ruby\n\
7f0000000000-7f0000100000 r--p 00000000 00:14 2 /usr/lib/libruby.so.3.1\n\
7f0000100000-7f0000200000 r-xp 00100000 00:14 2 /usr/lib/libruby.so.3.1\n\
0178c000-01849000 rw-p 00000000 00:00 0 [heap]\n";
    let maps = parse_proc_maps(text);
    let ruby = get_ruby_map(&maps).expect("ruby map");
    assert_eq!(ruby.range_start, 0x00400000);
    let lib = libruby_map(&maps).expect("libruby map");
    assert_eq!(lib.range_start, 0x7f0000100000);
    let heap = get_heap_map(&maps).expect("heap map");
    assert_eq!(heap.range_start, 0x0178c000);
    let none = parse_proc_maps("0178c000-01849000 rw-p 00000000 00:00 0 [heap]\n");
    assert!(get_ruby_map(&none).is_none());
    assert!(libruby_map(&none).is_none());
}
