use rbspy::address_finder::{
    ruby_bindings, ruby_current_vm_symbol, ruby_execution_context_symbol, ruby_globals_symbol, ruby_version_symbol,
    version_from_raw, RubyVersion, VersionError,
};

#[test]
fn versions_are_parsed() {
    let v = RubyVersion::parse("2.7.1").unwrap();
    assert_eq!((v.major, v.minor, v.patch), (2, 7, 1));
    assert_eq!(v.pre, "");
    let p = RubyVersion::parse("3.3.0-preview1").unwrap();
    assert_eq!((p.major, p.minor, p.patch), (3, 3, 0));
    assert_eq!(p.pre, "preview1");
    assert!(matches!(RubyVersion::parse("3.3"), Err(VersionError::Parse(_))));
}

#[test]
fn pre_releases_come_before_the_release() {
    let rc = RubyVersion::parse("2.7.0-rc1").unwrap();
    assert!(!rc.at_least(2, 7, 0));
    assert!(rc.at_least(2, 6, 9));
    assert!(RubyVersion::new(2, 7, 0).at_least(2, 7, 0));
    assert!(RubyVersion::new(3, 0, 0).at_least(2, 7, 0));
    assert!(!RubyVersion::new(2, 6, 10).at_least(2, 7, 0));
}

#[test]
fn symbol_names_follow_the_version() {
    assert_eq!(ruby_version_symbol(), "ruby_version");
    assert_eq!(ruby_globals_symbol(&RubyVersion::new(2, 7, 0)), "ruby_global_symbols");
    assert_eq!(ruby_globals_symbol(&RubyVersion::new(2, 6, 3)), "global_symbols");
    assert_eq!(ruby_current_vm_symbol(&RubyVersion::new(2, 5, 0)), "ruby_current_vm_ptr");
    assert_eq!(ruby_current_vm_symbol(&RubyVersion::new(2, 4, 9)), "ruby_current_vm");
    assert_eq!(ruby_execution_context_symbol(&RubyVersion::new(2, 5, 1)), "ruby_current_execution_context_ptr");
    assert_eq!(ruby_execution_context_symbol(&RubyVersion::new(2, 3, 0)), "ruby_current_thread");
}

#[test]
fn the_version_string_is_read_up_to_its_zero_byte() {
    let v = version_from_raw(b"3.1.2\0\0\0garbage").unwrap();
    assert_eq!((v.major, v.minor, v.patch), (3, 1, 2));
    assert!(matches!(version_from_raw(b"3.1.2"), Err(VersionError::NotAString)));
    assert!(matches!(version_from_raw(b"\xff\0"), Err(VersionError::InvalidUtf8)));
    assert!(matches!(version_from_raw(b"ruby\0"), Err(VersionError::Parse(_))));
}

#[test]
fn bindings_for_each_supported_version() {
    assert_eq!(ruby_bindings("1.9.1"), Some("ruby_1_9_1_0"));
    assert_eq!(ruby_bindings("2.1.10"), Some("ruby_2_1_10"));
    assert_eq!(ruby_bindings("2.4.3"), Some("ruby_2_4_3"));
    assert_eq!(ruby_bindings("2.5.0"), Some("ruby_2_5_0_rc1"));
    assert_eq!(ruby_bindings("2.2.10"), None);
    assert_eq!(ruby_bindings("3.0.0"), None);
    assert_eq!(ruby_bindings(""), None);
}
