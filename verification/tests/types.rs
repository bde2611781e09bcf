use rbspy::types::{duplicate_frames, StackFrame, StackTrace};

fn frame(name: &str, rel: &str, abs: Option<&str>, lineno: u32) -> StackFrame {
    StackFrame { name: name.to_string(), relative_path: rel.to_string(), absolute_path: abs.map(|s| s.to_string()), lineno }
}

#[test]
fn frames_display_name_path_and_line() {
    assert_eq!(frame("foo", "a.rb", None, 12).to_display_string(), "foo - a.rb:12");
    assert_eq!(frame("foo", "a.rb", Some("/x/a.rb"), 0).to_display_string(), "foo - /x/a.rb:0");
}

#[test]
fn the_path_is_the_absolute_one_when_known() {
    assert_eq!(frame("f", "a.rb", Some("/x/a.rb"), 1).path(), "/x/a.rb");
    assert_eq!(frame("f", "a.rb", None, 1).path(), "a.rb");
}

#[test]
fn the_unknown_c_function() {
    let u = StackFrame::unknown_c_function();
    assert_eq!(u.name, "(unknown) [c function]");
    assert_eq!(u.relative_path, "(unknown)");
    assert_eq!(u.absolute_path, None);
    assert_eq!(u.lineno, 0);
}

#[test]
fn frames_order_by_path_then_name_then_line() {
    let a = frame("zeta", "a.rb", None, 9);
    let b = frame("alpha", "b.rb", None, 1);
    assert_eq!(a.compare(&b), -1);
    assert_eq!(b.compare(&a), 1);
    let c = frame("beta", "a.rb", None, 1);
    assert_eq!(c.compare(&a), -1);
    let d = frame("zeta", "a.rb", None, 10);
    assert_eq!(a.compare(&d), -1);
    assert_eq!(a.compare(&frame("zeta", "z.rb", Some("a.rb"), 9)), 0);
}

#[test]
fn copies_are_equal() {
    let a = frame("f", "a.rb", Some("/a.rb"), 3);
    assert!(a.duplicate().same_as(&a));
    assert!(!a.same_as(&frame("f", "a.rb", None, 3)));
    let v = duplicate_frames(&[a.clone(), a.clone()]);
    assert_eq!(v, vec![a.clone(), a]);
}

#[test]
fn a_trace_of_frames_only() {
    let t = StackTrace::from_frames(vec![frame("f", "a.rb", None, 1)]);
    assert_eq!(t.iter().len(), 1);
    assert_eq!(t.pid, None);
    assert_eq!(t.thread_id, None);
    assert_eq!(t.time, None);
}
