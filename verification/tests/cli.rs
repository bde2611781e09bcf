use rbspy::cli::{default_output_name, get_executable_path, output_file_name, output_name_at, validate_pid};

#[test]
fn pids_must_be_positive_integers() {
    assert_eq!(validate_pid("1234"), Ok(1234));
    assert_eq!(validate_pid("+7"), Ok(7));
    assert_eq!(validate_pid("0"), Err("PID must be positive".to_string()));
    assert_eq!(validate_pid("-5"), Err("PID must be positive".to_string()));
    assert_eq!(validate_pid("abc"), Err("PID must be an integer".to_string()));
    assert_eq!(validate_pid(""), Err("PID must be an integer".to_string()));
    assert_eq!(validate_pid("99999999999"), Err("PID must be an integer".to_string()));
}

#[test]
fn executable_path_under_proc() {
    assert_eq!(get_executable_path(4321), Ok("/proc/4321/exe".to_string()));
    assert_eq!(get_executable_path(0), Ok("/proc/0/exe".to_string()));
}

#[test]
fn output_names_join_date_tag_and_extension() {
    assert_eq!(output_file_name("2024-01-02", "abc", "flamegraph.svg"), "2024-01-02-abc.flamegraph.svg");
}

#[test]
fn default_output_names_have_a_random_tag() {
    let name = default_output_name("raw.gz").expect("the clock reads after the epoch");
    assert!(name.ends_with(".raw.gz"));
    let stem = &name[..name.len() - ".raw.gz".len()];
    let tag = &stem[stem.len() - 10..];
    assert!(tag.chars().all(|c| c.is_ascii_alphanumeric()));
    assert_eq!(&stem[stem.len() - 11..stem.len() - 10], "-");
    assert_eq!(stem.len(), "2024-01-02".len() + 11);
    let date: Vec<char> = stem[..10].chars().collect();
    assert_eq!(date[4], '-');
    assert_eq!(date[7], '-');
    assert!(date.iter().enumerate().all(|(i, c)| i == 4 || i == 7 || c.is_ascii_digit()));
}

#[test]
fn output_names_at_a_given_time() {
    assert_eq!(output_name_at(0, "abc", "txt"), Some("1970-01-01-abc.txt".to_string()));
    assert_eq!(output_name_at(86_399, "abc", "txt"), Some("1970-01-01-abc.txt".to_string()));
    assert_eq!(output_name_at(-1, "abc", "txt"), Some("1969-12-31-abc.txt".to_string()));
    assert_eq!(output_name_at(1_700_000_000, "x", "svg"), Some("2023-11-14-x.svg".to_string()));
    assert_eq!(output_name_at(i64::MAX, "x", "svg"), None);
}
