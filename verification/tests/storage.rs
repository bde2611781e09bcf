use std::io::Write;

use rbspy::storage::{decode, decode_bytes, preamble, read_version, record_line, StorageError, Version};

fn gzip(data: &[u8]) -> Vec<u8> {
    let mut e = flate2::write::GzEncoder::new(Vec::new(), flate2::Compression::default());
    e.write_all(data).unwrap();
    e.finish().unwrap()
}

#[test]
fn version_tags_are_read() {
    assert_eq!(Version::try_from(b"00\n").unwrap(), Version(0));
    assert_eq!(Version::try_from(b"01\n").unwrap(), Version(1));
    assert_eq!(Version::try_from(b"02\nxyz").unwrap(), Version(2));
    assert!(matches!(Version::try_from(b"03\n"), Err(StorageError::Invalid)));
    assert!(matches!(Version::try_from(b"02 "), Err(StorageError::Invalid)));
}

#[test]
fn read_version_checks_the_magic_tag() {
    assert_eq!(read_version(b"rbspy02\nrest").unwrap(), Version(2));
    assert_eq!(read_version(b"rbspy00\n").unwrap(), Version(0));
    assert!(matches!(read_version(b"rbspx02\n"), Err(StorageError::Invalid)));
    assert!(matches!(read_version(b"rbspy"), Err(StorageError::Invalid)));
    assert!(matches!(read_version(b""), Err(StorageError::Invalid)));
}

#[test]
fn the_preamble_names_the_current_version() {
    assert_eq!(preamble(), b"rbspy02\n".to_vec());
    assert_eq!(read_version(&preamble()).unwrap(), Version(2));
}

#[test]
fn lines_are_read_back_as_written() {
    let mut data = preamble();
    let lines = vec!["{\"sample_rate\":100}", "{\"trace\":[]}", "second"];
    for l in &lines {
        data.extend_from_slice(record_line(l).as_bytes());
    }
    let raw = decode_bytes(&data).unwrap();
    assert_eq!(raw.version, Version(2));
    assert_eq!(raw.lines, lines);
}

#[test]
fn carriage_returns_before_line_feeds_are_dropped() {
    let raw = decode_bytes(b"rbspy01\na\r\nb\nc").unwrap();
    assert_eq!(raw.version, Version(1));
    assert_eq!(raw.lines, vec!["a", "b", "c"]);
    let raw = decode_bytes(b"rbspy01\n\n\nx\r").unwrap();
    assert_eq!(raw.lines, vec!["", "", "x\r"]);
}

#[test]
fn invalid_utf8_is_an_error() {
    assert!(matches!(decode_bytes(b"rbspy02\n\xff\n"), Err(StorageError::InvalidUtf8)));
}

#[test]
fn gzipped_files_are_read() {
    let compressed = gzip(b"rbspy02\nheader\ntrace one\n");
    let raw = decode(&compressed).unwrap();
    assert_eq!(raw.version, Version(2));
    assert_eq!(raw.lines, vec!["header", "trace one"]);
}

#[test]
fn data_that_is_not_gzip_is_an_io_error() {
    assert!(matches!(decode(b"rbspy02\nheader\n"), Err(StorageError::Io(_))));
}

#[test]
fn gzip_of_a_foreign_file_is_invalid() {
    let compressed = gzip(b"hello world\n");
    assert!(matches!(decode(&compressed), Err(StorageError::Invalid)));
}
