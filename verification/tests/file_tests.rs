//! Segment naming, discovery, byte counts and error messages.

use kvs::bytes::Bytes;
use kvs::errors::KvsError;
use kvs::file::{format_name, get_log_file_ids, parse_name};

#[test]
fn names_are_decimal_with_log_extension() {
    assert_eq!(format_name(0), "0.log");
    assert_eq!(format_name(7), "7.log");
    assert_eq!(format_name(12345), "12345.log");
    assert_eq!(format_name(u64::MAX), "18446744073709551615.log");
}

#[test]
fn written_names_parse_back() {
    for id in [0u64, 1, 9, 10, 99, 12345, u64::MAX] {
        assert_eq!(parse_name(&format_name(id)).unwrap(), Some(id));
    }
}

#[test]
fn discovery_sorts_ids_and_ignores_other_files() {
    let names = vec![
        String::from("2.log"),
        String::from("10.log"),
        String::from("1.log"),
        String::from("notes.txt"),
        String::from(".log"),
    ];
    assert_eq!(get_log_file_ids(&names).unwrap(), vec![1u64, 2, 10]);
}

#[test]
fn discovery_rejects_non_numeric_log_names() {
    let names = vec![String::from("1.log"), String::from("x.log")];
    assert_eq!(get_log_file_ids(&names), Err(KvsError::UnexpectedFileName));
    let names = vec![String::from("a.b.log")];
    assert_eq!(get_log_file_ids(&names), Err(KvsError::UnexpectedFileName));
    let names = vec![String::from("18446744073709551616.log")];
    assert_eq!(get_log_file_ids(&names), Err(KvsError::UnexpectedFileName));
}

#[test]
fn discovery_of_empty_directory_is_empty() {
    let names: Vec<String> = Vec::new();
    assert_eq!(get_log_file_ids(&names).unwrap(), Vec::<u64>::new());
}

#[test]
fn duplicate_names_yield_one_id() {
    let names = vec![String::from("3.log"), String::from("3.log")];
    assert_eq!(get_log_file_ids(&names).unwrap(), vec![3u64]);
}

#[test]
fn byte_counts_add_and_subtract() {
    let a = Bytes(10);
    let b = Bytes(4);
    assert_eq!(a.add(b).0, 14);
    assert_eq!(a.sub(b).0, 6);
    let mut c = Bytes(1);
    c.add_assign(Bytes(2));
    assert_eq!(c.0, 3);
    assert_eq!(Bytes::from_usize(9usize).0, 9);
    assert_eq!(Bytes(u64::MAX).saturating_add(5).0, u64::MAX);
    assert_eq!(Bytes(5).saturating_add(7).0, 12);
}

#[test]
fn error_messages_are_not_empty() {
    for e in [
        KvsError::NotADirectory,
        KvsError::KeyNotFound,
        KvsError::UnexpectedCommand,
        KvsError::UnexpectedKey,
        KvsError::UnexpectedFileName,
        KvsError::CorruptLog,
        KvsError::Io,
    ] {
        assert!(!e.message().is_empty());
    }
}
