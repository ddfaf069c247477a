//! Round trips and failure cases of the record codec.

use kvs::codec::{decode_command_at, encode_command, Command};

#[test]
fn put_record_round_trip() {
    let c = Command { key: String::from("a"), value: Some(String::from("1")) };
    let enc = encode_command(&c);
    let (d, next) = decode_command_at(&enc, 0).unwrap();
    assert_eq!(d.key, "a");
    assert_eq!(d.value, Some(String::from("1")));
    assert_eq!(next, enc.len());
}

#[test]
fn tombstone_record_round_trip() {
    let c = Command { key: String::from("gone"), value: None };
    let enc = encode_command(&c);
    let (d, next) = decode_command_at(&enc, 0).unwrap();
    assert_eq!(d.key, "gone");
    assert_eq!(d.value, None);
    assert_eq!(next, enc.len());
}

#[test]
fn unicode_round_trip() {
    let c = Command {
        key: String::from("clé"),
        value: Some(String::from("värde 🦀")),
    };
    let enc = encode_command(&c);
    let (d, _) = decode_command_at(&enc, 0).unwrap();
    assert_eq!(d.key, "clé");
    assert_eq!(d.value, Some(String::from("värde 🦀")));
}

#[test]
fn empty_strings_round_trip() {
    let c = Command { key: String::from(""), value: Some(String::from("")) };
    let enc = encode_command(&c);
    let (d, next) = decode_command_at(&enc, 0).unwrap();
    assert_eq!(d.key, "");
    assert_eq!(d.value, Some(String::from("")));
    assert_eq!(next, enc.len());
}

#[test]
fn stream_of_records_decodes_in_order_with_cumulative_offsets() {
    let c1 = Command { key: String::from("a"), value: Some(String::from("1")) };
    let c2 = Command { key: String::from("b"), value: None };
    let c3 = Command { key: String::from("a"), value: Some(String::from("2")) };
    let e1 = encode_command(&c1);
    let e2 = encode_command(&c2);
    let e3 = encode_command(&c3);
    let mut stream = Vec::new();
    stream.extend_from_slice(&e1);
    stream.extend_from_slice(&e2);
    stream.extend_from_slice(&e3);

    let (d1, o1) = decode_command_at(&stream, 0).unwrap();
    assert_eq!(o1, e1.len());
    assert_eq!(d1.key, "a");
    assert_eq!(d1.value, Some(String::from("1")));

    let (d2, o2) = decode_command_at(&stream, o1).unwrap();
    assert_eq!(o2, e1.len() + e2.len());
    assert_eq!(d2.key, "b");
    assert_eq!(d2.value, None);

    let (d3, o3) = decode_command_at(&stream, o2).unwrap();
    assert_eq!(o3, stream.len());
    assert_eq!(d3.key, "a");
    assert_eq!(d3.value, Some(String::from("2")));
    assert!(o1 < o2 && o2 < o3);
}

#[test]
fn empty_input_is_rejected() {
    let data: Vec<u8> = Vec::new();
    assert!(decode_command_at(&data, 0).is_err());
}

#[test]
fn bad_tag_is_rejected() {
    let data: Vec<u8> = vec![7u8, 0, 0, 0, 0, 0, 0, 0, 0];
    assert!(decode_command_at(&data, 0).is_err());
}

#[test]
fn truncated_record_is_rejected() {
    let c = Command { key: String::from("abc"), value: Some(String::from("def")) };
    let enc = encode_command(&c);
    let truncated: Vec<u8> = enc[..enc.len() - 1].to_vec();
    assert!(decode_command_at(&truncated, 0).is_err());
}

#[test]
fn invalid_utf8_is_rejected() {
    // tag 0, key length 1, one byte that is not valid UTF-8
    let data: Vec<u8> = vec![0u8, 1, 0, 0, 0, 0, 0, 0, 0, 0xFF];
    assert!(decode_command_at(&data, 0).is_err());
}
