use kvs::codec::{decode_command, encode_command, Command, DecodeStep, REMOVE_TAG, SET_TAG};

#[test]
fn set_record_encoding_is_exact() {
    let cmd = Command::set("ab".to_string(), "c".to_string());
    let bytes = encode_command(&cmd);
    let mut expected = vec![SET_TAG];
    expected.extend_from_slice(&2u64.to_le_bytes());
    expected.extend_from_slice(b"ab");
    expected.extend_from_slice(&1u64.to_le_bytes());
    expected.extend_from_slice(b"c");
    assert_eq!(bytes, expected);
}

#[test]
fn remove_record_encoding_is_exact() {
    let cmd = Command::del("k".to_string());
    let bytes = encode_command(&cmd);
    let mut expected = vec![REMOVE_TAG];
    expected.extend_from_slice(&1u64.to_le_bytes());
    expected.extend_from_slice(b"k");
    assert_eq!(bytes, expected);
}

#[test]
fn decode_inverts_encode() {
    let cmd = Command::set("key".to_string(), "value".to_string());
    let bytes = encode_command(&cmd);
    match decode_command(&bytes, 0) {
        DecodeStep::RecordDone { cmd: Command::SetCmd { key, value }, end } => {
            assert_eq!(key, "key");
            assert_eq!(value, "value");
            assert_eq!(end, bytes.len());
        }
        _ => panic!("a complete record must decode"),
    }
}

#[test]
fn decode_finds_sequential_record_boundaries() {
    let mut log = encode_command(&Command::set("a".to_string(), "1".to_string()));
    let second = encode_command(&Command::del("a".to_string()));
    let first_len = log.len();
    log.extend_from_slice(&second);
    match decode_command(&log, 0) {
        DecodeStep::RecordDone { end, .. } => assert_eq!(end, first_len),
        _ => panic!("first record must decode"),
    }
    match decode_command(&log, first_len) {
        DecodeStep::RecordDone { cmd: Command::RemoveCmd { key }, end } => {
            assert_eq!(key, "a");
            assert_eq!(end, log.len());
        }
        _ => panic!("second record must decode"),
    }
    match decode_command(&log, log.len()) {
        DecodeStep::LogEnd => {}
        _ => panic!("the clean end of the log must be recognised"),
    }
}

#[test]
fn truncated_record_is_reported_truncated() {
    let bytes = encode_command(&Command::set("key".to_string(), "value".to_string()));
    for cut in 1..bytes.len() {
        let prefix = bytes[..cut].to_vec();
        match decode_command(&prefix, 0) {
            DecodeStep::TruncatedTail => {}
            _ => panic!("a strict prefix of a record must be reported truncated"),
        }
    }
}

#[test]
fn unknown_tag_is_malformed() {
    let bytes = vec![9u8, 0, 0, 0];
    match decode_command(&bytes, 0) {
        DecodeStep::MalformedRecord => {}
        _ => panic!("an unknown tag is not a record"),
    }
}

#[test]
fn invalid_utf8_field_is_malformed() {
    let mut bytes = vec![REMOVE_TAG];
    bytes.extend_from_slice(&2u64.to_le_bytes());
    bytes.extend_from_slice(&[0xff, 0xfe]);
    match decode_command(&bytes, 0) {
        DecodeStep::MalformedRecord => {}
        _ => panic!("a field that is not UTF-8 is not a record"),
    }
}

#[test]
fn get_command_is_never_persisted() {
    let cmd = Command::get("k".to_string());
    assert!(matches!(cmd, Command::GetCmd { .. }));
}
