use kvs::codec::{assemble, confirm, frame_put, frame_rm, same_command};
use kvs::{decode, encode, Decoded, ErrorKind, KvsCommand};

fn put(key: &str, value: &str) -> KvsCommand {
    KvsCommand::Put { key: key.to_string(), value: value.to_string() }
}

fn rm(key: &str) -> KvsCommand {
    KvsCommand::Rm { key: key.to_string() }
}

#[test]
fn put_record_is_one_json_object() {
    let bytes = encode(&put("k", "v1")).unwrap();
    assert_eq!(bytes, b"{\"Set\":{\"key\":\"k\",\"value\":\"v1\"}}".to_vec());
}

#[test]
fn rm_record_is_one_json_object() {
    let bytes = encode(&rm("k")).unwrap();
    assert_eq!(bytes, b"{\"Rm\":{\"key\":\"k\"}}".to_vec());
}

#[test]
fn empty_key_and_value_leave_the_frame() {
    let bytes = encode(&put("", "")).unwrap();
    assert_eq!(bytes.len(), 29);
    assert_eq!(bytes, b"{\"Set\":{\"key\":\"\",\"value\":\"\"}}".to_vec());
}

#[test]
fn quotes_and_backslashes_are_escaped() {
    let bytes = encode(&put("a\"b", "c\\d")).unwrap();
    assert_eq!(bytes, b"{\"Set\":{\"key\":\"a\\\"b\",\"value\":\"c\\\\d\"}}".to_vec());
}

#[test]
fn control_characters_are_escaped() {
    let bytes = encode(&put("line\nbreak", "tab\there\u{1}")).unwrap();
    assert_eq!(
        bytes,
        b"{\"Set\":{\"key\":\"line\\nbreak\",\"value\":\"tab\\there\\u0001\"}}".to_vec()
    );
}

#[test]
fn encoding_is_deterministic() {
    let a = encode(&put("key", "value")).unwrap();
    let b = encode(&put("key", "value")).unwrap();
    assert_eq!(a, b);
}

#[test]
fn decode_reads_back_what_encode_wrote() {
    let commands = vec![
        put("k", "v"),
        put("", ""),
        put("white space", " \t\r\n "),
        put("quote\"", "back\\slash"),
        put("\u{0}\u{1f}", "\u{7f}"),
        put("ключ", "值 🦀"),
        put("}}", "{\"Set\":{\"key\":\"x\",\"value\":\"y\"}}"),
        rm("k"),
        rm(""),
        rm("ключ\n"),
    ];
    for command in commands.iter() {
        let bytes = encode(command).unwrap();
        match decode(&bytes) {
            Decoded::Record(back, len) => {
                assert_eq!(len, bytes.len());
                assert!(same_command(&back, command));
            }
            other => panic!("no record: {:?}", other),
        }
    }
}

#[test]
fn decode_stops_at_the_end_of_the_first_record() {
    let mut bytes = encode(&put("a", "1")).unwrap();
    let first = bytes.len();
    bytes.extend_from_slice(&encode(&rm("a")).unwrap());
    match decode(&bytes) {
        Decoded::Record(back, len) => {
            assert_eq!(len, first);
            assert!(same_command(&back, &put("a", "1")));
        }
        other => panic!("no record: {:?}", other),
    }
    match decode(&bytes[first..]) {
        Decoded::Record(back, len) => {
            assert_eq!(len, bytes.len() - first);
            assert!(same_command(&back, &rm("a")));
        }
        other => panic!("no record: {:?}", other),
    }
}

#[test]
fn every_proper_prefix_of_a_record_is_truncated() {
    for command in [put("key \"q\" \\", "va\nlue"), rm("gone")].iter() {
        let bytes = encode(command).unwrap();
        for cut in 0..bytes.len() {
            assert!(
                matches!(decode(&bytes[..cut]), Decoded::Truncated),
                "prefix of length {}",
                cut
            );
        }
    }
}

#[test]
fn bytes_that_are_no_record_are_corrupt() {
    assert!(matches!(decode(b"x"), Decoded::Corrupt));
    assert!(matches!(decode(b"{\"Get\":{\"key\":\"k\"}}"), Decoded::Corrupt));
    assert!(matches!(decode(b"{\"Set\":{\"key\":k}}"), Decoded::Corrupt));
    assert!(matches!(decode(b"{\"Set\":{\"key\":\"k\",\"value\":\"v\"}]"), Decoded::Corrupt));
    assert!(matches!(decode(b"{\"Rm\":{\"key\":\"k\",\"value\":\"v\"}}"), Decoded::Corrupt));
    assert!(matches!(decode(b" {\"Rm\":{\"key\":\"k\"}}"), Decoded::Corrupt));
}

#[test]
fn a_literal_that_is_no_string_is_corrupt() {
    assert!(matches!(decode(b"{\"Rm\":{\"key\":\"bad \\x escape\"}}"), Decoded::Corrupt));
    assert!(matches!(decode(b"{\"Rm\":{\"key\":\"\\ud800\"}}"), Decoded::Corrupt));
    assert!(matches!(decode(b"{\"Rm\":{\"key\":\"\xff\"}}"), Decoded::Corrupt));
}

#[test]
fn an_escaped_quote_does_not_end_a_literal() {
    match decode(b"{\"Rm\":{\"key\":\"a\\\"}}\"}}") {
        Decoded::Record(back, len) => {
            assert_eq!(len, 22);
            assert!(same_command(&back, &rm("a\"}}")));
        }
        other => panic!("no record: {:?}", other),
    }
}

#[test]
fn same_command_tells_commands_apart() {
    assert!(same_command(&put("k", "v"), &put("k", "v")));
    assert!(!same_command(&put("k", "v"), &put("k", "w")));
    assert!(!same_command(&put("k", "v"), &put("j", "v")));
    assert!(!same_command(&put("k", "v"), &rm("k")));
    assert!(same_command(&rm("k"), &rm("k")));
    assert!(!same_command(&rm("k"), &rm("j")));
}

#[test]
fn confirm_accepts_the_record_of_the_command() {
    let bytes = encode(&put("k", "v")).unwrap();
    assert_eq!(confirm(&put("k", "v"), bytes.clone()).unwrap(), bytes);
}

#[test]
fn confirm_refuses_other_bytes_with_a_codec_error() {
    let bytes = encode(&put("k", "v")).unwrap();
    let e = confirm(&put("k", "other"), bytes.clone()).unwrap_err();
    assert_eq!(e.kind, ErrorKind::Codec);
    assert_eq!(e.message(), "Record cannot be encoded");
    let mut longer = bytes.clone();
    longer.push(b' ');
    assert_eq!(confirm(&put("k", "v"), longer).unwrap_err().kind, ErrorKind::Codec);
    assert_eq!(confirm(&put("k", "v"), bytes[..5].to_vec()).unwrap_err().kind, ErrorKind::Codec);
}

#[test]
fn the_frames_stand_around_the_literals() {
    assert_eq!(frame_put(b"\"k\"", b"\"v\""), b"{\"Set\":{\"key\":\"k\",\"value\":\"v\"}}".to_vec());
    assert_eq!(frame_put(b"", b""), b"{\"Set\":{\"key\":,\"value\":}}".to_vec());
    assert_eq!(frame_rm(b"\"k\""), b"{\"Rm\":{\"key\":\"k\"}}".to_vec());
    assert_eq!(frame_rm(b"x"), b"{\"Rm\":{\"key\":x}}".to_vec());
}

fn json_error() -> serde_json::Error {
    serde_json::from_str::<u8>("x").unwrap_err()
}

#[test]
fn assemble_frames_the_literals_of_the_command() {
    let record = assemble(&put("k", "v"), Ok(b"\"k\"".to_vec()), Some(Ok(b"\"v\"".to_vec())));
    assert_eq!(record.unwrap(), b"{\"Set\":{\"key\":\"k\",\"value\":\"v\"}}".to_vec());
    let record = assemble(&rm("k"), Ok(b"\"k\"".to_vec()), None);
    assert_eq!(record.unwrap(), b"{\"Rm\":{\"key\":\"k\"}}".to_vec());
    let record = assemble(&rm("k"), Ok(b"\"\\u006b\"".to_vec()), Some(Err(json_error())));
    assert_eq!(record.unwrap(), b"{\"Rm\":{\"key\":\"\\u006b\"}}".to_vec());
}

#[test]
fn assemble_without_a_literal_is_a_codec_error() {
    let e = assemble(&put("k", "v"), Err(json_error()), Some(Ok(b"\"v\"".to_vec()))).unwrap_err();
    assert_eq!(e.kind, ErrorKind::Codec);
    let e = assemble(&put("k", "v"), Ok(b"\"k\"".to_vec()), Some(Err(json_error()))).unwrap_err();
    assert_eq!(e.kind, ErrorKind::Codec);
    let e = assemble(&put("k", "v"), Ok(b"\"k\"".to_vec()), None).unwrap_err();
    assert_eq!(e.kind, ErrorKind::Codec);
    let e = assemble(&rm("k"), Err(json_error()), None).unwrap_err();
    assert_eq!(e.kind, ErrorKind::Codec);
}

#[test]
fn assemble_refuses_literals_that_do_not_read_back() {
    let wrong: Vec<(&[u8], &[u8])> = vec![
        (b"k", b"\"v\""),
        (b"\"k\"", b"v"),
        (b"\"j\"", b"\"v\""),
        (b"\"k\"", b"\"w\""),
        (b"\"k", b"\"v\""),
        (b"\"k\" ", b"\"v\""),
        (b"\"k\",\"value\":\"v\"}}", b"\"v\""),
    ];
    for (key_text, value_text) in wrong.iter() {
        let r = assemble(&put("k", "v"), Ok(key_text.to_vec()), Some(Ok(value_text.to_vec())));
        assert_eq!(r.unwrap_err().kind, ErrorKind::Codec);
    }
}

fn object(member: &str, fields: &[(&str, &str)]) -> serde_json::Value {
    let mut inner = serde_json::Map::new();
    for (name, text) in fields.iter() {
        inner.insert(name.to_string(), serde_json::Value::String(text.to_string()));
    }
    let mut outer = serde_json::Map::new();
    outer.insert(member.to_string(), serde_json::Value::Object(inner));
    serde_json::Value::Object(outer)
}

#[test]
fn a_record_is_the_json_text_of_its_object() {
    let pairs = [("k", "v"), ("", ""), ("a\"b\\c", "line\nbreak\u{7}"), ("ключ", "🦀")];
    for (key, value) in pairs.iter() {
        let text = serde_json::to_vec(&object("Set", &[("key", key), ("value", value)])).unwrap();
        assert_eq!(encode(&put(key, value)).unwrap(), text);
        let text = serde_json::to_vec(&object("Rm", &[("key", key)])).unwrap();
        assert_eq!(encode(&rm(key)).unwrap(), text);
    }
}

#[test]
fn a_record_reads_as_json() {
    let bytes = encode(&put("a\"b", "c\u{1}d")).unwrap();
    let value: serde_json::Value = serde_json::from_slice(&bytes).unwrap();
    assert_eq!(value, object("Set", &[("key", "a\"b"), ("value", "c\u{1}d")]));
}

#[test]
fn every_ascii_character_is_written_as_the_literal_says() {
    for b in 0u8..128 {
        let text = match b {
            0x22 => "\\\"".to_string(),
            0x5c => "\\\\".to_string(),
            0x08 => "\\b".to_string(),
            0x09 => "\\t".to_string(),
            0x0a => "\\n".to_string(),
            0x0c => "\\f".to_string(),
            0x0d => "\\r".to_string(),
            0x00..=0x1f => format!("\\u00{}{}", b / 16, ["0", "1", "2", "3", "4", "5", "6", "7",
                "8", "9", "a", "b", "c", "d", "e", "f"][(b % 16) as usize]),
            _ => (b as char).to_string(),
        };
        let key = (b as char).to_string();
        let expected = format!("{{\"Rm\":{{\"key\":\"{}\"}}}}", text);
        assert_eq!(encode(&rm(&key)).unwrap(), expected.into_bytes(), "byte {}", b);
    }
}

#[test]
fn characters_outside_ascii_are_written_in_utf8() {
    for key in ["\u{80}", "é", "\u{7ff}", "\u{800}", "值", "\u{ffff}", "\u{10000}", "🦀", "\u{10ffff}"] {
        let mut expected = b"{\"Rm\":{\"key\":\"".to_vec();
        expected.extend_from_slice(key.as_bytes());
        expected.extend_from_slice(b"\"}}");
        assert_eq!(encode(&rm(key)).unwrap(), expected);
    }
}
