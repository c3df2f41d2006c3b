use yewchat_core::codec::{decode, encode, ChatMessage, DecodeError, Layer, Operation};

fn register(name: &str) -> Operation {
    Operation::Register(String::from(name))
}

fn users(names: &[&str]) -> Operation {
    Operation::Users(names.iter().map(|n| String::from(*n)).collect())
}

fn message(from: &str, body: &str) -> Operation {
    Operation::Message(ChatMessage { from: String::from(from), body: String::from(body) })
}

#[test]
fn encode_register_is_canonical() {
    let frame = encode(&register("alice"));
    assert_eq!(frame, "{\"messageType\":\"register\",\"data\":\"alice\",\"dataArray\":null}");
}

#[test]
fn decode_register_returns_name() {
    let frame = encode(&register("alice"));
    match decode(&frame).unwrap() {
        Operation::Register(name) => assert_eq!(name, "alice"),
        _ => panic!("expected a register operation"),
    }
}

#[test]
fn encode_users_is_canonical() {
    let frame = encode(&users(&["alice", "bob"]));
    assert_eq!(
        frame,
        "{\"messageType\":\"users\",\"data\":null,\"dataArray\":[\"alice\",\"bob\"]}"
    );
}

#[test]
fn encode_message_is_double_encoded() {
    let frame = encode(&message("alice", "hi"));
    assert_eq!(
        frame,
        "{\"messageType\":\"message\",\"data\":\"{\\\"from\\\":\\\"alice\\\",\\\"message\\\":\\\"hi\\\"}\",\"dataArray\":null}"
    );
}

#[test]
fn round_trip_register() {
    match decode(&encode(&register("alice"))).unwrap() {
        Operation::Register(name) => assert_eq!(name, "alice"),
        _ => panic!("expected a register operation"),
    }
}

#[test]
fn round_trip_users() {
    match decode(&encode(&users(&["alice", "bob", "carol"]))).unwrap() {
        Operation::Users(names) => assert_eq!(names, vec!["alice", "bob", "carol"]),
        _ => panic!("expected a users operation"),
    }
}

#[test]
fn round_trip_users_empty() {
    match decode(&encode(&users(&[]))).unwrap() {
        Operation::Users(names) => assert!(names.is_empty()),
        _ => panic!("expected a users operation"),
    }
}

#[test]
fn round_trip_message() {
    match decode(&encode(&message("bob", "hello there"))).unwrap() {
        Operation::Message(m) => {
            assert_eq!(m.from, "bob");
            assert_eq!(m.body, "hello there");
        }
        _ => panic!("expected a message operation"),
    }
}

#[test]
fn round_trip_message_with_escapes() {
    let body = "a \"quoted\" back\\slash\nnew\tline\rcr";
    match decode(&encode(&message("eve", body))).unwrap() {
        Operation::Message(m) => {
            assert_eq!(m.from, "eve");
            assert_eq!(m.body, body);
        }
        _ => panic!("expected a message operation"),
    }
}

#[test]
fn round_trip_control_characters() {
    let body = "bell\u{7} esc\u{1b} nul\u{0}";
    match decode(&encode(&message("eve", body))).unwrap() {
        Operation::Message(m) => assert_eq!(m.body, body),
        _ => panic!("expected a message operation"),
    }
}

#[test]
fn round_trip_unicode_names() {
    match decode(&encode(&register("ålice ßmith 日本"))).unwrap() {
        Operation::Register(name) => assert_eq!(name, "ålice ßmith 日本"),
        _ => panic!("expected a register operation"),
    }
}

#[test]
fn control_characters_are_escaped_on_the_wire() {
    let frame = encode(&register("a\u{1}b"));
    assert_eq!(frame, "{\"messageType\":\"register\",\"data\":\"a\\u0001b\",\"dataArray\":null}");
}

#[test]
fn decode_accepts_other_field_order_and_missing_data() {
    match decode("{\"messageType\":\"users\",\"dataArray\":[\"alice\",\"bob\"]}").unwrap() {
        Operation::Users(names) => assert_eq!(names, vec!["alice", "bob"]),
        _ => panic!("expected a users operation"),
    }
}

#[test]
fn decode_rejects_empty_input() {
    assert_eq!(decode(""), Err(DecodeError::Malformed(Layer::Envelope)));
}

#[test]
fn decode_rejects_non_json() {
    assert_eq!(decode("not json at all"), Err(DecodeError::Malformed(Layer::Envelope)));
}

#[test]
fn decode_rejects_unknown_tag() {
    assert_eq!(
        decode("{\"messageType\":\"bogus\",\"data\":\"x\",\"dataArray\":null}"),
        Err(DecodeError::Malformed(Layer::Envelope))
    );
}

#[test]
fn decode_rejects_missing_tag() {
    assert_eq!(
        decode("{\"data\":\"x\",\"dataArray\":null}"),
        Err(DecodeError::Malformed(Layer::Envelope))
    );
}

#[test]
fn decode_rejects_register_without_data() {
    assert_eq!(
        decode("{\"messageType\":\"register\",\"data\":null,\"dataArray\":null}"),
        Err(DecodeError::Malformed(Layer::Envelope))
    );
}

#[test]
fn decode_rejects_users_without_array() {
    assert_eq!(
        decode("{\"messageType\":\"users\",\"data\":null,\"dataArray\":null}"),
        Err(DecodeError::Malformed(Layer::Envelope))
    );
}

#[test]
fn decode_rejects_truncated_frame() {
    let frame = encode(&register("alice"));
    let truncated = &frame[..frame.len() - 2];
    assert_eq!(decode(truncated), Err(DecodeError::Malformed(Layer::Envelope)));
}

#[test]
fn decode_rejects_trailing_garbage() {
    let mut frame = encode(&register("alice"));
    frame.push_str("x");
    assert_eq!(decode(&frame), Err(DecodeError::Malformed(Layer::Envelope)));
}

#[test]
fn decode_distinguishes_payload_layer() {
    assert_eq!(
        decode("{\"messageType\":\"message\",\"data\":\"not nested json\",\"dataArray\":null}"),
        Err(DecodeError::Malformed(Layer::Payload))
    );
    assert_eq!(
        decode("{\"messageType\":\"message\",\"data\":\"{\\\"from\\\":\\\"bob\\\"}\",\"dataArray\":null}"),
        Err(DecodeError::Malformed(Layer::Payload))
    );
}

#[test]
fn decode_never_panics_on_arbitrary_bytes() {
    let samples = [
        "{", "}", "[", "\"", "{\"", "{}extra", "{\"messageType\":}", "{\"messageType\":1}",
        "{\"messageType\":\"register\"", "{\"messageType\":\"register\",}", "\\u12", "{\"a\":\"b\"}",
        "{\"messageType\":\"register\",\"data\":\"\\u12\",\"dataArray\":null}",
        "{\"messageType\":\"register\",\"data\":\"\\q\",\"dataArray\":null}",
        "{\"messageType\":\"users\",\"dataArray\":[\"a\",]}",
        "{\"messageType\":\"users\",\"dataArray\":[}",
        "null", "123", "\u{0}\u{1}", "{\"messageType\":\"register\" ,\"data\":\"a\"}",
    ];
    for s in samples.iter() {
        // every outcome must be an ordinary error, never a crash
        assert!(decode(s).is_err());
    }
}

#[test]
fn decode_empty_object_is_malformed() {
    assert_eq!(decode("{}"), Err(DecodeError::Malformed(Layer::Envelope)));
}

#[test]
fn decode_accepts_solidus_escape() {
    match decode("{\"messageType\":\"register\",\"data\":\"a\\/b\",\"dataArray\":null}").unwrap() {
        Operation::Register(name) => assert_eq!(name, "a/b"),
        _ => panic!("expected a register operation"),
    }
}

#[test]
fn decode_lets_a_repeated_member_overwrite() {
    match decode("{\"messageType\":\"register\",\"data\":\"a\",\"data\":\"b\",\"dataArray\":null}")
        .unwrap()
    {
        Operation::Register(name) => assert_eq!(name, "b"),
        _ => panic!("expected a register operation"),
    }
}

#[test]
fn round_trip_empty_strings() {
    match decode(&encode(&register(""))).unwrap() {
        Operation::Register(name) => assert_eq!(name, ""),
        _ => panic!("expected a register operation"),
    }
    match decode(&encode(&message("", ""))).unwrap() {
        Operation::Message(m) => {
            assert_eq!(m.from, "");
            assert_eq!(m.body, "");
        }
        _ => panic!("expected a message operation"),
    }
}

#[test]
fn decode_equality_follows_the_operation() {
    let a = decode(&encode(&users(&["x", "y"]))).unwrap();
    assert_eq!(a, users(&["x", "y"]));
    assert_ne!(a, users(&["x"]));
    assert_ne!(a, register("x"));
}
