use thunders::message::{InputMessage, OutputMessage};

fn bytes(s: &str) -> Vec<u8> {
    s.as_bytes().to_vec()
}

#[test]
fn connect_encodes_exactly() {
    let m = InputMessage::Connect { correlation_id: bytes("a"), id: 7 };
    let enc = m.encode();
    assert_eq!(enc, bytes(r#"{"method":"connect","correlation_id":"a","p_id":7}"#));
}

#[test]
fn connect_round_trips() {
    let enc = InputMessage::Connect { correlation_id: bytes("a"), id: 7 }.encode();
    match InputMessage::decode(&enc) {
        Some(InputMessage::Connect { correlation_id, id }) => {
            assert_eq!(correlation_id, bytes("a"));
            assert_eq!(id, 7);
        }
        _ => panic!("expected a connect"),
    }
}

#[test]
fn create_round_trips_with_options() {
    let m = InputMessage::Create {
        correlation_id: bytes("b"),
        type_: bytes("chat"),
        id: bytes("room-1"),
        options: Some(bytes(r#"{"seats":4}"#)),
    };
    let enc = m.encode();
    match InputMessage::decode(&enc) {
        Some(InputMessage::Create { correlation_id, type_, id, options }) => {
            assert_eq!(correlation_id, bytes("b"));
            assert_eq!(type_, bytes("chat"));
            assert_eq!(id, bytes("room-1"));
            assert_eq!(options, Some(bytes(r#"{"seats":4}"#)));
        }
        _ => panic!("expected a create"),
    }
}

#[test]
fn create_round_trips_without_options() {
    let enc = InputMessage::Create {
        correlation_id: bytes("b"),
        type_: bytes("chat"),
        id: bytes("room-1"),
        options: None,
    }
    .encode();
    assert_eq!(
        enc,
        bytes(r#"{"method":"create","correlation_id":"b","type":"chat","id":"room-1"}"#)
    );
    match InputMessage::decode(&enc) {
        Some(InputMessage::Create { options, .. }) => assert_eq!(options, None),
        _ => panic!("expected a create"),
    }
}

#[test]
fn join_round_trips() {
    let enc = InputMessage::Join {
        correlation_id: bytes("c"),
        type_: bytes("chat"),
        id: bytes("room-1"),
    }
    .encode();
    match InputMessage::decode(&enc) {
        Some(InputMessage::Join { correlation_id, type_, id }) => {
            assert_eq!(correlation_id, bytes("c"));
            assert_eq!(type_, bytes("chat"));
            assert_eq!(id, bytes("room-1"));
        }
        _ => panic!("expected a join"),
    }
}

#[test]
fn action_round_trips_with_payload() {
    let enc = InputMessage::Action {
        type_: bytes("chat"),
        id: bytes("room-1"),
        data: bytes(r#"{"text":"hi"}"#),
    }
    .encode();
    assert_eq!(
        enc,
        bytes(r#"{"method":"action","type":"chat","id":"room-1","data":{"text":"hi"}}"#)
    );
    match InputMessage::decode(&enc) {
        Some(InputMessage::Action { type_, id, data }) => {
            assert_eq!(type_, bytes("chat"));
            assert_eq!(id, bytes("room-1"));
            assert_eq!(data, bytes(r#"{"text":"hi"}"#));
        }
        _ => panic!("expected an action"),
    }
}

#[test]
fn action_empty_payload_is_omitted_and_restored_empty() {
    let enc =
        InputMessage::Action { type_: bytes("chat"), id: bytes("room-1"), data: Vec::new() }
            .encode();
    assert_eq!(enc, bytes(r#"{"method":"action","type":"chat","id":"room-1"}"#));
    match InputMessage::decode(&enc) {
        Some(InputMessage::Action { data, .. }) => assert!(data.is_empty()),
        _ => panic!("expected an action"),
    }
}

#[test]
fn strings_with_quotes_and_backslashes_round_trip() {
    let odd = bytes(r#"a"b\c"#);
    let enc = InputMessage::Join {
        correlation_id: odd.clone(),
        type_: bytes("chat"),
        id: odd.clone(),
    }
    .encode();
    match InputMessage::decode(&enc) {
        Some(InputMessage::Join { correlation_id, id, .. }) => {
            assert_eq!(correlation_id, odd);
            assert_eq!(id, odd);
        }
        _ => panic!("expected a join"),
    }
}

#[test]
fn unknown_fields_are_ignored() {
    let raw = bytes(r#"{"method":"connect","junk":["x",{"y":1}],"correlation_id":"a","p_id":7}"#);
    match InputMessage::decode(&raw) {
        Some(InputMessage::Connect { correlation_id, id }) => {
            assert_eq!(correlation_id, bytes("a"));
            assert_eq!(id, 7);
        }
        _ => panic!("expected a connect"),
    }
}

#[test]
fn whitespace_is_accepted() {
    let raw = bytes("  { \"method\" : \"connect\" , \"correlation_id\" : \"a\" , \"p_id\" : 7 }");
    assert!(InputMessage::decode(&raw).is_some());
}

#[test]
fn missing_required_fields_fail() {
    assert!(InputMessage::decode(&bytes(r#"{"method":"connect","p_id":7}"#)).is_none());
    assert!(InputMessage::decode(&bytes(r#"{"method":"create","correlation_id":"b"}"#)).is_none());
    assert!(InputMessage::decode(&bytes(r#"{"correlation_id":"a","p_id":7}"#)).is_none());
    assert!(InputMessage::decode(&bytes(r#"{"method":"warp","correlation_id":"a"}"#)).is_none());
    assert!(InputMessage::decode(&bytes(r#"not json"#)).is_none());
}

#[test]
fn oversized_player_ids_fail() {
    assert!(InputMessage::decode(&bytes(
        r#"{"method":"connect","correlation_id":"a","p_id":18446744073709551615}"#
    ))
    .is_some());
    assert!(InputMessage::decode(&bytes(
        r#"{"method":"connect","correlation_id":"a","p_id":18446744073709551616}"#
    ))
    .is_none());
}

#[test]
fn output_messages_round_trip() {
    let acks = vec![
        OutputMessage::Connect { correlation_id: bytes("a"), success: true },
        OutputMessage::Create { correlation_id: bytes("b"), success: false },
        OutputMessage::Join { correlation_id: bytes("c"), success: true },
        OutputMessage::GenericError { description: bytes("oops") },
        OutputMessage::Diff {
            type_: bytes("chat"),
            id: bytes("room-1"),
            finished: false,
            data: bytes(r#"[1,2,3]"#),
        },
        OutputMessage::Diff {
            type_: bytes("chat"),
            id: bytes("room-1"),
            finished: true,
            data: Vec::new(),
        },
    ];
    for m in acks {
        let enc = m.encode();
        let back = OutputMessage::decode(&enc).expect("decodes");
        assert_eq!(back.encode(), enc);
    }
}

#[test]
fn finished_diff_encodes_exactly() {
    let enc = OutputMessage::Diff {
        type_: bytes("chat"),
        id: bytes("room-1"),
        finished: true,
        data: Vec::new(),
    }
    .encode();
    assert_eq!(enc, bytes(r#"{"method":"diff","type":"chat","id":"room-1","finished":true}"#));
}

#[test]
fn control_bytes_in_text_fields_encode_as_valid_json() {
    let odd = vec![b'a', 0x0a, b'b', 0x01];
    let enc = InputMessage::Join {
        correlation_id: odd.clone(),
        type_: bytes("chat"),
        id: bytes("room-1"),
    }
    .encode();
    assert_eq!(
        enc,
        bytes(r#"{"method":"join","correlation_id":"a\u000ab\u0001","type":"chat","id":"room-1"}"#)
    );
    match InputMessage::decode(&enc) {
        Some(InputMessage::Join { correlation_id, .. }) => assert_eq!(correlation_id, odd),
        _ => panic!("expected a join"),
    }
}
