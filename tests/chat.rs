use yewchat::codec::{
    decode, decode_message_data, decode_reaction_payload, encode, encode_reaction_payload,
    DecodeError, MsgTypes, WebSocketMessage,
};
use yewchat::session::{blank, Change, Chat, Msg};

fn env(kind: MsgTypes, items: Option<Vec<&str>>, data: Option<&str>) -> WebSocketMessage {
    WebSocketMessage {
        message_type: kind,
        data_array: items.map(|v| v.into_iter().map(String::from).collect()),
        data: data.map(String::from),
    }
}

fn same(a: &WebSocketMessage, b: &WebSocketMessage) -> bool {
    a.message_type == b.message_type && a.data_array == b.data_array && a.data == b.data
}

fn users_text(names: &[&str]) -> String {
    encode(&env(MsgTypes::Users, Some(names.to_vec()), None))
}

fn names(chat: &Chat) -> Vec<String> {
    chat.users().iter().map(|u| u.name.clone()).collect()
}

#[test]
fn encode_register_exact() {
    let e = env(MsgTypes::Register, None, Some("alice"));
    assert_eq!(encode(&e), r#"{"messageType":"register","dataArray":null,"data":"alice"}"#);
}

#[test]
fn encode_users_exact() {
    let e = env(MsgTypes::Users, Some(vec!["a", "b"]), None);
    assert_eq!(encode(&e), r#"{"messageType":"users","dataArray":["a","b"],"data":null}"#);
    let e = env(MsgTypes::Users, Some(vec![]), None);
    assert_eq!(encode(&e), r#"{"messageType":"users","dataArray":[],"data":null}"#);
}

#[test]
fn encode_escapes() {
    let e = env(MsgTypes::Message, None, Some("a\"b\\c\nd\u{1}é"));
    assert_eq!(
        encode(&e),
        "{\"messageType\":\"message\",\"dataArray\":null,\"data\":\"a\\\"b\\\\c\\nd\\u0001é\"}"
    );
}

#[test]
fn encode_agrees_with_serde_json() {
    let e = env(MsgTypes::Typing, Some(vec!["x\ty", "😀"]), Some("q\"\u{1f}"));
    let text = encode(&e);
    let v: serde_json::Value = serde_json::from_str(&text).unwrap();
    assert_eq!(v["messageType"], serde_json::Value::String("typing".to_string()));
    assert_eq!(v["dataArray"][0], serde_json::Value::String("x\ty".to_string()));
    assert_eq!(v["dataArray"][1], serde_json::Value::String("😀".to_string()));
    assert_eq!(v["data"], serde_json::Value::String("q\"\u{1f}".to_string()));
    assert_eq!(serde_json::to_string(&v["data"]).unwrap(), "\"q\\\"\\u001f\"");
}

#[test]
fn envelope_round_trip_all_kinds() {
    let cases = vec![
        env(MsgTypes::Users, Some(vec!["alice", "bob", ""]), None),
        env(MsgTypes::Register, None, Some("alice")),
        env(MsgTypes::Message, None, Some("{\"from\":\"a\",\"message\":\"hi\"}")),
        env(MsgTypes::Typing, None, None),
        env(MsgTypes::Reaction, None, Some("[0,\"👍\"]")),
        env(MsgTypes::Message, Some(vec!["\u{0}\u{8}\u{c}\r"]), Some("\\/")),
    ];
    for e in cases.iter() {
        let back = decode(&encode(e)).unwrap();
        assert!(same(&back, e));
    }
}

#[test]
fn decode_accepts_whitespace_and_any_field_order() {
    let text = " { \"data\" : \"bob\" ,\n \"messageType\":\t\"typing\" } ";
    let e = decode(text).unwrap();
    assert!(same(&e, &env(MsgTypes::Typing, None, Some("bob"))));
}

#[test]
fn decode_missing_optional_fields() {
    let e = decode(r#"{"messageType":"users","dataArray":["a"]}"#).unwrap();
    assert!(same(&e, &env(MsgTypes::Users, Some(vec!["a"]), None)));
}

#[test]
fn decode_unescapes() {
    let e = decode(r#"{"messageType":"message","data":"\u0041\/\t\"x"}"#).unwrap();
    assert_eq!(e.data, Some("A/\t\"x".to_string()));
}

#[test]
fn decode_malformed_inputs() {
    assert_eq!(decode("hello").err(), Some(DecodeError::Malformed));
    assert_eq!(decode("").err(), Some(DecodeError::Malformed));
    assert_eq!(decode(r#"{"messageType":"users""#).err(), Some(DecodeError::Malformed));
    assert_eq!(decode(r#"{"data":null}"#).err(), Some(DecodeError::Malformed));
    assert_eq!(decode(r#"{"messageType":3}"#).err(), Some(DecodeError::Malformed));
    assert_eq!(
        decode(r#"{"messageType":"typing","data":"a","data":"b"}"#).err(),
        Some(DecodeError::Malformed)
    );
    assert_eq!(decode(r#"{"messageType":"typing","extra":null}"#).err(), Some(DecodeError::Malformed));
    assert_eq!(decode(r#"{"messageType":"users","dataArray":"a"}"#).err(), Some(DecodeError::Malformed));
    assert_eq!(decode(r#"{"messageType":"typing"} x"#).err(), Some(DecodeError::Malformed));
}

#[test]
fn decode_unknown_kind() {
    assert_eq!(decode(r#"{"messageType":"leave","data":null}"#).err(), Some(DecodeError::UnknownKind));
    assert_eq!(decode(r#"{"messageType":"Users"}"#).err(), Some(DecodeError::UnknownKind));
}

#[test]
fn reaction_payload_exact_and_round_trip() {
    assert_eq!(encode_reaction_payload(3, "😀"), "[3,\"😀\"]");
    assert_eq!(serde_json::to_string(&(3usize, "😀")).unwrap(), encode_reaction_payload(3, "😀"));
    for (i, s) in [(0usize, ""), (7, "❤️"), (1234567, "a\"b"), (usize::MAX, "\n\\")] {
        let (j, t) = decode_reaction_payload(&encode_reaction_payload(i, s)).unwrap();
        assert_eq!((j, t.as_str()), (i, s));
    }
}

#[test]
fn reaction_payload_rejects() {
    assert_eq!(decode_reaction_payload("[01,\"a\"]").err(), Some(DecodeError::Malformed));
    assert_eq!(decode_reaction_payload("[-1,\"a\"]").err(), Some(DecodeError::Malformed));
    assert_eq!(decode_reaction_payload("[99999999999999999999999,\"a\"]").err(), Some(DecodeError::Malformed));
    assert_eq!(decode_reaction_payload("[1]").err(), Some(DecodeError::Malformed));
    assert_eq!(decode_reaction_payload(" [ 2 , \"b\" ] ").ok(), Some((2, "b".to_string())));
}

#[test]
fn message_body_decode() {
    let m = decode_message_data(r#"{"from":"a","message":"hi","timestamp":"10:00"}"#).ok().unwrap();
    assert_eq!((m.from.as_str(), m.message.as_str(), m.timestamp), ("a", "hi", Some("10:00".to_string())));
    let m = decode_message_data(r#"{"message":"hi","from":"a"}"#).ok().unwrap();
    assert_eq!(m.timestamp, None);
    assert!(decode_message_data(r#"{"from":"a"}"#).is_err());
}

#[test]
fn create_sends_register() {
    let (chat, text) = Chat::create("alice");
    assert_eq!(text, r#"{"messageType":"register","dataArray":null,"data":"alice"}"#);
    assert!(chat.users().is_empty() && chat.messages().is_empty() && chat.reactions().is_empty());
    assert!(chat.typing_users().is_empty());
}

#[test]
fn roster_is_replaced_not_merged() {
    let (mut chat, _) = Chat::create("me");
    assert_eq!(chat.handle_inbound(&users_text(&["A", "B"]), 0, "00:00".to_string()), Change::Roster);
    assert_eq!(names(&chat), vec!["A", "B"]);
    chat.handle_inbound(&users_text(&["B", "C"]), 0, "00:00".to_string());
    assert_eq!(names(&chat), vec!["B", "C"]);
    assert!(chat.users().iter().all(|u| u.online));
    assert_eq!(chat.users()[1].avatar, "https://avatars.dicebear.com/api/adventurer-neutral/C.svg");
}

#[test]
fn typing_debounce() {
    let (mut chat, _) = Chat::create("me");
    let first = chat.set_composing(true);
    assert_eq!(first, Some(r#"{"messageType":"typing","dataArray":null,"data":null}"#.to_string()));
    assert_eq!(chat.set_composing(true), None);
    assert_eq!(chat.set_composing(false), None);
    assert!(chat.set_composing(true).is_some());
}

#[test]
fn typing_expiry_is_per_sender() {
    let (mut chat, _) = Chat::create("me");
    let alice = encode(&env(MsgTypes::Typing, None, Some("alice")));
    let bob = encode(&env(MsgTypes::Typing, None, Some("bob")));
    assert_eq!(chat.handle_inbound(&alice, 0, String::new()), Change::Typing);
    assert_eq!(chat.handle_inbound(&bob, 1000, String::new()), Change::Typing);
    assert_eq!(chat.expire_typing(2999), Change::Nothing);
    assert_eq!(chat.typing_users(), vec!["alice", "bob"]);
    assert_eq!(chat.expire_typing(3000), Change::Typing);
    assert_eq!(chat.typing_users(), vec!["bob"]);
    assert_eq!(chat.expire_typing(3999), Change::Nothing);
    assert_eq!(chat.expire_typing(4000), Change::Typing);
    assert!(chat.typing_users().is_empty());
}

#[test]
fn typing_refresh_extends_deadline() {
    let (mut chat, _) = Chat::create("me");
    let alice = encode(&env(MsgTypes::Typing, None, Some("alice")));
    chat.handle_inbound(&alice, 0, String::new());
    chat.handle_inbound(&alice, 2000, String::new());
    assert_eq!(chat.typing_users(), vec!["alice"]);
    assert_eq!(chat.expire_typing(3000), Change::Nothing);
    assert_eq!(chat.expire_typing(5000), Change::Typing);
    chat.handle_inbound(&alice, u64::MAX - 1, String::new());
    assert_eq!(chat.expire_typing(u64::MAX - 1), Change::Nothing);
}

#[test]
fn empty_submission_sends_nothing() {
    let (chat, _) = Chat::create("me");
    assert_eq!(chat.submit("   "), None);
    assert_eq!(chat.submit(""), None);
    assert_eq!(chat.submit("\t\n\u{3000}"), None);
    assert!(blank(" \u{3000}"));
    assert!(!blank(" x "));
    assert_eq!(
        chat.submit(" hi "),
        Some(r#"{"messageType":"message","dataArray":null,"data":" hi "}"#.to_string())
    );
}

#[test]
fn react_sends_nested_payload_without_local_change() {
    let (mut chat, _) = Chat::create("me");
    let step = chat.update(Msg::AddReaction(2, "👍".to_string()), 0);
    assert_eq!(step.change, Change::Nothing);
    assert_eq!(
        step.send,
        Some(r#"{"messageType":"reaction","dataArray":null,"data":"[2,\"👍\"]"}"#.to_string())
    );
    assert!(chat.reactions().is_empty());
}

#[test]
fn inbound_reaction_is_appended_even_out_of_range() {
    let (mut chat, _) = Chat::create("me");
    let text = encode(&env(MsgTypes::Reaction, None, Some(&encode_reaction_payload(42, "🎉"))));
    assert_eq!(chat.handle_inbound(&text, 0, String::new()), Change::Reactions);
    assert_eq!(chat.reactions(), &vec![(42usize, "🎉".to_string())]);
}

#[test]
fn timestamp_default_and_verbatim() {
    let (mut chat, _) = Chat::create("me");
    let without = encode(&env(MsgTypes::Message, None, Some(r#"{"from":"a","message":"hi"}"#)));
    let with = encode(&env(
        MsgTypes::Message,
        None,
        Some(r#"{"from":"b","message":"yo","timestamp":"09:15"}"#),
    ));
    assert_eq!(chat.handle_inbound(&without, 0, "12:34".to_string()), Change::Messages);
    assert_eq!(chat.handle_inbound(&with, 0, "12:35".to_string()), Change::Messages);
    let ms = chat.messages();
    assert_eq!(ms[0].timestamp, Some("12:34".to_string()));
    assert_eq!(ms[1].timestamp, Some("09:15".to_string()));
    assert_eq!((ms[1].from.as_str(), ms[1].message.as_str()), ("b", "yo"));
}

#[test]
fn update_stamps_with_local_clock() {
    let (mut chat, _) = Chat::create("me");
    let without = encode(&env(MsgTypes::Message, None, Some(r#"{"from":"a","message":"hi"}"#)));
    let step = chat.update(Msg::HandleMsg(without), 0);
    assert_eq!(step.change, Change::Messages);
    let ts = chat.messages()[0].timestamp.clone().unwrap();
    assert_eq!(ts.len(), 5);
    assert_eq!(&ts[2..3], ":");
}

#[test]
fn malformed_input_leaves_state_unchanged() {
    let (mut chat, _) = Chat::create("me");
    chat.handle_inbound(&users_text(&["A"]), 0, String::new());
    let typing = encode(&env(MsgTypes::Typing, None, Some("A")));
    chat.handle_inbound(&typing, 0, String::new());
    for bad in ["not json", "{", r#"{"messageType":"nope"}"#, r#"{"messageType":"message","data":"x"}"#,
                r#"{"messageType":"reaction","data":"[1]"}"#, r#"{"messageType":"typing"}"#,
                r#"{"messageType":"register","data":"z"}"#] {
        assert_eq!(chat.handle_inbound(bad, 10, String::new()), Change::Nothing);
    }
    assert_eq!(names(&chat), vec!["A"]);
    assert!(chat.messages().is_empty());
    assert!(chat.reactions().is_empty());
    assert_eq!(chat.typing_users(), vec!["A"]);
}

#[test]
fn dark_mode_toggles() {
    let (mut chat, _) = Chat::create("me");
    assert_eq!(chat.update(Msg::ToggleDarkMode, 0).change, Change::Theme);
    assert!(chat.dark_mode());
    chat.toggle_dark_mode();
    assert!(!chat.dark_mode());
}

#[test]
fn update_dispatches_local_actions() {
    let (mut chat, _) = Chat::create("me");
    assert!(chat.update(Msg::SubmitMessage("  ".to_string()), 0).send.is_none());
    assert!(chat.update(Msg::SubmitMessage("x".to_string()), 0).send.is_some());
    assert!(chat.update(Msg::SetTyping(true), 0).send.is_some());
    assert!(chat.composing());
    assert!(chat.update(Msg::SetTyping(true), 0).send.is_none());
    chat.update(Msg::HandleMsg(encode(&env(MsgTypes::Typing, None, Some("z")))), 100);
    assert_eq!(chat.update(Msg::ExpireTyping, 3100).change, Change::Typing);
}

#[test]
fn reactions_grouped_by_message_index() {
    let (mut chat, _) = Chat::create("me");
    for (i, s) in [(0usize, "😀"), (1, "👍"), (0, "🎉"), (9, "🤔")] {
        let text = encode(&env(MsgTypes::Reaction, None, Some(&encode_reaction_payload(i, s))));
        chat.handle_inbound(&text, 0, String::new());
    }
    assert_eq!(chat.reactions_for(0), vec!["😀", "🎉"]);
    assert_eq!(chat.reactions_for(1), vec!["👍"]);
    assert!(chat.reactions_for(2).is_empty());
}

#[test]
fn decode_unicode_escapes() {
    let e = decode(r#"{"messageType":"message","data":"\u00e9\u4E2D\ud83d\ude00"}"#).unwrap();
    assert_eq!(e.data, Some("é中😀".to_string()));
    let expected: String = serde_json::from_str(r#""\u00e9\u4E2D\ud83d\ude00""#).unwrap();
    assert_eq!(e.data, Some(expected));
    assert_eq!(decode(r#"{"messageType":"message","data":"\ud83d"}"#).err(), Some(DecodeError::Malformed));
    assert_eq!(decode(r#"{"messageType":"message","data":"\ude00"}"#).err(), Some(DecodeError::Malformed));
    assert_eq!(decode(r#"{"messageType":"message","data":"\u12"}"#).err(), Some(DecodeError::Malformed));
    assert_eq!(decode("{\"messageType\":\"message\",\"data\":\"a\u{1}\"}").err(), Some(DecodeError::Malformed));
}
