use collab_relay::codec::{
    decode_change, decode_error, decode_event, decode_login, decode_user, decode_value,
    encode_change, encode_error, encode_event, encode_login, encode_user, encode_value,
};
use collab_relay::msgs::{ChangeCommand, ErrorCommand, Event, LoginCommand, Pos, UserEvent, ValueCommand};

fn login(u: &str, s: &str) -> LoginCommand {
    LoginCommand { username: u.to_string(), session_id: s.to_string() }
}

#[test]
fn login_encodes_canonically() {
    let s = encode_login(&login("alice", "s1"));
    assert_eq!(s, "{\"username\":\"alice\",\"session_id\":\"s1\"}");
}

#[test]
fn login_round_trips() {
    let s = encode_login(&login("alice", "s1"));
    let back = decode_login(&s).unwrap();
    assert_eq!(back.username, "alice");
    assert_eq!(back.session_id, "s1");
}

#[test]
fn login_escapes_special_characters() {
    let orig = login("a\"b\\c\nd\te\r", "s\"1");
    let s = encode_login(&orig);
    assert_eq!(s, "{\"username\":\"a\\\"b\\\\c\\nd\\te\\r\",\"session_id\":\"s\\\"1\"}");
    let back = decode_login(&s).unwrap();
    assert_eq!(back.username, "a\"b\\c\nd\te\r");
    assert_eq!(back.session_id, "s\"1");
}

#[test]
fn login_decode_rejects_malformed() {
    assert!(decode_login("").is_none());
    assert!(decode_login("{}").is_none());
    assert!(decode_login("{\"username\":\"a\"}").is_none());
    assert!(decode_login("{\"username\":\"a\",\"session_id\":\"s\"}junk").is_none());
    assert!(decode_login("{\"username\":\"a\",\"session_id\":\"s\\q\"}").is_none());
    // a duplicated field
    assert!(decode_login("{\"username\":\"a\",\"username\":\"b\"}").is_none());
    // an unknown field
    assert!(decode_login("{\"username\":\"a\",\"session_id\":\"s\",\"x\":\"y\"}").is_none());
}

#[test]
fn value_round_trips() {
    let orig = ValueCommand { target: "bob".to_string(), text: "line one\nline two".to_string() };
    let s = encode_value(&orig);
    assert_eq!(s, "{\"target\":\"bob\",\"text\":\"line one\\nline two\"}");
    let back = decode_value(&s).unwrap();
    assert_eq!(back.target, "bob");
    assert_eq!(back.text, "line one\nline two");
}

#[test]
fn user_round_trips() {
    let s = encode_user(&UserEvent { username: "carol".to_string() });
    assert_eq!(s, "{\"username\":\"carol\"}");
    assert_eq!(decode_user(&s).unwrap().username, "carol");
}

#[test]
fn error_round_trips() {
    let s = encode_error(&ErrorCommand { msg: "boom".to_string() });
    assert_eq!(s, "{\"msg\":\"boom\"}");
    assert_eq!(decode_error(&s).unwrap().msg, "boom");
}

#[test]
fn change_encodes_null_id() {
    let c = ChangeCommand {
        id: None,
        action: "insert".to_string(),
        start: Pos { row: 0, column: 0 },
        end: Pos { row: 0, column: 0 },
        lines: vec!["hi".to_string()],
    };
    let s = encode_change(&c);
    assert_eq!(
        s,
        "{\"id\":null,\"action\":\"insert\",\"start\":{\"row\":0,\"column\":0},\"end\":{\"row\":0,\"column\":0},\"lines\":[\"hi\"]}"
    );
}

#[test]
fn change_round_trips_with_id_and_lines() {
    let c = ChangeCommand {
        id: Some(42),
        action: "remove".to_string(),
        start: Pos { row: 3, column: 14 },
        end: Pos { row: 4, column: 0 },
        lines: vec!["a".to_string(), "".to_string(), "c\"d".to_string()],
    };
    let s = encode_change(&c);
    let back = decode_change(&s).unwrap();
    assert_eq!(back.id, Some(42));
    assert_eq!(back.action, "remove");
    assert_eq!(back.start, Pos { row: 3, column: 14 });
    assert_eq!(back.end, Pos { row: 4, column: 0 });
    assert_eq!(back.lines, vec!["a".to_string(), "".to_string(), "c\"d".to_string()]);
}

#[test]
fn change_round_trips_empty_lines() {
    let c = ChangeCommand {
        id: None,
        action: "insert".to_string(),
        start: Pos { row: 0, column: 0 },
        end: Pos { row: 0, column: 0 },
        lines: Vec::new(),
    };
    let s = encode_change(&c);
    assert!(s.ends_with("\"lines\":[]}"));
    let back = decode_change(&s).unwrap();
    assert!(back.lines.is_empty());
}

#[test]
fn event_round_trips() {
    let e = Event {
        username: "alice".to_string(),
        event: "login".to_string(),
        data: "{\"username\":\"alice\",\"session_id\":\"s1\"}".to_string(),
        ts: 1700000000000,
    };
    let s = encode_event(&e);
    let back = decode_event(&s).unwrap();
    assert_eq!(back.username, "alice");
    assert_eq!(back.event, "login");
    assert_eq!(back.data, e.data);
    assert_eq!(back.ts, 1700000000000);
}

#[test]
fn event_round_trips_extreme_timestamp() {
    let e = Event {
        username: "a".to_string(),
        event: "change".to_string(),
        data: String::new(),
        ts: u64::MAX,
    };
    let back = decode_event(&encode_event(&e)).unwrap();
    assert_eq!(back.ts, u64::MAX);
}

#[test]
fn event_decode_rejects_malformed() {
    assert!(decode_event("").is_none());
    assert!(decode_event("not json").is_none());
    assert!(decode_event("{\"username\":\"a\",\"event\":\"x\",\"data\":\"\",\"ts\":1.5}").is_none());
    // a timestamp beyond the 64-bit range
    assert!(
        decode_event(
            "{\"username\":\"a\",\"event\":\"x\",\"data\":\"\",\"ts\":18446744073709551616}"
        )
        .is_none()
    );
}

#[test]
fn encoded_event_is_valid_json_for_other_parsers() {
    let e = Event {
        username: "al\"ice".to_string(),
        event: "set_value".to_string(),
        data: encode_value(&ValueCommand { target: "x".to_string(), text: "a\tb".to_string() }),
        ts: 7,
    };
    let s = encode_event(&e);
    let v: serde_json::Value = serde_json::from_str(&s).unwrap();
    assert_eq!(v["username"].as_str().unwrap(), "al\"ice");
    assert_eq!(v["event"].as_str().unwrap(), "set_value");
    assert_eq!(v["ts"].as_u64().unwrap(), 7);
    let inner: serde_json::Value = serde_json::from_str(v["data"].as_str().unwrap()).unwrap();
    assert_eq!(inner["target"].as_str().unwrap(), "x");
    assert_eq!(inner["text"].as_str().unwrap(), "a\tb");
}

#[test]
fn encoded_change_is_valid_json_for_other_parsers() {
    let c = ChangeCommand {
        id: Some(9),
        action: "insert".to_string(),
        start: Pos { row: 1, column: 2 },
        end: Pos { row: 3, column: 4 },
        lines: vec!["x".to_string(), "y z".to_string()],
    };
    let v: serde_json::Value = serde_json::from_str(&encode_change(&c)).unwrap();
    assert_eq!(v["id"].as_u64().unwrap(), 9);
    assert_eq!(v["start"]["row"].as_u64().unwrap(), 1);
    assert_eq!(v["end"]["column"].as_u64().unwrap(), 4);
    assert_eq!(v["lines"][1].as_str().unwrap(), "y z");
}

#[test]
fn event_decode_accepts_redundant_leading_zeros() {
    let s = "{\"username\":\"a\",\"event\":\"x\",\"data\":\"\",\"ts\":007}";
    assert_eq!(decode_event(s).unwrap().ts, 7);
}

#[test]
fn decode_accepts_whitespace_and_any_field_order() {
    let c = decode_login("{ \"username\" : \"a\" ,\n\t\"session_id\" : \"s\" }").unwrap();
    assert_eq!(c.username, "a");
    assert_eq!(c.session_id, "s");
    let c = decode_login("{\"session_id\":\"s\",\"username\":\"a\"}").unwrap();
    assert_eq!(c.username, "a");
    assert_eq!(c.session_id, "s");
}

#[test]
fn event_decode_accepts_whitespace_and_any_field_order() {
    let s = "{ \"ts\": 12, \"data\": \"\", \"event\": \"login\", \"username\": \"a\" }";
    let e = decode_event(s).unwrap();
    assert_eq!(e.username, "a");
    assert_eq!(e.event, "login");
    assert_eq!(e.data, "");
    assert_eq!(e.ts, 12);
}

#[test]
fn change_decode_accepts_whitespace_and_any_field_order() {
    let s = "{ \"lines\": [ \"a\" , \"b\" ], \"action\": \"insert\", \"end\": { \"column\": 4, \"row\": 3 }, \"start\": {\"row\":1,\"column\":2}, \"id\": 7 }";
    let c = decode_change(s).unwrap();
    assert_eq!(c.id, Some(7));
    assert_eq!(c.action, "insert");
    assert_eq!(c.start, Pos { row: 1, column: 2 });
    assert_eq!(c.end, Pos { row: 3, column: 4 });
    assert_eq!(c.lines, vec!["a".to_string(), "b".to_string()]);
}
