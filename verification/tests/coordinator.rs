use collab_relay::codec::{decode_change, decode_error, decode_user, encode_change, encode_event};
use collab_relay::msgs::{ChangeCommand, Event, LoginCommand, Outbound, Pos, ValueCommand};
use collab_relay::registry::App;

fn login(u: &str, s: &str) -> LoginCommand {
    LoginCommand { username: u.to_string(), session_id: s.to_string() }
}

fn small_change() -> ChangeCommand {
    ChangeCommand {
        id: None,
        action: "insert".to_string(),
        start: Pos { row: 0, column: 0 },
        end: Pos { row: 0, column: 0 },
        lines: vec!["hi".to_string()],
    }
}

#[test]
fn first_login_sends_nothing() {
    let mut app = App::new();
    let out = app.login(1, &login("alice", "s1"), 10);
    assert!(out.is_empty());
    assert_eq!(app.get_session(1), "s1");
    assert_eq!(app.get_username(1), "alice");
}

#[test]
fn second_login_announces_both_ways_and_petitions() {
    let mut app = App::new();
    app.login(1, &login("alice", "s1"), 10);
    let out = app.login(2, &login("bob", "s1"), 11);
    assert_eq!(out.len(), 3);
    // the pre-existing member learns of the joiner
    assert_eq!(out[0].to, 1);
    assert_eq!(out[0].event.event, "add_user");
    assert_eq!(out[0].event.username, "bob");
    let d0 = decode_user(&out[0].event.data).unwrap();
    assert_eq!(d0.username, "bob");
    // the joiner learns of the pre-existing member
    assert_eq!(out[1].to, 2);
    assert_eq!(out[1].event.event, "add_user");
    let d1 = decode_user(&out[1].event.data).unwrap();
    assert_eq!(d1.username, "alice");
    // the petition goes to the only existing member
    assert_eq!(out[2].to, 1);
    assert_eq!(out[2].event.event, "send_value");
    assert_eq!(out[2].event.data, "");
    assert_eq!(out[2].event.ts, 11);
}

#[test]
fn petition_goes_to_earliest_joiner_only() {
    let mut app = App::new();
    app.login(1, &login("alice", "s1"), 1);
    app.login(2, &login("bob", "s1"), 2);
    let out = app.login(3, &login("carol", "s1"), 3);
    let petitions: Vec<&Outbound> =
        out.iter().filter(|o| o.event.event == "send_value").collect();
    assert_eq!(petitions.len(), 1);
    assert_eq!(petitions[0].to, 1);
}

#[test]
fn invalid_login_draws_error_and_joins_nothing() {
    let mut app = App::new();
    for (u, s) in [
        ("", "s1"),
        ("alice", ""),
        ("abcdefghijklmnopqrstuvwxy", "s1"),  // 25 code units
        ("alice", "abcdefghijklmnopqrstuvwxy"),
    ] {
        let out = app.login(1, &login(u, s), 5);
        assert_eq!(out.len(), 1);
        assert_eq!(out[0].to, 1);
        assert_eq!(out[0].event.event, "error");
        let msg = decode_error(&out[0].event.data).unwrap().msg;
        assert_eq!(msg, "Values received exceed max length or empty");
        assert_eq!(app.get_session(1), "");
    }
}

#[test]
fn invalid_login_draws_error_even_when_already_joined() {
    let mut app = App::new();
    app.login(1, &login("alice", "s1"), 1);
    let out = app.login(1, &login("", "s1"), 2);
    assert_eq!(out.len(), 1);
    assert_eq!(out[0].to, 1);
    assert_eq!(out[0].event.event, "error");
    // the membership is untouched
    assert_eq!(app.get_session(1), "s1");
    assert_eq!(app.get_username(1), "alice");
}

#[test]
fn length_is_measured_in_utf8_code_units() {
    let mut app = App::new();
    // thirteen two-byte characters: 26 code units, over the limit of 24
    let name = "ééééééééééééé";
    assert_eq!(name.chars().count(), 13);
    let out = app.login(1, &login(name, "s1"), 5);
    assert_eq!(out.len(), 1);
    assert_eq!(out[0].event.event, "error");
    // twelve two-byte characters: 24 code units, exactly at the limit
    let ok = "éééééééééééé";
    let out = app.login(1, &login(ok, "s1"), 6);
    assert!(out.is_empty());
    assert_eq!(app.get_username(1), ok);
}

#[test]
fn boundary_length_login_is_accepted() {
    let mut app = App::new();
    let name = "abcdefghijklmnopqrstuvwx";  // 24 code units
    let out = app.login(1, &login(name, "s1"), 5);
    assert!(out.is_empty());
    assert_eq!(app.get_username(1), name);
}

#[test]
fn repeated_login_is_a_no_op() {
    let mut app = App::new();
    app.login(1, &login("alice", "s1"), 1);
    let out = app.login(1, &login("alice2", "s2"), 2);
    assert!(out.is_empty());
    assert_eq!(app.get_session(1), "s1");
    assert_eq!(app.get_username(1), "alice");
}

#[test]
fn change_reaches_every_other_member_once() {
    let mut app = App::new();
    app.login(1, &login("alice", "s1"), 1);
    app.login(2, &login("bob", "s1"), 2);
    app.login(3, &login("carol", "s1"), 3);
    app.login(4, &login("dan", "other"), 4);
    let cmd = small_change();
    let out = app.change(2, &cmd, 9);
    assert_eq!(out.len(), 2);
    let expected = encode_change(&cmd);
    assert_eq!(out[0].to, 1);
    assert_eq!(out[1].to, 3);
    for o in &out {
        assert_ne!(o.to, 2);
        assert_eq!(o.event.event, "change");
        assert_eq!(o.event.username, "bob");
        assert_eq!(o.event.data, expected);
        assert_eq!(o.event.ts, 9);
    }
}

#[test]
fn change_before_login_sends_nothing() {
    let app = App::new();
    let out = app.change(7, &small_change(), 9);
    assert!(out.is_empty());
}

#[test]
fn forward_value_reaches_exactly_the_target() {
    let mut app = App::new();
    app.login(1, &login("alice", "s1"), 1);
    app.login(2, &login("bob", "s1"), 2);
    app.login(3, &login("carol", "s1"), 3);
    let cmd = ValueCommand { target: "carol".to_string(), text: "doc text".to_string() };
    let out = app.forward_value(1, &cmd, 9);
    assert_eq!(out.len(), 1);
    assert_eq!(out[0].to, 3);
    assert_eq!(out[0].event.event, "set_value");
    assert_eq!(out[0].event.username, "alice");
    let payload = collab_relay::codec::decode_value(&out[0].event.data).unwrap();
    assert_eq!(payload.target, "alice");
    assert_eq!(payload.text, "doc text");
}

#[test]
fn forward_value_reaches_every_member_under_the_target_name() {
    let mut app = App::new();
    app.login(1, &login("alice", "s1"), 1);
    app.login(2, &login("bob", "s1"), 2);
    app.login(3, &login("bob", "s1"), 3);
    let cmd = ValueCommand { target: "bob".to_string(), text: "t".to_string() };
    let out = app.forward_value(1, &cmd, 9);
    assert_eq!(out.len(), 2);
    assert_eq!(out[0].to, 2);
    assert_eq!(out[1].to, 3);
}

#[test]
fn forward_value_with_no_match_is_a_no_op() {
    let mut app = App::new();
    app.login(1, &login("alice", "s1"), 1);
    app.login(2, &login("bob", "s1"), 2);
    let cmd = ValueCommand { target: "nobody".to_string(), text: "t".to_string() };
    let out = app.forward_value(1, &cmd, 9);
    assert!(out.is_empty());
}

#[test]
fn disconnect_announces_to_remaining_members() {
    let mut app = App::new();
    app.login(1, &login("alice", "s1"), 1);
    app.login(2, &login("bob", "s1"), 2);
    app.login(3, &login("carol", "s1"), 3);
    let out = app.remove(2, 9);
    assert_eq!(out.len(), 2);
    assert_eq!(out[0].to, 1);
    assert_eq!(out[1].to, 3);
    for o in &out {
        assert_eq!(o.event.event, "remove_user");
        assert_eq!(o.event.username, "bob");
        assert_eq!(decode_user(&o.event.data).unwrap().username, "bob");
    }
    assert_eq!(app.get_session(2), "");
}

#[test]
fn disconnect_before_login_is_silent() {
    let mut app = App::new();
    app.login(1, &login("alice", "s1"), 1);
    let out = app.remove(9, 5);
    assert!(out.is_empty());
    assert_eq!(app.get_session(1), "s1");
}

#[test]
fn disconnect_twice_announces_once() {
    let mut app = App::new();
    app.login(1, &login("alice", "s1"), 1);
    app.login(2, &login("bob", "s1"), 2);
    let first = app.remove(2, 5);
    assert_eq!(first.len(), 1);
    let second = app.remove(2, 6);
    assert!(second.is_empty());
}

#[test]
fn member_count_follows_logins_and_disconnects() {
    let mut app = App::new();
    app.login(1, &login("alice", "s1"), 1);
    app.login(2, &login("bob", "s1"), 2);
    app.login(3, &login("carol", "s1"), 3);
    assert_eq!(app.get_others(1).len(), 2);
    app.remove(2, 4);
    assert_eq!(app.get_others(1).len(), 1);
    app.login(4, &login("dan", "s1"), 5);
    // join order is preserved: carol joined before dan
    let others = app.get_others(1);
    assert_eq!(others.len(), 2);
    assert_eq!(others[0].username, "carol");
    assert_eq!(others[1].username, "dan");
}

#[test]
fn handle_text_ignores_undecodable_envelope() {
    let mut app = App::new();
    assert!(app.handle_text(1, "garbage", 1).is_empty());
    assert!(app.handle_text(1, "", 1).is_empty());
}

#[test]
fn handle_text_ignores_unknown_event_kind() {
    let mut app = App::new();
    let e = Event {
        username: "a".to_string(),
        event: "ping".to_string(),
        data: String::new(),
        ts: 1,
    };
    assert!(app.handle_text(1, &encode_event(&e), 1).is_empty());
}

#[test]
fn handle_text_reports_malformed_payload() {
    let mut app = App::new();
    let e = Event {
        username: "al".to_string(),
        event: "login".to_string(),
        data: "not a login".to_string(),
        ts: 1,
    };
    let out = app.handle_text(1, &encode_event(&e), 1);
    assert_eq!(out.len(), 1);
    assert_eq!(out[0].to, 1);
    assert_eq!(out[0].event.event, "error");
    let msg = decode_error(&out[0].event.data).unwrap().msg;
    assert_eq!(msg, "Malformed command payload");
    assert_eq!(app.get_session(1), "");
}

fn wire_login(u: &str, s: &str, ts: u64) -> String {
    let data = collab_relay::codec::encode_login(&login(u, s));
    encode_event(&Event { username: u.to_string(), event: "login".to_string(), data, ts })
}

#[test]
fn two_peer_session_runs_the_whole_protocol() {
    // connections A (1) and B (2) join "s1" in order; A edits; B leaves
    let mut app = App::new();

    let out = app.handle_text(1, &wire_login("A", "s1", 10), 10);
    assert!(out.is_empty());

    let out = app.handle_text(2, &wire_login("B", "s1", 11), 11);
    // A learns of B exactly once
    let to_a: Vec<_> = out.iter().filter(|o| o.to == 1 && o.event.event == "add_user").collect();
    assert_eq!(to_a.len(), 1);
    assert_eq!(decode_user(&to_a[0].event.data).unwrap().username, "B");
    // B learns of A exactly once
    let to_b: Vec<_> = out.iter().filter(|o| o.to == 2 && o.event.event == "add_user").collect();
    assert_eq!(to_b.len(), 1);
    assert_eq!(decode_user(&to_b[0].event.data).unwrap().username, "A");
    // the petition goes to A, the sole pre-existing member, and only to A
    let pets: Vec<_> = out.iter().filter(|o| o.event.event == "send_value").collect();
    assert_eq!(pets.len(), 1);
    assert_eq!(pets[0].to, 1);

    // A broadcasts an edit; B receives exactly one copy, A none
    let cmd = small_change();
    let data = encode_change(&cmd);
    let frame = encode_event(&Event {
        username: "A".to_string(),
        event: "change".to_string(),
        data: data.clone(),
        ts: 12,
    });
    let out = app.handle_text(1, &frame, 12);
    assert_eq!(out.len(), 1);
    assert_eq!(out[0].to, 2);
    assert_eq!(out[0].event.event, "change");
    assert_eq!(out[0].event.username, "A");
    let echoed = decode_change(&out[0].event.data).unwrap();
    assert_eq!(echoed.action, "insert");
    assert_eq!(echoed.lines, vec!["hi".to_string()]);

    // B disconnects; A receives exactly one remove_user for B
    let out = app.remove(2, 13);
    assert_eq!(out.len(), 1);
    assert_eq!(out[0].to, 1);
    assert_eq!(out[0].event.event, "remove_user");
    assert_eq!(out[0].event.username, "B");
}
