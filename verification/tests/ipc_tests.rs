use sway_layout::ipc::{
    command_outcome, encode_message, focused_workspace, payload_length, subscription_payload,
    sway_event_of, window_event_of, workspace_names, CommandOutcome, SwayEvent, HEADER_LEN,
};
use sway_layout::json::{Json, JsonNumber};

fn s(x: &str) -> Json {
    Json::Str(x.to_string())
}

fn obj(members: Vec<(&str, Json)>) -> Json {
    Json::Object(members.into_iter().map(|(k, v)| (k.to_string(), v)).collect())
}

fn num(n: i64) -> Json {
    if n >= 0 {
        Json::Number(JsonNumber::PosInt(n as u64))
    } else {
        Json::Number(JsonNumber::NegInt(n))
    }
}

#[test]
fn message_framing() {
    let buf = encode_message(0, b"workspace 1");
    assert_eq!(&buf[..6], b"i3-ipc");
    assert_eq!(&buf[6..10], &[11, 0, 0, 0]);
    assert_eq!(&buf[10..14], &[0, 0, 0, 0]);
    assert_eq!(&buf[14..], b"workspace 1");
    let buf = encode_message(0x0102_0304, &[7u8; 300]);
    assert_eq!(&buf[6..10], &[44, 1, 0, 0]);
    assert_eq!(&buf[10..14], &[4, 3, 2, 1]);
    assert_eq!(buf.len(), 314);
}

#[test]
fn header_length_round_trip() {
    let payload = vec![1u8; 70000];
    let buf = encode_message(4, &payload);
    let mut header = [0u8; HEADER_LEN];
    header.copy_from_slice(&buf[..HEADER_LEN]);
    assert_eq!(payload_length(&header), 70000);
    let header = [0u8, 0, 0, 0, 0, 0, 0xff, 0xff, 0xff, 0xff, 0, 0, 0, 0];
    assert_eq!(payload_length(&header), u32::MAX);
}

#[test]
fn command_replies() {
    let ok = obj(vec![("success", Json::Bool(true))]);
    let bad = obj(vec![("success", Json::Bool(false)), ("error", s("nope"))]);
    assert_eq!(
        command_outcome(&Json::Array(vec![obj(vec![("success", Json::Bool(true))])])),
        CommandOutcome::Succeeded
    );
    assert_eq!(command_outcome(&Json::Array(vec![])), CommandOutcome::Succeeded);
    assert_eq!(
        command_outcome(&Json::Array(vec![ok, bad, obj(vec![])])),
        CommandOutcome::Failed { index: 1 }
    );
    assert_eq!(
        command_outcome(&Json::Array(vec![obj(vec![("success", s("true"))])])),
        CommandOutcome::Failed { index: 0 }
    );
    assert_eq!(command_outcome(&obj(vec![])), CommandOutcome::Malformed);
}

#[test]
fn workspace_list_replies() {
    let reply = Json::Array(vec![
        obj(vec![("name", s("1")), ("focused", Json::Bool(false))]),
        obj(vec![("num", num(5))]),
        obj(vec![("name", s("web")), ("focused", Json::Bool(true))]),
    ]);
    assert_eq!(workspace_names(&reply), Some(vec!["1".to_string(), "web".to_string()]));
    assert_eq!(focused_workspace(&reply), Some(Some("web".to_string())));
    let none_focused = Json::Array(vec![obj(vec![("name", s("1"))])]);
    assert_eq!(focused_workspace(&none_focused), Some(None));
    assert_eq!(workspace_names(&Json::Null), None);
    assert_eq!(focused_workspace(&s("x")), None);
}

#[test]
fn window_events() {
    let ev = obj(vec![
        ("change", s("new")),
        ("container", obj(vec![("id", num(42)), ("pid", num(1234))])),
    ]);
    let w = window_event_of(&ev).unwrap();
    assert_eq!((w.change.as_str(), w.con_id, w.pid), ("new", 42, 1234));
    let no_id = obj(vec![("change", s("new")), ("container", obj(vec![("pid", num(3))]))]);
    assert!(window_event_of(&no_id).is_none());
    let no_change = obj(vec![("container", obj(vec![("id", num(-7))]))]);
    let w = window_event_of(&no_change).unwrap();
    assert_eq!((w.change.as_str(), w.con_id, w.pid), ("", -7, 0));
    let huge = obj(vec![("container", obj(vec![("id", Json::Number(JsonNumber::PosInt(u64::MAX)))]))]);
    assert!(window_event_of(&huge).is_none());
}

#[test]
fn subscription_events() {
    let focus = obj(vec![("change", s("focus")), ("current", obj(vec![("name", s("3"))]))]);
    match sway_event_of(&focus) {
        Some(SwayEvent::Workspace { change, name }) => {
            assert_eq!(change, "focus");
            assert_eq!(name, "3");
        }
        _ => panic!("expected a workspace event"),
    }
    let win = obj(vec![("change", s("new")), ("container", obj(vec![("id", num(9))]))]);
    assert!(matches!(sway_event_of(&win), Some(SwayEvent::Window(_))));
    let zero = obj(vec![("change", s("new")), ("container", obj(vec![("id", num(0))])), ("current", obj(vec![("name", s("3"))]))]);
    assert!(sway_event_of(&zero).is_none());
    assert!(sway_event_of(&obj(vec![("change", s("reload"))])).is_none());
}

#[test]
fn subscription_payload_is_json_list() {
    let types = vec!["window".to_string(), "workspace".to_string()];
    assert_eq!(subscription_payload(&types).ok().unwrap(), "[\"window\",\"workspace\"]");
    let quoted = vec!["a\"b".to_string()];
    assert_eq!(subscription_payload(&quoted).ok().unwrap(), "[\"a\\\"b\"]");
}

#[test]
fn subscription_payload_escapes_like_json() {
    let names = vec!["a\"b".to_string(), "x\u{1}".to_string(), "t\tn\n\\".to_string(), "é".to_string()];
    assert_eq!(
        subscription_payload(&names).ok().unwrap(),
        "[\"a\\\"b\",\"x\\u0001\",\"t\\tn\\n\\\\\",\"é\"]"
    );
    assert_eq!(subscription_payload(&vec![]).ok().unwrap(), "[]");
}
