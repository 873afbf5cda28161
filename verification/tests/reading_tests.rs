use sway_layout::config::{
    build_layout_tree, load_startup, load_workspace_def, LayoutNode, StartupError,
};
use sway_layout::ipc::{
    command_reply, reply_focused_workspace, reply_workspace_names, sway_event_message,
    window_event_message, CommandOutcome, SwayEvent,
};
use sway_layout::json::{Json, JsonNumber};
use sway_layout::layout::{
    occupied_in_reply, startup_workspace, wait_end, Plan, WaitDeadlines, WaitEnd, WindowCollector,
};

fn strings(xs: &[&str]) -> Vec<String> {
    xs.iter().map(|x| x.to_string()).collect()
}

#[test]
fn definition_file_bytes() {
    let def = load_workspace_def(br#"{"splith": ["code --new-window", "foot"]}"#).unwrap();
    match build_layout_tree(&def).ok().unwrap() {
        LayoutNode::Container { children, .. } => assert_eq!(children.len(), 2),
        _ => panic!("expected a container"),
    }
    assert!(load_workspace_def(b"{\"splith\": [").is_none());
    assert!(load_workspace_def(b"").is_none());
}

#[test]
fn json_numbers_and_members() {
    let v = load_workspace_def(br#"{"b": [7, -3, 1.5, 18446744073709551615], "a": null}"#).unwrap();
    match v {
        Json::Object(members) => {
            let keys: Vec<&str> = members.iter().map(|(k, _)| k.as_str()).collect();
            assert_eq!(keys, vec!["a", "b"]);
            match &members[1].1 {
                Json::Array(items) => {
                    assert!(matches!(items[0], Json::Number(JsonNumber::PosInt(7))));
                    assert!(matches!(items[1], Json::Number(JsonNumber::NegInt(-3))));
                    assert!(matches!(&items[2], Json::Number(JsonNumber::Float(t)) if t == "1.5"));
                    assert!(matches!(items[3], Json::Number(JsonNumber::PosInt(u64::MAX))));
                }
                _ => panic!("expected an array"),
            }
        }
        _ => panic!("expected an object"),
    }
}

#[test]
fn startup_file_bytes() {
    let entries = load_startup(br#"["dev", {"name": "mail", "shortcut": "$mod+m"}]"#).ok().unwrap();
    assert_eq!(entries.len(), 2);
    assert_eq!(entries[1].shortcut.as_deref(), Some("$mod+m"));
    assert_eq!(load_startup(b"[dev]").err(), Some(StartupError::NotJson));
    assert_eq!(load_startup(b"{}").err(), Some(StartupError::NotAList));
    assert_eq!(load_startup(b"[1]").err(), Some(StartupError::BadEntry { index: 0 }));
}

#[test]
fn command_reply_bytes() {
    assert!(matches!(command_reply(br#"[{"success": true}]"#), (CommandOutcome::Succeeded, None)));
    match command_reply(br#"[{"success": true}, {"success": false, "error": "no such mark"}]"#) {
        (CommandOutcome::Failed { index: 1 }, Some(Json::Str(e))) => assert_eq!(e, "no such mark"),
        _ => panic!("expected the second result to fail"),
    }
    assert!(matches!(command_reply(br#"[{"success": false}]"#), (CommandOutcome::Failed { index: 0 }, None)));
    assert!(matches!(command_reply(b"not json"), (CommandOutcome::Malformed, None)));
    assert!(matches!(command_reply(br#"{"success": true}"#), (CommandOutcome::Malformed, None)));
}

#[test]
fn workspace_reply_bytes() {
    let reply = br#"[{"name": "1", "focused": false}, {"num": 3}, {"name": "mail", "focused": true}]"#;
    assert_eq!(reply_workspace_names(reply), Some(strings(&["1", "mail"])));
    assert_eq!(reply_focused_workspace(reply), Some(Some("mail".to_string())));
    assert_eq!(reply_focused_workspace(br#"[{"name": "1"}]"#), Some(None));
    assert_eq!(reply_workspace_names(b"[1,"), None);
    assert_eq!(reply_focused_workspace(b"{}"), None);
}

#[test]
fn event_message_bytes() {
    let ev = window_event_message(br#"{"change": "new", "container": {"id": 5, "pid": 77}}"#).unwrap().unwrap();
    assert_eq!((ev.change.as_str(), ev.con_id, ev.pid), ("new", 5, 77));
    assert!(window_event_message(br#"{"change": "new", "container": {"id": 0}}"#).unwrap().is_none());
    assert!(window_event_message(b"{").is_none());
    match sway_event_message(br#"{"change": "focus", "current": {"name": "2"}}"#).unwrap() {
        Some(SwayEvent::Workspace { change, name }) => assert_eq!((change.as_str(), name.as_str()), ("focus", "2")),
        _ => panic!("expected a workspace event"),
    }
    assert!(sway_event_message(b"]").is_none());
}

#[test]
fn tree_reply_bytes() {
    let tree = br#"{"type": "root", "nodes": [
        {"type": "workspace", "name": "1", "nodes": [{"app_id": "foot"}]},
        {"type": "workspace", "name": "2", "nodes": []}]}"#;
    assert_eq!(occupied_in_reply(tree), Some(strings(&["1"])));
    assert_eq!(occupied_in_reply(b"{\"nodes\""), None);
}

#[test]
fn plan_focus() {
    let plan = Plan::with_focus(&startup_workspace(0));
    assert_eq!(plan.focus_command(), Some("workspace 1".to_string()));
    let mut plan = Plan::new();
    assert_eq!(plan.focus_command(), None);
    assert!(plan.add_workspace("3", &Json::Str("foot".to_string())).is_ok());
    assert!(plan.add_workspace("4", &Json::Str("mail".to_string())).is_ok());
    assert_eq!(plan.focus_command(), Some("workspace 3".to_string()));
    plan.skip_occupied(&strings(&["3"]));
    assert_eq!(plan.focus_command(), Some("workspace 3".to_string()));
}

#[test]
fn waiting_ends() {
    let collector = WindowCollector::new(1);
    let d = WaitDeadlines::start(0);
    assert_eq!(wait_end(&collector, &d, 100), None);
    assert_eq!(wait_end(&collector, &d, 3000), Some(WaitEnd::TimedOut));
    let mut collector = WindowCollector::new(1);
    assert_eq!(collector.on_metadata(9, Some(("1".to_string(), "0".to_string()))), None);
    assert_eq!(wait_end(&collector, &d, 100), Some(WaitEnd::AllPlaced));
    assert_eq!(wait_end(&WindowCollector::new(0), &d, 0), Some(WaitEnd::AllPlaced));
}
