use sway_layout::config::{
    build_layout_tree, collect_apps, parse_profile, parse_startup, AppInfo, ConfigError, Layout,
    LayoutNode, ProfileError, StartupError,
};
use sway_layout::json::{Json, JsonNumber};

fn s(x: &str) -> Json {
    Json::Str(x.to_string())
}

fn arr(items: Vec<Json>) -> Json {
    Json::Array(items)
}

fn obj(members: Vec<(&str, Json)>) -> Json {
    Json::Object(members.into_iter().map(|(k, v)| (k.to_string(), v)).collect())
}

fn app_of(n: &LayoutNode) -> (String, String) {
    match n {
        LayoutNode::App { path, cmd } => (path.clone(), cmd.clone()),
        _ => panic!("expected an app"),
    }
}

#[test]
fn layout_names_round_trip() {
    for l in [Layout::SplitH, Layout::SplitV, Layout::Tabbed, Layout::Stacking] {
        assert_eq!(Layout::from_str(l.as_str()), Some(l));
    }
    assert_eq!(Layout::SplitH.as_str(), "splith");
    assert_eq!(Layout::SplitV.as_str(), "splitv");
    assert_eq!(Layout::Tabbed.as_str(), "tabbed");
    assert_eq!(Layout::Stacking.as_str(), "stacking");
    assert_eq!(Layout::from_str("horizontal"), None);
    assert_eq!(Layout::from_str("Splith"), None);
}

#[test]
fn side_by_side_definition() {
    let def = obj(vec![("splith", arr(vec![s("code --new-window"), s("foot")]))]);
    let tree = build_layout_tree(&def).ok().unwrap();
    match &tree {
        LayoutNode::Container { path, layout, children } => {
            assert_eq!(path, "");
            assert_eq!(*layout, Layout::SplitH);
            assert_eq!(children.len(), 2);
            assert_eq!(app_of(&children[0]), ("0".to_string(), "code --new-window".to_string()));
            assert_eq!(app_of(&children[1]), ("1".to_string(), "foot".to_string()));
        }
        _ => panic!("expected a container"),
    }
}

#[test]
fn nested_definition_paths() {
    let def = obj(vec![(
        "splith",
        arr(vec![
            s("firefox"),
            obj(vec![("splitv", arr(vec![s("foot"), s("foot -e htop")]))]),
        ]),
    )]);
    let tree = build_layout_tree(&def).ok().unwrap();
    let LayoutNode::Container { children, .. } = &tree else { panic!() };
    assert_eq!(app_of(&children[0]).0, "0");
    match &children[1] {
        LayoutNode::Container { path, layout, children } => {
            assert_eq!(path, "1");
            assert_eq!(*layout, Layout::SplitV);
            assert_eq!(app_of(&children[0]), ("1_0".to_string(), "foot".to_string()));
            assert_eq!(app_of(&children[1]), ("1_1".to_string(), "foot -e htop".to_string()));
        }
        _ => panic!("expected a container"),
    }
}

#[test]
fn eleventh_child_path() {
    let items: Vec<Json> = (0..12).map(|i| s(&format!("app{i}"))).collect();
    let def = obj(vec![("tabbed", arr(vec![obj(vec![("stacking", arr(items))])]))]);
    let tree = build_layout_tree(&def).ok().unwrap();
    let LayoutNode::Container { children, .. } = &tree else { panic!() };
    let LayoutNode::Container { children: inner, layout, .. } = &children[0] else { panic!() };
    assert_eq!(*layout, Layout::Stacking);
    assert_eq!(app_of(&inner[11]), ("0_11".to_string(), "app11".to_string()));
}

#[test]
fn string_definition_is_an_app() {
    let tree = build_layout_tree(&s("foot")).ok().unwrap();
    assert_eq!(app_of(&tree), (String::new(), "foot".to_string()));
}

#[test]
fn multiple_layout_keys_rejected() {
    let def = obj(vec![("splith", arr(vec![])), ("splitv", arr(vec![]))]);
    match build_layout_tree(&def) {
        Err(ConfigError::MultipleLayoutKeys { path }) => assert_eq!(path, ""),
        _ => panic!("expected MultipleLayoutKeys"),
    }
}

#[test]
fn unknown_key_rejected_at_nested_path() {
    let def = obj(vec![("splith", arr(vec![s("a"), obj(vec![("grid", arr(vec![]))])]))]);
    match build_layout_tree(&def) {
        Err(ConfigError::UnknownKey { path, key }) => {
            assert_eq!(path, "1");
            assert_eq!(key, "grid");
        }
        _ => panic!("expected UnknownKey"),
    }
}

#[test]
fn first_offending_key_is_reported() {
    let def = obj(vec![("splith", arr(vec![])), ("bogus", arr(vec![])), ("splitv", arr(vec![]))]);
    match build_layout_tree(&def) {
        Err(ConfigError::UnknownKey { key, .. }) => assert_eq!(key, "bogus"),
        _ => panic!("expected UnknownKey"),
    }
}

#[test]
fn layout_value_must_be_an_array() {
    match build_layout_tree(&obj(vec![("splith", s("foot"))])) {
        Err(ConfigError::NotAnArray { path }) => assert_eq!(path, ""),
        _ => panic!("expected NotAnArray"),
    }
    match build_layout_tree(&obj(vec![])) {
        Err(ConfigError::NotAnArray { path }) => assert_eq!(path, ""),
        _ => panic!("expected NotAnArray"),
    }
}

#[test]
fn other_values_rejected() {
    let def = obj(vec![("splitv", arr(vec![s("a"), Json::Number(JsonNumber::PosInt(3))]))]);
    match build_layout_tree(&def) {
        Err(ConfigError::UnexpectedValue { path, value }) => {
            assert_eq!(path, "1");
            assert!(matches!(value, Json::Number(JsonNumber::PosInt(3))));
        }
        _ => panic!("expected UnexpectedValue"),
    }
    assert!(matches!(
        build_layout_tree(&Json::Null),
        Err(ConfigError::UnexpectedValue { .. })
    ));
}

#[test]
fn collect_apps_in_order_skipping_empty() {
    let def = obj(vec![(
        "splith",
        arr(vec![s("firefox"), s(""), obj(vec![("splitv", arr(vec![s("foot")]))])]),
    )]);
    let tree = build_layout_tree(&def).ok().unwrap();
    let mut apps: Vec<AppInfo> = vec![AppInfo {
        cmd: "earlier".to_string(),
        workspace: "9".to_string(),
        path: "0".to_string(),
    }];
    collect_apps(&tree, "2", &mut apps);
    let got: Vec<(String, String, String)> = apps
        .iter()
        .map(|a| (a.cmd.clone(), a.workspace.clone(), a.path.clone()))
        .collect();
    assert_eq!(
        got,
        vec![
            ("earlier".to_string(), "9".to_string(), "0".to_string()),
            ("firefox".to_string(), "2".to_string(), "0".to_string()),
            ("foot".to_string(), "2".to_string(), "2_0".to_string()),
        ]
    );
}

#[test]
fn startup_entries_by_name_or_object() {
    let v = arr(vec![
        s("dev"),
        obj(vec![("name", s("mail")), ("shortcut", s("$mod+Shift+m"))]),
        obj(vec![("name", s("chat")), ("shortcut", Json::Null)]),
    ]);
    let entries = parse_startup(&v).ok().unwrap();
    assert_eq!(entries.len(), 3);
    assert_eq!(entries[0].name, "dev");
    assert_eq!(entries[0].shortcut, None);
    assert_eq!(entries[1].name, "mail");
    assert_eq!(entries[1].shortcut.as_deref(), Some("$mod+Shift+m"));
    assert_eq!(entries[2].shortcut, None);
}

#[test]
fn startup_errors() {
    assert_eq!(parse_startup(&s("dev")).err(), Some(StartupError::NotAList));
    let v = arr(vec![s("dev"), Json::Bool(true), s("x")]);
    assert_eq!(parse_startup(&v).err(), Some(StartupError::BadEntry { index: 1 }));
    let v = arr(vec![obj(vec![("name", s("a")), ("shortcut", Json::Bool(false))])]);
    assert_eq!(parse_startup(&v).err(), Some(StartupError::BadEntry { index: 0 }));
}

#[test]
fn profile_with_shortcut_and_workspaces() {
    let ws1 = obj(vec![("splith", arr(vec![s("code --new-window"), s("foot")]))]);
    let v = obj(vec![
        ("shortcut", s("$mod+Shift+d")),
        ("workspaces", obj(vec![("1", ws1), ("2", s("thunderbird"))])),
    ]);
    let p = parse_profile(&v).unwrap().ok().unwrap();
    assert_eq!(p.shortcut.as_deref(), Some("$mod+Shift+d"));
    let names: Vec<&str> = p.workspaces.iter().map(|(n, _)| n.as_str()).collect();
    assert_eq!(names, vec!["1", "2"]);
    assert!(matches!(&p.workspaces[1].1, Json::Str(c) if c == "thunderbird"));
}

#[test]
fn profile_without_shortcut() {
    let v = obj(vec![("workspaces", obj(vec![])), ("note", Json::Bool(true))]);
    let p = parse_profile(&v).unwrap().ok().unwrap();
    assert_eq!(p.shortcut, None);
    assert!(p.workspaces.is_empty());
    let v = obj(vec![("shortcut", Json::Null), ("workspaces", obj(vec![("3", s("foot"))]))]);
    assert_eq!(parse_profile(&v).unwrap().ok().unwrap().shortcut, None);
}

#[test]
fn single_definition_is_no_profile() {
    assert!(parse_profile(&obj(vec![("splith", arr(vec![s("foot")]))])).is_none());
    assert!(parse_profile(&s("foot")).is_none());
}

#[test]
fn profile_errors() {
    let v = obj(vec![("workspaces", arr(vec![s("foot")]))]);
    assert_eq!(parse_profile(&v).unwrap().err(), Some(ProfileError::WorkspacesNotAnObject));
    let v = obj(vec![("shortcut", Json::Bool(true)), ("workspaces", obj(vec![]))]);
    assert_eq!(parse_profile(&v).unwrap().err(), Some(ProfileError::BadShortcut));
}
