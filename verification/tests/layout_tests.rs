use sway_layout::config::{build_layout_tree, parse_profile, ConfigError, Layout, LayoutNode};
use sway_layout::ipc::{SwayEvent, WindowEvent};
use sway_layout::json::Json;
use sway_layout::layout::{
    arrange_workspace, first_window, next_free_workspace, occupied_workspaces, profile_names,
    root_layout, startup_workspace, window_count, windows_for, workspace_command, DaemonState,
    Placement, Plan, WaitDeadlines, WindowCollector,
};

fn s(x: &str) -> Json {
    Json::Str(x.to_string())
}

fn arr(items: Vec<Json>) -> Json {
    Json::Array(items)
}

fn obj(members: Vec<(&str, Json)>) -> Json {
    Json::Object(members.into_iter().map(|(k, v)| (k.to_string(), v)).collect())
}

fn strings(xs: &[&str]) -> Vec<String> {
    xs.iter().map(|x| x.to_string()).collect()
}

fn placed(ws: &str, path: &str, con_id: i64) -> Placement {
    Placement { workspace: ws.to_string(), path: path.to_string(), con_id }
}

fn complex_tree() -> LayoutNode {
    let def = obj(vec![(
        "splith",
        arr(vec![
            s("firefox"),
            obj(vec![("splitv", arr(vec![s("foot"), s("foot -e htop")]))]),
        ]),
    )]);
    build_layout_tree(&def).ok().unwrap()
}

#[test]
fn arrange_complex_workspace() {
    let tree = complex_tree();
    let placed = vec![placed("1", "0", 10), placed("1", "1_0", 11), placed("1", "1_1", 12)];
    let cmds = arrange_workspace("1", &tree, &placed);
    assert_eq!(
        cmds,
        strings(&[
            "workspace 1",
            "layout splith",
            "[con_id=10] scratchpad show",
            "[con_id=10] floating disable",
            "[con_id=10] mark --add _layout_1",
            "[con_id=11] scratchpad show",
            "[con_id=11] floating disable",
            "[con_id=11] move to mark _layout_1",
            "[con_id=11] mark --add _layout_1",
            "[con_id=11] splith",
            "[con_id=11] layout splitv",
            "[con_id=11] mark --add _layout_1_1",
            "[con_id=12] scratchpad show",
            "[con_id=12] floating disable",
            "[con_id=12] move to mark _layout_1_1",
            "[con_id=12] mark --add _layout_1_1",
        ])
    );
}

#[test]
fn arrange_without_windows_only_sets_layout() {
    let tree = build_layout_tree(&obj(vec![("tabbed", arr(vec![s("thunderbird")]))])).ok().unwrap();
    let placed = vec![placed("1", "0", 10)];
    assert_eq!(arrange_workspace("2", &tree, &placed), strings(&["workspace 2", "layout tabbed"]));
    let app = build_layout_tree(&s("foot")).ok().unwrap();
    assert_eq!(arrange_workspace("3", &app, &[]), strings(&["workspace 3", "layout splith"]));
}

#[test]
fn arrange_skips_containers_without_windows() {
    let tree = complex_tree();
    let placed = vec![placed("1", "0", -5), placed("1", "0", 6)];
    let cmds = arrange_workspace("1", &tree, &placed);
    assert_eq!(
        cmds,
        strings(&[
            "workspace 1",
            "layout splith",
            "[con_id=-5] scratchpad show",
            "[con_id=-5] floating disable",
            "[con_id=-5] mark --add _layout_1",
            "[con_id=6] scratchpad show",
            "[con_id=6] floating disable",
            "[con_id=6] move to mark _layout_1",
            "[con_id=6] mark --add _layout_1",
        ])
    );
}

#[test]
fn window_lookup() {
    let tree = complex_tree();
    let placed = vec![placed("1", "1_1", 12), placed("2", "1_0", 20), placed("1", "1_0", 11), placed("1", "1_0", 13)];
    assert_eq!(windows_for(&placed, "1", "1_0"), vec![11, 13]);
    assert_eq!(window_count(&placed, "1"), 3);
    assert_eq!(window_count(&placed, "3"), 0);
    let LayoutNode::Container { children, .. } = &tree else { panic!() };
    assert_eq!(first_window(&children[1], "1", &placed), Some(11));
    assert_eq!(first_window(&children[0], "1", &placed), None);
    assert_eq!(first_window(&tree, "1", &placed), Some(11));
}

#[test]
fn collector_tracks_windows() {
    let mut c = WindowCollector::new(2);
    let ev = WindowEvent { change: "new".to_string(), con_id: 42, pid: 100 };
    assert_eq!(c.on_window_event(&ev), Some("[con_id=42] move scratchpad".to_string()));
    let closed = WindowEvent { change: "close".to_string(), con_id: 42, pid: 100 };
    assert_eq!(c.on_window_event(&closed), None);
    let no_pid = WindowEvent { change: "new".to_string(), con_id: 42, pid: 0 };
    assert_eq!(c.on_window_event(&no_pid), None);
    assert_eq!(c.on_metadata(42, Some(("1".to_string(), "0".to_string()))), None);
    assert_eq!(c.count(), 1);
    assert!(!c.is_complete());
    assert_eq!(c.on_metadata(43, None), Some("[con_id=43] scratchpad show".to_string()));
    assert_eq!(c.count(), 1);
    assert_eq!(c.on_metadata(44, Some(("1".to_string(), "0".to_string()))), None);
    assert!(c.is_complete());
    let placed = c.into_placements();
    assert_eq!(windows_for(&placed, "1", "0"), vec![42, 44]);
}

#[test]
fn free_workspace_number() {
    assert_eq!(next_free_workspace(&strings(&["1", "2", "web", "4"])), 3);
    assert_eq!(next_free_workspace(&strings(&[])), 1);
    assert_eq!(next_free_workspace(&strings(&["+1", "02"])), 3);
    assert_eq!(next_free_workspace(&strings(&["0", "-1", "2"])), 1);
}

#[test]
fn profiles_listed_sorted() {
    let files = strings(&["work.json", "dev.json", "startup.json", ".json", "notes.txt", "a.b.json", "json"]);
    assert_eq!(profile_names(&files), strings(&["a.b", "dev", "work"]));
}

#[test]
fn occupied_workspace_detection() {
    let tree = obj(vec![
        ("type", s("root")),
        (
            "nodes",
            arr(vec![obj(vec![
                ("type", s("output")),
                (
                    "nodes",
                    arr(vec![
                        obj(vec![
                            ("type", s("workspace")),
                            ("name", s("1")),
                            ("nodes", arr(vec![obj(vec![("app_id", s("foot"))])])),
                        ]),
                        obj(vec![
                            ("type", s("workspace")),
                            ("name", s("2")),
                            ("nodes", arr(vec![])),
                            ("floating_nodes", arr(vec![obj(vec![("app_id", Json::Null)]), obj(vec![("app_id", s("x"))])])),
                        ]),
                        obj(vec![("type", s("workspace")), ("name", s("3")), ("nodes", arr(vec![]))]),
                    ]),
                ),
            ])]),
        ),
        ("app_id", s("stray")),
    ]);
    let mut got = occupied_workspaces(&tree);
    got.sort();
    assert_eq!(got, strings(&["1", "2"]));
}

#[test]
fn startup_plan_and_conflicts() {
    let mut plan = Plan::new();
    let ws1 = startup_workspace(0);
    let ws2 = startup_workspace(1);
    assert_eq!(ws1, "1");
    assert_eq!(ws2, "2");
    assert!(plan.add_workspace(&ws1, &obj(vec![("splith", arr(vec![s("firefox"), s("foot")]))])).is_ok());
    assert!(plan.add_workspace("x", &obj(vec![("bad", arr(vec![]))])).is_err());
    assert!(plan.add_workspace(&ws2, &obj(vec![("tabbed", arr(vec![s("mail")]))])).is_ok());
    assert_eq!(plan.workspaces.len(), 2);
    let apps: Vec<(String, String, String)> =
        plan.apps.iter().map(|a| (a.cmd.clone(), a.workspace.clone(), a.path.clone())).collect();
    assert_eq!(
        apps,
        vec![
            ("firefox".to_string(), "1".to_string(), "0".to_string()),
            ("foot".to_string(), "1".to_string(), "1".to_string()),
            ("mail".to_string(), "2".to_string(), "0".to_string()),
        ]
    );
    assert_eq!(plan.conflicts(&strings(&["2", "7"])), strings(&["2"]));
    assert!(plan.conflicts(&strings(&[])).is_empty());
}

#[test]
fn daemon_enforces_layouts() {
    assert!(DaemonState::new(&vec![None, None]).is_none());
    let mut d = DaemonState::new(&vec![Some(Layout::Tabbed), None, Some(Layout::SplitV)]).unwrap();
    d.set_current(Some("9".to_string()));
    assert_eq!(d.enforced_workspaces(), strings(&["1", "3"]));
    let new_window = SwayEvent::Window(WindowEvent { change: "new".to_string(), con_id: 5, pid: 6 });
    assert_eq!(d.on_event(&new_window), None);
    let focus3 = SwayEvent::Workspace { change: "focus".to_string(), name: "3".to_string() };
    assert_eq!(d.on_event(&focus3), Some("layout splitv".to_string()));
    assert_eq!(d.on_event(&new_window), Some("layout splitv".to_string()));
    let init1 = SwayEvent::Workspace { change: "init".to_string(), name: "1".to_string() };
    assert_eq!(d.on_event(&init1), None);
    assert_eq!(d.on_event(&new_window), Some("layout splitv".to_string()));
    let focus2 = SwayEvent::Workspace { change: "focus".to_string(), name: "2".to_string() };
    assert_eq!(d.on_event(&focus2), None);
    assert_eq!(d.on_event(&new_window), None);
    assert_eq!(d.on_event(&SwayEvent::Other), None);
}

#[test]
fn daemon_workspaces_sort_as_strings() {
    let roots: Vec<Option<Layout>> = (0..11).map(|_| Some(Layout::SplitH)).collect();
    let d = DaemonState::new(&roots).unwrap();
    assert_eq!(d.enforced_workspaces(), strings(&["1", "10", "11", "2", "3", "4", "5", "6", "7", "8", "9"]));
}

#[test]
fn root_layouts_and_commands() {
    assert_eq!(root_layout(&complex_tree()), Some(Layout::SplitH));
    assert_eq!(root_layout(&build_layout_tree(&s("foot")).ok().unwrap()), None);
    assert_eq!(workspace_command("4"), "workspace 4");
}

#[test]
fn profile_plan_spans_workspaces() {
    let v = obj(vec![(
        "workspaces",
        obj(vec![
            (
                "1",
                obj(vec![(
                    "splith",
                    arr(vec![s("firefox"), obj(vec![("splitv", arr(vec![s("foot"), s("foot -e htop")]))])]),
                )]),
            ),
            ("2", obj(vec![("tabbed", arr(vec![s("thunderbird"), s("telegram-desktop")]))])),
        ]),
    )]);
    let profile = parse_profile(&v).unwrap().ok().unwrap();
    let plan = Plan::from_profile(&profile).ok().unwrap();
    let names: Vec<&str> = plan.workspaces.iter().map(|(n, _)| n.as_str()).collect();
    assert_eq!(names, vec!["1", "2"]);
    let apps: Vec<(String, String, String)> =
        plan.apps.iter().map(|a| (a.cmd.clone(), a.workspace.clone(), a.path.clone())).collect();
    assert_eq!(
        apps,
        vec![
            ("firefox".to_string(), "1".to_string(), "0".to_string()),
            ("foot".to_string(), "1".to_string(), "1_0".to_string()),
            ("foot -e htop".to_string(), "1".to_string(), "1_1".to_string()),
            ("thunderbird".to_string(), "2".to_string(), "0".to_string()),
            ("telegram-desktop".to_string(), "2".to_string(), "1".to_string()),
        ]
    );
    assert_eq!(plan.conflicts(&strings(&["2"])), strings(&["2"]));
}

#[test]
fn profile_plan_reports_first_bad_definition() {
    let v = obj(vec![(
        "workspaces",
        obj(vec![
            ("1", s("foot")),
            ("2", obj(vec![("grid", arr(vec![]))])),
            ("3", Json::Bool(true)),
        ]),
    )]);
    let profile = parse_profile(&v).unwrap().ok().unwrap();
    match Plan::from_profile(&profile) {
        Err(ConfigError::UnknownKey { path, key }) => {
            assert_eq!(path, "");
            assert_eq!(key, "grid");
        }
        _ => panic!("expected an unknown key"),
    }
}

#[test]
fn bare_app_workspace_window_is_shown() {
    let tree = build_layout_tree(&s("foot")).ok().unwrap();
    let placed = vec![placed("2", "", 42), placed("3", "", 7)];
    assert_eq!(
        arrange_workspace("2", &tree, &placed),
        strings(&[
            "workspace 2",
            "layout splith",
            "[con_id=42] scratchpad show",
            "[con_id=42] floating disable",
        ])
    );
    assert_eq!(arrange_workspace("4", &tree, &placed), strings(&["workspace 4", "layout splith"]));
}

#[test]
fn wait_deadlines() {
    let mut d = WaitDeadlines::start(1000);
    assert_eq!(d.timeout_ms(1000), 3000);
    assert!(!d.expired(3999));
    assert!(d.expired(4000));
    d.on_tracked(3500);
    assert!(!d.expired(4000));
    assert_eq!(d.timeout_ms(4000), 2500);
    assert_eq!(d.timeout_ms(6480), 50);
    assert!(d.expired(6500));
    for t in (3500..31000).step_by(2000) {
        d.on_tracked(t);
    }
    assert_eq!(d.timeout_ms(30000), 1000);
    assert!(d.expired(31000));
    assert_eq!(WaitDeadlines::start(u64::MAX - 1).timeout_ms(u64::MAX - 1), 50);
}

#[test]
fn occupied_workspaces_are_skipped() {
    let mut plan = Plan::new();
    assert!(plan.add_workspace("1", &obj(vec![("splith", arr(vec![s("firefox"), s("foot")]))])).is_ok());
    assert!(plan.add_workspace("2", &s("thunderbird")).is_ok());
    assert!(plan.add_workspace("3", &obj(vec![("tabbed", arr(vec![s("mail")]))])).is_ok());
    plan.skip_occupied(&strings(&["2", "9"]));
    let names: Vec<&str> = plan.workspaces.iter().map(|(n, _)| n.as_str()).collect();
    assert_eq!(names, vec!["1", "3"]);
    let apps: Vec<(&str, &str)> = plan.apps.iter().map(|a| (a.cmd.as_str(), a.workspace.as_str())).collect();
    assert_eq!(apps, vec![("firefox", "1"), ("foot", "1"), ("mail", "3")]);
    plan.skip_occupied(&strings(&[]));
    assert_eq!(plan.workspaces.len(), 2);
    assert_eq!(plan.apps.len(), 3);
}
