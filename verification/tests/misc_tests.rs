use sway_layout::config::{AppInfo, StartupEntry};
use sway_layout::shortcuts::{binding_lines, bindings_file, run_binding_lines};
use sway_layout::spawn::{shell_command, spawn_arguments};

fn strings(xs: &[&str]) -> Vec<String> {
    xs.iter().map(|x| x.to_string()).collect()
}

#[test]
fn bindings_for_entries_with_shortcuts() {
    let entries = vec![
        StartupEntry { name: "dev".to_string(), shortcut: Some("$mod+Shift+d".to_string()) },
        StartupEntry { name: "chat".to_string(), shortcut: None },
        StartupEntry { name: "mail".to_string(), shortcut: Some("$mod+Shift+m".to_string()) },
    ];
    let lines = binding_lines(&entries);
    assert_eq!(
        lines,
        strings(&["bindsym $mod+Shift+d workspace 1", "bindsym $mod+Shift+m workspace 3"])
    );
    assert_eq!(
        bindings_file(&lines),
        "bindsym $mod+Shift+d workspace 1\nbindsym $mod+Shift+m workspace 3\n"
    );
    assert_eq!(bindings_file(&[]), "\n");
}

#[test]
fn wrapper_shell_command() {
    assert_eq!(shell_command(&strings(&["foot", "-e", "htop"])), "exec foot -e htop");
    assert_eq!(shell_command(&strings(&["code --new-window"])), "exec code --new-window");
    assert_eq!(shell_command(&[]), "exec ");
}

#[test]
fn wrapper_arguments() {
    let app = AppInfo { cmd: "foot".to_string(), workspace: "2".to_string(), path: "1_0".to_string() };
    assert_eq!(spawn_arguments(&app), strings(&["spawn", "2", "1_0", "foot"]));
}

#[test]
fn bindings_for_profiles_with_shortcuts() {
    let profiles = vec![
        ("dev".to_string(), Some("$mod+Shift+d".to_string())),
        ("notes".to_string(), None),
        ("work".to_string(), Some("$mod+Shift+w".to_string())),
    ];
    assert_eq!(
        run_binding_lines(&profiles),
        strings(&[
            "bindsym $mod+Shift+d exec sway-layout run dev",
            "bindsym $mod+Shift+w exec sway-layout run work",
        ])
    );
    assert!(run_binding_lines(&[]).is_empty());
}
