use sway_layout::proc::{
    find_spawn_metadata, has_spawn_marker, next_to_read, parse_cmdline, parse_ppid, parse_spawn_args,
    ProcInfo,
};

fn cmdline(args: &[&str]) -> Vec<u8> {
    let mut v = Vec::new();
    for a in args {
        v.extend_from_slice(a.as_bytes());
        v.push(0);
    }
    v
}

fn strings(args: &[&str]) -> Vec<String> {
    args.iter().map(|a| a.to_string()).collect()
}

fn proc_entry(pid: u32, args: &[&str], ppid: u32) -> ProcInfo {
    ProcInfo {
        pid,
        cmdline: Some(cmdline(args)),
        stat: Some(format!("{pid} (x) S {ppid} {pid} {pid} 0 -1")),
    }
}

#[test]
fn cmdline_splits_on_nul() {
    assert_eq!(
        parse_cmdline(&cmdline(&["/usr/bin/sway-layout", "spawn", "1", "0", "foot"])),
        strings(&["/usr/bin/sway-layout", "spawn", "1", "0", "foot"])
    );
    assert_eq!(parse_cmdline(b"a\0\0b\0"), strings(&["a", "", "b"]));
    assert_eq!(
        parse_cmdline(&cmdline(&["sway-layout", "spawn", "1", "", "foot"])),
        strings(&["sway-layout", "spawn", "1", "", "foot"])
    );
    assert_eq!(parse_cmdline(b"tail"), strings(&["tail"]));
    assert!(parse_cmdline(b"").is_empty());
}

#[test]
fn cmdline_invalid_utf8_is_replaced() {
    assert_eq!(parse_cmdline(b"ab\xffc\0"), vec!["ab\u{fffd}c".to_string()]);
    assert_eq!(parse_cmdline("h\u{e9}\0".as_bytes()), vec!["h\u{e9}".to_string()]);
}

#[test]
fn spawn_marker_needs_both_parts() {
    assert!(has_spawn_marker(&strings(&["/home/u/.local/bin/sway-layout", "spawn", "1", "0"])));
    assert!(!has_spawn_marker(&strings(&["sway-layout", "run", "dev"])));
    assert!(!has_spawn_marker(&strings(&["foot", "spawn"])));
    assert!(!has_spawn_marker(&strings(&[])));
}

#[test]
fn spawn_args_follow_first_spawn() {
    assert_eq!(
        parse_spawn_args(&strings(&["sway-layout", "spawn", "2", "1_0", "foot"])),
        Some(("2".to_string(), "1_0".to_string()))
    );
    assert_eq!(
        parse_spawn_args(&strings(&["x", "spawn", "spawn", "3"])),
        Some(("spawn".to_string(), "3".to_string()))
    );
    assert_eq!(parse_spawn_args(&strings(&["sway-layout", "spawn", "2"])), None);
    assert_eq!(parse_spawn_args(&strings(&["sway-layout"])), None);
}

#[test]
fn parent_pid_from_stat() {
    assert_eq!(parse_ppid("1234 (bash) S 99 1234 1234 0"), Some(99));
    assert_eq!(parse_ppid("77 (we)ird (name)) R  5 1"), Some(5));
    assert_eq!(parse_ppid("77 (x) R +8 1"), Some(8));
    assert_eq!(parse_ppid("77 (x) R"), None);
    assert_eq!(parse_ppid("77 x R 5"), None);
    assert_eq!(parse_ppid("77 (x) R -1"), None);
}

#[test]
fn metadata_found_on_ancestor() {
    let procs = vec![
        proc_entry(500, &["foot"], 400),
        proc_entry(400, &["/bin/sh", "-lc", "exec foot"], 300),
        proc_entry(300, &["/usr/bin/sway-layout", "spawn", "2", "1_0", "foot"], 1),
    ];
    assert_eq!(
        find_spawn_metadata(500, &procs),
        Some(("2".to_string(), "1_0".to_string()))
    );
}

#[test]
fn metadata_on_the_window_process_itself() {
    let procs = vec![proc_entry(42, &["sway-layout", "spawn", "1", "0", "x"], 1)];
    assert_eq!(find_spawn_metadata(42, &procs), Some(("1".to_string(), "0".to_string())));
}

#[test]
fn metadata_absent_for_outside_windows() {
    let procs = vec![proc_entry(500, &["firefox"], 1)];
    assert_eq!(find_spawn_metadata(500, &procs), None);
    assert_eq!(find_spawn_metadata(1, &procs), None);
    assert_eq!(find_spawn_metadata(0, &procs), None);
    let unreadable = vec![ProcInfo { pid: 9, cmdline: None, stat: None }];
    assert_eq!(find_spawn_metadata(9, &unreadable), None);
    assert_eq!(find_spawn_metadata(12345, &procs), None);
}

#[test]
fn metadata_walk_stops_on_cycles() {
    let procs = vec![proc_entry(10, &["a"], 11), proc_entry(11, &["b"], 10)];
    assert_eq!(find_spawn_metadata(10, &procs), None);
}

#[test]
fn pid_is_read_as_32_bits() {
    let procs = vec![proc_entry(7, &["sway-layout", "spawn", "4", "2", "x"], 1)];
    assert_eq!(
        find_spawn_metadata((1i64 << 32) + 7, &procs),
        Some(("4".to_string(), "2".to_string()))
    );
}

#[test]
fn root_app_position_is_recovered() {
    let procs = vec![
        proc_entry(40, &["foot"], 30),
        proc_entry(30, &["/usr/bin/sway-layout", "spawn", "1", "", "foot"], 1),
    ];
    assert_eq!(find_spawn_metadata(40, &procs), Some(("1".to_string(), "".to_string())));
}

#[test]
fn records_read_one_ancestor_at_a_time() {
    let table = vec![
        proc_entry(40, &["foot"], 30),
        proc_entry(30, &["sh", "-lc", "exec foot"], 20),
        proc_entry(20, &["/usr/bin/sway-layout", "spawn", "2", "1_0", "foot"], 1),
        proc_entry(99, &["other"], 1),
    ];
    let mut procs: Vec<ProcInfo> = Vec::new();
    let mut order = Vec::new();
    while let Some(next) = next_to_read(40, &procs) {
        order.push(next);
        let rec = table.iter().find(|p| p.pid == next).unwrap();
        procs.push(ProcInfo { pid: rec.pid, cmdline: rec.cmdline.clone(), stat: rec.stat.clone() });
    }
    assert_eq!(order, vec![40, 30, 20]);
    assert_eq!(find_spawn_metadata(40, &procs), find_spawn_metadata(40, &table));
    assert_eq!(find_spawn_metadata(40, &procs), Some(("2".to_string(), "1_0".to_string())));
    assert_eq!(next_to_read(1, &[]), None);
}
