use argus::dashboard::{
    clamp_selection, current_visible_procs, find_visible_index_by_pid, get_descendants, get_selected_pid, Confirm,
    DashAction, DashKey, Dashboard, InvestigationKey,
};
use argus::dashboard_text::{
    confirm_text, detail_panel, event_row, friendly_label, investigation_text, newest_message_rows, process_row,
    stats_line, ui_row, UiMessageLog,
};
use argus::process_events::ProcessEvent;
use argus::process_state::{family_for_name, Process, ProcessState};
use argus::process_tree::process_tree_lines;
use argus::runtime::UiMessage;
use argus::security_state::{record_contribution, set_process_score, SecurityState};
use argus::surfaces::process::show_lineage_lines;

fn proc_rec(pid: u32, name: &str, parent: u32, cpu: u32, mem: u32) -> Process {
    Process {
        pid,
        name: name.to_string(),
        cpu_percent_x100: cpu,
        memory_mb_x100: mem,
        threads: 8,
        parent_pid: parent,
        start_time: None,
    }
}

fn sample_state() -> ProcessState {
    ProcessState::from_vec(vec![
        proc_rec(1, "init", 0, 100, 1000),
        proc_rec(10, "Code.exe", 1, 5000, 12345),
        proc_rec(12, "chrome.exe", 1, 3000, 2000),
        proc_rec(11, "code.exe", 1, 1000, 3000),
        proc_rec(20, "helper", 10, 200, 500),
        proc_rec(99, "orphan", 555, 0, 100),
    ])
}

#[test]
fn families_by_name() {
    assert_eq!(family_for_name("Code.exe"), "vscode");
    assert_eq!(family_for_name("brave.exe"), "chromium");
    assert_eq!(family_for_name("MsEdgeWebView2.exe"), "webview2");
    assert_eq!(family_for_name("svchost.exe"), "svchost");
    assert_eq!(family_for_name("notepad.exe"), "notepad.exe");
}

#[test]
fn tree_groups_children_by_family() {
    let st = sample_state();
    let sec = SecurityState::new();
    let lines = process_tree_lines(&st, &sec);
    assert_eq!(
        lines,
        vec![
            "init (1)  SCORE:  0% Normal",
            "chromium (1)",
            "chrome.exe (12)  SCORE:  0% Normal",
            "vscode (2)",
            "Code.exe (10)  SCORE:  0% Normal",
            "helper (1)",
            "helper (20)  SCORE:  0% Normal",
            "code.exe (11)  SCORE:  0% Normal",
            "orphan (99)  SCORE:  0% Normal",
        ]
    );
}

#[test]
fn tree_shows_scores_and_cycles() {
    let st = ProcessState::from_vec(vec![proc_rec(0, "Idle", 0, 0, 0), proc_rec(4, "System", 0, 0, 0)]);
    let mut sec = SecurityState::new();
    set_process_score(&mut sec, 4, 100);
    let lines = process_tree_lines(&st, &sec);
    assert_eq!(
        lines,
        vec![
            "Idle (0)  SCORE:  0% Normal",
            "Idle (1)",
            "Idle (cycle)",
            "System (1)",
            "System (4)  SCORE:100% Critical",
            "System (cycle)",
        ]
    );
}

#[test]
fn descendants_depth_first() {
    let st = Some(sample_state());
    assert_eq!(get_descendants(&st, 1), vec![10, 12, 11, 20]);
    assert_eq!(get_descendants(&st, 20), Vec::<u32>::new());
    assert!(get_descendants(&None, 1).is_empty());
}

#[test]
fn visible_rows_are_busiest_first() {
    let st = Some(sample_state());
    let vis = current_visible_procs(&st);
    let pids: Vec<u32> = vis.iter().map(|p| p.pid).collect();
    assert_eq!(pids, vec![10, 12, 11, 20, 1, 99]);
    assert_eq!(get_selected_pid(&vis, 1), Some(12));
    assert_eq!(get_selected_pid(&vis, 6), None);
    assert_eq!(find_visible_index_by_pid(&vis, 20), Some(3));
    assert_eq!(find_visible_index_by_pid(&vis, 77), None);
    assert_eq!(clamp_selection(9, 6), 5);
    assert_eq!(clamp_selection(3, 0), 0);
    assert!(current_visible_procs(&None).is_empty());
}

#[test]
fn dashboard_keys() {
    let st = Some(sample_state());
    let vis = current_visible_procs(&st);
    let mut d = Dashboard::new();
    assert_eq!(d.on_key(DashKey::Up, &vis, &st), DashAction::Nothing);
    assert_eq!(d.selected, 0);
    d.on_key(DashKey::Down, &vis, &st);
    assert_eq!(d.selected, 1);
    for _ in 0..10 {
        d.on_key(DashKey::Down, &vis, &st);
    }
    assert_eq!(d.selected, 5);
    d.on_key(DashKey::Up, &vis, &st);
    d.on_key(DashKey::Up, &vis, &st);
    d.on_key(DashKey::Up, &vis, &st);
    d.on_key(DashKey::Up, &vis, &st);
    d.on_key(DashKey::Up, &vis, &st);
    assert_eq!(d.selected, 0);
    assert_eq!(d.on_key(DashKey::Lineage, &vis, &st), DashAction::ShowLineage(10));
    assert_eq!(d.on_key(DashKey::Kill, &vis, &st), DashAction::Nothing);
    assert_eq!(d.pending, Some(Confirm::Kill(10)));
    assert_eq!(d.on_key(DashKey::Yes, &vis, &st), DashAction::Kill(10));
    assert_eq!(d.pending, None);
    d.on_key(DashKey::Suspend, &vis, &st);
    assert_eq!(d.on_key(DashKey::No, &vis, &st), DashAction::Nothing);
    assert_eq!(d.pending, None);
    assert_eq!(d.on_key(DashKey::Quit, &vis, &st), DashAction::Quit);
}

#[test]
fn dashboard_expand_and_investigate() {
    let st = Some(sample_state());
    let vis = current_visible_procs(&st);
    let mut d = Dashboard::new();
    d.on_key(DashKey::ExpandAll, &vis, &st);
    let mut e: Vec<u32> = d.expanded.iter().cloned().collect();
    e.sort();
    assert_eq!(e, vec![10, 20]);
    d.on_key(DashKey::Collapse, &vis, &st);
    assert!(d.expanded.is_empty());
    d.on_key(DashKey::Expand, &vis, &st);
    assert!(d.expanded.contains(&10));
    d.on_key(DashKey::Expand, &vis, &st);
    assert!(d.expanded.is_empty());
    d.on_key(DashKey::Enter, &vis, &st);
    assert_eq!(d.investigation, Some(10));
    d.on_investigation_key(InvestigationKey::Left, &vis, &st);
    assert_eq!(d.investigation, Some(1));
    assert_eq!(d.selected, 4);
    d.on_investigation_key(InvestigationKey::Right, &vis, &st);
    assert_eq!(d.investigation, Some(10));
    assert_eq!(d.selected, 0);
    d.on_investigation_key(InvestigationKey::Close, &vis, &st);
    assert_eq!(d.investigation, None);
}

#[test]
fn friendly_labels() {
    assert_eq!(friendly_label(&"script_engine".to_string()), "Script engine");
    assert_eq!(friendly_label(&"verification_failed".to_string()), "Signature verification failed");
    assert_eq!(friendly_label(&"set".to_string()), "Explicit set");
    assert_eq!(friendly_label(&"custom".to_string()), "custom");
}

#[test]
fn detail_panel_text() {
    let st = Some(sample_state());
    let vis = current_visible_procs(&st);
    let mut sec = SecurityState::new();
    record_contribution(&mut sec, 10, "powershell", 20);
    record_contribution(&mut sec, 10, "odd", -5);
    let t = detail_panel(&vis, 0, &st, &sec);
    assert_eq!(
        t,
        "PID: 10\nName: Code.exe\nParent: 1\ninit(1)\n└─ Code.exe(10)\n    └─ helper(20)\nCPU: 50.0%\nMEM: 123.5 MB\nThreads: 8\nScore: 15% (Normal)\nIdentity:   \n\nContributions:\n+20 PowerShell\n+-5 odd\n"
    );
    assert_eq!(detail_panel(&vis, 9, &st, &sec), "<no selection>");
    assert_eq!(detail_panel(&Vec::new(), 0, &None, &sec), "<no selection>");
}

#[test]
fn investigation_screen_lines() {
    let st = Some(sample_state());
    let mut sec = SecurityState::new();
    record_contribution(&mut sec, 10, "unsigned", 30);
    let l = investigation_text(10, &st, &sec);
    assert_eq!(
        l,
        vec![
            "Code.exe (10)",
            "",
            "Path:\n<unknown>",
            "Parent: init (1)",
            "Children:",
            " - helper (20)",
            "Connections: none",
            "",
            "Risk Factors:",
            " +30 Unsigned binary",
            "",
            "Command Line: <not available>",
        ]
    );
    assert_eq!(investigation_text(777, &st, &sec), vec!["Process not found in snapshot"]);
    assert_eq!(investigation_text(10, &None, &sec), vec!["No state available"]);
}

#[test]
fn header_rows_and_messages() {
    let st = Some(sample_state());
    let sec = SecurityState::new();
    assert_eq!(stats_line(&st, &sec), "CPU 93.0%   MEM 189.5MB   PROCS 6   Security: Normal");
    assert_eq!(stats_line(&None, &sec), "CPU 0.0%   MEM 0.0MB   PROCS 0   Security: Unknown");
    let vis = current_visible_procs(&st);
    assert_eq!(process_row(&vis[0], &sec), vec!["10", "Code.exe", "50.0%", "0%"]);
    assert_eq!(confirm_text(Confirm::Suspend(42)), "Confirm SUSPEND PID 42? (y/n)");
    assert_eq!(event_row("12:00:00", &ProcessEvent::Terminated(5)), "[12:00:00] PID 5 terminated");
    assert_eq!(
        event_row("t", &ProcessEvent::CpuSpike { pid: 3, cpu_x100: 9050 }),
        "[t] PID 3 CPU spike 90.5%"
    );
    let m = UiMessage { topic: "why".to_string(), body: "a\nb".to_string() };
    assert_eq!(ui_row(&m), "[UI:why] a b");
}

#[test]
fn message_log_keeps_newest() {
    let mut log = UiMessageLog::new();
    for i in 0..205u32 {
        log.on_message(UiMessage { topic: "t".to_string(), body: i.to_string() });
    }
    assert_eq!(log.items.len(), 200);
    assert_eq!(log.items[0].body, "5");
    let rows = newest_message_rows(&log, 2);
    assert_eq!(rows, vec!["[UI:t] 204", "[UI:t] 203"]);
}

#[test]
fn lineage_view_lines() {
    let st = Some(sample_state());
    assert_eq!(
        show_lineage_lines(&st, 20),
        vec![
            "Process Lineage for PID 20:",
            "  Ancestors: init(1) Code.exe(10) ",
            "  Parent: Code.exe (10)",
            "  Children: <none>",
        ]
    );
    assert_eq!(
        show_lineage_lines(&st, 10),
        vec![
            "Process Lineage for PID 10:",
            "  Ancestors: init(1) ",
            "  Parent: init (1)",
            "  Children:",
            "    - helper (20) CPU:2.0% MEM:5.0",
        ]
    );
    assert_eq!(show_lineage_lines(&None, 1), vec!["No latest state available"]);
}
