use argus::graph::{apply_process_started, apply_process_terminated, get_neighbors_for_pid, get_neighbors_for_pid_depth, EdgeKind, Graph};
use argus::process_events::ProcessEvent;
use argus::process_state::{Process, ProcessState};
use argus::rules::{risk_to_severity, severity_to_string, PowerShellSpawnRule, Rule, Severity, UnknownExecutableRule};
use argus::surfaces::process::{graph_depth_body, show_graph_lines};
use argus::why_report::{kind_text, why_message, why_report_lines};

fn chain_graph() -> Graph {
    let mut g = Graph::default();
    apply_process_started(&mut g, 1, "powershell.exe", 0);
    apply_process_started(&mut g, 2, "cmd.exe", 1);
    apply_process_started(&mut g, 3, "unknown.exe", 2);
    g
}

fn empty_state() -> ProcessState {
    ProcessState::from_vec(Vec::<Process>::new())
}

#[test]
fn started_processes_are_linked() {
    let g = chain_graph();
    assert_eq!(g.nodes.len(), 3);
    assert_eq!(g.edges.len(), 2);
    assert_eq!(g.edges[0].src, "proc:1");
    assert_eq!(g.edges[0].dst, "proc:2");
    let n: Vec<String> = get_neighbors_for_pid(&g, 2).iter().map(|n| n.id.clone()).collect();
    assert_eq!(n, vec!["proc:1".to_string(), "proc:3".to_string()]);
}

#[test]
fn neighbors_within_depth() {
    let g = chain_graph();
    let d1: Vec<String> = get_neighbors_for_pid_depth(&g, 1, 1).iter().map(|n| n.id.clone()).collect();
    assert_eq!(d1, vec!["proc:2".to_string()]);
    let d2: Vec<String> = get_neighbors_for_pid_depth(&g, 1, 2).iter().map(|n| n.id.clone()).collect();
    assert_eq!(d2, vec!["proc:2".to_string(), "proc:3".to_string()]);
    assert!(get_neighbors_for_pid_depth(&g, 1, 0).is_empty());
}

#[test]
fn terminated_process_leaves_graph() {
    let mut g = chain_graph();
    apply_process_terminated(&mut g, 2);
    assert_eq!(g.nodes.len(), 2);
    assert!(g.edges.is_empty());
}

#[test]
fn graph_view_lines() {
    let g = chain_graph();
    let n = get_neighbors_for_pid(&g, 1);
    assert_eq!(
        show_graph_lines(1, None, &n),
        vec!["Graph neighbors for PID 1:", "  - cmd.exe [process] pid=2 id=proc:2"]
    );
    assert_eq!(
        show_graph_lines(1, Some(0), &n),
        vec!["Graph neighbors for PID 1 (depth=0):", "  <none> (depth 0)"]
    );
    assert_eq!(show_graph_lines(9, None, &Vec::new()), vec!["Graph neighbors for PID 9:", "  <none>"]);
    assert_eq!(graph_depth_body(&n), "- cmd.exe [process] pid=2 id=proc:2\n");
}

#[test]
fn spawn_rule_flags_powershell_spawning_cmd() {
    let g = chain_graph();
    let st = empty_state();
    let f = PowerShellSpawnRule.evaluate(&g, &st, &Vec::<(i64, ProcessEvent)>::new());
    assert_eq!(f.len(), 1);
    assert_eq!(f[0].title, "PowerShell spawned cmd");
    assert_eq!(f[0].description, "powershell.exe spawned cmd.exe");
    assert_eq!(f[0].risk, 20);
    assert_eq!(f[0].severity, Severity::Low);
}

#[test]
fn unknown_executable_rule() {
    let g = chain_graph();
    let f = UnknownExecutableRule.evaluate(&g, &empty_state(), &Vec::<(i64, ProcessEvent)>::new());
    assert_eq!(f.len(), 1);
    assert_eq!(f[0].description, "Unknown executable: unknown.exe");
    assert_eq!(f[0].severity, Severity::Medium);
}

#[test]
fn severity_bands() {
    assert_eq!(risk_to_severity(39), Severity::Low);
    assert_eq!(risk_to_severity(40), Severity::Medium);
    assert_eq!(risk_to_severity(70), Severity::High);
    assert_eq!(risk_to_severity(90), Severity::Critical);
    assert_eq!(severity_to_string(&Severity::High), "High");
}

#[test]
fn why_report_walks_ancestry() {
    let g = chain_graph();
    assert_eq!(
        why_report_lines(&g, 3),
        vec![
            "Reason trace for pid 3:",
            " - powershell.exe (Process)",
            " - cmd.exe (Process)",
            " - unknown.exe (Process)",
            "Ancestry: powershell.exe -> cmd.exe -> unknown.exe",
        ]
    );
    assert_eq!(
        why_message(&g, 3),
        "Ancestry: powershell.exe -> cmd.exe -> unknown.exe\npowershell.exe --ParentOf--> cmd.exe\ncmd.exe --ParentOf--> unknown.exe\n"
    );
    assert_eq!(kind_text(&EdgeKind::Other("a\"b".to_string())), "Other(\"a\\\"b\")");
}
