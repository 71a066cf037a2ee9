use argus::bridge_model::{memory_event_kind, process_event_kind, snapshot_metrics, threat_level, ui_message_kind};
use argus::persistence::{
    compare_snapshots, compare_with_loaded, diff_text, latest_snapshot_file, SnapshotSummary,
};
use argus::process_engine::MemoryEvent;
use argus::process_events::{log_line, ProcessEvent};
use argus::process_state::{Process, ProcessState};
use argus::rules::{Finding, Severity};
use argus::runtime::UiMessage;
use argus::timeline::{event_record_at, finding_record_at, message_record_at, records_for_pid};

fn finding(title: &str, risk: u8, severity: Severity) -> Finding {
    Finding { title: title.to_string(), description: String::new(), risk, severity }
}

fn summary(pids: Vec<u32>, titles: Vec<&str>, risk: Vec<(u32, u8)>, nodes: usize, edges: usize) -> SnapshotSummary {
    SnapshotSummary {
        pids,
        finding_titles: titles.into_iter().map(|t| t.to_string()).collect(),
        risk,
        graph_nodes: nodes,
        graph_edges: edges,
    }
}

#[test]
fn timeline_records_of_events() {
    let r = event_record_at(&ProcessEvent::Terminated(9), 1700);
    assert_eq!((r.ts, r.kind.as_str(), r.pid, r.msg.as_str()), (1700, "process_terminated", Some(9), "Terminated pid 9"));
    let s = event_record_at(&ProcessEvent::CpuSpike { pid: 3, cpu_x100: 8125 }, 5);
    assert_eq!((s.kind.as_str(), s.pid, s.msg.as_str()), ("process_cpu_spike", Some(3), "CPU spike: 81.3%"));
    let f = event_record_at(&ProcessEvent::FamilyNormalized { family: "vscode".to_string() }, 5);
    assert_eq!((f.kind.as_str(), f.pid, f.msg.as_str()), ("family_normalized", None, "Family vscode normalized"));
    let g = finding_record_at(&finding("Mass spawn", 75, Severity::High), 6);
    assert_eq!((g.kind.as_str(), g.msg.as_str()), ("finding", "Mass spawn risk=75 severity=High"));
    let m = message_record_at(&UiMessage { topic: "snapshot_saved".to_string(), body: "x.json".to_string() }, 7);
    assert_eq!((m.kind.as_str(), m.msg.as_str()), ("ui:snapshot_saved", "x.json"));
}

#[test]
fn timeline_query_by_pid() {
    let recs = vec![
        event_record_at(&ProcessEvent::Terminated(9), 1),
        event_record_at(&ProcessEvent::Terminated(8), 2),
        event_record_at(&ProcessEvent::FamilyNormalized { family: "f".to_string() }, 3),
        event_record_at(&ProcessEvent::CpuSpike { pid: 9, cpu_x100: 100 }, 4),
    ];
    let q = records_for_pid(&recs, 9);
    let ts: Vec<i64> = q.iter().map(|r| r.ts).collect();
    assert_eq!(ts, vec![1, 4]);
    assert!(records_for_pid(&recs, 77).is_empty());
}

#[test]
fn threat_follows_gravest_finding() {
    assert_eq!(threat_level(&vec![]), "Normal");
    assert_eq!(threat_level(&vec![finding("a", 10, Severity::Low)]), "Normal");
    assert_eq!(threat_level(&vec![finding("a", 50, Severity::Medium), finding("b", 10, Severity::Low)]), "Elevated");
    assert_eq!(threat_level(&vec![finding("a", 50, Severity::Medium), finding("b", 75, Severity::High)]), "Suspicious");
    assert_eq!(threat_level(&vec![finding("c", 95, Severity::Critical), finding("b", 75, Severity::High)]), "Critical");
}

#[test]
fn bridge_metrics_cap_cpu() {
    let st = ProcessState::from_vec(vec![
        Process { pid: 1, name: "a".to_string(), cpu_percent_x100: 7000, memory_mb_x100: 100, threads: 1, parent_pid: 0, start_time: None },
        Process { pid: 2, name: "b".to_string(), cpu_percent_x100: 6000, memory_mb_x100: 250, threads: 1, parent_pid: 0, start_time: None },
    ]);
    let m = snapshot_metrics(&Some(st), &vec![finding("x", 75, Severity::High)]);
    assert_eq!((m.cpu_percent_x100, m.memory_used_mb_x100, m.process_count), (10000, 350, 2));
    assert_eq!(m.threat_level, "Suspicious");
    let e = snapshot_metrics(&None, &vec![finding("x", 95, Severity::Critical)]);
    assert_eq!((e.cpu_percent_x100, e.process_count, e.threat_level.as_str()), (0, 0, "Normal"));
}

#[test]
fn bridge_event_kinds() {
    assert_eq!(process_event_kind(&ProcessEvent::Terminated(1)), Some("process.terminated"));
    assert_eq!(process_event_kind(&ProcessEvent::FamilyNormalized { family: "x".to_string() }), None);
    assert_eq!(memory_event_kind(&MemoryEvent::UsedSample { used_mb_x100: 1 }), Some("memory.used"));
    assert_eq!(memory_event_kind(&MemoryEvent::LeakSuspected { pid: 1 }), None);
    assert_eq!(ui_message_kind("why"), "ui.why");
}

#[test]
fn snapshot_diff_lists_changes() {
    let prev = summary(vec![1, 2, 3], vec!["A", "B"], vec![(1, 10), (2, 0), (3, 5)], 4, 5);
    let cur = summary(vec![2, 3, 4, 4], vec!["B", "C", "C"], vec![(2, 0), (3, 7), (4, 20)], 6, 7);
    let d = compare_snapshots(&prev, &cur);
    assert_eq!(d.added, vec![4]);
    assert_eq!(d.removed, vec![1]);
    assert_eq!(d.new_findings, vec!["C".to_string()]);
    assert_eq!(d.risk_changes, vec![(3, 5, 7), (4, 0, 20)]);
    assert_eq!(
        diff_text(&Some(d)),
        "Processes added: [4]\nProcesses removed: [1]\nNew findings: [\"C\"]\nRisk changes: [\"pid 3: 5 -> 7\", \"pid 4: 0 -> 20\"]\nGraph nodes: prev=4 cur=6 edges: prev=5 cur=7\n"
    );
    assert_eq!(diff_text(&None), "No previously loaded snapshot for comparison.\n");
    assert_eq!(compare_with_loaded(&None, &cur), "No previously loaded snapshot for comparison.\n");
}

#[test]
fn snapshot_compared_with_itself_is_quiet() {
    let s = summary(vec![1, 2], vec!["A"], vec![(1, 10), (2, 3)], 2, 1);
    let d = compare_snapshots(&s, &s);
    assert!(d.added.is_empty() && d.removed.is_empty() && d.new_findings.is_empty() && d.risk_changes.is_empty());
}

#[test]
fn latest_snapshot_by_name() {
    let names = vec![
        "snapshot_2024_01_02.json".to_string(),
        "notes.txt".to_string(),
        "snapshot_2024_03_01.json".to_string(),
        "snapshot_2024_02_01.json".to_string(),
        "snapshot_2025_01_01.txt".to_string(),
    ];
    assert_eq!(latest_snapshot_file(&names), Some(2));
    assert_eq!(latest_snapshot_file(&vec!["a.json".to_string()]), None);
}

#[test]
fn event_log_lines() {
    assert_eq!(log_line("10:00:00", &ProcessEvent::Terminated(4)), "[10:00:00] [PROCESS_TERMINATED] PID:4");
}
