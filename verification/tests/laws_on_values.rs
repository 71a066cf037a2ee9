use argus::graph::{
    apply_process_started, apply_process_terminated, get_neighbors_for_pid_depth, reason_for_pid,
    reason_structured_for_pid, Graph,
};
use argus::overview::{memory_event_prints, overview_print_due, process_event_prints, PrintDecision};
use argus::process_events::ProcessEvent;
use argus::event_bus::{EventBus, Topic};
use argus::process_engine::{
    default_cpu_engine, default_engine, default_family_engine, diff_and_emit, CpuEvent, LeakTracker, MemoryEvent,
};
use argus::process_state::ProcessInfo;
use argus::security_engine::{on_process_started, SecurityEvent, SignatureVerification};
use argus::security_state::{get_contributions, get_process_score, incr_socket_open_at};
use argus::process_state::{Process, ProcessState};
use argus::rules::{Finding, Severity};
use argus::security_state::{get_behavior, SecurityState};
use argus::surfaces::findings::FindingHistory;

fn proc_rec(pid: u32, name: &str, parent: u32, cpu: u32) -> Process {
    Process {
        pid,
        name: name.to_string(),
        cpu_percent_x100: cpu,
        memory_mb_x100: 100,
        threads: 1,
        parent_pid: parent,
        start_time: None,
    }
}

fn snapshot() -> ProcessState {
    ProcessState::from_vec(vec![
        proc_rec(1, "explorer.exe", 0, 100),
        proc_rec(2, "chrome.exe", 1, 6000),
        proc_rec(3, "chrome.exe", 2, 3000),
    ])
}

fn graph_summary(g: &Graph) -> (Vec<String>, Vec<(String, String, u32)>) {
    (
        g.nodes.iter().map(|n| n.id.clone()).collect(),
        g.edges.iter().map(|e| (e.src.clone(), e.dst.clone(), e.count)).collect(),
    )
}

#[test]
fn overview_prints_are_throttled() {
    assert_eq!(overview_print_due(None, 250, false), PrintDecision::Schedule);
    assert_eq!(overview_print_due(None, 0, false), PrintDecision::PrintNow);
    assert_eq!(overview_print_due(Some(250), 250, false), PrintDecision::PrintNow);
    assert_eq!(overview_print_due(Some(100), 250, false), PrintDecision::Schedule);
    assert_eq!(overview_print_due(Some(100), 250, true), PrintDecision::Skip);
}

#[test]
fn repeated_snapshot_changes_nothing() {
    let mut engine = default_engine();
    let mut fam = default_family_engine();
    let mut g = Graph::default();
    let mut sec = SecurityState::new();
    let first = diff_and_emit(&mut engine, snapshot(), &mut g, &mut sec, &mut fam);
    assert_eq!(first.len(), 3);
    let graph_before = graph_summary(&g);
    let spawned_before = get_behavior(&sec, 1).children_spawned;
    let again = diff_and_emit(&mut engine, snapshot(), &mut g, &mut sec, &mut fam);
    assert!(again.is_empty());
    assert_eq!(graph_summary(&g), graph_before);
    assert_eq!(get_behavior(&sec, 1).children_spawned, spawned_before);
}

#[test]
fn history_keeps_the_last_two_hundred() {
    let mut h = FindingHistory::new();
    for i in 0..205u32 {
        h.on_finding(&Finding {
            title: format!("f{}", i),
            description: String::new(),
            risk: 1,
            severity: Severity::Low,
        });
    }
    assert_eq!(h.items.len(), 200);
    assert_eq!(h.items[0].title, "f5");
    assert_eq!(h.items[199].title, "f204");
}

#[test]
fn start_then_terminate_gives_the_graph_back() {
    let mut g = Graph::default();
    apply_process_started(&mut g, 1, "explorer.exe", 0);
    apply_process_started(&mut g, 2, "cmd.exe", 1);
    let before = graph_summary(&g);
    apply_process_started(&mut g, 9, "tool.exe", 2);
    assert_ne!(graph_summary(&g), before);
    apply_process_terminated(&mut g, 9);
    assert_eq!(graph_summary(&g), before);
}

#[test]
fn structured_reason_names_match_reasons() {
    let mut g = Graph::default();
    apply_process_started(&mut g, 1, "explorer.exe", 0);
    apply_process_started(&mut g, 2, "cmd.exe", 1);
    apply_process_started(&mut g, 3, "tool.exe", 2);
    let names: Vec<String> = reason_structured_for_pid(&g, 3).iter().map(|(n, _)| n.name.clone()).collect();
    assert_eq!(names, reason_for_pid(&g, 3));
    assert_eq!(names, vec!["explorer.exe", "cmd.exe", "tool.exe"]);
}

#[test]
fn deeper_neighbors_come_later() {
    let mut g = Graph::default();
    apply_process_started(&mut g, 1, "root", 0);
    apply_process_started(&mut g, 2, "a", 1);
    apply_process_started(&mut g, 3, "b", 2);
    apply_process_started(&mut g, 4, "c", 1);
    let ids: Vec<String> = get_neighbors_for_pid_depth(&g, 1, 3).iter().map(|n| n.id.clone()).collect();
    assert_eq!(ids, vec!["proc:2", "proc:4", "proc:3"]);
}

#[test]
fn engines_keep_their_subscriptions() {
    let mut bus = EventBus::new();
    let mut cpu_held = Vec::new();
    let mut mem_held = Vec::new();
    argus::domains::memory::register(&mut bus, &mut mem_held);
    argus::domains::cpu::register(&mut bus, &mut cpu_held);
    assert_eq!(bus.publish(Topic::Memory), vec![mem_held[0].id]);
    assert_eq!(bus.publish(Topic::Cpu), vec![cpu_held[0].id]);
}

#[test]
fn cpu_spike_after_three_high_samples() {
    let mut e = default_cpu_engine();
    assert_eq!(e.observe(9000), None);
    assert_eq!(e.observe(9000), None);
    assert_eq!(e.observe(9000), Some(CpuEvent::Spike { percent_x100: 9000 }));
    assert_eq!(e.observe(9000), None);
    assert_eq!(e.observe(1000), None);
    assert_eq!(e.observe(1000), None);
    assert_eq!(e.observe(1000), Some(CpuEvent::Normalized));
}

#[test]
fn leak_suspected_on_large_growth() {
    let mut t = LeakTracker::new();
    assert_eq!(t.observe(7, 60000), Some(MemoryEvent::LeakSuspected { pid: 7 }));
    assert_eq!(t.observe(7, 65000), None);
}

#[test]
fn signed_start_reports_no_verification_event() {
    let mut sec = SecurityState::new();
    let info = ProcessInfo {
        pid: 40,
        name: "notepad.exe".to_string(),
        cpu_percent_x100: 0,
        memory_mb_x100: 0,
        threads: 1,
        parent_pid: 0,
        identity: None,
    };
    let evs = on_process_started(&mut sec, &None, &info, SignatureVerification::Signed);
    assert!(evs.is_empty());
    let evs = on_process_started(&mut sec, &None, &info, SignatureVerification::Unknown);
    assert_eq!(evs.len(), 1);
    assert!(matches!(&evs[0], SecurityEvent::ProcessSignatureVerification { pid: 40, .. }));
}

#[test]
fn socket_counts_are_stamped() {
    let mut sec = SecurityState::new();
    incr_socket_open_at(&mut sec, 5, 19, 1000);
    assert_eq!(get_behavior(&sec, 5).last_updated, 1000);
    assert_eq!(get_process_score(&sec, 5), 0);
    incr_socket_open_at(&mut sec, 5, 1, 2000);
    let b = get_behavior(&sec, 5);
    assert_eq!((b.sockets_opened, b.last_updated), (20, 2000));
    assert_eq!(get_process_score(&sec, 5), 30);
    assert_eq!(get_contributions(&sec, 5), vec![("network_activity".to_string(), 30)]);
}

#[test]
fn overview_print_requests() {
    assert!(process_event_prints(&ProcessEvent::Terminated(3)));
    assert!(!process_event_prints(&ProcessEvent::CpuSpike { pid: 3, cpu_x100: 9000 }));
    assert!(memory_event_prints(&MemoryEvent::PressureHigh { used_mb_x100: 1 }));
    assert!(!memory_event_prints(&MemoryEvent::LeakSuspected { pid: 3 }));
    assert!(!memory_event_prints(&MemoryEvent::ProcessMemorySample { pid: 3, memory_mb_x100: 1 }));
}

#[test]
fn deeper_search_extends_shallower() {
    let mut g = Graph::default();
    apply_process_started(&mut g, 1, "root", 0);
    apply_process_started(&mut g, 2, "a", 1);
    apply_process_started(&mut g, 3, "b", 2);
    apply_process_started(&mut g, 4, "c", 1);
    apply_process_started(&mut g, 5, "d", 3);
    let ids = |d: usize| -> Vec<String> { get_neighbors_for_pid_depth(&g, 1, d).iter().map(|n| n.id.clone()).collect() };
    for d in 0..4usize {
        let a = ids(d);
        let b = ids(d + 1);
        assert_eq!(&b[..a.len()], &a[..]);
    }
    assert_eq!(ids(1), vec!["proc:2", "proc:4"]);
}
