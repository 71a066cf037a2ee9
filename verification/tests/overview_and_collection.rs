use argus::collection::{collected_pids, memory_sample_events, started_and_terminated};
use argus::overview::{
    expire_suspicion, last_ui_text, overview_lines, raises_suspicion, OverviewMetrics, ProcCounts,
};
use argus::process_engine::{CpuEvent, MemoryEvent};
use argus::process_events::ProcessEvent;
use argus::process_state::Process;
use argus::rules::{Finding, Severity};
use argus::security_engine::{SecurityEvent, SignatureVerification};
use argus::security_state::{BehaviorCounters, SecurityStatus};
use argus::surfaces::console::{console_line, finding_console_text};
use argus::surfaces::findings::{show_recent_lines, FindingHistory};
use argus::surfaces::security::security_text;

fn proc_rec(pid: u32, name: &str, parent: u32) -> Process {
    Process {
        pid,
        name: name.to_string(),
        cpu_percent_x100: 0,
        memory_mb_x100: 1250,
        threads: 3,
        parent_pid: parent,
        start_time: None,
    }
}

fn finding(title: &str, desc: &str, risk: u8, severity: Severity) -> Finding {
    Finding { title: title.to_string(), description: desc.to_string(), risk, severity }
}

#[test]
fn overview_line_counts_classes_and_families() {
    let mut c = ProcCounts::new();
    c.on_started(10, "chrome.exe");
    c.on_started(11, "chrome.exe");
    c.on_started(20, "Code.exe");
    c.on_started(30, "mystery.bin");
    c.on_terminated(11);
    let lines = overview_lines(1234, 204850, &c, SecurityStatus::Suspicious, 60, &None);
    assert_eq!(
        lines,
        vec!["[Overview] CPU:12.3% MEM(MB):2048.5 PROCS:3 FAM:3 BROWSER:1 DEV:1 UNKNOWN:1 SEC:Suspicious SCORE_MAX:60%"]
    );
}

#[test]
fn overview_line_with_last_message() {
    let c = ProcCounts::new();
    let last = Some(last_ui_text("process", "started notepad"));
    let lines = overview_lines(0, 0, &c, SecurityStatus::Normal, 0, &last);
    assert_eq!(lines.len(), 2);
    assert_eq!(
        lines[0],
        "[Overview] CPU:0.0% MEM(MB):0.0 PROCS:0 FAM:0 BROWSER:0 DEV:0 UNKNOWN:0 SEC:Normal SCORE_MAX:0%"
    );
    assert_eq!(lines[1], "[Overview UI] process: started notepad");
}

#[test]
fn suspicion_expires_after_a_minute() {
    assert_eq!(expire_suspicion(SecurityStatus::Suspicious, Some(61)), (SecurityStatus::Normal, false));
    assert_eq!(expire_suspicion(SecurityStatus::Suspicious, Some(60)), (SecurityStatus::Suspicious, true));
    assert_eq!(expire_suspicion(SecurityStatus::Suspicious, None), (SecurityStatus::Suspicious, false));
    assert_eq!(expire_suspicion(SecurityStatus::Normal, Some(500)), (SecurityStatus::Normal, true));
}

#[test]
fn overview_metrics_follow_events() {
    let mut m = OverviewMetrics::new();
    m.on_cpu_event(&CpuEvent::Spike { percent_x100: 9500 });
    assert_eq!(m.cpu_x100, 9500);
    m.on_cpu_event(&CpuEvent::Normalized);
    assert_eq!(m.cpu_x100, 0);
    assert_eq!(m.on_memory_event(&MemoryEvent::UsedSample { used_mb_x100: 4200 }), None);
    assert_eq!(m.mem_x100, 4200);
    assert_eq!(m.on_memory_event(&MemoryEvent::ProcessMemorySample { pid: 3, memory_mb_x100: 1 }), None);
    assert_eq!(m.mem_x100, 4200);
    assert_eq!(
        m.on_memory_event(&MemoryEvent::LeakSuspected { pid: 77 }),
        Some("[Overview] Leak suspected in PID 77".to_string())
    );
    assert_eq!(m.mem_x100, 4200);
}

#[test]
fn which_security_events_raise_suspicion() {
    assert!(raises_suspicion(&SecurityEvent::PowershellSpawned { pid: 1 }));
    assert!(raises_suspicion(&SecurityEvent::UnsignedProcessStarted { pid: 1, name: "x.exe".to_string() }));
    assert!(raises_suspicion(&SecurityEvent::ProcessSignatureVerification {
        pid: 1,
        name: "x.exe".to_string(),
        result: SignatureVerification::Unsigned,
    }));
    assert!(!raises_suspicion(&SecurityEvent::ProcessSignatureVerification {
        pid: 1,
        name: "x.exe".to_string(),
        result: SignatureVerification::Signed,
    }));
    assert!(!raises_suspicion(&SecurityEvent::HandleHijackDetected { pid: 1 }));
}

#[test]
fn collection_reports_starts_then_ends() {
    let prev = vec![1u32, 2, 3];
    let procs = vec![proc_rec(2, "b", 1), proc_rec(4, "d", 2), proc_rec(5, "e", 2)];
    assert_eq!(collected_pids(&procs), vec![2u32, 4, 5]);
    let evs = started_and_terminated(&prev, &procs);
    assert_eq!(evs.len(), 4);
    assert!(matches!(&evs[0], ProcessEvent::Started(i) if i.pid == 4 && i.name == "d" && i.parent_pid == 2));
    assert!(matches!(&evs[1], ProcessEvent::Started(i) if i.pid == 5));
    assert!(matches!(&evs[2], ProcessEvent::Terminated(1)));
    assert!(matches!(&evs[3], ProcessEvent::Terminated(3)));
}

#[test]
fn collection_with_nothing_changed_reports_nothing() {
    let procs = vec![proc_rec(7, "a", 0)];
    assert!(started_and_terminated(&vec![7u32], &procs).is_empty());
}

#[test]
fn memory_pressure_above_eighty_percent() {
    assert_eq!(memory_sample_events(8000, 10000), vec![MemoryEvent::UsedSample { used_mb_x100: 8000 }]);
    assert_eq!(
        memory_sample_events(8001, 10000),
        vec![MemoryEvent::UsedSample { used_mb_x100: 8001 }, MemoryEvent::PressureHigh { used_mb_x100: 8001 }]
    );
    assert_eq!(memory_sample_events(5, 0), vec![MemoryEvent::UsedSample { used_mb_x100: 5 }]);
}

#[test]
fn console_prints_terminations_and_spikes_only() {
    assert_eq!(console_line(&ProcessEvent::Terminated(42)), Some("[PROCESS_TERMINATED] PID:42".to_string()));
    assert_eq!(
        console_line(&ProcessEvent::CpuSpike { pid: 9, cpu_x100: 8765 }),
        Some("[PROCESS_CPU_SPIKE] PID:9 CPU:87.7%".to_string())
    );
    assert_eq!(console_line(&ProcessEvent::FamilyNormalized { family: "vscode".to_string() }), None);
}

#[test]
fn console_finding_text() {
    let f = finding("Unsigned binary", "not signed", 40, Severity::High);
    assert_eq!(finding_console_text(&f), "[FINDING] Unsigned binary risk=40 severity=High\n  not signed");
}

#[test]
fn recent_findings_listing_keeps_last_n() {
    let mut h = FindingHistory::new();
    h.on_finding(&finding("a", "da", 1, Severity::Low));
    h.on_finding(&finding("b", "db", 2, Severity::Medium));
    h.on_finding(&finding("c", "dc", 3, Severity::Critical));
    assert_eq!(
        show_recent_lines(&h, 2),
        vec![
            "Recent Findings (most recent last):",
            " - b | risk=2 severity=Medium\n   db",
            " - c | risk=3 severity=Critical\n   dc",
        ]
    );
    assert_eq!(show_recent_lines(&h, 10).len(), 4);
}

#[test]
fn security_surface_lines() {
    let origin = BehaviorCounters { files_created: 2, sockets_opened: 1, children_spawned: 4, last_updated: 99 };
    let ev = SecurityEvent::ProcessSpawnedBy {
        pid: 50,
        origin_pid: 1,
        origin_name: "explorer.exe".to_string(),
        lineage: vec!["explorer.exe(1)".to_string(), "cmd.exe(20)".to_string()],
    };
    assert_eq!(
        security_text(&ev, &origin),
        vec![
            "[SecuritySurface] Process 50 was spawned by explorer.exe(1)",
            "[SecuritySurface] Lineage: explorer.exe(1) -> cmd.exe(20)",
            "[SecuritySurface] Origin behavior: files=2 sockets=1 children=4 (last_updated=99)",
        ]
    );
    assert_eq!(
        security_text(&SecurityEvent::HandleHijackDetected { pid: 8 }, &origin),
        vec!["[SecuritySurface] Handle hijack suspected PID:8"]
    );
    assert_eq!(
        security_text(
            &SecurityEvent::ProcessSignatureVerification {
                pid: 3,
                name: "tool.exe".to_string(),
                result: SignatureVerification::VerificationFailed,
            },
            &origin
        ),
        vec!["[SecuritySurface] Signature check tool.exe (pid=3): VerificationFailed"]
    );
}
