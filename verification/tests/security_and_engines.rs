use argus::event_bus::{EventBus, Topic};
use argus::process_engine::{default_cpu_engine, CpuEvent, Hysteresis, LeakTracker, MemoryEvent};
use argus::security_state::{
    add_process_score, get_contributions, get_process_score, max_score, record_contribution, set_process_score,
    status_for_pid, status_name, SecurityScores, SecurityState, SecurityStatus,
};

#[test]
fn scores_are_clamped_to_percent() {
    let mut s = SecurityScores::new();
    s.set_score(1, 30);
    assert_eq!(s.get_score(1), 30);
    s.add_score(1, 80);
    assert_eq!(s.get_score(1), 100);
    s.add_score(2, -5);
    assert_eq!(s.get_score(2), 0);
    assert_eq!(s.get_score(3), 0);
    assert_eq!(s.max_score(), 100);
}

#[test]
fn status_bands() {
    assert_eq!(SecurityScores::map_score_to_status(0), SecurityStatus::Normal);
    assert_eq!(SecurityScores::map_score_to_status(24), SecurityStatus::Normal);
    assert_eq!(SecurityScores::map_score_to_status(25), SecurityStatus::Elevated);
    assert_eq!(SecurityScores::map_score_to_status(49), SecurityStatus::Elevated);
    assert_eq!(SecurityScores::map_score_to_status(50), SecurityStatus::Suspicious);
    assert_eq!(SecurityScores::map_score_to_status(75), SecurityStatus::Critical);
    assert_eq!(status_name(SecurityStatus::Suspicious), "Suspicious");
}

#[test]
fn contributions_explain_scores() {
    let mut st = SecurityState::new();
    record_contribution(&mut st, 7, "powershell", 20);
    record_contribution(&mut st, 7, "unsigned", 30);
    assert_eq!(get_process_score(&st, 7), 50);
    assert_eq!(status_for_pid(&st, 7), SecurityStatus::Suspicious);
    let c = get_contributions(&st, 7);
    assert_eq!(c, vec![("powershell".to_string(), 20), ("unsigned".to_string(), 30)]);
    assert!(get_contributions(&st, 8).is_empty());
    set_process_score(&mut st, 8, 90);
    add_process_score(&mut st, 8, -100);
    assert_eq!(get_process_score(&st, 8), 0);
    assert_eq!(max_score(&st), 50);
}

#[test]
fn bus_delivers_in_subscription_order() {
    let mut bus = EventBus::new();
    let a = bus.subscribe(Topic::Process);
    let b = bus.subscribe(Topic::Process);
    let c = bus.subscribe(Topic::Cpu);
    assert_eq!((a, b, c), (1, 2, 3));
    assert_eq!(bus.publish(Topic::Process), vec![1, 2]);
    assert_eq!(bus.publish(Topic::Cpu), vec![3]);
    bus.unsubscribe(Topic::Process, a);
    assert_eq!(bus.publish(Topic::Process), vec![2]);
    bus.unsubscribe(Topic::Cpu, b);
    assert_eq!(bus.publish(Topic::Process), vec![2]);
    assert!(bus.publish(Topic::Ui).is_empty());
}

#[test]
fn hysteresis_needs_consecutive_spikes() {
    let mut h = Hysteresis::new();
    assert_eq!(h.observe(true, 3), None);
    assert_eq!(h.observe(true, 3), None);
    assert_eq!(h.observe(false, 3), None);
    assert_eq!(h.observe(true, 3), None);
    assert_eq!(h.observe(true, 3), None);
    assert_eq!(h.observe(true, 3), Some(true));
    assert_eq!(h.observe(true, 3), None);
    assert_eq!(h.observe(false, 3), None);
    assert_eq!(h.observe(false, 3), None);
    assert_eq!(h.observe(false, 3), Some(false));
}

#[test]
fn cpu_engine_reports_spike_and_end() {
    let mut e = default_cpu_engine();
    assert!(e.observe(9000).is_none());
    assert!(e.observe(8001).is_none());
    assert!(matches!(e.observe(9500), Some(CpuEvent::Spike { percent_x100: 9500 })));
    assert!(e.observe(8000).is_none());
    assert!(e.observe(100).is_none());
    assert!(matches!(e.observe(0), Some(CpuEvent::Normalized)));
}

#[test]
fn leak_needs_large_growth() {
    let mut t = LeakTracker::new();
    assert!(t.observe(5, 40000).is_none());
    assert!(matches!(t.observe(5, 60000), Some(MemoryEvent::LeakSuspected { pid: 5 })));
    assert!(t.observe(5, 65000).is_none());
    assert!(matches!(t.observe(6, 50001), Some(MemoryEvent::LeakSuspected { pid: 6 })));
}
