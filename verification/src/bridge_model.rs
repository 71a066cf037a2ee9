use crate::process_engine::MemoryEvent;
use crate::process_events::{EventView, ProcessEvent};
use crate::process_state::{sum_cpu, sum_memory, ProcessState};
use crate::rules::{Finding, FindingView, Severity};
use crate::security_engine::SecurityEvent;
use crate::text::string_of;
use vstd::prelude::*;
use vstd::string::StringExecFns;

verus! {

broadcast use {vstd::string::group_string_axioms, vstd::seq_lib::group_seq_properties, vstd::seq::group_seq_axioms};

/// Whether some finding has severity `s`.
pub open spec fn has_severity(fs: Seq<FindingView>, s: Severity) -> bool {
    exists|i: int| 0 <= i < fs.len() && fs[i].severity == s
}

/// The threat level the bridge reports for a set of findings: the gravest severity present
/// decides (Critical, then High as Suspicious, then Medium as Elevated); otherwise Normal.
pub open spec fn threat_of(fs: Seq<FindingView>) -> Seq<char> {
    if has_severity(fs, Severity::Critical) {
        "Critical"@
    } else if has_severity(fs, Severity::High) {
        "Suspicious"@
    } else if has_severity(fs, Severity::Medium) {
        "Elevated"@
    } else {
        "Normal"@
    }
}

pub open spec fn findings_seq(v: Seq<Finding>) -> Seq<FindingView> {
    v.map_values(|f: Finding| f@)
}

fn any_severity(fs: &Vec<Finding>, s: Severity) -> (b: bool)
    ensures
        b == has_severity(findings_seq(fs@), s),
{
    let ghost v = findings_seq(fs@);
    let mut i: usize = 0;
    while i < fs.len()
        invariant
            i <= fs@.len(),
            v == findings_seq(fs@),
            forall|j: int| 0 <= j < i ==> v[j].severity != s,
        decreases fs@.len() - i,
    {
        proof {
            assert(v[i as int] == fs@[i as int]@);
        }
        if fs[i].severity == s {
            return true;
        }
        i = i + 1;
    }
    false
}

/// The threat level for `findings` (see `threat_of`).
pub fn threat_level(findings: &Vec<Finding>) -> (r: &'static str)
    ensures
        r@ == threat_of(findings_seq(findings@)),
{
    if any_severity(findings, Severity::Critical) {
        "Critical"
    } else if any_severity(findings, Severity::High) {
        "Suspicious"
    } else if any_severity(findings, Severity::Medium) {
        "Elevated"
    } else {
        "Normal"
    }
}

/// The system figures the bridge serves: total CPU of the snapshot capped at 100%, memory in
/// use, the number of processes and the threat level (hundredths of a percent and of a MB).
pub struct BridgeMetrics {
    pub cpu_percent_x100: u128,
    pub memory_used_mb_x100: u128,
    pub process_count: usize,
    pub threat_level: String,
}

/// The figures for the latest snapshot and its findings; zeros and Normal without a
/// snapshot.
pub fn snapshot_metrics(latest: &Option<ProcessState>, findings: &Vec<Finding>) -> (m: BridgeMetrics)
    ensures
        match latest {
            Some(s) => {
                &&& m.cpu_percent_x100 == (if sum_cpu(s.procs()) < 10000 { sum_cpu(s.procs()) } else { 10000 })
                &&& m.memory_used_mb_x100 == sum_memory(s.procs())
                &&& m.process_count == s.procs().len()
                &&& m.threat_level@ == threat_of(findings_seq(findings@))
            },
            None => {
                &&& m.cpu_percent_x100 == 0
                &&& m.memory_used_mb_x100 == 0
                &&& m.process_count == 0
                &&& m.threat_level@ == "Normal"@
            },
        },
{
    match latest {
        None => BridgeMetrics {
            cpu_percent_x100: 0,
            memory_used_mb_x100: 0,
            process_count: 0,
            threat_level: string_of("Normal"),
        },
        Some(s) => {
            let ghost ps = s.procs();
            let mut cpu: u128 = 0;
            let mut mem: u128 = 0;
            let n = s.processes.len();
            for i in 0..n
                invariant
                    n == ps.len(),
                    ps == s.procs(),
                    cpu == sum_cpu(ps.take(i as int)),
                    mem == sum_memory(ps.take(i as int)),
                    cpu <= i * 4294967295,
                    mem <= i * 4294967295,
            {
                proof {
                    assert(ps[i as int] == s.processes@[i as int]@);
                    assert(ps.take(i + 1).drop_last() =~= ps.take(i as int));
                }
                cpu = cpu + s.processes[i].cpu_percent_x100 as u128;
                mem = mem + s.processes[i].memory_mb_x100 as u128;
            }
            proof {
                assert(ps.take(n as int) =~= ps);
            }
            let capped = if cpu < 10000 { cpu } else { 10000 };
            BridgeMetrics {
                cpu_percent_x100: capped,
                memory_used_mb_x100: mem,
                process_count: n,
                threat_level: string_of(threat_level(findings)),
            }
        },
    }
}

/// The kind under which the bridge forwards a process event; other events are not
/// forwarded.
pub fn process_event_kind(ev: &ProcessEvent) -> (r: Option<&'static str>)
    ensures
        match ev@ {
            EventView::Started(_) => r matches Some(k) && k@ == "process.started"@,
            EventView::Terminated(_) => r matches Some(k) && k@ == "process.terminated"@,
            EventView::CpuSpike { .. } => r matches Some(k) && k@ == "process.cpuspike"@,
            _ => r is None,
        },
{
    match ev {
        ProcessEvent::Started(_) => Some("process.started"),
        ProcessEvent::Terminated(_) => Some("process.terminated"),
        ProcessEvent::CpuSpike { .. } => Some("process.cpuspike"),
        _ => None,
    }
}

/// The kind under which the bridge forwards a memory event; leak suspicions are not
/// forwarded.
pub fn memory_event_kind(ev: &MemoryEvent) -> (r: Option<&'static str>)
    ensures
        match ev {
            MemoryEvent::UsedSample { .. } => r matches Some(k) && k@ == "memory.used"@,
            MemoryEvent::PressureHigh { .. } => r matches Some(k) && k@ == "memory.pressure"@,
            MemoryEvent::ProcessMemorySample { .. } => r matches Some(k) && k@ == "memory.process"@,
            MemoryEvent::LeakSuspected { .. } => r is None,
        },
{
    match ev {
        MemoryEvent::UsedSample { .. } => Some("memory.used"),
        MemoryEvent::PressureHigh { .. } => Some("memory.pressure"),
        MemoryEvent::ProcessMemorySample { .. } => Some("memory.process"),
        MemoryEvent::LeakSuspected { .. } => None,
    }
}

/// The kind under which the bridge forwards a security event; only PowerShell spawns and
/// unsigned starts are forwarded.
pub fn security_event_kind(ev: &SecurityEvent) -> (r: Option<&'static str>)
    ensures
        match ev {
            SecurityEvent::PowershellSpawned { .. } => r matches Some(k) && k@ == "security.powershell_spawned"@,
            SecurityEvent::UnsignedProcessStarted { .. } => r matches Some(k) && k@ == "security.unsigned"@,
            _ => r is None,
        },
{
    match ev {
        SecurityEvent::PowershellSpawned { .. } => Some("security.powershell_spawned"),
        SecurityEvent::UnsignedProcessStarted { .. } => Some("security.unsigned"),
        _ => None,
    }
}

/// The kind under which the bridge forwards a display message: `ui.` and its topic.
pub fn ui_message_kind(topic: &str) -> (r: String)
    ensures
        r@ == "ui."@ + topic@,
{
    let mut s = string_of("ui.");
    s.append(topic);
    s
}

} // verus!
