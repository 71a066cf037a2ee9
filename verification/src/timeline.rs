use crate::clock::unix_timestamp;
use crate::process_events::{EventView, ProcessEvent};
use crate::rules::{severity_name, severity_to_string, Finding, FindingView};
use crate::runtime::UiMessage;
use crate::text::{decimal, fixed1, push_decimal, push_fixed1, string_of};
use vstd::prelude::*;
use vstd::string::StringExecFns;

verus! {

broadcast use {vstd::string::group_string_axioms, vstd::seq_lib::group_seq_properties, vstd::seq::group_seq_axioms};

/// One line of the timeline: when, what kind of record, the process it concerns and a
/// message.
pub struct EventRecord {
    pub ts: i64,
    pub kind: String,
    pub pid: Option<u32>,
    pub msg: String,
}

pub struct RecordView {
    pub ts: i64,
    pub kind: Seq<char>,
    pub pid: Option<u32>,
    pub msg: Seq<char>,
}

impl View for EventRecord {
    type V = RecordView;

    open spec fn view(&self) -> RecordView {
        RecordView { ts: self.ts, kind: self.kind@, pid: self.pid, msg: self.msg@ }
    }
}

impl Clone for EventRecord {
    fn clone(&self) -> (r: Self)
        ensures
            r@ == self@,
    {
        EventRecord { ts: self.ts, kind: self.kind.clone(), pid: self.pid, msg: self.msg.clone() }
    }
}

/// The timeline record of a process event at time `ts`.
pub open spec fn event_record_view(e: EventView, ts: i64) -> RecordView {
    match e {
        EventView::Started(info) => RecordView {
            ts,
            kind: "process_started"@,
            pid: Some(info.pid),
            msg: "Started "@ + info.name,
        },
        EventView::Terminated(pid) => RecordView {
            ts,
            kind: "process_terminated"@,
            pid: Some(pid),
            msg: "Terminated pid "@ + decimal(pid as nat),
        },
        EventView::CpuSpike { pid, cpu_x100 } => RecordView {
            ts,
            kind: "process_cpu_spike"@,
            pid: Some(pid),
            msg: "CPU spike: "@ + fixed1(cpu_x100 as nat) + "%"@,
        },
        EventView::FamilyCpuSpike { family, cpu_x100 } => RecordView {
            ts,
            kind: "family_cpu_spike"@,
            pid: None,
            msg: "Family "@ + family + " CPU "@ + fixed1(cpu_x100 as nat) + "%"@,
        },
        EventView::FamilyNormalized { family } => RecordView {
            ts,
            kind: "family_normalized"@,
            pid: None,
            msg: "Family "@ + family + " normalized"@,
        },
    }
}

/// Law: a timeline record keeps the event's time and is filed under the process the event is
/// about: a start under the started process, a termination under the terminated one, a CPU
/// spike under the spiking one; family events name no process.
pub proof fn law_record_names_its_process(e: EventView, ts: i64)
    ensures
        event_record_view(e, ts).ts == ts,
        event_record_view(e, ts).pid == match e {
            EventView::Started(info) => Some(info.pid),
            EventView::Terminated(pid) => Some(pid),
            EventView::CpuSpike { pid, .. } => Some(pid),
            EventView::FamilyCpuSpike { .. } => None::<u32>,
            EventView::FamilyNormalized { .. } => None::<u32>,
        },
{
}

/// Law: appending the record of an event about process `pid` to a timeline adds exactly that
/// record, last, to the records concerning `pid`, and leaves the records of every other pid
/// as they were.
pub proof fn law_record_joins_its_timeline(rs: Seq<RecordView>, e: EventView, ts: i64, pid: u32, other: u32)
    requires
        match e {
            EventView::Started(info) => info.pid == pid,
            EventView::Terminated(p) => p == pid,
            EventView::CpuSpike { pid: p, .. } => p == pid,
            _ => false,
        },
        other != pid,
    ensures
        rs.push(event_record_view(e, ts)).filter(|x: RecordView| x.pid == Some(pid)) == rs.filter(
            |x: RecordView| x.pid == Some(pid),
        ).push(event_record_view(e, ts)),
        rs.push(event_record_view(e, ts)).filter(|x: RecordView| x.pid == Some(other)) == rs.filter(
            |x: RecordView| x.pid == Some(other),
        ),
{
    rs.lemma_filter_push(event_record_view(e, ts), |x: RecordView| x.pid == Some(pid));
    rs.lemma_filter_push(event_record_view(e, ts), |x: RecordView| x.pid == Some(other));
}

/// The timeline record of a process event at time `ts` (see `event_record_view`).
pub fn event_record_at(ev: &ProcessEvent, ts: i64) -> (r: EventRecord)
    requires
        ev@ matches EventView::FamilyCpuSpike { cpu_x100, .. } ==> cpu_x100 + 5 <= u128::MAX,
    ensures
        r@ == event_record_view(ev@, ts),
{
    match ev {
        ProcessEvent::Started(info) => {
            let mut m = string_of("Started ");
            m.append(info.name.as_str());
            EventRecord { ts, kind: string_of("process_started"), pid: Some(info.pid), msg: m }
        },
        ProcessEvent::Terminated(pid) => {
            let mut m = string_of("Terminated pid ");
            push_decimal(&mut m, *pid as u128);
            EventRecord { ts, kind: string_of("process_terminated"), pid: Some(*pid), msg: m }
        },
        ProcessEvent::CpuSpike { pid, cpu_x100 } => {
            let mut m = string_of("CPU spike: ");
            push_fixed1(&mut m, *cpu_x100 as u128);
            m.append("%");
            EventRecord { ts, kind: string_of("process_cpu_spike"), pid: Some(*pid), msg: m }
        },
        ProcessEvent::FamilyCpuSpike { family, cpu_x100 } => {
            let mut m = string_of("Family ");
            m.append(family.as_str());
            m.append(" CPU ");
            push_fixed1(&mut m, *cpu_x100);
            m.append("%");
            EventRecord { ts, kind: string_of("family_cpu_spike"), pid: None, msg: m }
        },
        ProcessEvent::FamilyNormalized { family } => {
            let mut m = string_of("Family ");
            m.append(family.as_str());
            m.append(" normalized");
            EventRecord { ts, kind: string_of("family_normalized"), pid: None, msg: m }
        },
    }
}

/// The timeline record of a process event, stamped with the local clock.
pub fn event_record(ev: &ProcessEvent) -> (r: EventRecord)
    requires
        ev@ matches EventView::FamilyCpuSpike { cpu_x100, .. } ==> cpu_x100 + 5 <= u128::MAX,
    ensures
        exists|ts: i64| r@ == event_record_view(ev@, ts),
{
    let ts = unix_timestamp();
    event_record_at(ev, ts)
}

/// The timeline record of a finding at time `ts`.
pub open spec fn finding_record_view(f: FindingView, ts: i64) -> RecordView {
    RecordView {
        ts,
        kind: "finding"@,
        pid: None,
        msg: f.title + " risk="@ + decimal(f.risk as nat) + " severity="@ + severity_name(f.severity),
    }
}

/// The timeline record of a finding at time `ts` (see `finding_record_view`).
pub fn finding_record_at(f: &Finding, ts: i64) -> (r: EventRecord)
    ensures
        r@ == finding_record_view(f@, ts),
{
    let mut m = f.title.clone();
    m.append(" risk=");
    push_decimal(&mut m, f.risk as u128);
    m.append(" severity=");
    let sev = severity_to_string(&f.severity);
    m.append(sev.as_str());
    EventRecord { ts, kind: string_of("finding"), pid: None, msg: m }
}

/// The timeline record of a display message at time `ts`: kind `ui:` and the topic, the
/// body as message.
pub fn message_record_at(m: &UiMessage, ts: i64) -> (r: EventRecord)
    ensures
        r@ == (RecordView { ts, kind: "ui:"@ + m.topic@, pid: None, msg: m.body@ }),
{
    let mut k = string_of("ui:");
    k.append(m.topic.as_str());
    EventRecord { ts, kind: k, pid: None, msg: m.body.clone() }
}

/// The records concerning `pid`, in timeline order.
pub fn records_for_pid(records: &Vec<EventRecord>, pid: u32) -> (r: Vec<EventRecord>)
    ensures
        r@.map_values(|x: EventRecord| x@) == records@.map_values(|x: EventRecord| x@).filter(
            |x: RecordView| x.pid == Some(pid),
        ),
{
    let ghost rv = records@.map_values(|x: EventRecord| x@);
    let ghost p = |x: RecordView| x.pid == Some(pid);
    let mut out: Vec<EventRecord> = Vec::new();
    for i in 0..records.len()
        invariant
            rv == records@.map_values(|x: EventRecord| x@),
            p == (|x: RecordView| x.pid == Some(pid)),
            out@.map_values(|x: EventRecord| x@) == rv.take(i as int).filter(p),
    {
        let ghost before = out@.map_values(|x: EventRecord| x@);
        proof {
            crate::seq_facts::lemma_take_next(rv, i as int);
            rv.take(i as int).lemma_filter_push(rv[i as int], p);
        }
        if records[i].pid == Some(pid) {
            out.push(records[i].clone());
            proof {
                assert(out@.map_values(|x: EventRecord| x@) =~= before.push(rv[i as int]));
            }
        }
    }
    proof {
        assert(rv.take(records@.len() as int) =~= rv);
    }
    out
}

} // verus!
