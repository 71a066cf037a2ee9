use crate::clock::unix_timestamp;
use crate::process_state::{InfoView, ProcessInfo};
use crate::text::{decimal, fixed1, push_decimal, push_fixed1, string_of};
use vstd::prelude::*;
use vstd::string::StringExecFns;

verus! {

broadcast use {vstd::string::group_string_axioms, vstd::seq_lib::group_seq_properties, vstd::seq::group_seq_axioms};

/// What the process engine reports about successive snapshots. CPU figures are hundredths of
/// a percent.
pub enum ProcessEvent {
    Started(ProcessInfo),
    Terminated(u32),
    CpuSpike { pid: u32, cpu_x100: u32 },
    FamilyCpuSpike { family: String, cpu_x100: u128 },
    FamilyNormalized { family: String },
}

pub enum EventView {
    Started(InfoView),
    Terminated(u32),
    CpuSpike { pid: u32, cpu_x100: u32 },
    FamilyCpuSpike { family: Seq<char>, cpu_x100: u128 },
    FamilyNormalized { family: Seq<char> },
}

impl View for ProcessEvent {
    type V = EventView;

    open spec fn view(&self) -> EventView {
        match self {
            ProcessEvent::Started(info) => EventView::Started(info@),
            ProcessEvent::Terminated(pid) => EventView::Terminated(*pid),
            ProcessEvent::CpuSpike { pid, cpu_x100 } => EventView::CpuSpike { pid: *pid, cpu_x100: *cpu_x100 },
            ProcessEvent::FamilyCpuSpike { family, cpu_x100 } => EventView::FamilyCpuSpike {
                family: family@,
                cpu_x100: *cpu_x100,
            },
            ProcessEvent::FamilyNormalized { family } => EventView::FamilyNormalized { family: family@ },
        }
    }
}

impl Clone for ProcessEvent {
    fn clone(&self) -> (r: Self)
        ensures
            r@ == self@,
    {
        match self {
            ProcessEvent::Started(info) => ProcessEvent::Started(info.clone()),
            ProcessEvent::Terminated(pid) => ProcessEvent::Terminated(*pid),
            ProcessEvent::CpuSpike { pid, cpu_x100 } => ProcessEvent::CpuSpike { pid: *pid, cpu_x100: *cpu_x100 },
            ProcessEvent::FamilyCpuSpike { family, cpu_x100 } => ProcessEvent::FamilyCpuSpike {
                family: family.clone(),
                cpu_x100: *cpu_x100,
            },
            ProcessEvent::FamilyNormalized { family } => ProcessEvent::FamilyNormalized { family: family.clone() },
        }
    }
}

/// The one-line log text of an event.
pub open spec fn event_text(e: EventView) -> Seq<char> {
    match e {
        EventView::Started(info) => "[PROCESS_STARTED] PID:"@ + decimal(info.pid as nat) + " NAME:"@ + info.name
            + " MEM(MB):"@ + fixed1(info.memory_mb_x100 as nat) + " THREADS:"@ + decimal(info.threads as nat),
        EventView::Terminated(pid) => "[PROCESS_TERMINATED] PID:"@ + decimal(pid as nat),
        EventView::CpuSpike { pid, cpu_x100 } => "[PROCESS_CPU_SPIKE] PID:"@ + decimal(pid as nat) + " CPU:"@
            + fixed1(cpu_x100 as nat) + "%"@,
        EventView::FamilyCpuSpike { family, cpu_x100 } => "[FAMILY_CPU_SPIKE] "@ + family + " CPU:"@ + fixed1(
            cpu_x100 as nat,
        ) + "%"@,
        EventView::FamilyNormalized { family } => "[FAMILY_NORMALIZED] "@ + family,
    }
}

impl ProcessEvent {
    /// The one-line log text of the event (what the event prints as).
    pub fn describe(&self) -> (s: String)
        requires
            self@ matches EventView::FamilyCpuSpike { cpu_x100, .. } ==> cpu_x100 + 5 <= u128::MAX,
        ensures
            s@ == event_text(self@),
    {
        match self {
            ProcessEvent::Started(info) => {
                let mut s = string_of("[PROCESS_STARTED] PID:");
                push_decimal(&mut s, info.pid as u128);
                s.append(" NAME:");
                s.append(info.name.as_str());
                s.append(" MEM(MB):");
                push_fixed1(&mut s, info.memory_mb_x100 as u128);
                s.append(" THREADS:");
                push_decimal(&mut s, info.threads as u128);
                s
            },
            ProcessEvent::Terminated(pid) => {
                let mut s = string_of("[PROCESS_TERMINATED] PID:");
                push_decimal(&mut s, *pid as u128);
                s
            },
            ProcessEvent::CpuSpike { pid, cpu_x100 } => {
                let mut s = string_of("[PROCESS_CPU_SPIKE] PID:");
                push_decimal(&mut s, *pid as u128);
                s.append(" CPU:");
                push_fixed1(&mut s, *cpu_x100 as u128);
                s.append("%");
                s
            },
            ProcessEvent::FamilyCpuSpike { family, cpu_x100 } => {
                let mut s = string_of("[FAMILY_CPU_SPIKE] ");
                s.append(family.as_str());
                s.append(" CPU:");
                push_fixed1(&mut s, *cpu_x100);
                s.append("%");
                s
            },
            ProcessEvent::FamilyNormalized { family } => {
                let mut s = string_of("[FAMILY_NORMALIZED] ");
                s.append(family.as_str());
                s
            },
        }
    }
}

/// A recorded event and the UNIX time (seconds) at which it was stored.
pub open spec fn stamped_view(e: (i64, ProcessEvent)) -> (i64, EventView) {
    (e.0, e.1@)
}

/// Timestamped process events in the order they were stored, so that displays can show when
/// they occurred.
pub struct EventStore {
    pub events: Vec<(i64, ProcessEvent)>,
}

impl EventStore {
    pub open spec fn view_events(&self) -> Seq<(i64, EventView)> {
        self.events@.map_values(|e: (i64, ProcessEvent)| stamped_view(e))
    }

    pub fn new() -> (s: Self)
        ensures
            s.view_events() == Seq::<(i64, EventView)>::empty(),
    {
        let s = EventStore { events: Vec::new() };
        assert(s.view_events() =~= Seq::<(i64, EventView)>::empty());
        s
    }
}

/// Store a copy of `ev`, stamped with `ts`.
pub fn store_event_at(store: &mut EventStore, ev: &ProcessEvent, ts: i64)
    ensures
        final(store).view_events() == old(store).view_events().push((ts, ev@)),
{
    let ghost before = store.events@;
    store.events.push((ts, ev.clone()));
    proof {
        assert(store.events@.map_values(|e: (i64, ProcessEvent)| stamped_view(e)) =~= before.map_values(
            |e: (i64, ProcessEvent)| stamped_view(e),
        ).push((ts, ev@)));
    }
}

/// Store a copy of `ev`, stamped with the current UNIX time.
pub fn store_event(store: &mut EventStore, ev: &ProcessEvent)
    ensures
        final(store).view_events().len() == old(store).view_events().len() + 1,
        final(store).view_events().drop_last() == old(store).view_events(),
        final(store).view_events().last().1 == ev@,
{
    let ts = unix_timestamp();
    store_event_at(store, ev, ts);
}

/// A copy of every stored event, oldest first.
pub fn get_events(store: &EventStore) -> (r: Vec<(i64, ProcessEvent)>)
    ensures
        r@.map_values(|e: (i64, ProcessEvent)| stamped_view(e)) == store.view_events(),
{
    let mut out: Vec<(i64, ProcessEvent)> = Vec::new();
    let n = store.events.len();
    for i in 0..n
        invariant
            n == store.events@.len(),
            out@.map_values(|e: (i64, ProcessEvent)| stamped_view(e)) == store.view_events().take(i as int),
    {
        let ghost before = out@;
        let e = &store.events[i];
        out.push((e.0, e.1.clone()));
        proof {
            assert(out@.map_values(|e: (i64, ProcessEvent)| stamped_view(e)) =~= before.map_values(
                |e: (i64, ProcessEvent)| stamped_view(e),
            ).push(stamped_view(store.events@[i as int])));
            assert(store.view_events().take(i + 1) =~= store.view_events().take(i as int).push(
                stamped_view(store.events@[i as int]),
            ));
        }
    }
    proof {
        assert(store.view_events().take(n as int) =~= store.view_events());
    }
    out
}

/// A log line of an event: the clock text `t` in brackets, then the event's text.
pub fn log_line(t: &str, ev: &ProcessEvent) -> (s: String)
    requires
        ev@ matches EventView::FamilyCpuSpike { cpu_x100, .. } ==> cpu_x100 + 5 <= u128::MAX,
    ensures
        s@ == "["@ + t@ + "] "@ + event_text(ev@),
{
    let mut s = string_of("[");
    s.append(t);
    s.append("] ");
    let d = ev.describe();
    s.append(d.as_str());
    s
}

} // verus!
