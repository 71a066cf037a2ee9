use crate::event_bus::{EventBus, Sub, Topic};
use crate::process_events::{event_text, EventView, ProcessEvent};
use crate::rules::{severity_name, severity_to_string, Finding, FindingView};
use crate::runtime::{hold, release_all, released_all, Subscription};
use crate::text::string_of;
use vstd::prelude::*;
use vstd::string::StringExecFns;

verus! {

/// Subscribe the console to process events and to rule findings; both subscriptions are kept
/// in `held`, in that order.
pub fn register(bus: &mut EventBus, held: &mut Vec<Subscription>)
    requires
        old(bus).wf(),
        old(bus).next_id < usize::MAX - 1,
    ensures
        final(bus).wf(),
        final(bus).next_id == old(bus).next_id + 2,
        final(bus).subs@ == old(bus).subs@.push(Sub { id: old(bus).next_id, topic: Topic::Process }).push(
            Sub { id: (old(bus).next_id + 1) as usize, topic: Topic::Finding },
        ),
        final(held)@ == old(held)@.push(Subscription { id: old(bus).next_id, topic: Topic::Process }).push(
            Subscription { id: (old(bus).next_id + 1) as usize, topic: Topic::Finding },
        ),
{
    hold(bus, held, Topic::Process);
    hold(bus, held, Topic::Finding);
}

/// Release every held subscription, each through the process-event unsubscription first.
pub fn unregister(bus: &mut EventBus, held: &mut Vec<Subscription>)
    requires
        old(bus).wf(),
    ensures
        final(bus).wf(),
        final(bus).subs@ == released_all(old(bus).subs@, old(held)@, Topic::Process),
        final(held)@.len() == 0,
{
    release_all(bus, held, Topic::Process);
}

/// What the console prints for a process event: terminations and CPU spikes as their log
/// text; other events are not printed.
pub fn console_line(ev: &ProcessEvent) -> (r: Option<String>)
    ensures
        match ev@ {
            EventView::Terminated(_) => r matches Some(l) && l@ == event_text(ev@),
            EventView::CpuSpike { .. } => r matches Some(l) && l@ == event_text(ev@),
            _ => r is None,
        },
{
    match ev {
        ProcessEvent::Terminated(_) => Some(ev.describe()),
        ProcessEvent::CpuSpike { .. } => Some(ev.describe()),
        _ => None,
    }
}

/// What the console prints for a finding: title, risk and severity, then the description on
/// an indented second line.
pub open spec fn finding_console(f: FindingView) -> Seq<char> {
    "[FINDING] "@ + f.title + " risk="@ + crate::text::decimal(f.risk as nat) + " severity="@ + severity_name(f.severity)
        + "\n  "@ + f.description
}

/// What the console prints for a finding (see `finding_console`).
pub fn finding_console_text(f: &Finding) -> (s: String)
    ensures
        s@ == finding_console(f@),
{
    let mut s = string_of("[FINDING] ");
    s.append(f.title.as_str());
    s.append(" risk=");
    crate::text::push_decimal(&mut s, f.risk as u128);
    s.append(" severity=");
    let sev = severity_to_string(&f.severity);
    s.append(sev.as_str());
    s.append("\n  ");
    s.append(f.description.as_str());
    s
}

} // verus!
