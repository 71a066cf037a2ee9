use crate::process_engine::MemoryEvent;
use crate::process_events::{EventView, ProcessEvent};
use crate::process_state::{info_from_ref, info_of_process, Process};
use vstd::prelude::*;

verus! {

broadcast use {vstd::seq_lib::group_seq_properties, vstd::seq::group_seq_axioms};

/// The start and end events a collection reports against the pids of the previous one:
/// a start for each collected process whose pid was not collected before (in collection
/// order), then an end for each previous pid no longer collected (in previous order).
pub open spec fn collection_events(prev: Seq<u32>, procs: Seq<Process>) -> Seq<EventView> {
    procs.filter(|p: Process| !prev.contains(p.pid)).map_values(|p: Process| EventView::Started(info_of_process(p)))
        + prev.filter(|q: u32| !procs.map_values(|p: Process| p.pid).contains(q)).map_values(
        |q: u32| EventView::Terminated(q),
    )
}

pub open spec fn events_view(v: Seq<ProcessEvent>) -> Seq<EventView> {
    v.map_values(|e: ProcessEvent| e@)
}

fn has_pid_in(v: &Vec<u32>, x: u32) -> (b: bool)
    ensures
        b == v@.contains(x),
{
    let mut i: usize = 0;
    while i < v.len()
        invariant
            i <= v@.len(),
            forall|j: int| 0 <= j < i ==> v@[j] != x,
        decreases v@.len() - i,
    {
        if v[i] == x {
            proof {
                assert(v@[i as int] == x);
            }
            return true;
        }
        i = i + 1;
    }
    false
}

/// The pids of a collection, in order.
pub fn collected_pids(procs: &Vec<Process>) -> (r: Vec<u32>)
    ensures
        r@ == procs@.map_values(|p: Process| p.pid),
{
    let mut r: Vec<u32> = Vec::new();
    for i in 0..procs.len()
        invariant
            r@ == procs@.take(i as int).map_values(|p: Process| p.pid),
    {
        r.push(procs[i].pid);
        proof {
            assert(procs@.take(i + 1) =~= procs@.take(i as int).push(procs@[i as int]));
            assert(r@ =~= procs@.take(i + 1).map_values(|p: Process| p.pid));
        }
    }
    proof {
        assert(procs@.take(procs@.len() as int) =~= procs@);
    }
    r
}

/// The start and end events of a collection (see `collection_events`).
pub fn started_and_terminated(prev: &Vec<u32>, procs: &Vec<Process>) -> (r: Vec<ProcessEvent>)
    ensures
        events_view(r@) == collection_events(prev@, procs@),
{
    let ghost pa = |p: Process| !prev@.contains(p.pid);
    let ghost fa = |p: Process| EventView::Started(info_of_process(p));
    let mut out: Vec<ProcessEvent> = Vec::new();
    for i in 0..procs.len()
        invariant
            pa == (|p: Process| !prev@.contains(p.pid)),
            fa == (|p: Process| EventView::Started(info_of_process(p))),
            events_view(out@) == procs@.take(i as int).filter(pa).map_values(fa),
    {
        proof {
            crate::seq_facts::lemma_take_next(procs@, i as int);
            crate::seq_facts::lemma_filter_map_push(procs@.take(i as int), procs@[i as int], pa, fa);
        }
        if !has_pid_in(prev, procs[i].pid) {
            let info = info_from_ref(&procs[i]);
            let ghost before = out@;
            out.push(ProcessEvent::Started(info));
            proof {
                assert(events_view(out@) =~= events_view(before).push(EventView::Started(info@)));
            }
        }
    }
    proof {
        assert(procs@.take(procs@.len() as int) =~= procs@);
    }
    let ghost first = events_view(out@);
    let now = collected_pids(procs);
    let ghost pb = |q: u32| !procs@.map_values(|p: Process| p.pid).contains(q);
    let ghost fb = |q: u32| EventView::Terminated(q);
    for i in 0..prev.len()
        invariant
            now@ == procs@.map_values(|p: Process| p.pid),
            pb == (|q: u32| !procs@.map_values(|p: Process| p.pid).contains(q)),
            fb == (|q: u32| EventView::Terminated(q)),
            events_view(out@) == first + prev@.take(i as int).filter(pb).map_values(fb),
    {
        proof {
            crate::seq_facts::lemma_take_next(prev@, i as int);
            crate::seq_facts::lemma_filter_map_push(prev@.take(i as int), prev@[i as int], pb, fb);
        }
        if !has_pid_in(&now, prev[i]) {
            let ghost before = out@;
            out.push(ProcessEvent::Terminated(prev[i]));
            proof {
                assert(events_view(out@) =~= events_view(before).push(EventView::Terminated(prev@[i as int])));
            }
        }
    }
    proof {
        assert(prev@.take(prev@.len() as int) =~= prev@);
    }
    out
}

/// The memory events of a system memory sample (hundredths of a MB): always the sample,
/// then high pressure when more than 80% of the memory is in use.
pub fn memory_sample_events(used_x100: u32, total_x100: u32) -> (r: Vec<MemoryEvent>)
    ensures
        r@ == (if total_x100 > 0 && used_x100 * 100 > total_x100 * 80 {
            seq![MemoryEvent::UsedSample { used_mb_x100: used_x100 }, MemoryEvent::PressureHigh { used_mb_x100: used_x100 }]
        } else {
            seq![MemoryEvent::UsedSample { used_mb_x100: used_x100 }]
        }),
{
    let mut r: Vec<MemoryEvent> = Vec::new();
    r.push(MemoryEvent::UsedSample { used_mb_x100: used_x100 });
    if total_x100 > 0 && (used_x100 as u64) * 100 > (total_x100 as u64) * 80 {
        r.push(MemoryEvent::PressureHigh { used_mb_x100: used_x100 });
    }
    proof {
        assert(r@ =~= (if total_x100 > 0 && used_x100 * 100 > total_x100 * 80 {
            seq![MemoryEvent::UsedSample { used_mb_x100: used_x100 }, MemoryEvent::PressureHigh { used_mb_x100: used_x100 }]
        } else {
            seq![MemoryEvent::UsedSample { used_mb_x100: used_x100 }]
        }));
    }
    r
}

} // verus!
