use crate::graph::{
    apply_process_started, apply_process_terminated, has_node, proc_id, record_edge, EdgeView, Graph, KindView,
    NodeType, NodeView,
};
use crate::process_events::{EventView, ProcessEvent};
use crate::process_state::{
    core_eq, family_for_name, family_of, has_family, has_pid, lemma_proc_with, pids_distinct, lemma_wf_core, opt_identity, opt_str,
    proc_with, same_core, FamilyView, IdentityView, InfoView, ProcessFamily, ProcessIdentity, ProcessInfo, ProcessState,
};
use crate::text::{lemma_lex_irrefl, lemma_lex_total, lemma_lex_trans, lex_lt, str_lt};
use crate::security_engine::{fold_ops, run_op, sec_of, SecOp, SecOpView, SignatureVerification};
use crate::security_state::{same_but_scores, set_process_score, SecurityState};
use crate::text::string_of;
use crate::seq_facts::{lemma_filter_map_push, lemma_take_next};
use vstd::prelude::*;

verus! {

broadcast use {vstd::string::group_string_axioms, vstd::seq_lib::group_seq_properties, vstd::seq::group_seq_axioms};

// ---------------------------------------------------------------------------------------------
// Snapshot differences
// ---------------------------------------------------------------------------------------------

/// A process of `new` that `old` does not have.
pub open spec fn is_new(old: Seq<InfoView>, p: InfoView) -> bool {
    !has_pid(old, p.pid)
}

/// A process of `old` that `new` does not have.
pub open spec fn is_gone(new: Seq<InfoView>, p: InfoView) -> bool {
    !has_pid(new, p.pid)
}

/// A process of both snapshots whose CPU use is above `threshold` and rose by more than five
/// percentage points (figures in hundredths).
pub open spec fn is_spike(old: Seq<InfoView>, p: InfoView, threshold: u32) -> bool {
    has_pid(old, p.pid) && p.cpu_percent_x100 > threshold && p.cpu_percent_x100 - proc_with(old, p.pid).cpu_percent_x100
        > 500
}

/// The events between two snapshots: starts (in `new` order), then terminations (in `old`
/// order), then CPU spikes (in `new` order).
pub open spec fn diff_events(old: Seq<InfoView>, new: Seq<InfoView>, threshold: u32) -> Seq<EventView> {
    new.filter(|p: InfoView| is_new(old, p)).map_values(|p: InfoView| EventView::Started(p)) + old.filter(
        |p: InfoView| is_gone(new, p),
    ).map_values(|p: InfoView| EventView::Terminated(p.pid)) + new.filter(|p: InfoView| is_spike(old, p, threshold)).map_values(
        |p: InfoView| EventView::CpuSpike { pid: p.pid, cpu_x100: p.cpu_percent_x100 },
    )
}

/// Law: the CPU spikes between two snapshots are exactly the processes of both whose CPU use
/// is above the threshold and rose by more than five points; each spike carries the new
/// figure.
pub proof fn law_spikes_above_threshold(old: Seq<InfoView>, new: Seq<InfoView>, threshold: u32)
    requires
        pids_distinct(new),
    ensures
        forall|i: int|
            0 <= i < diff_events(old, new, threshold).len() ==> (#[trigger] diff_events(old, new, threshold)[i] matches EventView::CpuSpike { pid, cpu_x100 } ==> {
                &&& cpu_x100 > threshold
                &&& has_pid(old, pid)
                &&& has_pid(new, pid)
                &&& proc_with(new, pid).cpu_percent_x100 == cpu_x100
                &&& cpu_x100 - proc_with(old, pid).cpu_percent_x100 > 500
            }),
        forall|k: int|
            0 <= k < new.len() && has_pid(old, new[k].pid) && new[k].cpu_percent_x100 > threshold
                && new[k].cpu_percent_x100 - proc_with(old, new[k].pid).cpu_percent_x100 > 500 ==> diff_events(
                old,
                new,
                threshold,
            ).contains(EventView::CpuSpike { pid: #[trigger] new[k].pid, cpu_x100: new[k].cpu_percent_x100 }),
{
    let a = new.filter(|p: InfoView| is_new(old, p)).map_values(|p: InfoView| EventView::Started(p));
    let b = old.filter(|p: InfoView| is_gone(new, p)).map_values(|p: InfoView| EventView::Terminated(p.pid));
    let sp = |p: InfoView| is_spike(old, p, threshold);
    let cf = |p: InfoView| EventView::CpuSpike { pid: p.pid, cpu_x100: p.cpu_percent_x100 };
    let c = new.filter(sp).map_values(cf);
    let all = diff_events(old, new, threshold);
    assert(all == a + b + c);
    new.filter_lemma(sp);
    assert forall|i: int| 0 <= i < all.len() implies (#[trigger] all[i] matches EventView::CpuSpike { pid, cpu_x100 } ==> {
        &&& cpu_x100 > threshold
        &&& has_pid(old, pid)
        &&& has_pid(new, pid)
        &&& proc_with(new, pid).cpu_percent_x100 == cpu_x100
        &&& cpu_x100 - proc_with(old, pid).cpu_percent_x100 > 500
    }) by {
        if i >= a.len() + b.len() {
            let k = i - a.len() - b.len();
            let q = new.filter(sp)[k];
            assert(all[i] == c[k]);
            assert(sp(q));
            assert(new.filter(sp).contains(q));
            new.lemma_filter_contains_rev(sp, q);
            assert(new.contains(q));
            let j = choose|j: int| 0 <= j < new.len() && new[j] == q;
            lemma_proc_with(new, j);
        } else if i >= a.len() {
            assert(all[i] == b[i - a.len()]);
        } else {
            assert(all[i] == a[i]);
        }
    }
    assert forall|k: int|
        0 <= k < new.len() && has_pid(old, new[k].pid) && new[k].cpu_percent_x100 > threshold
            && new[k].cpu_percent_x100 - proc_with(old, new[k].pid).cpu_percent_x100 > 500 implies all.contains(
            EventView::CpuSpike { pid: #[trigger] new[k].pid, cpu_x100: new[k].cpu_percent_x100 },
        ) by {
        assert(sp(new[k]));
        assert(new.filter(sp).contains(new[k]));
        let m = choose|m: int| 0 <= m < new.filter(sp).len() && new.filter(sp)[m] == new[k];
        assert(c[m] == cf(new[k]));
        assert(all[a.len() + b.len() + m] == c[m]);
    }
}

pub open spec fn events_of(v: Seq<ProcessEvent>) -> Seq<EventView> {
    v.map_values(|e: ProcessEvent| e@)
}

fn push_event(out: &mut Vec<ProcessEvent>, e: ProcessEvent)
    ensures
        events_of(final(out)@) == events_of(old(out)@).push(e@),
{
    let ghost before = out@;
    out.push(e);
    proof {
        assert(events_of(out@) =~= events_of(before).push(e@));
    }
}

/// The events between snapshots `old` and `new` (see `diff_events`).
pub fn diff(old: &ProcessState, new: &ProcessState, threshold: u32) -> (r: Vec<ProcessEvent>)
    requires
        old.wf(),
        new.wf(),
    ensures
        events_of(r@) == diff_events(old.procs(), new.procs(), threshold),
{
    let ghost op = old.procs();
    let ghost np = new.procs();
    let mut out: Vec<ProcessEvent> = Vec::new();
    let ghost p1 = |p: InfoView| is_new(op, p);
    let ghost f1 = |p: InfoView| EventView::Started(p);
    let n = new.processes.len();
    for i in 0..n
        invariant
            n == np.len(),
            np == new.procs(),
            op == old.procs(),
            old.wf(),
            p1 == (|p: InfoView| is_new(op, p)),
            f1 == (|p: InfoView| EventView::Started(p)),
            events_of(out@) == np.take(i as int).filter(p1).map_values(f1),
    {
        let info = &new.processes[i];
        proof {
            assert(np[i as int] == info@);
            lemma_take_next(np, i as int);
            lemma_filter_map_push(np.take(i as int), info@, p1, f1);
        }
        if old.find_process(info.pid).is_none() {
            push_event(&mut out, ProcessEvent::Started(info.clone()));
        }
    }
    let ghost part1 = events_of(out@);
    proof {
        assert(np.take(n as int) =~= np);
    }
    let ghost p2 = |p: InfoView| is_gone(np, p);
    let ghost f2 = |p: InfoView| EventView::Terminated(p.pid);
    let m = old.processes.len();
    for i in 0..m
        invariant
            m == op.len(),
            np == new.procs(),
            op == old.procs(),
            new.wf(),
            p2 == (|p: InfoView| is_gone(np, p)),
            f2 == (|p: InfoView| EventView::Terminated(p.pid)),
            events_of(out@) == part1 + op.take(i as int).filter(p2).map_values(f2),
    {
        let info = &old.processes[i];
        proof {
            assert(op[i as int] == info@);
            lemma_take_next(op, i as int);
            lemma_filter_map_push(op.take(i as int), info@, p2, f2);
        }
        if new.find_process(info.pid).is_none() {
            let ghost before = events_of(out@);
            push_event(&mut out, ProcessEvent::Terminated(info.pid));
            proof {
                assert(before.push(EventView::Terminated(info.pid)) =~= part1 + op.take(i as int).filter(p2).map_values(f2).push(
                    f2(info@),
                ));
            }
        }
    }
    let ghost part2 = events_of(out@);
    proof {
        assert(op.take(m as int) =~= op);
    }
    let ghost p3 = |p: InfoView| is_spike(op, p, threshold);
    let ghost f3 = |p: InfoView| EventView::CpuSpike { pid: p.pid, cpu_x100: p.cpu_percent_x100 };
    for i in 0..n
        invariant
            n == np.len(),
            np == new.procs(),
            op == old.procs(),
            old.wf(),
            p3 == (|p: InfoView| is_spike(op, p, threshold)),
            f3 == (|p: InfoView| EventView::CpuSpike { pid: p.pid, cpu_x100: p.cpu_percent_x100 }),
            events_of(out@) == part2 + np.take(i as int).filter(p3).map_values(f3),
    {
        let info = &new.processes[i];
        proof {
            assert(np[i as int] == info@);
            lemma_take_next(np, i as int);
            lemma_filter_map_push(np.take(i as int), info@, p3, f3);
        }
        match old.find_process(info.pid) {
            Some(k) => {
                let old_cpu = old.processes[k].cpu_percent_x100;
                proof {
                    assert(op[k as int] == old.processes@[k as int]@);
                }
                if info.cpu_percent_x100 > threshold && info.cpu_percent_x100 > old_cpu && info.cpu_percent_x100 - old_cpu
                    > 500 {
                    let ghost before = events_of(out@);
                    push_event(&mut out, ProcessEvent::CpuSpike { pid: info.pid, cpu_x100: info.cpu_percent_x100 });
                    proof {
                        assert(before.push(f3(info@)) =~= part2 + np.take(i as int).filter(p3).map_values(f3).push(
                            f3(info@),
                        ));
                    }
                }
            },
            None => {},
        }
    }
    proof {
        assert(np.take(n as int) =~= np);
        assert(events_of(out@) =~= diff_events(op, np, threshold));
    }
    out
}

// ---------------------------------------------------------------------------------------------
// Applying events to the graph and the security bookkeeping
// ---------------------------------------------------------------------------------------------

/// The graph nodes after the starts and terminations of `evs`.
pub open spec fn nodes_after(ns: Seq<NodeView>, evs: Seq<EventView>) -> Seq<NodeView>
    decreases evs.len(),
{
    if evs.len() == 0 {
        ns
    } else {
        let prev = nodes_after(ns, evs.drop_last());
        match evs.last() {
            EventView::Started(info) => if has_node(prev, proc_id(info.pid)) {
                prev
            } else {
                prev.push(NodeView { id: proc_id(info.pid), node_type: NodeType::Process, name: info.name, pid: Some(info.pid) })
            },
            EventView::Terminated(pid) => prev.filter(|n: NodeView| n.id != proc_id(pid)),
            _ => prev,
        }
    }
}

/// The graph edges after the starts and terminations of `evs`, where the parent link of the
/// start at position `i` is recorded at time `tss[i]`.
pub open spec fn edges_after(ns: Seq<NodeView>, es: Seq<EdgeView>, evs: Seq<EventView>, tss: Seq<u64>) -> Seq<EdgeView>
    decreases evs.len(),
{
    if evs.len() == 0 {
        es
    } else {
        let prev = edges_after(ns, es, evs.drop_last(), tss.drop_last());
        match evs.last() {
            EventView::Started(info) => if info.parent_pid != 0 && has_node(nodes_after(ns, evs), proc_id(info.parent_pid)) {
                record_edge(prev, proc_id(info.parent_pid), proc_id(info.pid), KindView::ParentOf, tss.last())
            } else {
                prev
            },
            EventView::Terminated(pid) => prev.filter(|e: EdgeView| e.src != proc_id(pid) && e.dst != proc_id(pid)),
            _ => prev,
        }
    }
}

/// The security bookkeeping of the events: one spawned child for the (nonzero) parent of each
/// start.
pub open spec fn child_ops(evs: Seq<EventView>) -> Seq<SecOpView>
    decreases evs.len(),
{
    if evs.len() == 0 {
        Seq::empty()
    } else {
        let prev = child_ops(evs.drop_last());
        match evs.last() {
            EventView::Started(info) => if info.parent_pid != 0 {
                prev.push(SecOpView::ChildSpawn(info.parent_pid))
            } else {
                prev
            },
            _ => prev,
        }
    }
}

/// Apply the starts and terminations of `events` to the graph (process nodes and parent
/// links), and count each start as a spawned child of its nonzero parent.
pub fn apply_events(g: &mut Graph, sec: &mut SecurityState, events: &Vec<ProcessEvent>)
    requires
        old(g).wf(),
        old(sec).wf(),
    ensures
        final(g).wf(),
        final(sec).wf(),
        final(g).nodes_v() == nodes_after(old(g).nodes_v(), events_of(events@)),
        exists|tss: Seq<u64>|
            tss.len() == events@.len() && final(g).edges_v() == #[trigger] edges_after(
                old(g).nodes_v(),
                old(g).edges_v(),
                events_of(events@),
                tss,
            ),
        forall|p: u32| #[trigger] sec_of(final(sec), p) == fold_ops(sec_of(old(sec), p), child_ops(events_of(events@)), p),
{
    let ghost evs = events_of(events@);
    let ghost ns0 = g.nodes_v();
    let ghost es0 = g.edges_v();
    let ghost mut tss: Seq<u64> = Seq::empty();
    let n = events.len();
    for i in 0..n
        invariant
            n == events@.len(),
            evs == events_of(events@),
            g.wf(),
            sec.wf(),
            tss.len() == i,
            g.nodes_v() == nodes_after(ns0, evs.take(i as int)),
            g.edges_v() == edges_after(ns0, es0, evs.take(i as int), tss),
            forall|p: u32| #[trigger] sec_of(sec, p) == fold_ops(sec_of(old(sec), p), child_ops(evs.take(i as int)), p),
    {
        let ghost pre = evs.take(i as int);
        let ghost ev = evs[i as int];
        let ghost g0 = *g;
        let ghost s0 = *sec;
        proof {
            lemma_take_next(evs, i as int);
            assert(evs.take(i + 1).drop_last() =~= pre);
            assert(evs.take(i + 1).last() == ev);
            assert(ev == events@[i as int]@);
        }
        match &events[i] {
            ProcessEvent::Started(info) => {
                apply_process_started(g, info.pid, info.name.as_str(), info.parent_pid);
                let ghost ts: u64 = if info.parent_pid != 0 && has_node(g.nodes_v(), proc_id(info.parent_pid)) {
                    choose|ts: u64|
                        g.edges_v() == record_edge(g0.edges_v(), proc_id(info.parent_pid), proc_id(info.pid), KindView::ParentOf, ts)
                } else {
                    0
                };
                proof {
                    assert(tss.push(ts).drop_last() =~= tss);
                    tss = tss.push(ts);
                }
                if info.parent_pid != 0 {
                    run_op(sec, &SecOp::ChildSpawn(info.parent_pid));
                    proof {
                        assert forall|p: u32| #[trigger] sec_of(sec, p) == fold_ops(sec_of(old(sec), p), child_ops(evs.take(i + 1)), p) by {
                            assert(child_ops(evs.take(i + 1)) == child_ops(pre).push(SecOpView::ChildSpawn(info.parent_pid)));
                            assert(child_ops(pre).push(SecOpView::ChildSpawn(info.parent_pid)).drop_last() =~= child_ops(pre));
                            assert(sec_of(&s0, p) == fold_ops(sec_of(old(sec), p), child_ops(pre), p));
                        }
                    }
                }
            },
            ProcessEvent::Terminated(pid) => {
                apply_process_terminated(g, *pid);
                proof {
                    assert(tss.push(0u64).drop_last() =~= tss);
                    tss = tss.push(0u64);
                }
            },
            _ => {
                proof {
                    assert(tss.push(0u64).drop_last() =~= tss);
                    tss = tss.push(0u64);
                }
            },
        }
    }
    proof {
        assert(evs.take(n as int) =~= evs);
    }
}

/// The process engine: the previous snapshot and the CPU spike threshold (hundredths of a
/// percent).
pub struct Engine {
    pub prev: ProcessState,
    pub cpu_spike_threshold_x100: u32,
}

impl Engine {
    pub fn new(cpu_spike_threshold_x100: u32) -> (e: Self)
        ensures
            e.prev.wf(),
            e.prev.procs().len() == 0,
            e.cpu_spike_threshold_x100 == cpu_spike_threshold_x100,
    {
        Engine { prev: ProcessState::default(), cpu_spike_threshold_x100 }
    }
}

// ---------------------------------------------------------------------------------------------
// Hysteresis
// ---------------------------------------------------------------------------------------------

/// Consecutive spike and normal observations, and whether a spike is being reported.
#[derive(Debug, Clone, Copy, PartialEq, Eq, Structural)]
pub struct Hysteresis {
    pub spikes: usize,
    pub normals: usize,
    pub active: bool,
}

/// `n + 1`, saturating.
pub open spec fn inc(n: usize) -> usize {
    if n == usize::MAX {
        n
    } else {
        (n + 1) as usize
    }
}

/// The next state after one observation, and the report it causes: `Some(true)` when a
/// spike is raised, `Some(false)` when it ends.
pub open spec fn hyst_next(h: Hysteresis, spike: bool, required: usize) -> (Hysteresis, Option<bool>) {
    let h1 = if spike {
        Hysteresis { spikes: inc(h.spikes), normals: 0, active: h.active }
    } else {
        Hysteresis { spikes: 0, normals: inc(h.normals), active: h.active }
    };
    if !h1.active && h1.spikes >= required {
        (Hysteresis { active: true, ..h1 }, Some(true))
    } else if h1.active && h1.normals >= required {
        (Hysteresis { active: false, ..h1 }, Some(false))
    } else {
        (h1, None)
    }
}

impl Hysteresis {
    pub fn new() -> (h: Self)
        ensures
            h == (Hysteresis { spikes: 0, normals: 0, active: false }),
    {
        Hysteresis { spikes: 0, normals: 0, active: false }
    }

    /// Record one observation; returns the report it causes (see `hyst_next`).
    pub fn observe(&mut self, spike: bool, required: usize) -> (r: Option<bool>)
        ensures
            (*final(self), r) == hyst_next(*old(self), spike, required),
    {
        if spike {
            self.spikes = if self.spikes == usize::MAX { self.spikes } else { self.spikes + 1 };
            self.normals = 0;
        } else {
            self.normals = if self.normals == usize::MAX { self.normals } else { self.normals + 1 };
            self.spikes = 0;
        }
        if !self.active && self.spikes >= required {
            self.active = true;
            Some(true)
        } else if self.active && self.normals >= required {
            self.active = false;
            Some(false)
        } else {
            None
        }
    }
}

/// Law: reports alternate. A raise only happens while no spike is being reported and starts
/// one; an end only happens while one is reported and ends it; otherwise the reporting state
/// stays.
pub proof fn law_hysteresis_alternates(h: Hysteresis, spike: bool, required: usize)
    ensures
        hyst_next(h, spike, required).1 == Some(true) ==> !h.active && hyst_next(h, spike, required).0.active,
        hyst_next(h, spike, required).1 == Some(false) ==> h.active && !hyst_next(h, spike, required).0.active,
        hyst_next(h, spike, required).1 is None ==> hyst_next(h, spike, required).0.active == h.active,
{
}

/// Law: when at least one observation is required, a spike is raised only by a spike
/// observation that completes at least `required` consecutive spike observations, and ended
/// only by a normal observation that completes at least `required` consecutive normal ones.
pub proof fn law_hysteresis_needs_consecutive(h: Hysteresis, spike: bool, required: usize)
    requires
        required >= 1,
    ensures
        hyst_next(h, spike, required).1 == Some(true) ==> spike && hyst_next(h, spike, required).0.spikes >= required
            && hyst_next(h, spike, required).0.spikes == inc(h.spikes),
        hyst_next(h, spike, required).1 == Some(false) ==> !spike && hyst_next(h, spike, required).0.normals >= required
            && hyst_next(h, spike, required).0.normals == inc(h.normals),
{
}

/// Law: from a state reporting nothing and with no spikes counted, `required >= 1`
/// consecutive spike observations raise exactly one spike, on the last of them.
pub proof fn law_hysteresis_raises_after(required: usize, k: usize)
    requires
        1 <= required,
        k <= required,
    ensures
        hyst_run(Hysteresis { spikes: 0, normals: 0, active: false }, k as nat, required).0 == (if k == required {
            Hysteresis { spikes: k, normals: 0, active: true }
        } else {
            Hysteresis { spikes: k, normals: 0, active: false }
        }),
        hyst_run(Hysteresis { spikes: 0, normals: 0, active: false }, k as nat, required).1 == (if k == required {
            1nat
        } else {
            0nat
        }),
    decreases k,
{
    if k > 0 {
        law_hysteresis_raises_after(required, (k - 1) as usize);
    }
}

/// The state after `k` consecutive spike observations from `h`, and how many raises they
/// caused.
pub open spec fn hyst_run(h: Hysteresis, k: nat, required: usize) -> (Hysteresis, nat)
    decreases k,
{
    if k == 0 {
        (h, 0)
    } else {
        let (h1, n1) = hyst_run(h, (k - 1) as nat, required);
        let (h2, r) = hyst_next(h1, true, required);
        (h2, if r == Some(true) { n1 + 1 } else { n1 })
    }
}

/// The state after the observations `obs` (spiking or not, in order) and the reports they
/// cause, in order: `true` for a raise, `false` for an end.
pub open spec fn hyst_reports(h: Hysteresis, obs: Seq<bool>, required: usize) -> (Hysteresis, Seq<bool>)
    decreases obs.len(),
{
    if obs.len() == 0 {
        (h, Seq::empty())
    } else {
        let prev = hyst_reports(h, obs.drop_last(), required);
        let step = hyst_next(prev.0, obs.last(), required);
        (
            step.0,
            match step.1 {
                Some(b) => prev.1.push(b),
                None => prev.1,
            },
        )
    }
}

/// Law: over any run of observations from a state reporting nothing, the reports strictly
/// alternate, starting with a raise, and a spike is being reported exactly when the last
/// report was a raise. This is the run of each family's track in the family engine, and of
/// the system CPU engine.
pub proof fn law_reports_alternate(h: Hysteresis, obs: Seq<bool>, required: usize)
    requires
        !h.active,
    ensures
        forall|i: int| 0 <= i < hyst_reports(h, obs, required).1.len() ==> #[trigger] hyst_reports(h, obs, required).1[i] == (i % 2 == 0),
        hyst_reports(h, obs, required).0.active == (hyst_reports(h, obs, required).1.len() % 2 == 1),
    decreases obs.len(),
{
    if obs.len() > 0 {
        law_reports_alternate(h, obs.drop_last(), required);
        let prev = hyst_reports(h, obs.drop_last(), required);
        law_hysteresis_alternates(prev.0, obs.last(), required);
    }
}

// ---------------------------------------------------------------------------------------------
// System CPU engine
// ---------------------------------------------------------------------------------------------

/// System CPU events. Figures are hundredths of a percent.
#[derive(Debug, Clone, Copy, PartialEq, Eq, Structural)]
pub enum CpuEvent {
    /// A raw sample from the collector.
    RawSample { percent_x100: u32 },
    Spike { percent_x100: u32 },
    Normalized,
}

/// Raises a stable system CPU spike after consecutive samples above a threshold, and its end
/// after as many samples at or below it.
pub struct CpuEngine {
    pub spike_threshold_x100: u32,
    pub consecutive_required: usize,
    pub state: Hysteresis,
}

/// The report for an observation of `pct` (see `hyst_next`).
pub open spec fn cpu_report(r: Option<bool>, pct: u32) -> Option<CpuEvent> {
    match r {
        Some(true) => Some(CpuEvent::Spike { percent_x100: pct }),
        Some(false) => Some(CpuEvent::Normalized),
        None => None,
    }
}

impl CpuEngine {
    pub fn new(spike_threshold_x100: u32, consecutive_required: usize) -> (e: Self)
        ensures
            e.spike_threshold_x100 == spike_threshold_x100,
            e.consecutive_required == consecutive_required,
            e.state == (Hysteresis { spikes: 0, normals: 0, active: false }),
    {
        CpuEngine { spike_threshold_x100, consecutive_required, state: Hysteresis::new() }
    }

    /// Observe a sample of `pct` (hundredths of a percent).
    pub fn observe(&mut self, pct: u32) -> (r: Option<CpuEvent>)
        ensures
            final(self).spike_threshold_x100 == old(self).spike_threshold_x100,
            final(self).consecutive_required == old(self).consecutive_required,
            final(self).state == hyst_next(
                old(self).state,
                pct > old(self).spike_threshold_x100,
                old(self).consecutive_required,
            ).0,
            r == cpu_report(
                hyst_next(old(self).state, pct > old(self).spike_threshold_x100, old(self).consecutive_required).1,
                pct,
            ),
    {
        let spike = pct > self.spike_threshold_x100;
        let req = self.consecutive_required;
        match self.state.observe(spike, req) {
            Some(true) => Some(CpuEvent::Spike { percent_x100: pct }),
            Some(false) => Some(CpuEvent::Normalized),
            None => None,
        }
    }

    /// React to a CPU event: raw samples are observed, other events are ignored.
    pub fn on_event(&mut self, ev: &CpuEvent) -> (r: Option<CpuEvent>)
        ensures
            match *ev {
                CpuEvent::RawSample { percent_x100 } => {
                    &&& final(self).state == hyst_next(
                        old(self).state,
                        percent_x100 > old(self).spike_threshold_x100,
                        old(self).consecutive_required,
                    ).0
                    &&& r == cpu_report(
                        hyst_next(old(self).state, percent_x100 > old(self).spike_threshold_x100, old(self).consecutive_required).1,
                        percent_x100,
                    )
                },
                _ => *final(self) == *old(self) && r is None,
            },
            final(self).spike_threshold_x100 == old(self).spike_threshold_x100,
            final(self).consecutive_required == old(self).consecutive_required,
    {
        match ev {
            CpuEvent::RawSample { percent_x100 } => self.observe(*percent_x100),
            _ => None,
        }
    }
}

/// The system CPU engine with its defaults: 80% over three consecutive samples.
pub fn default_cpu_engine() -> (e: CpuEngine)
    ensures
        e.spike_threshold_x100 == 8000,
        e.consecutive_required == 3,
        e.state == (Hysteresis { spikes: 0, normals: 0, active: false }),
{
    CpuEngine::new(8000, 3)
}

// ---------------------------------------------------------------------------------------------
// Memory leak check
// ---------------------------------------------------------------------------------------------

/// Memory events. Figures are hundredths of a megabyte.
#[derive(Debug, Clone, Copy, PartialEq, Eq, Structural)]
pub enum MemoryEvent {
    PressureHigh { used_mb_x100: u32 },
    LeakSuspected { pid: u32 },
    /// A raw per-process memory sample.
    ProcessMemorySample { pid: u32, memory_mb_x100: u32 },
    /// A system-level memory usage sample.
    UsedSample { used_mb_x100: u32 },
}

/// The last memory sample of each process.
pub struct LeakTracker {
    pub last: std::collections::HashMap<u32, u32>,
}

/// A sample of `curr` after `prev` suggests a leak: the process holds more than 500 MB and
/// grew by more than 100 MB.
pub open spec fn leak_suspected(prev: u32, curr: u32) -> bool {
    curr > 50000 && curr - prev > 10000
}

impl LeakTracker {
    pub fn new() -> (t: Self)
        ensures
            t.last@ == Map::<u32, u32>::empty(),
    {
        LeakTracker { last: std::collections::HashMap::new() }
    }

    /// Record a sample of `curr` for `pid`; reports a suspected leak against the previous
    /// sample (0 when there is none).
    pub fn observe(&mut self, pid: u32, curr: u32) -> (r: Option<MemoryEvent>)
        ensures
            final(self).last@ == old(self).last@.insert(pid, curr),
            r == (if leak_suspected(if old(self).last@.contains_key(pid) { old(self).last@[pid] } else { 0 }, curr) {
                Some(MemoryEvent::LeakSuspected { pid })
            } else {
                None
            }),
    {
        let prev: u32 = match self.last.get(&pid) {
            Some(v) => *v,
            None => 0,
        };
        let leak = curr > 50000 && curr > prev && curr - prev > 10000;
        self.last.insert(pid, curr);
        if leak {
            Some(MemoryEvent::LeakSuspected { pid })
        } else {
            None
        }
    }

    /// React to a memory event: per-process samples are observed, other events are ignored.
    pub fn on_event(&mut self, ev: &MemoryEvent) -> (r: Option<MemoryEvent>)
        ensures
            match *ev {
                MemoryEvent::ProcessMemorySample { pid, memory_mb_x100 } => {
                    &&& final(self).last@ == old(self).last@.insert(pid, memory_mb_x100)
                    &&& r == (if leak_suspected(
                        if old(self).last@.contains_key(pid) { old(self).last@[pid] } else { 0 },
                        memory_mb_x100,
                    ) {
                        Some(MemoryEvent::LeakSuspected { pid })
                    } else {
                        None
                    })
                },
                _ => final(self).last@ == old(self).last@ && r is None,
            },
    {
        match ev {
            MemoryEvent::ProcessMemorySample { pid, memory_mb_x100 } => self.observe(*pid, *memory_mb_x100),
            _ => None,
        }
    }
}

// ---------------------------------------------------------------------------------------------
// Family engine
// ---------------------------------------------------------------------------------------------

/// Strictly increasing in lexicographic order (so without duplicates).
pub open spec fn lex_sorted(s: Seq<Seq<char>>) -> bool {
    forall|i: int, j: int| 0 <= i < j < s.len() ==> lex_lt(#[trigger] s[i], #[trigger] s[j])
}

pub open spec fn strings_of(v: Seq<String>) -> Seq<Seq<char>> {
    v.map_values(|s: String| s@)
}

/// Insert `x` into the sorted `v` unless present.
pub(crate) fn insert_sorted(v: &mut Vec<String>, x: &String)
    requires
        lex_sorted(strings_of(old(v)@)),
    ensures
        lex_sorted(strings_of(final(v)@)),
        forall|y: Seq<char>| strings_of(final(v)@).contains(y) <==> (strings_of(old(v)@).contains(y) || y == x@),
{
    let ghost sv = strings_of(v@);
    let mut j: usize = 0;
    while j < v.len() && str_lt(v[j].as_str(), x.as_str())
        invariant
            j <= v@.len(),
            sv == strings_of(v@),
            v@ == old(v)@,
            forall|k: int| 0 <= k < j ==> lex_lt(#[trigger] sv[k], x@),
        decreases v@.len() - j,
    {
        j = j + 1;
    }
    if j < v.len() && v[j] == *x {
        proof {
            assert(sv[j as int] == x@);
        }
        return;
    }
    proof {
        if j < sv.len() {
            assert(!lex_lt(sv[j as int], x@));
            lemma_lex_total(sv[j as int], x@);
            assert(lex_lt(x@, sv[j as int]));
        }
    }
    v.insert(j, x.clone());
    proof {
        let nv = strings_of(v@);
        assert(nv =~= sv.insert(j as int, x@));
        assert forall|a: int, b: int| 0 <= a < b < nv.len() implies lex_lt(#[trigger] nv[a], #[trigger] nv[b]) by {
            if b < j {
                assert(nv[a] == sv[a] && nv[b] == sv[b]);
            } else if b == j {
                assert(nv[a] == sv[a]);
            } else if a == j {
                assert(nv[b] == sv[b - 1]);
                if b - 1 > j {
                    lemma_lex_trans(x@, sv[j as int], sv[b - 1]);
                }
            } else if a < j {
                assert(nv[a] == sv[a] && nv[b] == sv[b - 1]);
                if b - 1 > j {
                    assert(lex_lt(sv[j as int], sv[b - 1]));
                    lemma_lex_trans(x@, sv[j as int], sv[b - 1]);
                }
                lemma_lex_trans(sv[a], x@, sv[b - 1]);
            } else {
                assert(nv[a] == sv[a - 1] && nv[b] == sv[b - 1]);
            }
        }
        assert forall|y: Seq<char>| nv.contains(y) <==> (sv.contains(y) || y == x@) by {
            if nv.contains(y) {
                let k = choose|k: int| 0 <= k < nv.len() && nv[k] == y;
                if k < j {
                    assert(sv[k] == y);
                } else if k > j {
                    assert(sv[k - 1] == y);
                }
            }
            if sv.contains(y) {
                let k = choose|k: int| 0 <= k < sv.len() && sv[k] == y;
                if k < j {
                    assert(nv[k] == y);
                } else {
                    assert(nv[k + 1] == y);
                }
            }
            if y == x@ {
                assert(nv[j as int] == y);
            }
        }
    }
}

/// The aggregate CPU of family `f` (hundredths of a percent), 0 when absent.
pub open spec fn fam_total(fams: Seq<FamilyView>, f: Seq<char>) -> int {
    if has_family(fams, f) {
        fams[choose|i: int| 0 <= i < fams.len() && fams[i].name == f].total_cpu_x100
    } else {
        0
    }
}

/// The aggregate CPU of family `f`, 0 when absent.
fn family_total(s: &ProcessState, f: &String) -> (r: u128)
    requires
        s.wf(),
    ensures
        r == fam_total(s.fams(), f@),
{
    let n = s.families.len();
    for i in 0..n
        invariant
            n == s.fams().len(),
            s.wf(),
            forall|j: int| 0 <= j < i ==> s.fams()[j].name != f@,
    {
        if s.families[i].name == *f {
            proof {
                let fams = s.fams();
                assert(fams[i as int] == s.families@[i as int]@);
                let c = choose|c: int| 0 <= c < fams.len() && fams[c].name == f@;
                if c != i {
                    if c < i {
                        assert(fams[c].name != fams[i as int].name);
                    } else {
                        assert(fams[i as int].name != fams[c].name);
                    }
                }
            }
            return s.families[i].total_cpu_x100;
        }
        proof {
            assert(s.fams()[i as int] == s.families@[i as int]@);
        }
    }
    0
}

/// The hysteresis state tracked for family `f` (all zero when untracked).
pub open spec fn track_of(tracks: Seq<(Seq<char>, Hysteresis)>, f: Seq<char>) -> Hysteresis {
    if exists|i: int| 0 <= i < tracks.len() && tracks[i].0 == f {
        tracks[choose|i: int| 0 <= i < tracks.len() && tracks[i].0 == f].1
    } else {
        Hysteresis { spikes: 0, normals: 0, active: false }
    }
}

/// Family-level CPU spikes, raised after consecutive spiking observations and ended after as
/// many normal ones.
pub struct FamilyEngine {
    pub spike_threshold_x100: u128,
    pub consecutive_required: usize,
    pub tracks: Vec<(String, Hysteresis)>,
}

impl FamilyEngine {
    pub open spec fn tracks_view(&self) -> Seq<(Seq<char>, Hysteresis)> {
        self.tracks@.map_values(|t: (String, Hysteresis)| (t.0@, t.1))
    }

    /// Tracked families are distinct.
    pub open spec fn wf(&self) -> bool {
        forall|i: int, j: int|
            0 <= i < j < self.tracks_view().len() ==> #[trigger] self.tracks_view()[i].0 != #[trigger] self.tracks_view()[j].0
    }

    pub fn new(spike_threshold_x100: u128, consecutive_required: usize) -> (e: Self)
        ensures
            e.wf(),
            e.spike_threshold_x100 == spike_threshold_x100,
            e.consecutive_required == consecutive_required,
            e.tracks_view().len() == 0,
    {
        let e = FamilyEngine { spike_threshold_x100, consecutive_required, tracks: Vec::new() };
        assert(e.tracks_view() =~= Seq::<(Seq<char>, Hysteresis)>::empty());
        e
    }
}

/// Whether family `f` spikes between the snapshots: its CPU is above the threshold and rose by
/// more than five percentage points.
pub open spec fn fam_spike(threshold: u128, old: Seq<FamilyView>, new: Seq<FamilyView>, f: Seq<char>) -> bool {
    fam_total(new, f) > threshold && fam_total(new, f) - fam_total(old, f) > 500
}

/// The family event of a report.
pub open spec fn fam_event(f: Seq<char>, r: Option<bool>, cpu: int) -> Seq<EventView> {
    match r {
        Some(true) => seq![EventView::FamilyCpuSpike { family: f, cpu_x100: cpu as u128 }],
        Some(false) => seq![EventView::FamilyNormalized { family: f }],
        None => Seq::empty(),
    }
}

/// The names of the families present in either snapshot.
pub open spec fn in_either(old: Seq<FamilyView>, new: Seq<FamilyView>, f: Seq<char>) -> bool {
    has_family(old, f) || has_family(new, f)
}

/// The step of family `f` from the tracks `tracks`.
pub open spec fn fam_step(e: &FamilyEngine, tracks: Seq<(Seq<char>, Hysteresis)>, old: Seq<FamilyView>, new: Seq<FamilyView>, f: Seq<char>) -> (Hysteresis, Option<bool>) {
    hyst_next(track_of(tracks, f), fam_spike(e.spike_threshold_x100, old, new, f), e.consecutive_required)
}

/// The family events of one observation, for the families `names` in order.
pub open spec fn family_events(
    e: &FamilyEngine,
    names: Seq<Seq<char>>,
    old: Seq<FamilyView>,
    new: Seq<FamilyView>,
) -> Seq<EventView> {
    names.flat_map(|f: Seq<char>| fam_event(f, fam_step(e, e.tracks_view(), old, new, f).1, fam_total(new, f)))
}

/// With distinct tracked names, the entry found at `k` is the track of its name.
proof fn lemma_track_at(tv: Seq<(Seq<char>, Hysteresis)>, k: int)
    requires
        forall|i: int, j: int| 0 <= i < j < tv.len() ==> #[trigger] tv[i].0 != #[trigger] tv[j].0,
        0 <= k < tv.len(),
    ensures
        track_of(tv, tv[k].0) == tv[k].1,
{
    let c = choose|i: int| 0 <= i < tv.len() && tv[i].0 == tv[k].0;
    if c < k {
        assert(tv[c].0 != tv[k].0);
    } else if c > k {
        assert(tv[k].0 != tv[c].0);
    }
}

/// `e1` and `evs` are the family engine and the events after `e0` observes families going
/// from `prev` to `next`: the families of either snapshot are visited in name order; each
/// takes one hysteresis step and reports a raise (with its new CPU) or an end.
pub open spec fn family_observation(
    e0: FamilyEngine,
    e1: FamilyEngine,
    prev: Seq<FamilyView>,
    next: Seq<FamilyView>,
    evs: Seq<EventView>,
) -> bool {
    &&& e1.wf()
    &&& e1.spike_threshold_x100 == e0.spike_threshold_x100
    &&& e1.consecutive_required == e0.consecutive_required
    &&& exists|names: Seq<Seq<char>>|
        {
            &&& lex_sorted(names)
            &&& forall|f: Seq<char>| names.contains(f) <==> in_either(prev, next, f)
            &&& evs == #[trigger] family_events(&e0, names, prev, next)
            &&& forall|f: Seq<char>|
                #[trigger] track_of(e1.tracks_view(), f) == if names.contains(f) {
                    fam_step(&e0, e0.tracks_view(), prev, next, f).0
                } else {
                    track_of(e0.tracks_view(), f)
                }
        }
}

/// Law: family reports alternate, family by family. The track of a family not seen before
/// reports nothing yet; an observation raises a family spike only while none is reported for
/// it and then reports one, ends it only while one is reported and then reports none, and
/// otherwise leaves it as it was. With at least one observation required, a raise comes only
/// from a spiking observation and an end only from a normal one.
pub proof fn law_family_reports_alternate(
    e: FamilyEngine,
    tracks: Seq<(Seq<char>, Hysteresis)>,
    old: Seq<FamilyView>,
    new: Seq<FamilyView>,
    f: Seq<char>,
)
    ensures
        !(exists|i: int| 0 <= i < tracks.len() && tracks[i].0 == f) ==> !track_of(tracks, f).active,
        fam_step(&e, tracks, old, new, f).1 == Some(true) ==> !track_of(tracks, f).active && fam_step(
            &e,
            tracks,
            old,
            new,
            f,
        ).0.active,
        fam_step(&e, tracks, old, new, f).1 == Some(false) ==> track_of(tracks, f).active && !fam_step(
            &e,
            tracks,
            old,
            new,
            f,
        ).0.active,
        fam_step(&e, tracks, old, new, f).1 is None ==> fam_step(&e, tracks, old, new, f).0.active == track_of(
            tracks,
            f,
        ).active,
        e.consecutive_required >= 1 && fam_step(&e, tracks, old, new, f).1 == Some(true) ==> fam_spike(
            e.spike_threshold_x100,
            old,
            new,
            f,
        ),
        e.consecutive_required >= 1 && fam_step(&e, tracks, old, new, f).1 == Some(false) ==> !fam_spike(
            e.spike_threshold_x100,
            old,
            new,
            f,
        ),
{
    let spike = fam_spike(e.spike_threshold_x100, old, new, f);
    law_hysteresis_alternates(track_of(tracks, f), spike, e.consecutive_required);
    if e.consecutive_required >= 1 {
        law_hysteresis_needs_consecutive(track_of(tracks, f), spike, e.consecutive_required);
    }
}

impl FamilyEngine {
    /// Observe the families of two successive snapshots, family by family in name order;
    /// returns the family events raised or ended.
    pub fn observe(&mut self, prev: &ProcessState, next: &ProcessState) -> (r: Vec<ProcessEvent>)
        requires
            old(self).wf(),
            prev.wf(),
            next.wf(),
        ensures
            family_observation(*old(self), *final(self), prev.fams(), next.fams(), events_of(r@)),
    {
        let mut names: Vec<String> = Vec::new();
        let ghost of = prev.fams();
        let ghost nf = next.fams();
        let n_old = prev.families.len();
        for i in 0..n_old
            invariant
                n_old == of.len(),
                of == prev.fams(),
                lex_sorted(strings_of(names@)),
                forall|y: Seq<char>| strings_of(names@).contains(y) <==> exists|k: int| 0 <= k < i && of[k].name == y,
        {
            insert_sorted(&mut names, &prev.families[i].name);
            proof {
                assert(of[i as int] == prev.families@[i as int]@);
                assert forall|y: Seq<char>| strings_of(names@).contains(y) <==> exists|k: int| 0 <= k < i + 1 && of[k].name == y by {
                    if y == of[i as int].name {
                        assert(0 <= i < i + 1 && of[i as int].name == y);
                    }
                }
            }
        }
        let n_new = next.families.len();
        for i in 0..n_new
            invariant
                n_new == nf.len(),
                n_old == of.len(),
                of == prev.fams(),
                nf == next.fams(),
                lex_sorted(strings_of(names@)),
                forall|y: Seq<char>|
                    strings_of(names@).contains(y) <==> ((exists|k: int| 0 <= k < n_old && of[k].name == y) || exists|k: int|
                        0 <= k < i && nf[k].name == y),
        {
            insert_sorted(&mut names, &next.families[i].name);
            proof {
                assert(nf[i as int] == next.families@[i as int]@);
                assert forall|y: Seq<char>|
                    strings_of(names@).contains(y) <==> ((exists|k: int| 0 <= k < n_old && of[k].name == y) || exists|k: int|
                        0 <= k < i + 1 && nf[k].name == y) by {
                    if y == nf[i as int].name {
                        assert(0 <= i < i + 1 && nf[i as int].name == y);
                    }
                }
            }
        }
        let ghost nv = strings_of(names@);
        let ghost t0 = self.tracks_view();
        let ghost e0 = *self;
        let ghost fe = |f: Seq<char>| fam_event(f, fam_step(&e0, t0, of, nf, f).1, fam_total(nf, f));
        let mut out: Vec<ProcessEvent> = Vec::new();
        let m = names.len();
        for i in 0..m
            invariant
                m == nv.len(),
                nv == strings_of(names@),
                lex_sorted(nv),
                of == prev.fams(),
                nf == next.fams(),
                prev.wf(),
                next.wf(),
                t0 == e0.tracks_view(),
                self.wf(),
                self.spike_threshold_x100 == e0.spike_threshold_x100,
                self.consecutive_required == e0.consecutive_required,
                fe == (|f: Seq<char>| fam_event(f, fam_step(&e0, t0, of, nf, f).1, fam_total(nf, f))),
                events_of(out@) == nv.take(i as int).flat_map(fe),
                forall|f: Seq<char>|
                    #[trigger] track_of(self.tracks_view(), f) == if nv.take(i as int).contains(f) {
                        fam_step(&e0, t0, of, nf, f).0
                    } else {
                        track_of(t0, f)
                    },
        {
            let name = &names[i];
            let ghost f = name@;
            proof {
                assert(nv[i as int] == f);
                assert(!nv.take(i as int).contains(f)) by {
                    if nv.take(i as int).contains(f) {
                        let k = choose|k: int| 0 <= k < i && nv.take(i as int)[k] == f;
                        assert(lex_lt(nv[k], nv[i as int]));
                        lemma_lex_irrefl(f);
                    }
                }
            }
            let o = family_total(prev, name);
            let c = family_total(next, name);
            let spike = c > self.spike_threshold_x100 && c >= o && c - o > 500;
            let ghost tv = self.tracks_view();
            let mut k: usize = 0;
            while k < self.tracks.len() && !(self.tracks[k].0 == *name)
                invariant
                    k <= self.tracks@.len(),
                    tv == self.tracks_view(),
                    f == name@,
                    forall|j: int| 0 <= j < k ==> tv[j].0 != f,
                decreases self.tracks@.len() - k,
            {
                proof {
                    assert(tv[k as int] == (self.tracks@[k as int].0@, self.tracks@[k as int].1));
                }
                k = k + 1;
            }
            if k == self.tracks.len() {
                self.tracks.push((name.clone(), Hysteresis::new()));
                proof {
                    assert(self.tracks_view() =~= tv.push((f, Hysteresis { spikes: 0, normals: 0, active: false })));
                    assert forall|a: int, b: int| 0 <= a < b < self.tracks_view().len() implies #[trigger] self.tracks_view()[a].0
                        != #[trigger] self.tracks_view()[b].0 by {
                        if b == tv.len() {
                            assert(tv[a].0 != f);
                        } else {
                            assert(tv[a] == self.tracks_view()[a] && tv[b] == self.tracks_view()[b]);
                        }
                    }
                    assert(track_of(tv, f) == Hysteresis { spikes: 0, normals: 0, active: false }) by {
                        if exists|x: int| 0 <= x < tv.len() && tv[x].0 == f {
                            let x = choose|x: int| 0 <= x < tv.len() && tv[x].0 == f;
                            assert(tv[x].0 != f);
                        }
                    }
                    assert forall|g: Seq<char>| g != f implies #[trigger] track_of(self.tracks_view(), g) == track_of(tv, g) by {
                        let sv = self.tracks_view();
                        if exists|x: int| 0 <= x < tv.len() && tv[x].0 == g {
                            let x = choose|x: int| 0 <= x < tv.len() && tv[x].0 == g;
                            lemma_track_at(tv, x);
                            lemma_track_at(sv, x);
                            assert(sv[x] == tv[x]);
                        } else {
                            assert(!exists|x: int| 0 <= x < sv.len() && sv[x].0 == g) by {
                                if exists|x: int| 0 <= x < sv.len() && sv[x].0 == g {
                                    let x = choose|x: int| 0 <= x < sv.len() && sv[x].0 == g;
                                    if x < tv.len() {
                                        assert(sv[x] == tv[x]);
                                    }
                                }
                            }
                        }
                    }
                    lemma_track_at(self.tracks_view(), tv.len() as int);
                }
            } else {
                proof {
                    assert(tv[k as int] == (self.tracks@[k as int].0@, self.tracks@[k as int].1));
                    lemma_track_at(tv, k as int);
                }
            }
            let ghost tv1 = self.tracks_view();
            proof {
                assert(tv1[k as int].0 == f);
                assert(tv1[k as int] == (self.tracks@[k as int].0@, self.tracks@[k as int].1));
                lemma_track_at(tv1, k as int);
                assert(track_of(tv1, f) == track_of(tv, f));
            }
            let mut h = self.tracks[k].1;
            let rep = h.observe(spike, self.consecutive_required);
            let tname = self.tracks[k].0.clone();
            self.tracks.set(k, (tname, h));
            proof {
                let sv = self.tracks_view();
                assert(sv =~= tv1.update(k as int, (f, h)));
                assert forall|a: int, b: int| 0 <= a < b < sv.len() implies #[trigger] sv[a].0 != #[trigger] sv[b].0 by {
                    assert(tv1[a].0 == sv[a].0 && tv1[b].0 == sv[b].0);
                }
                lemma_track_at(sv, k as int);
                assert forall|g: Seq<char>| g != f implies #[trigger] track_of(sv, g) == track_of(tv1, g) by {
                    if exists|x: int| 0 <= x < tv1.len() && tv1[x].0 == g {
                        let x = choose|x: int| 0 <= x < tv1.len() && tv1[x].0 == g;
                        lemma_track_at(tv1, x);
                        lemma_track_at(sv, x);
                    } else {
                        assert(!exists|x: int| 0 <= x < sv.len() && sv[x].0 == g) by {
                            if exists|x: int| 0 <= x < sv.len() && sv[x].0 == g {
                                let x = choose|x: int| 0 <= x < sv.len() && sv[x].0 == g;
                                assert(sv[x].0 == tv1[x].0);
                            }
                        }
                    }
                }
                assert(spike == fam_spike(e0.spike_threshold_x100, of, nf, f));
                assert(track_of(tv, f) == track_of(t0, f));
                assert((h, rep) == fam_step(&e0, t0, of, nf, f));
            }
            let ghost before = events_of(out@);
            match rep {
                Some(true) => {
                    push_event(&mut out, ProcessEvent::FamilyCpuSpike { family: name.clone(), cpu_x100: c });
                },
                Some(false) => {
                    push_event(&mut out, ProcessEvent::FamilyNormalized { family: name.clone() });
                },
                None => {},
            }
            proof {
                lemma_take_next(nv, i as int);
                nv.lemma_flat_map_take_append(fe, i as int);
                assert(events_of(out@) =~= before + fe(f));
                assert forall|g: Seq<char>|
                    #[trigger] track_of(self.tracks_view(), g) == if nv.take(i + 1).contains(g) {
                        fam_step(&e0, t0, of, nf, g).0
                    } else {
                        track_of(t0, g)
                    } by {
                    if g != f {
                        let ta = nv.take(i + 1);
                        let tb = nv.take(i as int);
                        assert(ta.contains(g) == tb.contains(g)) by {
                            if ta.contains(g) {
                                let x = choose|x: int| 0 <= x < ta.len() && ta[x] == g;
                                assert(x < i);
                                assert(tb[x] == g);
                            }
                            if tb.contains(g) {
                                let x = choose|x: int| 0 <= x < tb.len() && tb[x] == g;
                                assert(ta[x] == g);
                            }
                        }
                    } else {
                        assert(nv.take(i + 1)[i as int] == f);
                    }
                }
            }
        }
        proof {
            assert(nv.take(m as int) =~= nv);
            assert forall|y: Seq<char>| nv.contains(y) <==> in_either(of, nf, y) by {
                if has_family(of, y) {
                    let k = choose|k: int| 0 <= k < of.len() && of[k].name == y;
                    assert(0 <= k < n_old && of[k].name == y);
                }
                if has_family(nf, y) {
                    let k = choose|k: int| 0 <= k < nf.len() && nf[k].name == y;
                    assert(0 <= k < n_new && nf[k].name == y);
                }
            }
            assert(events_of(out@) == family_events(&e0, nv, of, nf));
            assert(family_observation(e0, *self, of, nf, events_of(out@)));
        }
        out
    }
}

/// The family engine with its defaults: 50% over two consecutive observations.
pub fn default_family_engine() -> (e: FamilyEngine)
    ensures
        e.wf(),
        e.spike_threshold_x100 == 5000,
        e.consecutive_required == 2,
        e.tracks_view().len() == 0,
{
    FamilyEngine::new(5000, 2)
}

// ---------------------------------------------------------------------------------------------
// The engine step
// ---------------------------------------------------------------------------------------------

/// Append `more` to `out`.
fn append_events(out: &mut Vec<ProcessEvent>, more: Vec<ProcessEvent>)
    ensures
        events_of(final(out)@) == events_of(old(out)@) + events_of(more@),
{
    let ghost a = events_of(out@);
    let mut more = more;
    let ghost b = events_of(more@);
    out.append(&mut more);
    proof {
        assert(events_of(out@) =~= a + b);
    }
}

impl Engine {
    /// Compare `new` with the previous snapshot: apply the starts and terminations to the
    /// graph and to the children counts, let the family engine observe the families, keep
    /// `new` as the previous snapshot, and return the events to publish, in order: the
    /// snapshot differences, then the family events.
    pub fn diff_and_emit(&mut self, new: ProcessState, g: &mut Graph, sec: &mut SecurityState, fam: &mut FamilyEngine) -> (r: Vec<
        ProcessEvent,
    >)
        requires
            old(self).prev.wf(),
            new.wf(),
            old(g).wf(),
            old(sec).wf(),
            old(fam).wf(),
        ensures
            final(self).prev == new,
            final(self).cpu_spike_threshold_x100 == old(self).cpu_spike_threshold_x100,
            final(g).wf(),
            final(sec).wf(),
            ({
                let d = diff_events(old(self).prev.procs(), new.procs(), old(self).cpu_spike_threshold_x100);
                &&& events_of(r@).take(d.len() as int) == d
                &&& family_observation(
                    *old(fam),
                    *final(fam),
                    old(self).prev.fams(),
                    new.fams(),
                    events_of(r@).skip(d.len() as int),
                )
                &&& final(g).nodes_v() == nodes_after(old(g).nodes_v(), d)
                &&& exists|tss: Seq<u64>|
                    tss.len() == d.len() && final(g).edges_v() == #[trigger] edges_after(
                        old(g).nodes_v(),
                        old(g).edges_v(),
                        d,
                        tss,
                    )
                &&& forall|p: u32| #[trigger] sec_of(final(sec), p) == fold_ops(sec_of(old(sec), p), child_ops(d), p)
            }),
    {
        let mut events = diff(&self.prev, &new, self.cpu_spike_threshold_x100);
        let ghost d = events_of(events@);
        apply_events(g, sec, &events);
        let fam_events = fam.observe(&self.prev, &new);
        let ghost fe = events_of(fam_events@);
        append_events(&mut events, fam_events);
        proof {
            assert(events_of(events@).take(d.len() as int) =~= d);
            assert(events_of(events@).skip(d.len() as int) =~= fe);
        }
        self.prev = new;
        events
    }
}

/// Law: running the engine again on the snapshot it already holds reports no start,
/// termination or CPU spike, leaves the graph nodes and edges and every process's security
/// bookkeeping as they were, and (when at least one observation is required) raises no
/// family spike; the engine keeps the snapshot as its previous one.
pub proof fn law_repeat_snapshot(
    s: Seq<InfoView>,
    threshold: u32,
    ns: Seq<NodeView>,
    es: Seq<EdgeView>,
    t: crate::security_engine::PidSec,
    p: u32,
    fe: FamilyEngine,
    tracks: Seq<(Seq<char>, Hysteresis)>,
    fams: Seq<FamilyView>,
    f: Seq<char>,
)
    requires
        pids_distinct(s),
        fe.consecutive_required >= 1,
    ensures
        diff_events(s, s, threshold) == Seq::<EventView>::empty(),
        nodes_after(ns, diff_events(s, s, threshold)) == ns,
        forall|tss: Seq<u64>| tss.len() == 0 ==> #[trigger] edges_after(ns, es, diff_events(s, s, threshold), tss) == es,
        fold_ops(t, child_ops(diff_events(s, s, threshold)), p) == t,
        fam_step(&fe, tracks, fams, fams, f).1 != Some(true),
{
    let pa = |q: InfoView| is_new(s, q);
    let pb = |q: InfoView| is_gone(s, q);
    let pc = |q: InfoView| is_spike(s, q, threshold);
    assert forall|i: int| 0 <= i < s.len() implies !pa(s[i]) && !pb(s[i]) && !pc(s[i]) by {
        assert(has_pid(s, s[i].pid));
        lemma_proc_with(s, i);
    }
    assert(s.all(|x: InfoView| !pa(x)));
    assert(s.all(|x: InfoView| !pb(x)));
    assert(s.all(|x: InfoView| !pc(x)));
    s.lemma_all_neg_filter_empty(pa);
    s.lemma_all_neg_filter_empty(pb);
    s.lemma_all_neg_filter_empty(pc);
    assert(diff_events(s, s, threshold) =~= Seq::<EventView>::empty());
}

/// Run the engine on a new snapshot (see `Engine::diff_and_emit`).
pub fn diff_and_emit(engine: &mut Engine, new: ProcessState, g: &mut Graph, sec: &mut SecurityState, fam: &mut FamilyEngine) -> (r: Vec<
    ProcessEvent,
>)
    requires
        old(engine).prev.wf(),
        new.wf(),
        old(g).wf(),
        old(sec).wf(),
        old(fam).wf(),
    ensures
        final(engine).prev == new,
        final(engine).cpu_spike_threshold_x100 == old(engine).cpu_spike_threshold_x100,
        final(g).wf(),
        final(sec).wf(),
        ({
            let d = diff_events(old(engine).prev.procs(), new.procs(), old(engine).cpu_spike_threshold_x100);
            &&& events_of(r@).take(d.len() as int) == d
            &&& family_observation(*old(fam), *final(fam), old(engine).prev.fams(), new.fams(), events_of(r@).skip(d.len() as int))
            &&& final(g).nodes_v() == nodes_after(old(g).nodes_v(), d)
            &&& exists|tss: Seq<u64>|
                tss.len() == d.len() && final(g).edges_v() == #[trigger] edges_after(
                    old(g).nodes_v(),
                    old(g).edges_v(),
                    d,
                    tss,
                )
            &&& forall|p: u32| #[trigger] sec_of(final(sec), p) == fold_ops(sec_of(old(sec), p), child_ops(d), p)
        }),
{
    engine.diff_and_emit(new, g, sec, fam)
}

/// The default process engine: a CPU spike is a rise of more than five points to above 20%.
pub fn default_engine() -> (e: Engine)
    ensures
        e.prev.wf(),
        e.prev.procs().len() == 0,
        e.cpu_spike_threshold_x100 == 2000,
{
    Engine::new(2000)
}

// ---------------------------------------------------------------------------------------------
// Family metrics
// ---------------------------------------------------------------------------------------------

pub open spec fn named_family(f: FamilyView) -> (Seq<char>, FamilyView) {
    (f.name, f)
}

pub open spec fn named_families_view(v: Seq<(String, ProcessFamily)>) -> Seq<(Seq<char>, FamilyView)> {
    v.map_values(|x: (String, ProcessFamily)| (x.0@, x.1@))
}

/// Non-increasing by total CPU.
pub open spec fn cpu_desc(s: Seq<(Seq<char>, FamilyView)>) -> bool {
    forall|i: int, j: int| 0 <= i < j < s.len() ==> (#[trigger] s[i]).1.total_cpu_x100 >= (#[trigger] s[j]).1.total_cpu_x100
}

/// The families of a snapshot with their names, ordered by total CPU, highest first.
#[verifier::spinoff_prover]
pub fn compute_family_metrics(state: &ProcessState) -> (r: Vec<(String, ProcessFamily)>)
    ensures
        cpu_desc(named_families_view(r@)),
        named_families_view(r@).to_multiset() == state.fams().map_values(|f: FamilyView| named_family(f)).to_multiset(),
{
    let ghost src = state.fams().map_values(|f: FamilyView| named_family(f));
    let mut out: Vec<(String, ProcessFamily)> = Vec::new();
    let n = state.families.len();
    for i in 0..n
        invariant
            n == state.families@.len(),
            src == state.fams().map_values(|f: FamilyView| named_family(f)),
            cpu_desc(named_families_view(out@)),
            named_families_view(out@).to_multiset() == src.take(i as int).to_multiset(),
    {
        let fam = state.families[i].clone();
        let total = fam.total_cpu_x100;
        let ghost ov = named_families_view(out@);
        let mut j: usize = 0;
        while j < out.len() && out[j].1.total_cpu_x100 >= total
            invariant
                j <= out@.len(),
                ov == named_families_view(out@),
                forall|k: int| 0 <= k < j ==> ov[k].1.total_cpu_x100 >= total,
            decreases out@.len() - j,
        {
            proof {
                assert(ov[j as int] == (out@[j as int].0@, out@[j as int].1@));
            }
            j = j + 1;
        }
        let item = (fam.name.clone(), fam);
        let ghost x = (item.0@, item.1@);
        proof {
            if j < ov.len() {
                assert(ov[j as int] == (out@[j as int].0@, out@[j as int].1@));
            }
        }
        out.insert(j, item);
        proof {
            let nv = named_families_view(out@);
            assert(nv =~= ov.insert(j as int, x));
            assert(x == src[i as int]) by {
                assert(state.fams()[i as int] == state.families@[i as int]@);
            }
            vstd::seq_lib::to_multiset_insert(ov, j as int, x);
            lemma_take_next(src, i as int);
            vstd::seq_lib::to_multiset_build(src.take(i as int), x);
            assert forall|a: int, b: int| 0 <= a < b < nv.len() implies (#[trigger] nv[a]).1.total_cpu_x100 >= (
            #[trigger] nv[b]).1.total_cpu_x100 by {
                if b < j {
                    assert(nv[a] == ov[a] && nv[b] == ov[b]);
                } else if b == j {
                    assert(nv[a] == ov[a]);
                } else if a == j {
                    assert(nv[b] == ov[b - 1]);
                    if j < ov.len() {
                        if b - 1 > j {
                            assert(ov[j as int].1.total_cpu_x100 >= ov[b - 1].1.total_cpu_x100);
                        }
                    }
                } else if a < j {
                    assert(nv[a] == ov[a] && nv[b] == ov[b - 1]);
                    if b - 1 >= j {
                        assert(ov[a].1.total_cpu_x100 >= ov[b - 1].1.total_cpu_x100);
                    }
                } else {
                    assert(nv[a] == ov[a - 1] && nv[b] == ov[b - 1]);
                }
            }
        }
    }
    proof {
        assert(src.take(n as int) =~= src);
    }
    out
}

// ---------------------------------------------------------------------------------------------
// Identities
// ---------------------------------------------------------------------------------------------

/// What the system reports of a running process: its executable path (when it is valid
/// text) and the verdict on its signature.
pub struct IdentityFact {
    pub pid: u32,
    pub path: Option<String>,
    pub verification: SignatureVerification,
}

pub struct FactView {
    pub pid: u32,
    pub path: Option<Seq<char>>,
    pub verification: SignatureVerification,
}

impl View for IdentityFact {
    type V = FactView;

    open spec fn view(&self) -> FactView {
        FactView { pid: self.pid, path: opt_str(self.path), verification: self.verification }
    }
}

pub open spec fn facts_view(v: Seq<IdentityFact>) -> Seq<FactView> {
    v.map_values(|f: IdentityFact| f@)
}

/// The first fact about `pid`, if any.
pub open spec fn fact_for(facts: Seq<FactView>, pid: u32) -> Option<FactView> {
    if exists|i: int| 0 <= i < facts.len() && facts[i].pid == pid {
        Some(facts[choose|i: int| 0 <= i < facts.len() && facts[i].pid == pid && forall|j: int| 0 <= j < i ==> facts[j].pid != pid])
    } else {
        None
    }
}

/// Whether the parent of `p` is in the snapshot and belongs to the `vscode` family (an
/// integrated terminal, which lowers the penalties).
pub open spec fn parent_is_vscode(procs: Seq<InfoView>, p: InfoView) -> bool {
    has_pid(procs, p.parent_pid) && family_of(proc_with(procs, p.parent_pid).name) == "vscode"@
}

/// Law: identity population sets the risk of a process with an identity and a fact by its
/// verdict, and lowers the penalties exactly when its parent is in the snapshot and is a
/// VS Code process (an integrated terminal): signed 0; unsigned 30 or else 80; failed
/// verification 20 or else 50; an unknown verdict keeps the risk. The security score is
/// set to the same value (none for an unknown verdict).
pub proof fn law_integrated_terminal_penalty(procs: Seq<InfoView>, facts: Seq<FactView>, k: int)
    requires
        pids_distinct(procs),
        0 <= k < procs.len(),
        procs[k].identity is Some,
        fact_for(facts, procs[k].pid) is Some,
    ensures
        populated(procs, facts, procs[k]).identity is Some,
        ({
            let p = procs[k];
            let terminal = has_pid(procs, p.parent_pid) && family_of(proc_with(procs, p.parent_pid).name) == "vscode"@;
            &&& populated(procs, facts, p).identity->0.risk_score == match fact_for(facts, p.pid)->0.verification {
                SignatureVerification::Signed => 0u8,
                SignatureVerification::Unsigned => if terminal { 30u8 } else { 80u8 },
                SignatureVerification::VerificationFailed => if terminal { 20u8 } else { 50u8 },
                SignatureVerification::Unknown => p.identity->0.risk_score,
            }
            &&& populated_score(procs, facts, p.pid) == match fact_for(facts, p.pid)->0.verification {
                SignatureVerification::Signed => Some(0u8),
                SignatureVerification::Unsigned => Some(if terminal { 30u8 } else { 80u8 }),
                SignatureVerification::VerificationFailed => Some(if terminal { 20u8 } else { 50u8 }),
                SignatureVerification::Unknown => None::<u8>,
            }
        }),
{
    lemma_proc_with(procs, k);
}

/// Law: the penalty of a process follows its parent, not the process itself: two processes
/// with the same parent, each with an identity and a fact with the same verdict, get the
/// same risk and the same security score.
pub proof fn law_penalty_follows_parent(procs: Seq<InfoView>, facts: Seq<FactView>, k1: int, k2: int)
    requires
        pids_distinct(procs),
        0 <= k1 < procs.len(),
        0 <= k2 < procs.len(),
        procs[k1].parent_pid == procs[k2].parent_pid,
        procs[k1].identity is Some,
        procs[k2].identity is Some,
        fact_for(facts, procs[k1].pid) is Some,
        fact_for(facts, procs[k2].pid) is Some,
        fact_for(facts, procs[k1].pid)->0.verification == fact_for(facts, procs[k2].pid)->0.verification,
        fact_for(facts, procs[k1].pid)->0.verification != SignatureVerification::Unknown,
    ensures
        populated(procs, facts, procs[k1]).identity->0.risk_score == populated(procs, facts, procs[k2]).identity->0.risk_score,
        populated_score(procs, facts, procs[k1].pid) == populated_score(procs, facts, procs[k2].pid),
{
    let p1 = procs[k1];
    let p2 = procs[k2];
    let t1 = has_pid(procs, p1.parent_pid) && family_of(proc_with(procs, p1.parent_pid).name) == "vscode"@;
    let t2 = has_pid(procs, p2.parent_pid) && family_of(proc_with(procs, p2.parent_pid).name) == "vscode"@;
    assert(t1 == t2);
    let v = fact_for(facts, p1.pid)->0.verification;
    let r1 = populated(procs, facts, p1).identity->0.risk_score;
    let r2 = populated(procs, facts, p2).identity->0.risk_score;
    let s1 = populated_score(procs, facts, p1.pid);
    let s2 = populated_score(procs, facts, p2.pid);
    assert(r1 == r2 && s1 == s2) by {
        law_integrated_terminal_penalty(procs, facts, k1);
        law_integrated_terminal_penalty(procs, facts, k2);
        match v {
            SignatureVerification::Signed => {},
            SignatureVerification::Unsigned => {},
            SignatureVerification::VerificationFailed => {},
            SignatureVerification::Unknown => {},
        }
    }
}

/// The risk score a verdict sets, if it sets one.
pub open spec fn verdict_risk(v: SignatureVerification, vscode_parent: bool) -> Option<u8> {
    match v {
        SignatureVerification::Signed => Some(0u8),
        SignatureVerification::Unsigned => Some(if vscode_parent { 30u8 } else { 80u8 }),
        SignatureVerification::VerificationFailed => Some(if vscode_parent { 20u8 } else { 50u8 }),
        SignatureVerification::Unknown => None,
    }
}

/// The identity after a fact: the path is replaced; signer, category and risk score follow
/// the verdict (an unknown verdict clears the signer only).
pub open spec fn updated_identity(id: IdentityView, f: FactView, vscode_parent: bool) -> IdentityView {
    let id1 = IdentityView { path: f.path, ..id };
    match f.verification {
        SignatureVerification::Signed => IdentityView {
            signer: Some("signed"@),
            category: Some("trusted"@),
            risk_score: 0,
            ..id1
        },
        SignatureVerification::Unsigned => IdentityView {
            signer: Some("unsigned"@),
            category: Some("untrusted"@),
            risk_score: if vscode_parent { 30 } else { 80 },
            ..id1
        },
        SignatureVerification::VerificationFailed => IdentityView {
            signer: Some("verification_failed"@),
            category: Some("unknown"@),
            risk_score: if vscode_parent { 20 } else { 50 },
            ..id1
        },
        SignatureVerification::Unknown => IdentityView { signer: None, ..id1 },
    }
}

/// A process after the facts, given whether its parent is an integrated terminal: a process
/// with an identity and a fact gets the updated identity.
pub open spec fn populated_with(facts: Seq<FactView>, p: InfoView, vscode_parent: bool) -> InfoView {
    match (fact_for(facts, p.pid), p.identity) {
        (Some(f), Some(id)) => InfoView { identity: Some(updated_identity(id, f, vscode_parent)), ..p },
        _ => p,
    }
}

/// The score the facts set for process `p`, if they set one.
pub open spec fn score_with(facts: Seq<FactView>, p: InfoView, vscode_parent: bool) -> Option<u8> {
    match (fact_for(facts, p.pid), p.identity) {
        (Some(f), Some(_)) => verdict_risk(f.verification, vscode_parent),
        _ => None,
    }
}

/// A process of `procs` after the facts.
pub open spec fn populated(procs: Seq<InfoView>, facts: Seq<FactView>, p: InfoView) -> InfoView {
    populated_with(facts, p, parent_is_vscode(procs, p))
}

/// The score that the facts set for `pid`, if they set one.
pub open spec fn populated_score(procs: Seq<InfoView>, facts: Seq<FactView>, pid: u32) -> Option<u8> {
    if has_pid(procs, pid) {
        score_with(facts, proc_with(procs, pid), parent_is_vscode(procs, proc_with(procs, pid)))
    } else {
        None
    }
}

/// The first fact about `pid`.
fn find_fact(facts: &Vec<IdentityFact>, pid: u32) -> (r: Option<usize>)
    ensures
        match r {
            Some(i) => i < facts@.len() && fact_for(facts_view(facts@), pid) == Some(facts_view(facts@)[i as int]),
            None => fact_for(facts_view(facts@), pid) is None,
        },
{
    let ghost fv = facts_view(facts@);
    let n = facts.len();
    for i in 0..n
        invariant
            n == facts@.len(),
            fv == facts_view(facts@),
            forall|j: int| 0 <= j < i ==> fv[j].pid != pid,
    {
        if facts[i].pid == pid {
            proof {
                assert(fv[i as int].pid == pid);
                let c = choose|c: int| 0 <= c < fv.len() && fv[c].pid == pid && forall|j: int| 0 <= j < c ==> fv[j].pid != pid;
                if c < i {
                    assert(fv[c].pid != pid);
                } else if c > i {
                    assert(fv[i as int].pid != pid);
                }
            }
            return Some(i);
        }
        proof {
            assert(fv[i as int].pid == facts@[i as int].pid);
        }
    }
    None
}

/// Whether the parent of the process at `i` is in the snapshot and of the `vscode` family.
fn vscode_parent(state: &ProcessState, i: usize) -> (b: bool)
    requires
        state.wf(),
        i < state.procs().len(),
    ensures
        b == parent_is_vscode(state.procs(), state.procs()[i as int]),
{
    proof {
        assert(state.procs()[i as int] == state.processes@[i as int]@);
    }
    match state.find_process(state.processes[i].parent_pid) {
        Some(k) => {
            proof {
                assert(state.procs()[k as int] == state.processes@[k as int]@);
            }
            let fam = family_for_name(state.processes[k].name.as_str());
            let vs = string_of("vscode");
            fam == vs
        },
        None => false,
    }
}

/// Record the facts about the process at `i` (see `populated_with`).
fn populate_one(state: &mut ProcessState, sec: &mut SecurityState, facts: &Vec<IdentityFact>, i: usize, under_vscode: bool)
    requires
        i < old(state).processes@.len(),
        old(sec).wf(),
    ensures
        final(state).processes@.len() == old(state).processes@.len(),
        final(state).families == old(state).families,
        final(state).lineage == old(state).lineage,
        forall|j: int| 0 <= j < old(state).processes@.len() && j != i ==> #[trigger] final(state).procs()[j] == old(state).procs()[j],
        final(state).procs()[i as int] == populated_with(facts_view(facts@), old(state).procs()[i as int], under_vscode),
        final(sec).wf(),
        same_but_scores(old(sec), final(sec)),
        final(sec).score(old(state).procs()[i as int].pid) == match score_with(
            facts_view(facts@),
            old(state).procs()[i as int],
            under_vscode,
        ) {
            Some(v) => v as int,
            None => old(sec).score(old(state).procs()[i as int].pid),
        },
        forall|pid: u32| pid != old(state).procs()[i as int].pid ==> #[trigger] final(sec).score(pid) == old(sec).score(pid),
{
    let pid = state.processes[i].pid;
    let ghost fv = facts_view(facts@);
    proof {
        assert(old(state).procs()[i as int] == state.processes@[i as int]@);
    }
    match find_fact(facts, pid) {
        Some(k) => {
            let has_identity = state.processes[i].identity.is_some();
            if has_identity {
                let mut info = state.processes[i].clone();
                let mut id = match &info.identity {
                    Some(id) => id.clone(),
                    None => ProcessIdentity { path: None, signer: None, company: None, category: None, start_time: None, risk_score: 0 },
                };
                let fact = &facts[k];
                id.path = crate::process_state::clone_opt_string(&fact.path);
                match fact.verification {
                    SignatureVerification::Signed => {
                        id.signer = Some(string_of("signed"));
                        id.category = Some(string_of("trusted"));
                        id.risk_score = 0;
                        set_process_score(sec, pid, 0);
                    },
                    SignatureVerification::Unsigned => {
                        id.signer = Some(string_of("unsigned"));
                        id.category = Some(string_of("untrusted"));
                        let score: u8 = if under_vscode { 30 } else { 80 };
                        id.risk_score = score;
                        set_process_score(sec, pid, score);
                    },
                    SignatureVerification::VerificationFailed => {
                        id.signer = Some(string_of("verification_failed"));
                        id.category = Some(string_of("unknown"));
                        let score: u8 = if under_vscode { 20 } else { 50 };
                        id.risk_score = score;
                        set_process_score(sec, pid, score);
                    },
                    SignatureVerification::Unknown => {
                        id.signer = None;
                    },
                }
                info.identity = Some(id);
                state.processes.set(i, info);
                proof {
                    assert(fv[k as int] == fact@);
                    assert forall|j: int| 0 <= j < old(state).processes@.len() && j != i implies #[trigger] state.procs()[j]
                        == old(state).procs()[j] by {
                        assert(state.processes@[j] == old(state).processes@[j]);
                    }
                }
            }
        },
        None => {},
    }
}

/// Record the system facts in the identities of the processes, and set the risk scores they
/// imply: signed executables score 0, unsigned ones 80 (30 under an integrated terminal),
/// failed verifications 50 (20 under an integrated terminal); unknown verdicts leave the
/// score. Processes without identity or without a fact are left as they are.
pub fn populate_identities(state: &mut ProcessState, sec: &mut SecurityState, facts: &Vec<IdentityFact>)
    requires
        old(state).wf(),
        old(sec).wf(),
    ensures
        final(state).wf(),
        final(sec).wf(),
        final(state).procs() == old(state).procs().map_values(
            |p: InfoView| populated(old(state).procs(), facts_view(facts@), p),
        ),
        final(state).fams() == old(state).fams(),
        final(state).lineage == old(state).lineage,
        forall|pid: u32| #[trigger] final(sec).score(pid) == match populated_score(old(state).procs(), facts_view(facts@), pid) {
            Some(v) => v as int,
            None => old(sec).score(pid),
        },
        same_but_scores(old(sec), final(sec)),
{
    let ghost p0 = state.procs();
    let ghost fv = facts_view(facts@);
    let n = state.processes.len();
    let mut vs: Vec<bool> = Vec::new();
    for i in 0..n
        invariant
            n == state.procs().len(),
            state.wf(),
            vs@.len() == i,
            forall|j: int| 0 <= j < i ==> #[trigger] vs@[j] == parent_is_vscode(state.procs(), state.procs()[j]),
    {
        let b = vscode_parent(state, i);
        vs.push(b);
    }
    let ghost s0 = *state;
    let ghost f = |p: InfoView| populated(p0, fv, p);
    for i in 0..n
        invariant
            n == p0.len(),
            p0 == s0.procs(),
            s0.wf(),
            fv == facts_view(facts@),
            f == (|p: InfoView| populated(p0, fv, p)),
            vs@.len() == n,
            forall|j: int| 0 <= j < n ==> #[trigger] vs@[j] == parent_is_vscode(p0, p0[j]),
            state.processes@.len() == n,
            state.families == s0.families,
            state.lineage == s0.lineage,
            forall|j: int| 0 <= j < i ==> #[trigger] state.procs()[j] == f(p0[j]),
            forall|j: int| i <= j < n ==> #[trigger] state.procs()[j] == p0[j],
            sec.wf(),
            same_but_scores(old(sec), sec),
            forall|pid: u32|
                #[trigger] sec.score(pid) == if exists|j: int| 0 <= j < i && p0[j].pid == pid {
                    match populated_score(p0, fv, pid) {
                        Some(v) => v as int,
                        None => old(sec).score(pid),
                    }
                } else {
                    old(sec).score(pid)
                },
    {
        let ghost st_before = *state;
        let ghost sec_before = *sec;
        proof {
            assert(state.procs()[i as int] == p0[i as int]);
            lemma_proc_with(p0, i as int);
        }
        populate_one(state, sec, facts, i, vs[i]);
        proof {
            let pid = p0[i as int].pid;
            assert forall|j: int| 0 <= j < i + 1 implies #[trigger] state.procs()[j] == f(p0[j]) by {
                if j < i {
                    assert(state.procs()[j] == st_before.procs()[j]);
                }
            }
            assert forall|j: int| i + 1 <= j < n implies #[trigger] state.procs()[j] == p0[j] by {
                assert(state.procs()[j] == st_before.procs()[j]);
            }
            assert forall|pid2: u32|
                #[trigger] sec.score(pid2) == if exists|j: int| 0 <= j < i + 1 && p0[j].pid == pid2 {
                    match populated_score(p0, fv, pid2) {
                        Some(v) => v as int,
                        None => old(sec).score(pid2),
                    }
                } else {
                    old(sec).score(pid2)
                } by {
                if pid2 == pid {
                    assert(0 <= i < i + 1 && p0[i as int].pid == pid2);
                    if exists|j: int| 0 <= j < i && p0[j].pid == pid2 {
                        let j = choose|j: int| 0 <= j < i && p0[j].pid == pid2;
                        assert(p0[j].pid != p0[i as int].pid);
                    }
                } else {
                    assert(sec.score(pid2) == sec_before.score(pid2));
                    if exists|j: int| 0 <= j < i + 1 && p0[j].pid == pid2 {
                        let j = choose|j: int| 0 <= j < i + 1 && p0[j].pid == pid2;
                        assert(j < i);
                    }
                }
            }
        }
    }
    proof {
        assert(state.procs() =~= p0.map_values(f));
        assert forall|j: int| #![trigger p0[j]] #![trigger state.procs()[j]] 0 <= j < p0.len() implies core_eq(p0[j], state.procs()[j]) by {
            assert(state.procs()[j] == f(p0[j]));
        }
        assert(same_core(p0, state.procs()));
        assert(state.fams() == s0.fams());
        lemma_wf_core(&s0, state);
        assert forall|pid: u32| #[trigger] sec.score(pid) == match populated_score(p0, fv, pid) {
            Some(v) => v as int,
            None => old(sec).score(pid),
        } by {
            if !exists|j: int| 0 <= j < n && p0[j].pid == pid {
                assert(!has_pid(p0, pid));
            }
        }
    }
}

} // verus!
