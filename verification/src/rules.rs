use crate::graph::{
    edges_view, has_node, is_parent_kind, lemma_node_with, node_with, nodes_view, EdgeKind, EdgeView, Graph,
    KindView, NodeView,
};
use crate::process_events::{stamped_view, EventView, ProcessEvent};
use crate::clock::unix_timestamp;
use crate::runtime::RuntimeState;
use crate::process_state::{family_for_name, family_of, has_pid, proc_with, InfoView, ProcessState};
use crate::seq_facts::{
    distinct_in_order, lemma_distinct_in_order, lemma_filter_map_push, lemma_occurrences_le_len, lemma_sum_occurrences_bound,
    lemma_filter_no_duplicates, lemma_sum_sq_bound, lemma_take_next, occurrences, sum_occurrences, sum_sq_occurrences,
    tally,
};
use crate::text::{
    decimal, lowercase, push_decimal, seq_contains, seq_starts_with, str_contains, str_starts_with, string_of,
    to_lowercase,
};
use vstd::prelude::*;
use vstd::string::StringExecFns;

verus! {

broadcast use {vstd::string::group_string_axioms, vstd::seq_lib::group_seq_properties, vstd::seq::group_seq_axioms};

/// How serious a finding is.
#[derive(Debug, Clone, Copy, PartialEq, Eq, Structural)]
pub enum Severity {
    Low,
    Medium,
    High,
    Critical,
}

/// The severity band of a risk figure.
pub open spec fn severity_of(r: int) -> Severity {
    if r >= 90 {
        Severity::Critical
    } else if r >= 70 {
        Severity::High
    } else if r >= 40 {
        Severity::Medium
    } else {
        Severity::Low
    }
}

/// The severity band of a risk figure.
pub fn risk_to_severity(r: u8) -> (s: Severity)
    ensures
        s == severity_of(r as int),
{
    if r >= 90 {
        Severity::Critical
    } else if r >= 70 {
        Severity::High
    } else if r >= 40 {
        Severity::Medium
    } else {
        Severity::Low
    }
}

/// The name of a severity.
pub open spec fn severity_name(s: Severity) -> Seq<char> {
    match s {
        Severity::Low => "Low"@,
        Severity::Medium => "Medium"@,
        Severity::High => "High"@,
        Severity::Critical => "Critical"@,
    }
}

/// The name of a severity.
pub fn severity_to_string(s: &Severity) -> (r: String)
    ensures
        r@ == severity_name(*s),
{
    match s {
        Severity::Low => string_of("Low"),
        Severity::Medium => string_of("Medium"),
        Severity::High => string_of("High"),
        Severity::Critical => string_of("Critical"),
    }
}

/// What a rule reports.
pub struct Finding {
    pub title: String,
    pub description: String,
    pub risk: u8,
    pub severity: Severity,
}

pub struct FindingView {
    pub title: Seq<char>,
    pub description: Seq<char>,
    pub risk: u8,
    pub severity: Severity,
}

impl View for Finding {
    type V = FindingView;

    open spec fn view(&self) -> FindingView {
        FindingView {
            title: self.title@,
            description: self.description@,
            risk: self.risk,
            severity: self.severity,
        }
    }
}

impl Clone for Finding {
    fn clone(&self) -> (r: Self)
        ensures
            r@ == self@,
    {
        Finding {
            title: self.title.clone(),
            description: self.description.clone(),
            risk: self.risk,
            severity: self.severity,
        }
    }
}

pub open spec fn findings_view(v: Seq<Finding>) -> Seq<FindingView> {
    v.map_values(|f: Finding| f@)
}

/// A finding with `title`, `description` and `risk`, and the severity of that risk.
pub open spec fn finding_of(title: Seq<char>, description: Seq<char>, risk: u8) -> FindingView {
    FindingView { title, description, risk, severity: severity_of(risk as int) }
}

fn make_finding(title: &str, description: String, risk: u8) -> (f: Finding)
    ensures
        f@ == finding_of(title@, description@, risk),
{
    Finding { title: string_of(title), description, risk, severity: risk_to_severity(risk) }
}

fn push_finding(out: &mut Vec<Finding>, title: &str, description: String, risk: u8)
    ensures
        findings_view(final(out)@) == findings_view(old(out)@).push(finding_of(title@, description@, risk)),
{
    let ghost before = out@;
    out.push(make_finding(title, description, risk));
    proof {
        assert(findings_view(out@) =~= findings_view(before).push(finding_of(title@, description@, risk)));
    }
}

/// A detection rule over the process graph, the latest snapshot and the stored process
/// events (oldest first, each with the UNIX time at which it was stored). The snapshot holds
/// fewer than 2^32 processes, so that the spawn statistics are computed exactly.
pub trait Rule {
    fn evaluate(&self, graph: &Graph, state: &ProcessState, events: &Vec<(i64, ProcessEvent)>) -> (r: Vec<
        Finding,
    >)
        requires
            graph.wf(),
            state.wf(),
            state.procs().len() <= u32::MAX,
    ;
}

// ---------------------------------------------------------------------------------------------
// Spawn-pair rules
// ---------------------------------------------------------------------------------------------

/// Edge `e` records that a process whose lowercase name contains `a` spawned one whose
/// lowercase name contains `b`, both present in the graph.
pub open spec fn spawn_pair(nodes: Seq<NodeView>, e: EdgeView, a: Seq<char>, b: Seq<char>) -> bool {
    &&& is_parent_kind(e.kind)
    &&& has_node(nodes, e.src)
    &&& has_node(nodes, e.dst)
    &&& seq_contains(lowercase(node_with(nodes, e.src).name), a)
    &&& seq_contains(lowercase(node_with(nodes, e.dst).name), b)
}

/// The finding for a spawn pair: "<parent> spawned <child>".
pub open spec fn spawn_finding(nodes: Seq<NodeView>, e: EdgeView, title: Seq<char>, risk: u8) -> FindingView {
    finding_of(title, node_with(nodes, e.src).name + " spawned "@ + node_with(nodes, e.dst).name, risk)
}

/// One finding per spawn-pair edge, in edge order.
pub open spec fn spawn_findings(
    nodes: Seq<NodeView>,
    edges: Seq<EdgeView>,
    a: Seq<char>,
    b: Seq<char>,
    title: Seq<char>,
    risk: u8,
) -> Seq<FindingView> {
    edges.filter(|e: EdgeView| spawn_pair(nodes, e, a, b)).map_values(
        |e: EdgeView| spawn_finding(nodes, e, title, risk),
    )
}

fn spawn_pair_findings(g: &Graph, a: &str, b: &str, title: &str, risk: u8) -> (r: Vec<Finding>)
    requires
        g.wf(),
    ensures
        findings_view(r@) == spawn_findings(g.nodes_v(), g.edges_v(), a@, b@, title@, risk),
{
    let ghost ns = g.nodes_v();
    let ghost es = g.edges_v();
    let ghost p = |e: EdgeView| spawn_pair(ns, e, a@, b@);
    let ghost f = |e: EdgeView| spawn_finding(ns, e, title@, risk);
    let mut out: Vec<Finding> = Vec::new();
    let m = g.edges.len();
    for i in 0..m
        invariant
            m == g.edges@.len(),
            ns == g.nodes_v(),
            es == g.edges_v(),
            g.wf(),
            p == (|e: EdgeView| spawn_pair(ns, e, a@, b@)),
            f == (|e: EdgeView| spawn_finding(ns, e, title@, risk)),
            findings_view(out@) == es.take(i as int).filter(p).map_values(f),
    {
        let e = &g.edges[i];
        proof {
            assert(es[i as int] == e@);
            lemma_take_next(es, i as int);
            lemma_filter_map_push(es.take(i as int), e@, p, f);
        }
        if e.kind.is_parent_link() {
            match (g.find_node(&e.src), g.find_node(&e.dst)) {
                (Some(si), Some(di)) => {
                    proof {
                        lemma_node_with(ns, si as int);
                        lemma_node_with(ns, di as int);
                    }
                    let s = &g.nodes[si];
                    let d = &g.nodes[di];
                    let sname = to_lowercase(s.name.as_str());
                    let dname = to_lowercase(d.name.as_str());
                    if str_contains(sname.as_str(), a) && str_contains(dname.as_str(), b) {
                        let mut desc = s.name.clone();
                        desc.append(" spawned ");
                        desc.append(d.name.as_str());
                        push_finding(&mut out, title, desc, risk);
                    }
                },
                _ => {},
            }
        }
    }
    proof {
        assert(es.take(m as int) =~= es);
    }
    out
}

/// Reports a PowerShell process that spawned a `cmd` process.
pub struct PowerShellSpawnRule;

impl Rule for PowerShellSpawnRule {
    fn evaluate(&self, graph: &Graph, state: &ProcessState, events: &Vec<(i64, ProcessEvent)>) -> (r: Vec<Finding>)
        ensures
            findings_view(r@) == spawn_findings(
                graph.nodes_v(),
                graph.edges_v(),
                "powershell"@,
                "cmd"@,
                "PowerShell spawned cmd"@,
                20,
            ),
    {
        spawn_pair_findings(graph, "powershell", "cmd", "PowerShell spawned cmd", 20)
    }
}

/// Reports an Office (Word) process that spawned PowerShell.
pub struct OfficeChildProcessRule;

impl Rule for OfficeChildProcessRule {
    fn evaluate(&self, graph: &Graph, state: &ProcessState, events: &Vec<(i64, ProcessEvent)>) -> (r: Vec<Finding>)
        ensures
            findings_view(r@) == spawn_findings(
                graph.nodes_v(),
                graph.edges_v(),
                "winword"@,
                "powershell"@,
                "Office spawned PowerShell"@,
                70,
            ),
    {
        spawn_pair_findings(graph, "winword", "powershell", "Office spawned PowerShell", 70)
    }
}

// ---------------------------------------------------------------------------------------------
// Node rules
// ---------------------------------------------------------------------------------------------

/// Whether a node's name marks an unknown executable.
pub open spec fn is_unknown_exe(n: NodeView) -> bool {
    seq_contains(lowercase(n.name), "unknown"@)
}

/// The finding for an unknown executable.
pub open spec fn unknown_finding(n: NodeView) -> FindingView {
    finding_of("Unknown executable observed"@, "Unknown executable: "@ + n.name, 40)
}

/// Reports nodes whose name contains "unknown" (case-insensitively).
pub struct UnknownExecutableRule;

impl Rule for UnknownExecutableRule {
    fn evaluate(&self, graph: &Graph, state: &ProcessState, events: &Vec<(i64, ProcessEvent)>) -> (r: Vec<Finding>)
        ensures
            findings_view(r@) == graph.nodes_v().filter(|n: NodeView| is_unknown_exe(n)).map_values(
                |n: NodeView| unknown_finding(n),
            ),
    {
        let ghost ns = graph.nodes_v();
        let ghost p = |n: NodeView| is_unknown_exe(n);
        let ghost f = |n: NodeView| unknown_finding(n);
        let mut out: Vec<Finding> = Vec::new();
        let m = graph.nodes.len();
        for i in 0..m
            invariant
                m == graph.nodes@.len(),
                ns == graph.nodes_v(),
                p == (|n: NodeView| is_unknown_exe(n)),
                f == (|n: NodeView| unknown_finding(n)),
                findings_view(out@) == ns.take(i as int).filter(p).map_values(f),
        {
            let n = &graph.nodes[i];
            proof {
                assert(ns[i as int] == n@);
                lemma_take_next(ns, i as int);
                lemma_filter_map_push(ns.take(i as int), n@, p, f);
            }
            let lname = to_lowercase(n.name.as_str());
            if str_contains(lname.as_str(), "unknown") {
                let mut desc = string_of("Unknown executable: ");
                desc.append(n.name.as_str());
                push_finding(&mut out, "Unknown executable observed", desc, 40);
            }
        }
        proof {
            assert(ns.take(m as int) =~= ns);
        }
        out
    }
}

/// Whether edge `e` touches node `id` and has kind `k`.
pub open spec fn incident_of_kind(e: EdgeView, id: Seq<char>, k: KindView) -> bool {
    (e.src == id || e.dst == id) && e.kind == k
}

/// The number of `CreatedFiles` edges at node `id`.
pub open spec fn created_count(edges: Seq<EdgeView>, id: Seq<char>) -> nat {
    edges.filter(|e: EdgeView| incident_of_kind(e, id, KindView::CreatedFiles)).len()
}

/// Whether some `TouchesRegistry` edge is at node `id`.
pub open spec fn touches_registry(edges: Seq<EdgeView>, id: Seq<char>) -> bool {
    exists|i: int| 0 <= i < edges.len() && incident_of_kind(edges[i], id, KindView::TouchesRegistry)
}

/// A PowerShell node that created files and touched the registry.
pub open spec fn is_busy_powershell(edges: Seq<EdgeView>, n: NodeView) -> bool {
    &&& seq_contains(lowercase(n.name), "powershell"@)
    &&& created_count(edges, n.id) > 0
    &&& touches_registry(edges, n.id)
}

/// The finding for a PowerShell node that created files and touched the registry.
pub open spec fn busy_powershell_finding(edges: Seq<EdgeView>, n: NodeView) -> FindingView {
    finding_of(
        "PowerShell created files and touched registry"@,
        n.name + " ("@ + n.id + ") created files="@ + decimal(created_count(edges, n.id)) + " and touched registry"@,
        30,
    )
}

/// The number of `CreatedFiles` edges at `id`, and whether a `TouchesRegistry` edge is there.
fn incident_activity(g: &Graph, id: &String) -> (r: (usize, bool))
    ensures
        r.0 == created_count(g.edges_v(), id@),
        r.1 == touches_registry(g.edges_v(), id@),
{
    let ghost es = g.edges_v();
    let ghost p = |e: EdgeView| incident_of_kind(e, id@, KindView::CreatedFiles);
    let mut created: usize = 0;
    let mut touches = false;
    let m = g.edges.len();
    for i in 0..m
        invariant
            m == g.edges@.len(),
            es == g.edges_v(),
            p == (|e: EdgeView| incident_of_kind(e, id@, KindView::CreatedFiles)),
            created == es.take(i as int).filter(p).len(),
            created <= i,
            touches == exists|j: int| 0 <= j < i && incident_of_kind(es[j], id@, KindView::TouchesRegistry),
    {
        let e = &g.edges[i];
        proof {
            assert(es[i as int] == e@);
            lemma_take_next(es, i as int);
            es.take(i as int).lemma_filter_push(e@, p);
        }
        if e.src == *id || e.dst == *id {
            match &e.kind {
                EdgeKind::CreatedFiles => {
                    created = created + 1;
                },
                EdgeKind::TouchesRegistry => {
                    touches = true;
                },
                _ => {},
            }
        }
        proof {
            if !touches {
                assert forall|j: int| 0 <= j < i + 1 implies !incident_of_kind(es[j], id@, KindView::TouchesRegistry) by {
                }
            }
        }
    }
    proof {
        assert(es.take(m as int) =~= es);
    }
    (created, touches)
}

/// Reports PowerShell processes that both created files and touched the registry.
pub struct PowerShellBehaviorRule;

impl Rule for PowerShellBehaviorRule {
    fn evaluate(&self, graph: &Graph, state: &ProcessState, events: &Vec<(i64, ProcessEvent)>) -> (r: Vec<Finding>)
        ensures
            findings_view(r@) == graph.nodes_v().filter(|n: NodeView| is_busy_powershell(graph.edges_v(), n)).map_values(
                |n: NodeView| busy_powershell_finding(graph.edges_v(), n),
            ),
    {
        let ghost ns = graph.nodes_v();
        let ghost es = graph.edges_v();
        let ghost p = |n: NodeView| is_busy_powershell(es, n);
        let ghost f = |n: NodeView| busy_powershell_finding(es, n);
        let mut out: Vec<Finding> = Vec::new();
        let m = graph.nodes.len();
        for i in 0..m
            invariant
                m == graph.nodes@.len(),
                ns == graph.nodes_v(),
                es == graph.edges_v(),
                p == (|n: NodeView| is_busy_powershell(es, n)),
                f == (|n: NodeView| busy_powershell_finding(es, n)),
                findings_view(out@) == ns.take(i as int).filter(p).map_values(f),
        {
            let n = &graph.nodes[i];
            proof {
                assert(ns[i as int] == n@);
                lemma_take_next(ns, i as int);
                lemma_filter_map_push(ns.take(i as int), n@, p, f);
            }
            let lname = to_lowercase(n.name.as_str());
            if str_contains(lname.as_str(), "powershell") {
                let (created, touches) = incident_activity(graph, &n.id);
                if created > 0 && touches {
                    let mut desc = n.name.clone();
                    desc.append(" (");
                    desc.append(n.id.as_str());
                    desc.append(") created files=");
                    push_decimal(&mut desc, created as u128);
                    desc.append(" and touched registry");
                    push_finding(&mut out, "PowerShell created files and touched registry", desc, 30);
                }
            }
        }
        proof {
            assert(ns.take(m as int) =~= ns);
        }
        out
    }
}

// ---------------------------------------------------------------------------------------------
// Registry rule
// ---------------------------------------------------------------------------------------------

/// The process end of a registry edge: its source when that is a process id, else its
/// destination when that is one.
pub open spec fn registry_proc_end(e: EdgeView) -> Option<Seq<char>> {
    if seq_starts_with(e.src, "proc:"@) {
        Some(e.src)
    } else if seq_starts_with(e.dst, "proc:"@) {
        Some(e.dst)
    } else {
        None
    }
}

/// Whether a family is one of the usual registry users.
pub open spec fn usual_registry_family(fam: Seq<char>) -> bool {
    fam == "svchost"@ || fam == "services"@ || seq_contains(lowercase(fam), "explorer"@)
}

/// A registry edge from a present process with a nonzero pid outside the usual families.
pub open spec fn suspicious_registry_edge(nodes: Seq<NodeView>, e: EdgeView) -> bool {
    &&& e.kind == KindView::TouchesRegistry
    &&& registry_proc_end(e) is Some
    &&& has_node(nodes, registry_proc_end(e)->0)
    &&& !usual_registry_family(family_of(node_with(nodes, registry_proc_end(e)->0).name))
    &&& node_with(nodes, registry_proc_end(e)->0).pid matches Some(pid) && pid != 0
}

/// The finding for a suspicious registry edge.
pub open spec fn registry_finding(nodes: Seq<NodeView>, e: EdgeView) -> FindingView {
    let n = node_with(nodes, registry_proc_end(e)->0);
    finding_of(
        "Suspicious registry access"@,
        n.name + " (PID "@ + decimal(n.pid->0 as nat) + ") touched registry (edge "@ + decimal(e.ts as nat) + ")"@,
        50,
    )
}

/// Reports registry access by processes outside the usual system families.
pub struct SuspiciousRegistryAccessRule;

impl Rule for SuspiciousRegistryAccessRule {
    fn evaluate(&self, graph: &Graph, state: &ProcessState, events: &Vec<(i64, ProcessEvent)>) -> (r: Vec<Finding>)
        ensures
            findings_view(r@) == graph.edges_v().filter(|e: EdgeView| suspicious_registry_edge(graph.nodes_v(), e)).map_values(
                |e: EdgeView| registry_finding(graph.nodes_v(), e),
            ),
    {
        let ghost ns = graph.nodes_v();
        let ghost es = graph.edges_v();
        let ghost p = |e: EdgeView| suspicious_registry_edge(ns, e);
        let ghost f = |e: EdgeView| registry_finding(ns, e);
        let mut out: Vec<Finding> = Vec::new();
        let m = graph.edges.len();
        for i in 0..m
            invariant
                m == graph.edges@.len(),
                graph.wf(),
                ns == graph.nodes_v(),
                es == graph.edges_v(),
                p == (|e: EdgeView| suspicious_registry_edge(ns, e)),
                f == (|e: EdgeView| registry_finding(ns, e)),
                findings_view(out@) == es.take(i as int).filter(p).map_values(f),
        {
            let e = &graph.edges[i];
            proof {
                assert(es[i as int] == e@);
                lemma_take_next(es, i as int);
                lemma_filter_map_push(es.take(i as int), e@, p, f);
            }
            let is_reg = match &e.kind {
                EdgeKind::TouchesRegistry => true,
                _ => false,
            };
            if is_reg {
                let end: Option<&String> = if str_starts_with(e.src.as_str(), "proc:") {
                    Some(&e.src)
                } else if str_starts_with(e.dst.as_str(), "proc:") {
                    Some(&e.dst)
                } else {
                    None
                };
                match end {
                    Some(pid_id) => {
                        match graph.find_node(pid_id) {
                            Some(k) => {
                                proof {
                                    lemma_node_with(ns, k as int);
                                }
                                let n = &graph.nodes[k];
                                let family = family_for_name(n.name.as_str());
                                let lfam = to_lowercase(family.as_str());
                                let svchost = string_of("svchost");
                                let services = string_of("services");
                                if !(family == svchost) && !(family == services) && !str_contains(lfam.as_str(), "explorer") {
                                    let pid = match n.pid {
                                        Some(p) => p,
                                        None => 0,
                                    };
                                    if pid != 0 {
                                        let mut desc = n.name.clone();
                                        desc.append(" (PID ");
                                        push_decimal(&mut desc, pid as u128);
                                        desc.append(") touched registry (edge ");
                                        push_decimal(&mut desc, e.ts as u128);
                                        desc.append(")");
                                        push_finding(&mut out, "Suspicious registry access", desc, 50);
                                    }
                                }
                            },
                            None => {},
                        }
                    },
                    None => {},
                }
            }
        }
        proof {
            assert(es.take(m as int) =~= es);
        }
        out
    }
}

// ---------------------------------------------------------------------------------------------
// Rules over the stored events
// ---------------------------------------------------------------------------------------------

/// The events as values.
pub open spec fn events_view(v: Seq<(i64, ProcessEvent)>) -> Seq<(i64, EventView)> {
    v.map_values(|e: (i64, ProcessEvent)| stamped_view(e))
}

/// Whether an event stored at `ts` is more than `w` seconds old at `now`.
pub open spec fn too_old(now: i64, ts: i64, w: int) -> bool {
    now - ts > w
}

/// The events looked at by a scan from the newest one backwards that stops at the first event
/// more than `w` seconds old; newest first.
pub open spec fn recent(ev: Seq<(i64, EventView)>, now: i64, w: int) -> Seq<(i64, EventView)>
    decreases ev.len(),
{
    if ev.len() == 0 || too_old(now, ev.last().0, w) {
        Seq::empty()
    } else {
        seq![ev.last()] + recent(ev.drop_last(), now, w)
    }
}

/// Copies of the events of the backward scan (see `recent`), newest first.
fn recent_events(events: &Vec<(i64, ProcessEvent)>, now: i64, w: i64) -> (r: Vec<(i64, ProcessEvent)>)
    ensures
        events_view(r@) == recent(events_view(events@), now, w as int),
{
    let ghost ev = events_view(events@);
    let mut out: Vec<(i64, ProcessEvent)> = Vec::new();
    let mut k = events.len();
    proof {
        assert(ev.take(k as int) =~= ev);
        assert(events_view(out@) =~= Seq::<(i64, EventView)>::empty());
    }
    loop
        invariant
            k <= events@.len(),
            ev == events_view(events@),
            recent(ev, now, w as int) == events_view(out@) + recent(ev.take(k as int), now, w as int),
        ensures
            recent(ev, now, w as int) == events_view(out@),
        decreases k,
    {
        if k == 0 {
            proof {
                assert(events_view(out@) + Seq::<(i64, EventView)>::empty() =~= events_view(out@));
            }
            break;
        }
        let e = &events[k - 1];
        proof {
            assert(ev[k - 1] == stamped_view(*e));
            assert(ev.take(k as int).last() == ev[k - 1]);
            assert(ev.take(k as int).drop_last() =~= ev.take(k - 1));
        }
        if (now as i128) - (e.0 as i128) > (w as i128) {
            proof {
                assert(events_view(out@) + Seq::<(i64, EventView)>::empty() =~= events_view(out@));
            }
            break;
        }
        let ghost before = out@;
        out.push((e.0, e.1.clone()));
        proof {
            assert(events_view(out@) =~= events_view(before).push(ev[k - 1]));
            assert(events_view(before) + (seq![ev[k - 1]] + recent(ev.take(k - 1), now, w as int)) =~= events_view(out@)
                + recent(ev.take(k - 1), now, w as int));
        }
        k = k - 1;
    }
    out
}

/// The pid of a CPU spike event.
pub open spec fn spike_pid(e: EventView) -> Option<u32> {
    match e {
        EventView::CpuSpike { pid, .. } => Some(pid),
        _ => None,
    }
}

/// The parent pid of a start event.
pub open spec fn started_parent(e: EventView) -> Option<u32> {
    match e {
        EventView::Started(info) => Some(info.parent_pid),
        _ => None,
    }
}

/// The pids of the CPU spikes among `s`, in order.
pub open spec fn spike_keys(s: Seq<(i64, EventView)>) -> Seq<u32> {
    s.filter(|e: (i64, EventView)| spike_pid(e.1) is Some).map_values(|e: (i64, EventView)| spike_pid(e.1)->0)
}

/// The parent pids of the starts among `s`, in order.
pub open spec fn started_parent_keys(s: Seq<(i64, EventView)>) -> Seq<u32> {
    s.filter(|e: (i64, EventView)| started_parent(e.1) is Some).map_values(
        |e: (i64, EventView)| started_parent(e.1)->0,
    )
}

/// The pids of the CPU spikes among `rec`, in order.
fn spike_pids_of(rec: &Vec<(i64, ProcessEvent)>) -> (r: Vec<u32>)
    ensures
        r@ == spike_keys(events_view(rec@)),
{
    let ghost ev = events_view(rec@);
    let ghost p = |e: (i64, EventView)| spike_pid(e.1) is Some;
    let ghost f = |e: (i64, EventView)| spike_pid(e.1)->0;
    let mut out: Vec<u32> = Vec::new();
    let n = rec.len();
    for i in 0..n
        invariant
            n == rec@.len(),
            ev == events_view(rec@),
            p == (|e: (i64, EventView)| spike_pid(e.1) is Some),
            f == (|e: (i64, EventView)| spike_pid(e.1)->0),
            out@ == ev.take(i as int).filter(p).map_values(f),
    {
        proof {
            lemma_take_next(ev, i as int);
            lemma_filter_map_push(ev.take(i as int), ev[i as int], p, f);
            assert(ev[i as int] == stamped_view(rec@[i as int]));
        }
        match &rec[i].1 {
            ProcessEvent::CpuSpike { pid, .. } => {
                out.push(*pid);
            },
            _ => {},
        }
    }
    proof {
        assert(ev.take(n as int) =~= ev);
    }
    out
}

/// The parent pids of the starts among `rec`, in order.
fn started_parents_of(rec: &Vec<(i64, ProcessEvent)>) -> (r: Vec<u32>)
    ensures
        r@ == started_parent_keys(events_view(rec@)),
{
    let ghost ev = events_view(rec@);
    let ghost p = |e: (i64, EventView)| started_parent(e.1) is Some;
    let ghost f = |e: (i64, EventView)| started_parent(e.1)->0;
    let mut out: Vec<u32> = Vec::new();
    let n = rec.len();
    for i in 0..n
        invariant
            n == rec@.len(),
            ev == events_view(rec@),
            p == (|e: (i64, EventView)| started_parent(e.1) is Some),
            f == (|e: (i64, EventView)| started_parent(e.1)->0),
            out@ == ev.take(i as int).filter(p).map_values(f),
    {
        proof {
            lemma_take_next(ev, i as int);
            lemma_filter_map_push(ev.take(i as int), ev[i as int], p, f);
            assert(ev[i as int] == stamped_view(rec@[i as int]));
        }
        match &rec[i].1 {
            ProcessEvent::Started(info) => {
                out.push(info.parent_pid);
            },
            _ => {},
        }
    }
    proof {
        assert(ev.take(n as int) =~= ev);
    }
    out
}

/// The name shown for process `pid`: its name in the snapshot, else `pid:<pid>`.
pub open spec fn display_name(procs: Seq<InfoView>, pid: u32) -> Seq<char> {
    if has_pid(procs, pid) {
        proc_with(procs, pid).name
    } else {
        "pid:"@ + decimal(pid as nat)
    }
}

fn name_for_pid(state: &ProcessState, pid: u32) -> (r: String)
    requires
        state.wf(),
    ensures
        r@ == display_name(state.procs(), pid),
{
    match state.find_process(pid) {
        Some(i) => {
            proof {
                assert(state.procs()[i as int] == state.processes@[i as int]@);
            }
            state.processes[i].name.clone()
        },
        None => {
            let mut s = string_of("pid:");
            push_decimal(&mut s, pid as u128);
            s
        },
    }
}

/// The finding for `pid` having `count` CPU spikes in the last five minutes.
pub open spec fn sustained_finding(procs: Seq<InfoView>, pid: u32, count: nat) -> FindingView {
    finding_of(
        "Sustained CPU spikes"@,
        display_name(procs, pid) + " (PID "@ + decimal(pid as nat) + ") had "@ + decimal(count) + " CPU spike events in last 5m"@,
        60,
    )
}

/// One finding per process with at least three CPU spikes in the last five minutes, in the
/// order in which the backward scan first meets them.
pub open spec fn sustained_findings(procs: Seq<InfoView>, ev: Seq<(i64, EventView)>, now: i64) -> Seq<FindingView> {
    let keys = spike_keys(recent(ev, now, 300));
    distinct_in_order(keys).filter(|p: u32| occurrences(keys, p) >= 3).map_values(
        |p: u32| sustained_finding(procs, p, occurrences(keys, p)),
    )
}

/// How many of the events `s` are CPU spikes of process `p`.
pub open spec fn spike_count(s: Seq<(i64, EventView)>, p: u32) -> nat {
    s.filter(|e: (i64, EventView)| spike_pid(e.1) == Some(p)).len()
}

/// The pids of the spikes among `s` hold `p` as often as `s` holds spikes of `p`.
proof fn lemma_spike_keys_count(s: Seq<(i64, EventView)>, p: u32)
    ensures
        occurrences(spike_keys(s), p) == spike_count(s, p),
    decreases s.len(),
{
    if s.len() == 0 {
        assert(spike_keys(s) =~= Seq::<u32>::empty());
        assert(s.filter(|e: (i64, EventView)| spike_pid(e.1) == Some(p)) =~= Seq::<(i64, EventView)>::empty());
        assert(Seq::<u32>::empty().filter(|y: u32| y == p) =~= Seq::<u32>::empty());
    } else {
        let r = s.drop_last();
        let x = s.last();
        lemma_spike_keys_count(r, p);
        assert(r.push(x) =~= s);
        crate::seq_facts::lemma_filter_map_push(
            r,
            x,
            |e: (i64, EventView)| spike_pid(e.1) is Some,
            |e: (i64, EventView)| spike_pid(e.1)->0,
        );
        r.lemma_filter_push(x, |e: (i64, EventView)| spike_pid(e.1) == Some(p));
        if spike_pid(x.1) is Some {
            crate::seq_facts::lemma_occurrences_push(spike_keys(r), spike_pid(x.1)->0, p);
        }
    }
}

/// Law: every sustained-spike finding is about a process with at least three CPU spikes
/// among the events of the last five minutes, and reports that number; a process with
/// fewer spikes gets no finding.
pub proof fn law_sustained_needs_three(procs: Seq<InfoView>, ev: Seq<(i64, EventView)>, now: i64)
    ensures
        forall|i: int|
            0 <= i < sustained_findings(procs, ev, now).len() ==> exists|p: u32|
                spike_count(recent(ev, now, 300), p) >= 3 && #[trigger] sustained_findings(procs, ev, now)[i]
                    == sustained_finding(procs, p, spike_count(recent(ev, now, 300), p)),
        forall|p: u32|
            #[trigger] spike_count(recent(ev, now, 300), p) >= 3 ==> sustained_findings(procs, ev, now).contains(
                sustained_finding(procs, p, spike_count(recent(ev, now, 300), p)),
            ),
{
    let keys = spike_keys(recent(ev, now, 300));
    let d = distinct_in_order(keys);
    let pr = |q: u32| occurrences(keys, q) >= 3;
    let f = |q: u32| sustained_finding(procs, q, occurrences(keys, q));
    let r = sustained_findings(procs, ev, now);
    assert(r == d.filter(pr).map_values(f));
    assert forall|i: int| 0 <= i < r.len() implies exists|p: u32|
        spike_count(recent(ev, now, 300), p) >= 3 && #[trigger] r[i] == sustained_finding(
            procs,
            p,
            spike_count(recent(ev, now, 300), p),
        ) by {
        let q = d.filter(pr)[i];
        d.lemma_filter_pred(pr, i);
        lemma_spike_keys_count(recent(ev, now, 300), q);
        assert(r[i] == f(q));
        assert(spike_count(recent(ev, now, 300), q) >= 3 && r[i] == sustained_finding(
            procs,
            q,
            spike_count(recent(ev, now, 300), q),
        ));
    }
    assert forall|p: u32| #[trigger] spike_count(recent(ev, now, 300), p) >= 3 implies r.contains(
        sustained_finding(procs, p, spike_count(recent(ev, now, 300), p)),
    ) by {
        lemma_spike_keys_count(recent(ev, now, 300), p);
        crate::seq_facts::lemma_occurrences_contains(keys, p);
        crate::seq_facts::lemma_distinct_in_order(keys);
        let j = choose|j: int| 0 <= j < d.len() && d[j] == p;
        d.lemma_filter_contains(pr, j);
        let m = choose|m: int| 0 <= m < d.filter(pr).len() && d.filter(pr)[m] == p;
        assert(r[m] == f(p));
    }
}

/// The sustained-spike findings at time `now`.
pub fn sustained_spikes_at(state: &ProcessState, events: &Vec<(i64, ProcessEvent)>, now: i64) -> (r: Vec<Finding>)
    requires
        state.wf(),
    ensures
        findings_view(r@) == sustained_findings(state.procs(), events_view(events@), now),
{
    let rec = recent_events(events, now, 300);
    let keys = spike_pids_of(&rec);
    let counts = tally(&keys);
    let ghost ks = keys@;
    let ghost ds = counts@.map_values(|c: (u32, usize)| c.0);
    let ghost p = |q: u32| occurrences(ks, q) >= 3;
    let ghost f = |q: u32| sustained_finding(state.procs(), q, occurrences(ks, q));
    let mut out: Vec<Finding> = Vec::new();
    let n = counts.len();
    for i in 0..n
        invariant
            n == counts@.len(),
            state.wf(),
            ds == counts@.map_values(|c: (u32, usize)| c.0),
            forall|j: int| 0 <= j < counts@.len() ==> #[trigger] counts@[j].1 == occurrences(ks, counts@[j].0),
            p == (|q: u32| occurrences(ks, q) >= 3),
            f == (|q: u32| sustained_finding(state.procs(), q, occurrences(ks, q))),
            findings_view(out@) == ds.take(i as int).filter(p).map_values(f),
    {
        let (pid, c) = counts[i];
        proof {
            assert(ds[i as int] == pid);
            assert(c == occurrences(ks, pid));
            lemma_take_next(ds, i as int);
            lemma_filter_map_push(ds.take(i as int), pid, p, f);
        }
        if c >= 3 {
            let mut desc = name_for_pid(state, pid);
            desc.append(" (PID ");
            push_decimal(&mut desc, pid as u128);
            desc.append(") had ");
            push_decimal(&mut desc, c as u128);
            desc.append(" CPU spike events in last 5m");
            push_finding(&mut out, "Sustained CPU spikes", desc, 60);
        }
    }
    proof {
        assert(ds.take(n as int) =~= ds);
    }
    out
}

/// Reports processes with repeated CPU spikes within the last five minutes.
pub struct SustainedCpuSpikeRule;

impl Rule for SustainedCpuSpikeRule {
    fn evaluate(&self, graph: &Graph, state: &ProcessState, events: &Vec<(i64, ProcessEvent)>) -> (r: Vec<Finding>)
        ensures
            exists|now: i64| findings_view(r@) == sustained_findings(state.procs(), events_view(events@), now),
    {
        let now = unix_timestamp();
        sustained_spikes_at(state, events, now)
    }
}

/// The finding for parent `pid` having started `count` processes in the last two minutes.
pub open spec fn churn_finding(procs: Seq<InfoView>, pid: u32, count: nat) -> FindingView {
    finding_of(
        "Rapid spawn/terminate churn"@,
        display_name(procs, pid) + " (PID "@ + decimal(pid as nat) + ") spawned "@ + decimal(count) + " processes in last 2m"@,
        70,
    )
}

/// One finding per nonzero parent with at least ten starts in the last two minutes, in the
/// order in which the backward scan first meets them.
pub open spec fn churn_findings(procs: Seq<InfoView>, ev: Seq<(i64, EventView)>, now: i64) -> Seq<FindingView> {
    let keys = started_parent_keys(recent(ev, now, 120));
    distinct_in_order(keys).filter(|p: u32| p != 0 && occurrences(keys, p) >= 10).map_values(
        |p: u32| churn_finding(procs, p, occurrences(keys, p)),
    )
}

/// The spawn-churn findings at time `now`.
pub fn rapid_churn_at(state: &ProcessState, events: &Vec<(i64, ProcessEvent)>, now: i64) -> (r: Vec<Finding>)
    requires
        state.wf(),
    ensures
        findings_view(r@) == churn_findings(state.procs(), events_view(events@), now),
{
    let rec = recent_events(events, now, 120);
    let keys = started_parents_of(&rec);
    let counts = tally(&keys);
    let ghost ks = keys@;
    let ghost ds = counts@.map_values(|c: (u32, usize)| c.0);
    let ghost p = |q: u32| q != 0 && occurrences(ks, q) >= 10;
    let ghost f = |q: u32| churn_finding(state.procs(), q, occurrences(ks, q));
    let mut out: Vec<Finding> = Vec::new();
    let n = counts.len();
    for i in 0..n
        invariant
            n == counts@.len(),
            state.wf(),
            ds == counts@.map_values(|c: (u32, usize)| c.0),
            forall|j: int| 0 <= j < counts@.len() ==> #[trigger] counts@[j].1 == occurrences(ks, counts@[j].0),
            p == (|q: u32| q != 0 && occurrences(ks, q) >= 10),
            f == (|q: u32| churn_finding(state.procs(), q, occurrences(ks, q))),
            findings_view(out@) == ds.take(i as int).filter(p).map_values(f),
    {
        let (pid, c) = counts[i];
        proof {
            assert(ds[i as int] == pid);
            assert(c == occurrences(ks, pid));
            lemma_take_next(ds, i as int);
            lemma_filter_map_push(ds.take(i as int), pid, p, f);
        }
        if pid != 0 && c >= 10 {
            let mut desc = name_for_pid(state, pid);
            desc.append(" (PID ");
            push_decimal(&mut desc, pid as u128);
            desc.append(") spawned ");
            push_decimal(&mut desc, c as u128);
            desc.append(" processes in last 2m");
            push_finding(&mut out, "Rapid spawn/terminate churn", desc, 70);
        }
    }
    proof {
        assert(ds.take(n as int) =~= ds);
    }
    out
}

/// Reports parents that started many processes within the last two minutes.
pub struct RapidSpawnTerminateRule;

impl Rule for RapidSpawnTerminateRule {
    fn evaluate(&self, graph: &Graph, state: &ProcessState, events: &Vec<(i64, ProcessEvent)>) -> (r: Vec<Finding>)
        ensures
            exists|now: i64| findings_view(r@) == churn_findings(state.procs(), events_view(events@), now),
    {
        let now = unix_timestamp();
        rapid_churn_at(state, events, now)
    }
}

// ---------------------------------------------------------------------------------------------
// Mass spawn rule
// ---------------------------------------------------------------------------------------------

/// The parent pid of each process, in snapshot order.
pub open spec fn parent_keys(procs: Seq<InfoView>) -> Seq<u32> {
    procs.map_values(|x: InfoView| x.parent_pid)
}

/// The nonzero parents, in order of first appearance.
pub open spec fn spawners(procs: Seq<InfoView>) -> Seq<u32> {
    distinct_in_order(parent_keys(procs)).filter(|p: u32| p != 0)
}

/// `t` is the smallest natural number whose square is at least `x`.
pub open spec fn is_ceil_sqrt(x: int, t: int) -> bool {
    t >= 0 && t * t >= x && (t == 0 || (t - 1) * (t - 1) < x)
}

/// The ceiling of the square root of `x >= 0`.
pub open spec fn ceil_sqrt(x: int) -> int {
    choose|t: int| is_ceil_sqrt(x, t)
}

/// Nine times the spread of the children counts: `9 (n Q - S^2)` for `n` spawners with child
/// counts summing to `S` and squares summing to `Q` (never negative), which is `(3 n sigma)^2`
/// for the population standard deviation `sigma` of the counts.
pub open spec fn spread9(procs: Seq<InfoView>) -> int {
    let keys = parent_keys(procs);
    let ps = spawners(procs);
    let n = ps.len() as int;
    let s = sum_occurrences(keys, ps) as int;
    let q = sum_sq_occurrences(keys, ps) as int;
    if n * q >= s * s {
        9 * (n * q - s * s)
    } else {
        0
    }
}

/// The relative cutoff `ceil(mean + 3 sigma)` of the children counts of the spawners, computed
/// exactly as `ceil((S + ceil_sqrt(9 (n Q - S^2))) / n)`.
pub open spec fn spawn_cutoff(procs: Seq<InfoView>) -> int {
    let n = spawners(procs).len() as int;
    (sum_occurrences(parent_keys(procs), spawners(procs)) + ceil_sqrt(spread9(procs)) + n - 1) / n
}

/// The finding for parent `p` with `count` children.
pub open spec fn mass_finding(procs: Seq<InfoView>, p: u32, count: nat, threshold: usize, cutoff: int) -> FindingView {
    finding_of(
        "Mass process spawn detected"@,
        display_name(procs, p) + " spawned "@ + decimal(count) + " children (threshold "@ + decimal(threshold as nat)
            + " / cutoff "@ + decimal(cutoff as nat) + ")"@,
        50,
    )
}

/// One finding per spawner whose children count reaches the absolute threshold or the
/// relative cutoff, in order of first appearance.
pub open spec fn mass_findings(procs: Seq<InfoView>, threshold: usize) -> Seq<FindingView> {
    let keys = parent_keys(procs);
    let cutoff = spawn_cutoff(procs);
    spawners(procs).filter(|p: u32| occurrences(keys, p) >= threshold || occurrences(keys, p) >= cutoff).map_values(
        |p: u32| mass_finding(procs, p, occurrences(keys, p), threshold, cutoff),
    )
}

/// Two numbers that are both the ceiling square root of `x` are equal.
pub proof fn lemma_ceil_sqrt_unique(x: int, a: int, b: int)
    requires
        is_ceil_sqrt(x, a),
        is_ceil_sqrt(x, b),
    ensures
        a == b,
{
    if a < b {
        assert((b - 1) * (b - 1) >= a * a) by (nonlinear_arith)
            requires
                0 <= a <= b - 1,
        ;
    } else if b < a {
        assert((a - 1) * (a - 1) >= b * b) by (nonlinear_arith)
            requires
                0 <= b <= a - 1,
        ;
    }
}

/// The ceiling square root of `x <= 2^100`.
fn ceil_sqrt_of(x: u128) -> (t: u128)
    requires
        x <= 0x10000000000000000000000000u128,
    ensures
        is_ceil_sqrt(x as int, t as int),
        t as int == ceil_sqrt(x as int),
        t <= 0x4000000000000u128,
{
    let mut lo: u128 = 0;
    let mut hi: u128 = 0x4000000000000u128;
    assert(hi * hi == 0x10000000000000000000000000u128) by (nonlinear_arith)
        requires
            hi == 0x4000000000000u128,
    ;
    while lo < hi
        invariant
            lo <= hi <= 0x4000000000000u128,
            x <= 0x10000000000000000000000000u128,
            hi * hi >= x,
            lo == 0 || (lo - 1) * (lo - 1) < x,
        decreases hi - lo,
    {
        let mid = lo + (hi - lo) / 2;
        assert(mid * mid <= 0x10000000000000000000000000u128) by (nonlinear_arith)
            requires
                mid <= 0x4000000000000u128,
        ;
        if mid * mid >= x {
            hi = mid;
        } else {
            lo = mid + 1;
        }
    }
    proof {
        let c = ceil_sqrt(x as int);
        assert(is_ceil_sqrt(x as int, lo as int));
        lemma_ceil_sqrt_unique(x as int, c, lo as int);
    }
    lo
}

/// The number of spawners, their children total and their squared children total.
fn spawn_stats(keys: &Vec<u32>, counts: &Vec<(u32, usize)>) -> (r: (u128, u128, u128))
    requires
        keys@.len() <= u32::MAX,
        counts@.map_values(|c: (u32, usize)| c.0) == distinct_in_order(keys@),
        forall|j: int| 0 <= j < counts@.len() ==> #[trigger] counts@[j].1 == occurrences(keys@, counts@[j].0),
    ensures
        r.0 == distinct_in_order(keys@).filter(|p: u32| p != 0).len(),
        r.1 == sum_occurrences(keys@, distinct_in_order(keys@).filter(|p: u32| p != 0)),
        r.2 == sum_sq_occurrences(keys@, distinct_in_order(keys@).filter(|p: u32| p != 0)),
        r.0 <= keys@.len(),
        r.1 <= keys@.len(),
        r.2 <= keys@.len() * keys@.len(),
{
    let ghost ks = keys@;
    let ghost ds = counts@.map_values(|c: (u32, usize)| c.0);
    let ghost nz = |p: u32| p != 0;
    let ghost big_n = ks.len();
    proof {
        lemma_distinct_in_order(ks);
    }
    let mut n: u128 = 0;
    let mut s: u128 = 0;
    let mut q: u128 = 0;
    let m = counts.len();
    for i in 0..m
        invariant
            m == counts@.len(),
            big_n == ks.len(),
            big_n <= u32::MAX,
            ds == counts@.map_values(|c: (u32, usize)| c.0),
            ds == distinct_in_order(ks),
            ds.no_duplicates(),
            ds.len() <= big_n,
            forall|j: int| 0 <= j < counts@.len() ==> #[trigger] counts@[j].1 == occurrences(ks, counts@[j].0),
            nz == (|p: u32| p != 0),
            n == ds.take(i as int).filter(nz).len(),
            s == sum_occurrences(ks, ds.take(i as int).filter(nz)),
            q == sum_sq_occurrences(ks, ds.take(i as int).filter(nz)),
            n <= i,
            s <= big_n,
            q <= big_n * s,
    {
        let (p, c) = counts[i];
        let ghost pre = ds.take(i as int).filter(nz);
        proof {
            assert(ds[i as int] == p);
            lemma_take_next(ds, i as int);
            ds.take(i as int).lemma_filter_push(p, nz);
            ds.take(i as int).lemma_filter_len(nz);
        }
        if p != 0 {
            let ghost post = pre.push(p);
            proof {
                assert(post.drop_last() =~= pre);
                let dt = ds.take(i + 1);
                assert(dt.no_duplicates()) by {
                    assert forall|a: int, b: int| #![trigger dt[a], dt[b]] 0 <= a < b < dt.len() implies dt[a] != dt[b] by {
                        assert(dt[a] == ds[a] && dt[b] == ds[b]);
                    }
                }
                lemma_filter_no_duplicates(ds.take(i + 1), nz);
                lemma_sum_occurrences_bound(ks, post);
                assert forall|j: int| 0 <= j < post.len() implies occurrences(ks, #[trigger] post[j]) <= big_n by {
                    lemma_occurrences_le_len(ks, post[j]);
                }
                lemma_sum_sq_bound(ks, post, big_n);
                lemma_occurrences_le_len(ks, p);
                assert(c * c <= big_n * big_n) by (nonlinear_arith)
                    requires
                        c <= big_n,
                ;
                assert(big_n * big_n <= 0xffff_fffe_0000_0001u128) by (nonlinear_arith)
                    requires
                        big_n <= u32::MAX,
                ;
                assert(big_n * sum_occurrences(ks, post) <= big_n * big_n) by (nonlinear_arith)
                    requires
                        sum_occurrences(ks, post) <= big_n,
                ;
            }
            n = n + 1;
            s = s + c as u128;
            q = q + (c as u128) * (c as u128);
        }
    }
    proof {
        assert(ds.take(m as int) =~= ds);
        assert(big_n * s <= big_n * big_n) by (nonlinear_arith)
            requires
                s <= big_n,
        ;
        ds.lemma_filter_len(nz);
    }
    (n, s, q)
}

/// Reports parents with many children: at least `threshold` of them, or at least
/// `ceil(mean + 3 sigma)` of the children counts of all parents.
pub struct MassProcessSpawnRule {
    pub threshold: usize,
}

impl Rule for MassProcessSpawnRule {
    fn evaluate(&self, graph: &Graph, state: &ProcessState, events: &Vec<(i64, ProcessEvent)>) -> (r: Vec<Finding>)
        ensures
            findings_view(r@) == mass_findings(state.procs(), self.threshold),
    {
        let ghost procs = state.procs();
        let mut keys: Vec<u32> = Vec::new();
        let np = state.processes.len();
        for i in 0..np
            invariant
                np == state.processes@.len(),
                procs == state.procs(),
                keys@ == parent_keys(procs.take(i as int)),
        {
            keys.push(state.processes[i].parent_pid);
            proof {
                assert(procs[i as int] == state.processes@[i as int]@);
                assert(parent_keys(procs.take(i + 1)) =~= parent_keys(procs.take(i as int)).push(procs[i as int].parent_pid));
            }
        }
        proof {
            assert(procs.take(np as int) =~= procs);
        }
        let counts = tally(&keys);
        let ghost ks = keys@;
        let ghost ds = counts@.map_values(|c: (u32, usize)| c.0);
        let (n, s, q) = spawn_stats(&keys, &counts);
        let ghost nz = |p: u32| p != 0;
        proof {
            assert(ks.len() == procs.len());
            assert(ks.len() * ks.len() <= u32::MAX as int * u32::MAX as int) by (nonlinear_arith)
                requires
                    ks.len() <= u32::MAX,
            ;
        }
        let mut out: Vec<Finding> = Vec::new();
        if n == 0 {
            proof {
                assert(spawners(procs).len() == 0);
                assert(spawners(procs) =~= Seq::<u32>::empty());
                assert(mass_findings(procs, self.threshold) =~= Seq::<FindingView>::empty());
                assert(findings_view(out@) =~= Seq::<FindingView>::empty());
            }
            return out;
        }
        assert(n * q <= 0x1_0000_0000_0000_0000_0000_0000u128) by (nonlinear_arith)
            requires
                n <= u32::MAX,
                q <= u32::MAX as int * u32::MAX as int,
        ;
        assert(s * s <= 0xffff_fffe_0000_0001u128) by (nonlinear_arith)
            requires
                s <= u32::MAX,
        ;
        let spread: u128 = if n * q >= s * s {
            9 * (n * q - s * s)
        } else {
            0
        };
        let t = ceil_sqrt_of(spread);
        let cutoff: u128 = (s + t + n - 1) / n;
        proof {
            assert(spread as int == spread9(procs));
            assert(cutoff as int == spawn_cutoff(procs));
        }
        let ghost p = |x: u32| occurrences(ks, x) >= self.threshold || occurrences(ks, x) >= cutoff;
        let ghost f = |x: u32| mass_finding(procs, x, occurrences(ks, x), self.threshold, cutoff as int);
        let m = counts.len();
        for i in 0..m
            invariant
                m == counts@.len(),
                state.wf(),
                procs == state.procs(),
                ds == counts@.map_values(|c: (u32, usize)| c.0),
                forall|j: int| 0 <= j < counts@.len() ==> #[trigger] counts@[j].1 == occurrences(ks, counts@[j].0),
                nz == (|x: u32| x != 0),
                p == (|x: u32| occurrences(ks, x) >= self.threshold || occurrences(ks, x) >= cutoff),
                f == (|x: u32| mass_finding(procs, x, occurrences(ks, x), self.threshold, cutoff as int)),
                findings_view(out@) == ds.take(i as int).filter(nz).filter(p).map_values(f),
        {
            let (pid, c) = counts[i];
            proof {
                assert(ds[i as int] == pid);
                lemma_take_next(ds, i as int);
                ds.take(i as int).lemma_filter_push(pid, nz);
                if pid != 0 {
                    lemma_filter_map_push(ds.take(i as int).filter(nz), pid, p, f);
                }
            }
            if pid != 0 && (c >= self.threshold || c as u128 >= cutoff) {
                let mut desc = name_for_pid(state, pid);
                desc.append(" spawned ");
                push_decimal(&mut desc, c as u128);
                desc.append(" children (threshold ");
                push_decimal(&mut desc, self.threshold as u128);
                desc.append(" / cutoff ");
                push_decimal(&mut desc, cutoff);
                desc.append(")");
                push_finding(&mut out, "Mass process spawn detected", desc, 50);
            }
        }
        proof {
            assert(ds.take(m as int) =~= ds);
        }
        out
    }
}

// ---------------------------------------------------------------------------------------------
// Periodic short-lived process rule
// ---------------------------------------------------------------------------------------------

/// The stamp of the last termination of `pid` in `rec` (later entries overwrite earlier ones).
pub open spec fn last_termination(rec: Seq<(i64, EventView)>, pid: u32) -> Option<i64>
    decreases rec.len(),
{
    if rec.len() == 0 {
        None
    } else if rec.last().1 == EventView::Terminated(pid) {
        Some(rec.last().0)
    } else {
        last_termination(rec.drop_last(), pid)
    }
}

/// A start in `rec` whose process terminated within five seconds of it.
pub open spec fn short_lived(rec: Seq<(i64, EventView)>, e: (i64, EventView)) -> bool {
    match e.1 {
        EventView::Started(info) => match last_termination(rec, info.pid) {
            Some(tend) => tend - e.0 <= 5,
            None => false,
        },
        _ => false,
    }
}

/// The process name of a start event.
pub open spec fn started_name(e: EventView) -> Seq<char> {
    match e {
        EventView::Started(info) => info.name,
        _ => Seq::empty(),
    }
}

/// The names of the short-lived starts in `rec`, in order.
pub open spec fn short_lived_names(rec: Seq<(i64, EventView)>) -> Seq<Seq<char>> {
    rec.filter(|e: (i64, EventView)| short_lived(rec, e)).map_values(|e: (i64, EventView)| started_name(e.1))
}

/// The stamps of the short-lived starts of `name` in `rec`, in order.
pub open spec fn cycle_times(rec: Seq<(i64, EventView)>, name: Seq<char>) -> Seq<i64> {
    rec.filter(|e: (i64, EventView)| short_lived(rec, e) && started_name(e.1) == name).map_values(
        |e: (i64, EventView)| e.0,
    )
}

/// `a / b` rounded to the nearest integer, ties to even (for `a, b > 0`).
pub open spec fn round_half_even(a: int, b: int) -> int {
    let q = a / b;
    let r = a % b;
    if 2 * r > b {
        q + 1
    } else if 2 * r == b && q % 2 == 1 {
        q + 1
    } else {
        q
    }
}

/// Whether the average gap between successive stamps lies within 60 seconds of 90 seconds.
pub open spec fn periodic_times(t: Seq<i64>) -> bool {
    let n = t.len() - 1;
    t.len() >= 3 && 30 * n <= t.last() - t[0] <= 150 * n
}

/// The finding for `name` started at stamps `t`.
pub open spec fn periodic_finding(name: Seq<char>, t: Seq<i64>) -> FindingView {
    finding_of(
        "Periodic short-lived process cycle"@,
        "Process "@ + name + " started "@ + decimal(t.len()) + " times with short lifetimes and avg interval "@
            + decimal(round_half_even(t.last() - t[0], t.len() - 1) as nat) + "s"@,
        30,
    )
}

/// One finding per process name that was started, short-lived, at least three times in the
/// last fifteen minutes at an average gap of 30 to 150 seconds, in order of first appearance.
pub open spec fn periodic_findings(ev: Seq<(i64, EventView)>, now: i64) -> Seq<FindingView> {
    let rec = recent(ev, now, 900);
    distinct_in_order(short_lived_names(rec)).filter(|n: Seq<char>| periodic_times(cycle_times(rec, n))).map_values(
        |n: Seq<char>| periodic_finding(n, cycle_times(rec, n)),
    )
}

/// The stamp of the last termination of `pid` in `rec`.
fn last_termination_of(rec: &Vec<(i64, ProcessEvent)>, pid: u32) -> (r: Option<i64>)
    ensures
        r == last_termination(events_view(rec@), pid),
{
    let ghost ev = events_view(rec@);
    let mut found: Option<i64> = None;
    let n = rec.len();
    for i in 0..n
        invariant
            n == rec@.len(),
            ev == events_view(rec@),
            found == last_termination(ev.take(i as int), pid),
    {
        proof {
            lemma_take_next(ev, i as int);
            assert(ev.take(i + 1).drop_last() =~= ev.take(i as int));
            assert(ev[i as int] == stamped_view(rec@[i as int]));
        }
        match &rec[i].1 {
            ProcessEvent::Terminated(p) => {
                if *p == pid {
                    found = Some(rec[i].0);
                }
            },
            _ => {},
        }
    }
    proof {
        assert(ev.take(n as int) =~= ev);
    }
    found
}

/// The names of the short-lived starts in `rec` in order of first appearance, each with
/// its stamps.
fn group_cycles(rec: &Vec<(i64, ProcessEvent)>) -> (r: Vec<(String, Vec<i64>)>)
    ensures
        r@.map_values(|g: (String, Vec<i64>)| g.0@) == distinct_in_order(short_lived_names(events_view(rec@))),
        forall|j: int| 0 <= j < r@.len() ==> #[trigger] r@[j].1@ == cycle_times(events_view(rec@), r@[j].0@),
{
    let ghost ev = events_view(rec@);
    let ghost sl = |e: (i64, EventView)| short_lived(ev, e);
    let ghost nm = |e: (i64, EventView)| started_name(e.1);
    let mut groups: Vec<(String, Vec<i64>)> = Vec::new();
    let n = rec.len();
    for i in 0..n
        invariant
            n == rec@.len(),
            ev == events_view(rec@),
            sl == (|e: (i64, EventView)| short_lived(ev, e)),
            nm == (|e: (i64, EventView)| started_name(e.1)),
            groups@.map_values(|g: (String, Vec<i64>)| g.0@) == distinct_in_order(
                ev.take(i as int).filter(sl).map_values(nm),
            ),
            forall|j: int| 0 <= j < groups@.len() ==> #[trigger] groups@[j].1@ == ev.take(i as int).filter(
                |e: (i64, EventView)| short_lived(ev, e) && started_name(e.1) == groups@[j].0@,
            ).map_values(|e: (i64, EventView)| e.0),
    {
        let ghost pre = ev.take(i as int);
        let ghost x = ev[i as int];
        proof {
            lemma_take_next(ev, i as int);
            assert(x == stamped_view(rec@[i as int]));
            lemma_filter_map_push(pre, x, sl, nm);
        }
        let ts = rec[i].0;
        match &rec[i].1 {
            ProcessEvent::Started(info) => {
                let tend = last_termination_of(rec, info.pid);
                let hit = match tend {
                    Some(t) => (t as i128) - (ts as i128) <= 5,
                    None => false,
                };
                if hit {
                    let ghost names_pre = pre.filter(sl).map_values(nm);
                    let ghost before = groups@;
                    proof {
                        assert(sl(x));
                        assert(nm(x) == info.name@);
                        assert(pre.push(x).filter(sl).map_values(nm) == names_pre.push(info.name@));
                        assert(ev.take(i + 1).drop_last() =~= pre);
                        lemma_distinct_in_order(names_pre);
                    }
                    let mut j: usize = 0;
                    while j < groups.len() && groups[j].0 != info.name
                        invariant
                            groups@ == before,
                            j <= groups@.len(),
                            forall|t: int| 0 <= t < j ==> groups@[t].0@ != info.name@,
                        decreases groups@.len() - j,
                    {
                        j = j + 1;
                    }
                    proof {
                        assert(names_pre.push(info.name@).drop_last() =~= names_pre);
                    }
                    if j < groups.len() {
                        let mut times = groups[j].1.clone();
                        times.push(ts);
                        let name = groups[j].0.clone();
                        groups.set(j, (name, times));
                        proof {
                            let ks = before.map_values(|g: (String, Vec<i64>)| g.0@);
                            assert(ks[j as int] == info.name@);
                            assert(ks.contains(info.name@));
                            assert(groups@.map_values(|g: (String, Vec<i64>)| g.0@) =~= ks);
                            assert forall|t: int| 0 <= t < groups@.len() implies #[trigger] groups@[t].1@ == ev.take(i + 1).filter(
                                |e: (i64, EventView)| short_lived(ev, e) && started_name(e.1) == groups@[t].0@,
                            ).map_values(|e: (i64, EventView)| e.0) by {
                                let key = groups@[t].0@;
                                let pk = |e: (i64, EventView)| short_lived(ev, e) && started_name(e.1) == key;
                                lemma_filter_map_push(pre, x, pk, |e: (i64, EventView)| e.0);
                                if t != j {
                                    assert(ks[t] != ks[j as int]);
                                    assert(groups@[t] == before[t]);
                                }
                            }
                        }
                    } else {
                        let mut times: Vec<i64> = Vec::new();
                        times.push(ts);
                        groups.push((info.name.clone(), times));
                        proof {
                            let ks = before.map_values(|g: (String, Vec<i64>)| g.0@);
                            assert(!ks.contains(info.name@)) by {
                                if ks.contains(info.name@) {
                                    let t = choose|t: int| 0 <= t < ks.len() && ks[t] == info.name@;
                                    assert(before[t].0@ == info.name@);
                                }
                            }
                            assert(groups@.map_values(|g: (String, Vec<i64>)| g.0@) =~= ks.push(info.name@));
                            assert forall|t: int| 0 <= t < groups@.len() implies #[trigger] groups@[t].1@ == ev.take(i + 1).filter(
                                |e: (i64, EventView)| short_lived(ev, e) && started_name(e.1) == groups@[t].0@,
                            ).map_values(|e: (i64, EventView)| e.0) by {
                                let key = groups@[t].0@;
                                let pk = |e: (i64, EventView)| short_lived(ev, e) && started_name(e.1) == key;
                                lemma_filter_map_push(pre, x, pk, |e: (i64, EventView)| e.0);
                                if t < before.len() {
                                    assert(groups@[t] == before[t]);
                                    assert(ks[t] != info.name@);
                                } else {
                                    assert(!names_pre.contains(key));
                                    lemma_no_named_hits(ev, pre, key);
                                    assert(groups@[t].1@ =~= seq![ts]);
                                }
                            }
                        }
                    }
                } else {
                    proof {
                        assert(!sl(x));
                        assert forall|t: int| 0 <= t < groups@.len() implies #[trigger] groups@[t].1@ == ev.take(i + 1).filter(
                            |e: (i64, EventView)| short_lived(ev, e) && started_name(e.1) == groups@[t].0@,
                        ).map_values(|e: (i64, EventView)| e.0) by {
                            let key = groups@[t].0@;
                            let pk = |e: (i64, EventView)| short_lived(ev, e) && started_name(e.1) == key;
                            lemma_filter_map_push(pre, x, pk, |e: (i64, EventView)| e.0);
                        }
                    }
                }
            },
            _ => {
                proof {
                    assert(!sl(x));
                    assert forall|t: int| 0 <= t < groups@.len() implies #[trigger] groups@[t].1@ == ev.take(i + 1).filter(
                        |e: (i64, EventView)| short_lived(ev, e) && started_name(e.1) == groups@[t].0@,
                    ).map_values(|e: (i64, EventView)| e.0) by {
                        let key = groups@[t].0@;
                        let pk = |e: (i64, EventView)| short_lived(ev, e) && started_name(e.1) == key;
                        lemma_filter_map_push(pre, x, pk, |e: (i64, EventView)| e.0);
                    }
                }
            },
        }
    }
    proof {
        assert(ev.take(n as int) =~= ev);
    }
    groups
}

/// A name that no short-lived start in `pre` carries has no stamps there.
proof fn lemma_no_named_hits(ev: Seq<(i64, EventView)>, pre: Seq<(i64, EventView)>, key: Seq<char>)
    requires
        !pre.filter(|e: (i64, EventView)| short_lived(ev, e)).map_values(|e: (i64, EventView)| started_name(e.1)).contains(key),
    ensures
        pre.filter(|e: (i64, EventView)| short_lived(ev, e) && started_name(e.1) == key).map_values(
            |e: (i64, EventView)| e.0,
        ) == Seq::<i64>::empty(),
    decreases pre.len(),
{
    let sl = |e: (i64, EventView)| short_lived(ev, e);
    let nm = |e: (i64, EventView)| started_name(e.1);
    let pk = |e: (i64, EventView)| short_lived(ev, e) && started_name(e.1) == key;
    if pre.len() == 0 {
        assert(pre.filter(pk) =~= Seq::<(i64, EventView)>::empty());
        assert(pre.filter(pk).map_values(|e: (i64, EventView)| e.0) =~= Seq::<i64>::empty());
    } else {
        let rest = pre.drop_last();
        let x = pre.last();
        assert(pre =~= rest.push(x));
        lemma_filter_map_push(rest, x, sl, nm);
        lemma_filter_map_push(rest, x, pk, |e: (i64, EventView)| e.0);
        if sl(x) {
            let a = rest.filter(sl).map_values(nm);
            assert(pre.filter(sl).map_values(nm) == a.push(nm(x)));
            assert(a.push(nm(x))[a.len() as int] == nm(x));
            assert(nm(x) != key);
            assert forall|k: int| 0 <= k < a.len() implies a[k] != key by {
                assert(a.push(nm(x))[k] == a[k]);
            }
        }
        lemma_no_named_hits(ev, rest, key);
    }
}

/// The periodic-cycle findings at time `now`.
pub fn periodic_cycles_at(events: &Vec<(i64, ProcessEvent)>, now: i64) -> (r: Vec<Finding>)
    ensures
        findings_view(r@) == periodic_findings(events_view(events@), now),
{
    let rec = recent_events(events, now, 900);
    let groups = group_cycles(&rec);
    let ghost rv = events_view(rec@);
    let ghost ds = groups@.map_values(|g: (String, Vec<i64>)| g.0@);
    let ghost p = |nm: Seq<char>| periodic_times(cycle_times(rv, nm));
    let ghost f = |nm: Seq<char>| periodic_finding(nm, cycle_times(rv, nm));
    let mut out: Vec<Finding> = Vec::new();
    let m = groups.len();
    for i in 0..m
        invariant
            m == groups@.len(),
            ds == groups@.map_values(|g: (String, Vec<i64>)| g.0@),
            forall|j: int| 0 <= j < groups@.len() ==> #[trigger] groups@[j].1@ == cycle_times(rv, groups@[j].0@),
            p == (|nm: Seq<char>| periodic_times(cycle_times(rv, nm))),
            f == (|nm: Seq<char>| periodic_finding(nm, cycle_times(rv, nm))),
            findings_view(out@) == ds.take(i as int).filter(p).map_values(f),
    {
        let name = &groups[i].0;
        let times = &groups[i].1;
        proof {
            assert(ds[i as int] == name@);
            assert(times@ == cycle_times(rv, name@));
            lemma_take_next(ds, i as int);
            lemma_filter_map_push(ds.take(i as int), name@, p, f);
        }
        let len = times.len();
        if len >= 3 {
            let span: i128 = (times[len - 1] as i128) - (times[0] as i128);
            let gaps: i128 = (len - 1) as i128;
            if 30 * gaps <= span && span <= 150 * gaps {
                let q = span / gaps;
                let r = span % gaps;
                let avg: i128 = if 2 * r > gaps {
                    q + 1
                } else if 2 * r == gaps && q % 2 == 1 {
                    q + 1
                } else {
                    q
                };
                let mut desc = string_of("Process ");
                desc.append(name.as_str());
                desc.append(" started ");
                push_decimal(&mut desc, len as u128);
                desc.append(" times with short lifetimes and avg interval ");
                push_decimal(&mut desc, avg as u128);
                desc.append("s");
                push_finding(&mut out, "Periodic short-lived process cycle", desc, 30);
            }
        }
    }
    proof {
        assert(ds.take(m as int) =~= ds);
    }
    out
}

/// Reports process names that keep being started and ending quickly at a steady interval.
pub struct PeriodicProcessCycleRule;

impl Rule for PeriodicProcessCycleRule {
    fn evaluate(&self, graph: &Graph, state: &ProcessState, events: &Vec<(i64, ProcessEvent)>) -> (r: Vec<Finding>)
        ensures
            exists|now: i64| findings_view(r@) == periodic_findings(events_view(events@), now),
    {
        let now = unix_timestamp();
        periodic_cycles_at(events, now)
    }
}

// ---------------------------------------------------------------------------------------------
// Registry
// ---------------------------------------------------------------------------------------------

/// A registered rule.
pub enum RegisteredRule {
    PowerShellSpawn(PowerShellSpawnRule),
    UnknownExecutable(UnknownExecutableRule),
    OfficeChildProcess(OfficeChildProcessRule),
    PowerShellBehavior(PowerShellBehaviorRule),
    MassProcessSpawn(MassProcessSpawnRule),
    SustainedCpuSpike(SustainedCpuSpikeRule),
    RapidSpawnTerminate(RapidSpawnTerminateRule),
    SuspiciousRegistryAccess(SuspiciousRegistryAccessRule),
    PeriodicProcessCycle(PeriodicProcessCycleRule),
}

/// What rule `r` reports on graph `g`, processes `procs` and stored events `ev` at time `now`.
pub open spec fn rule_findings(
    r: RegisteredRule,
    g: &Graph,
    procs: Seq<InfoView>,
    ev: Seq<(i64, EventView)>,
    now: i64,
) -> Seq<FindingView> {
    match r {
        RegisteredRule::PowerShellSpawn(_) => spawn_findings(
            g.nodes_v(),
            g.edges_v(),
            "powershell"@,
            "cmd"@,
            "PowerShell spawned cmd"@,
            20,
        ),
        RegisteredRule::UnknownExecutable(_) => g.nodes_v().filter(|n: NodeView| is_unknown_exe(n)).map_values(
            |n: NodeView| unknown_finding(n),
        ),
        RegisteredRule::OfficeChildProcess(_) => spawn_findings(
            g.nodes_v(),
            g.edges_v(),
            "winword"@,
            "powershell"@,
            "Office spawned PowerShell"@,
            70,
        ),
        RegisteredRule::PowerShellBehavior(_) => g.nodes_v().filter(|n: NodeView| is_busy_powershell(g.edges_v(), n)).map_values(
            |n: NodeView| busy_powershell_finding(g.edges_v(), n),
        ),
        RegisteredRule::MassProcessSpawn(m) => mass_findings(procs, m.threshold),
        RegisteredRule::SustainedCpuSpike(_) => sustained_findings(procs, ev, now),
        RegisteredRule::RapidSpawnTerminate(_) => churn_findings(procs, ev, now),
        RegisteredRule::SuspiciousRegistryAccess(_) => g.edges_v().filter(
            |e: EdgeView| suspicious_registry_edge(g.nodes_v(), e),
        ).map_values(|e: EdgeView| registry_finding(g.nodes_v(), e)),
        RegisteredRule::PeriodicProcessCycle(_) => periodic_findings(ev, now),
    }
}

/// What rule `r` reports at time `now`.
fn evaluate_rule_at(
    r: &RegisteredRule,
    graph: &Graph,
    state: &ProcessState,
    events: &Vec<(i64, ProcessEvent)>,
    now: i64,
) -> (f: Vec<Finding>)
    requires
        graph.wf(),
        state.wf(),
        state.procs().len() <= u32::MAX,
    ensures
        findings_view(f@) == rule_findings(*r, graph, state.procs(), events_view(events@), now),
{
    match r {
        RegisteredRule::PowerShellSpawn(x) => x.evaluate(graph, state, events),
        RegisteredRule::UnknownExecutable(x) => x.evaluate(graph, state, events),
        RegisteredRule::OfficeChildProcess(x) => x.evaluate(graph, state, events),
        RegisteredRule::PowerShellBehavior(x) => x.evaluate(graph, state, events),
        RegisteredRule::MassProcessSpawn(x) => x.evaluate(graph, state, events),
        RegisteredRule::SustainedCpuSpike(_) => sustained_spikes_at(state, events, now),
        RegisteredRule::RapidSpawnTerminate(_) => rapid_churn_at(state, events, now),
        RegisteredRule::SuspiciousRegistryAccess(x) => x.evaluate(graph, state, events),
        RegisteredRule::PeriodicProcessCycle(_) => periodic_cycles_at(events, now),
    }
}

/// The registered rules, in registration order.
pub struct RuleSet {
    pub rules: Vec<RegisteredRule>,
}

impl RuleSet {
    pub fn new() -> (s: Self)
        ensures
            s.rules@.len() == 0,
    {
        RuleSet { rules: Vec::new() }
    }
}

/// Register `r` after the rules registered so far.
pub fn register_rule(set: &mut RuleSet, r: RegisteredRule)
    ensures
        final(set).rules@ == old(set).rules@.push(r),
{
    set.rules.push(r);
}

/// The default rules, in the order in which they are registered.
pub open spec fn default_rules() -> Seq<RegisteredRule> {
    seq![
        RegisteredRule::PowerShellSpawn(PowerShellSpawnRule),
        RegisteredRule::UnknownExecutable(UnknownExecutableRule),
        RegisteredRule::OfficeChildProcess(OfficeChildProcessRule),
        RegisteredRule::PowerShellBehavior(PowerShellBehaviorRule),
        RegisteredRule::MassProcessSpawn(MassProcessSpawnRule { threshold: 100 }),
        RegisteredRule::SustainedCpuSpike(SustainedCpuSpikeRule),
        RegisteredRule::RapidSpawnTerminate(RapidSpawnTerminateRule),
        RegisteredRule::SuspiciousRegistryAccess(SuspiciousRegistryAccessRule),
        RegisteredRule::PeriodicProcessCycle(PeriodicProcessCycleRule),
    ]
}

/// Register the default rules.
pub fn register_defaults(set: &mut RuleSet)
    ensures
        final(set).rules@ == old(set).rules@ + default_rules(),
{
    register_rule(set, RegisteredRule::PowerShellSpawn(PowerShellSpawnRule));
    register_rule(set, RegisteredRule::UnknownExecutable(UnknownExecutableRule));
    register_rule(set, RegisteredRule::OfficeChildProcess(OfficeChildProcessRule));
    register_rule(set, RegisteredRule::PowerShellBehavior(PowerShellBehaviorRule));
    register_rule(set, RegisteredRule::MassProcessSpawn(MassProcessSpawnRule { threshold: 100 }));
    register_rule(set, RegisteredRule::SustainedCpuSpike(SustainedCpuSpikeRule));
    register_rule(set, RegisteredRule::RapidSpawnTerminate(RapidSpawnTerminateRule));
    register_rule(set, RegisteredRule::SuspiciousRegistryAccess(SuspiciousRegistryAccessRule));
    register_rule(set, RegisteredRule::PeriodicProcessCycle(PeriodicProcessCycleRule));
    assert(set.rules@ =~= old(set).rules@ + default_rules());
}

/// Append copies of `more` to `out`.
fn append_findings(out: &mut Vec<Finding>, more: &Vec<Finding>)
    ensures
        findings_view(final(out)@) == findings_view(old(out)@) + findings_view(more@),
{
    let ghost start = findings_view(out@);
    let n = more.len();
    for i in 0..n
        invariant
            n == more@.len(),
            findings_view(out@) == start + findings_view(more@).take(i as int),
    {
        let ghost before = out@;
        out.push(more[i].clone());
        proof {
            assert(findings_view(out@) =~= findings_view(before).push(more@[i as int]@));
            assert(findings_view(more@).take(i + 1) =~= findings_view(more@).take(i as int).push(more@[i as int]@));
            assert(start + findings_view(more@).take(i + 1) =~= (start + findings_view(more@).take(i as int)).push(
                more@[i as int]@,
            ));
        }
    }
    proof {
        assert(findings_view(more@).take(n as int) =~= findings_view(more@));
    }
}

/// What the rules `rules` report at time `now`, rule after rule.
pub open spec fn all_findings(
    rules: Seq<RegisteredRule>,
    g: &Graph,
    procs: Seq<InfoView>,
    ev: Seq<(i64, EventView)>,
    now: i64,
) -> Seq<FindingView> {
    rules.flat_map(|x: RegisteredRule| rule_findings(x, g, procs, ev, now))
}

/// Every registered rule's findings at time `now`, rule after rule.
pub fn evaluate_all_at(
    set: &RuleSet,
    graph: &Graph,
    state: &ProcessState,
    events: &Vec<(i64, ProcessEvent)>,
    now: i64,
) -> (r: Vec<Finding>)
    requires
        graph.wf(),
        state.wf(),
        state.procs().len() <= u32::MAX,
    ensures
        findings_view(r@) == all_findings(set.rules@, graph, state.procs(), events_view(events@), now),
{
    let ghost f = |x: RegisteredRule| rule_findings(x, graph, state.procs(), events_view(events@), now);
    let mut out: Vec<Finding> = Vec::new();
    let n = set.rules.len();
    for i in 0..n
        invariant
            n == set.rules@.len(),
            graph.wf(),
            state.wf(),
            state.procs().len() <= u32::MAX,
            f == (|x: RegisteredRule| rule_findings(x, graph, state.procs(), events_view(events@), now)),
            findings_view(out@) == set.rules@.take(i as int).flat_map(f),
    {
        let fs = evaluate_rule_at(&set.rules[i], graph, state, events, now);
        append_findings(&mut out, &fs);
        proof {
            set.rules@.lemma_flat_map_take_append(f, i as int);
        }
    }
    proof {
        assert(set.rules@.take(n as int) =~= set.rules@);
    }
    out
}

/// The processes of the latest snapshot, none when there is no snapshot.
pub open spec fn latest_procs(rt: &RuntimeState) -> Seq<InfoView> {
    match rt.latest {
        Some(s) => s.procs(),
        None => Seq::empty(),
    }
}

/// Evaluate every registered rule against the graph and the latest snapshot (an empty one
/// when none was set). The caller publishes each finding on the `Finding` topic.
pub fn evaluate_all(set: &RuleSet, graph: &Graph, rt: &RuntimeState, events: &Vec<(i64, ProcessEvent)>) -> (r: Vec<
    Finding,
>)
    requires
        graph.wf(),
        rt.latest is Some ==> rt.latest->0.wf() && rt.latest->0.procs().len() <= u32::MAX,
    ensures
        exists|now: i64| findings_view(r@) == #[trigger] all_findings(set.rules@, graph, latest_procs(rt), events_view(events@), now),
{
    let state = match crate::runtime::get_latest_state(rt) {
        Some(s) => s,
        None => ProcessState::default(),
    };
    let now = unix_timestamp();
    let r = evaluate_all_at(set, graph, &state, events, now);
    proof {
        assert(state.procs() == latest_procs(rt));
    }
    r
}

} // verus!
