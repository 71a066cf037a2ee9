use crate::graph::{
    has_node, proc_id, proc_node_id, record_edge, upsert_node, EdgeKind, EdgeView, Graph, KindView, Node, NodeType,
    NodeView,
};
use crate::process_state::{InfoView, ProcessState};
use crate::security_state::{get_behavior, SecurityState};
use crate::seq_facts::lemma_take_next;
use crate::text::{decimal, lowercase, push_decimal, seq_contains, str_contains, string_of, to_lowercase};
use vstd::prelude::*;
use vstd::string::StringExecFns;

verus! {

broadcast use {vstd::string::group_string_axioms, vstd::seq_lib::group_seq_properties, vstd::seq::group_seq_axioms};

/// One step of building a graph.
pub enum GraphOp {
    /// Add a node, replacing the node with the same id.
    Upsert(Node),
    /// Add a node unless one with its id is present.
    AddIfMissing(Node),
    /// Record an edge.
    Link(String, String, EdgeKind),
    /// Record an edge when its source node is present.
    LinkIfPresent(String, String, EdgeKind),
}

pub enum GraphOpView {
    Upsert(NodeView),
    AddIfMissing(NodeView),
    Link(Seq<char>, Seq<char>, KindView),
    LinkIfPresent(Seq<char>, Seq<char>, KindView),
}

impl View for GraphOp {
    type V = GraphOpView;

    open spec fn view(&self) -> GraphOpView {
        match self {
            GraphOp::Upsert(n) => GraphOpView::Upsert(n@),
            GraphOp::AddIfMissing(n) => GraphOpView::AddIfMissing(n@),
            GraphOp::Link(s, d, k) => GraphOpView::Link(s@, d@, k@),
            GraphOp::LinkIfPresent(s, d, k) => GraphOpView::LinkIfPresent(s@, d@, k@),
        }
    }
}

pub open spec fn ops_view(v: Seq<GraphOp>) -> Seq<GraphOpView> {
    v.map_values(|o: GraphOp| o@)
}

/// Nodes and edges after one step; an edge recorded by the step is stamped `ts`.
pub open spec fn graph_step(ns: Seq<NodeView>, es: Seq<EdgeView>, op: GraphOpView, ts: u64) -> (Seq<NodeView>, Seq<EdgeView>) {
    match op {
        GraphOpView::Upsert(n) => (upsert_node(ns, n), es),
        GraphOpView::AddIfMissing(n) => (if has_node(ns, n.id) { ns } else { ns.push(n) }, es),
        GraphOpView::Link(s, d, k) => (ns, record_edge(es, s, d, k, ts)),
        GraphOpView::LinkIfPresent(s, d, k) => (ns, if has_node(ns, s) { record_edge(es, s, d, k, ts) } else { es }),
    }
}

/// Nodes and edges after the steps `ops`, step `i` stamping its edge with `tss[i]`.
pub open spec fn graph_after(ns: Seq<NodeView>, es: Seq<EdgeView>, ops: Seq<GraphOpView>, tss: Seq<u64>) -> (Seq<NodeView>, Seq<EdgeView>)
    decreases ops.len(),
{
    if ops.len() == 0 {
        (ns, es)
    } else {
        let prev = graph_after(ns, es, ops.drop_last(), tss.drop_last());
        graph_step(prev.0, prev.1, ops.last(), tss.last())
    }
}

/// Run one step.
fn run_graph_op(g: &mut Graph, op: GraphOp)
    requires
        old(g).wf(),
    ensures
        final(g).wf(),
        exists|ts: u64| (final(g).nodes_v(), final(g).edges_v()) == #[trigger] graph_step(old(g).nodes_v(), old(g).edges_v(), op@, ts),
{
    let ghost ov = op@;
    match op {
        GraphOp::Upsert(n) => {
            g.add_node(n);
            assert((g.nodes_v(), g.edges_v()) == graph_step(old(g).nodes_v(), old(g).edges_v(), ov, 0));
        },
        GraphOp::AddIfMissing(n) => {
            if !g.contains_node(&n.id) {
                let ghost nv = n@;
                g.add_node(n);
                proof {
                    assert(upsert_node(old(g).nodes_v(), nv) == old(g).nodes_v().push(nv));
                }
            }
            assert((g.nodes_v(), g.edges_v()) == graph_step(old(g).nodes_v(), old(g).edges_v(), ov, 0));
        },
        GraphOp::Link(s, d, k) => {
            g.add_edge(s.as_str(), d.as_str(), k);
            proof {
                let ts = choose|ts: u64| g.edges_v() == record_edge(old(g).edges_v(), s@, d@, ov->Link_2, ts);
                assert((g.nodes_v(), g.edges_v()) == graph_step(old(g).nodes_v(), old(g).edges_v(), ov, ts));
            }
        },
        GraphOp::LinkIfPresent(s, d, k) => {
            if g.contains_node(&s) {
                g.add_edge(s.as_str(), d.as_str(), k);
                proof {
                    let ts = choose|ts: u64| g.edges_v() == record_edge(old(g).edges_v(), s@, d@, ov->LinkIfPresent_2, ts);
                    assert((g.nodes_v(), g.edges_v()) == graph_step(old(g).nodes_v(), old(g).edges_v(), ov, ts));
                }
            } else {
                assert((g.nodes_v(), g.edges_v()) == graph_step(old(g).nodes_v(), old(g).edges_v(), ov, 0));
            }
        },
    }
}

/// Run the steps `ops` in order.
fn run_graph_ops(g: &mut Graph, ops: Vec<GraphOp>)
    requires
        old(g).wf(),
    ensures
        final(g).wf(),
        exists|tss: Seq<u64>|
            tss.len() == ops@.len() && (final(g).nodes_v(), final(g).edges_v()) == #[trigger] graph_after(
                old(g).nodes_v(),
                old(g).edges_v(),
                ops_view(ops@),
                tss,
            ),
{
    let ghost ov = ops_view(ops@);
    let ghost ns0 = g.nodes_v();
    let ghost es0 = g.edges_v();
    let ghost mut tss: Seq<u64> = Seq::empty();
    let mut ops = ops;
    let n = ops.len();
    let mut i: usize = 0;
    while i < n
        invariant
            n == ov.len(),
            ops@.len() == n - i,
            ops_view(ops@) == ov.skip(i as int),
            g.wf(),
            tss.len() == i,
            (g.nodes_v(), g.edges_v()) == graph_after(ns0, es0, ov.take(i as int), tss),
        decreases n - i,
    {
        let op = ops.remove(0);
        proof {
            assert(op@ == ov.skip(i as int)[0]);
            assert(op@ == ov[i as int]);
            assert(ops_view(ops@) =~= ov.skip(i + 1));
        }
        let ghost gn = g.nodes_v();
        let ghost ge = g.edges_v();
        run_graph_op(g, op);
        proof {
            let ts = choose|ts: u64| (g.nodes_v(), g.edges_v()) == graph_step(gn, ge, ov[i as int], ts);
            lemma_take_next(ov, i as int);
            assert(ov.take(i + 1).drop_last() =~= ov.take(i as int));
            assert(tss.push(ts).drop_last() =~= tss);
            tss = tss.push(ts);
        }
        i = i + 1;
    }
    proof {
        assert(ov.take(n as int) =~= ov);
    }
}

// ---------------------------------------------------------------------------------------------
// The steps of a rebuild
// ---------------------------------------------------------------------------------------------

/// The node of process `p`.
pub open spec fn proc_node(p: InfoView) -> NodeView {
    NodeView { id: proc_id(p.pid), node_type: NodeType::Process, name: p.name, pid: Some(p.pid) }
}

/// A node `prefix:<pid>` named `label:<count>` for an aggregated behavior of process `pid`.
pub open spec fn metric_node(prefix: Seq<char>, t: NodeType, label: Seq<char>, pid: u32, count: u32) -> NodeView {
    NodeView { id: prefix + decimal(pid as nat), node_type: t, name: label + decimal(count as nat), pid: Some(pid) }
}

/// The behavior nodes of process `pid` with counters `(files, sockets, children)`, each linked
/// from the process node.
pub open spec fn behavior_graph_ops(pid: u32, c: (u32, u32, u32)) -> Seq<GraphOpView> {
    (if c.0 > 0 {
        seq![
            GraphOpView::Upsert(metric_node("files:"@, NodeType::File, "created:"@, pid, c.0)),
            GraphOpView::Link(proc_id(pid), "files:"@ + decimal(pid as nat), KindView::CreatedFiles),
        ]
    } else {
        Seq::empty()
    }) + (if c.1 > 0 {
        seq![
            GraphOpView::Upsert(metric_node("sockets:"@, NodeType::Socket, "opened:"@, pid, c.1)),
            GraphOpView::Link(proc_id(pid), "sockets:"@ + decimal(pid as nat), KindView::OpenedSockets),
        ]
    } else {
        Seq::empty()
    }) + (if c.2 > 0 {
        seq![
            GraphOpView::Upsert(metric_node("children_metric:"@, NodeType::Other, "spawned:"@, pid, c.2)),
            GraphOpView::Link(proc_id(pid), "children_metric:"@ + decimal(pid as nat), KindView::SpawnedChildrenMetric),
        ]
    } else {
        Seq::empty()
    })
}

/// The counters of `pid` as (files, sockets, children).
pub open spec fn counts_of(sec: &SecurityState, pid: u32) -> (u32, u32, u32) {
    (sec.counters(pid).files_created, sec.counters(pid).sockets_opened, sec.counters(pid).children_spawned)
}

/// The user node for `user`.
pub open spec fn user_node(user: Seq<char>) -> NodeView {
    NodeView { id: "user:"@ + user, node_type: NodeType::User, name: user, pid: None }
}

/// Whether a process looks like a service: its lowercase name mentions `svchost` or
/// `service`, or it has no parent.
pub open spec fn is_service(p: InfoView) -> bool {
    seq_contains(lowercase(p.name), "svchost"@) || seq_contains(lowercase(p.name), "service"@) || p.parent_pid == 0
}

/// The service node of process `p` and its link to the process.
pub open spec fn service_graph_ops(p: InfoView) -> Seq<GraphOpView> {
    let l = lowercase(p.name);
    if is_service(p) {
        seq![
            GraphOpView::AddIfMissing(NodeView { id: "service:"@ + l, node_type: NodeType::Service, name: l, pid: None }),
            GraphOpView::Link("service:"@ + l, proc_id(p.pid), KindView::Provides),
        ]
    } else {
        Seq::empty()
    }
}

/// The registry node for hive `hive`.
pub open spec fn hive_node(hive: Seq<char>) -> NodeView {
    NodeView { id: "registry:"@ + hive, node_type: NodeType::Registry, name: hive, pid: None }
}

/// The registry links of process `p`: to HKCU for registry tools, shells and the desktop
/// shell; to HKLM for root processes and service hosts.
pub open spec fn registry_graph_ops(p: InfoView) -> Seq<GraphOpView> {
    let l = lowercase(p.name);
    (if seq_contains(l, "regedit"@) || seq_contains(l, "powershell"@) || seq_contains(l, "cmd"@) || seq_contains(
        l,
        "explorer"@,
    ) {
        seq![GraphOpView::Link(proc_id(p.pid), "registry:HKCU"@, KindView::TouchesRegistry)]
    } else {
        Seq::empty()
    }) + (if p.parent_pid == 0 || seq_contains(l, "svchost"@) {
        seq![GraphOpView::Link(proc_id(p.pid), "registry:HKLM"@, KindView::TouchesRegistry)]
    } else {
        Seq::empty()
    })
}

/// The parent link of process `p`, when it has a parent.
pub open spec fn parent_graph_ops(p: InfoView) -> Seq<GraphOpView> {
    if p.parent_pid != 0 {
        seq![GraphOpView::LinkIfPresent(proc_id(p.parent_pid), proc_id(p.pid), KindView::ParentOf)]
    } else {
        Seq::empty()
    }
}

/// The steps of a rebuild, phase by phase: process nodes; parent links; behavior nodes; the
/// user node and its ownership links; service nodes and links; registry nodes and links.
pub open spec fn rebuild_ops(procs: Seq<InfoView>, sec: &SecurityState, user: Seq<char>) -> Seq<GraphOpView> {
    procs.map_values(|p: InfoView| GraphOpView::Upsert(proc_node(p)))
        + procs.flat_map(|p: InfoView| parent_graph_ops(p))
        + procs.flat_map(|p: InfoView| behavior_graph_ops(p.pid, counts_of(sec, p.pid)))
        + seq![GraphOpView::AddIfMissing(user_node(user))]
        + procs.map_values(|p: InfoView| GraphOpView::Link("user:"@ + user, proc_id(p.pid), KindView::Owns))
        + procs.flat_map(|p: InfoView| service_graph_ops(p))
        + seq![GraphOpView::AddIfMissing(hive_node("HKCU"@)), GraphOpView::AddIfMissing(hive_node("HKLM"@))]
        + procs.flat_map(|p: InfoView| registry_graph_ops(p))
}

fn push_op(ops: &mut Vec<GraphOp>, op: GraphOp)
    ensures
        ops_view(final(ops)@) == ops_view(old(ops)@).push(op@),
{
    let ghost before = ops@;
    ops.push(op);
    proof {
        assert(ops_view(ops@) =~= ops_view(before).push(op@));
    }
}

fn prefixed(prefix: &str, pid: u32) -> (s: String)
    ensures
        s@ == prefix@ + decimal(pid as nat),
{
    let mut s = string_of(prefix);
    push_decimal(&mut s, pid as u128);
    s
}

fn metric(prefix: &str, t: NodeType, label: &str, pid: u32, count: u32) -> (n: Node)
    ensures
        n@ == metric_node(prefix@, t, label@, pid, count),
{
    let id = prefixed(prefix, pid);
    let mut name = string_of(label);
    push_decimal(&mut name, count as u128);
    Node { id, node_type: t, name, pid: Some(pid) }
}

fn behavior_ops_for(pid: u32, files: u32, sockets: u32, children: u32, ops: &mut Vec<GraphOp>)
    ensures
        ops_view(final(ops)@) == ops_view(old(ops)@) + behavior_graph_ops(pid, (files, sockets, children)),
{
    let ghost start = ops_view(ops@);
    if files > 0 {
        push_op(ops, GraphOp::Upsert(metric("files:", NodeType::File, "created:", pid, files)));
        push_op(ops, GraphOp::Link(proc_node_id(pid), prefixed("files:", pid), EdgeKind::CreatedFiles));
    }
    let ghost a = ops_view(ops@);
    if sockets > 0 {
        push_op(ops, GraphOp::Upsert(metric("sockets:", NodeType::Socket, "opened:", pid, sockets)));
        push_op(ops, GraphOp::Link(proc_node_id(pid), prefixed("sockets:", pid), EdgeKind::OpenedSockets));
    }
    let ghost b = ops_view(ops@);
    if children > 0 {
        push_op(ops, GraphOp::Upsert(metric("children_metric:", NodeType::Other, "spawned:", pid, children)));
        push_op(ops, GraphOp::Link(proc_node_id(pid), prefixed("children_metric:", pid), EdgeKind::SpawnedChildrenMetric));
    }
    assert(ops_view(ops@) =~= start + behavior_graph_ops(pid, (files, sockets, children)));
}

fn service_ops_for(p: &crate::process_state::ProcessInfo, ops: &mut Vec<GraphOp>)
    ensures
        ops_view(final(ops)@) == ops_view(old(ops)@) + service_graph_ops(p@),
{
    let ghost start = ops_view(ops@);
    let l = to_lowercase(p.name.as_str());
    if str_contains(l.as_str(), "svchost") || str_contains(l.as_str(), "service") || p.parent_pid == 0 {
        let mut id = string_of("service:");
        id.append(l.as_str());
        let node = Node { id: id.clone(), node_type: NodeType::Service, name: l.clone(), pid: None };
        push_op(ops, GraphOp::AddIfMissing(node));
        push_op(ops, GraphOp::Link(id, proc_node_id(p.pid), EdgeKind::Provides));
    }
    assert(ops_view(ops@) =~= start + service_graph_ops(p@));
}

fn registry_ops_for(p: &crate::process_state::ProcessInfo, ops: &mut Vec<GraphOp>)
    ensures
        ops_view(final(ops)@) == ops_view(old(ops)@) + registry_graph_ops(p@),
{
    let ghost start = ops_view(ops@);
    let l = to_lowercase(p.name.as_str());
    let ls = l.as_str();
    if str_contains(ls, "regedit") || str_contains(ls, "powershell") || str_contains(ls, "cmd") || str_contains(ls, "explorer") {
        push_op(ops, GraphOp::Link(proc_node_id(p.pid), string_of("registry:HKCU"), EdgeKind::TouchesRegistry));
    }
    if p.parent_pid == 0 || str_contains(ls, "svchost") {
        push_op(ops, GraphOp::Link(proc_node_id(p.pid), string_of("registry:HKLM"), EdgeKind::TouchesRegistry));
    }
    proof {
        reveal_strlit("registry:HKCU");
        reveal_strlit("registry:HKLM");
        reveal_strlit("registry:");
        reveal_strlit("HKCU");
        reveal_strlit("HKLM");
    }
    assert(ops_view(ops@) =~= start + registry_graph_ops(p@));
}

/// The steps of rebuilding the graph of `state` (see `rebuild_ops`).
fn build_rebuild_ops(state: &ProcessState, sec: &SecurityState, user: &str) -> (ops: Vec<GraphOp>)
    ensures
        ops_view(ops@) == rebuild_ops(state.procs(), sec, user@),
{
    let ghost procs = state.procs();
    let n = state.processes.len();
    let mut ops: Vec<GraphOp> = Vec::new();
    let ghost f1 = |p: InfoView| GraphOpView::Upsert(proc_node(p));
    for i in 0..n
        invariant
            n == procs.len(),
            procs == state.procs(),
            f1 == (|p: InfoView| GraphOpView::Upsert(proc_node(p))),
            ops_view(ops@) == procs.take(i as int).map_values(f1),
    {
        let p = &state.processes[i];
        let node = Node { id: proc_node_id(p.pid), node_type: NodeType::Process, name: p.name.clone(), pid: Some(p.pid) };
        push_op(&mut ops, GraphOp::Upsert(node));
        proof {
            assert(procs[i as int] == p@);
            lemma_take_next(procs, i as int);
            assert(procs.take(i + 1).map_values(f1) =~= procs.take(i as int).map_values(f1).push(f1(p@)));
        }
    }
    let ghost a1 = ops_view(ops@);
    proof {
        assert(procs.take(n as int) =~= procs);
    }
    let ghost f2 = |p: InfoView| parent_graph_ops(p);
    for i in 0..n
        invariant
            n == procs.len(),
            procs == state.procs(),
            f2 == (|p: InfoView| parent_graph_ops(p)),
            ops_view(ops@) == a1 + procs.take(i as int).flat_map(f2),
    {
        let p = &state.processes[i];
        let ghost before = ops_view(ops@);
        if p.parent_pid != 0 {
            push_op(&mut ops, GraphOp::LinkIfPresent(proc_node_id(p.parent_pid), proc_node_id(p.pid), EdgeKind::ParentOf));
        }
        proof {
            assert(procs[i as int] == p@);
            procs.lemma_flat_map_take_append(f2, i as int);
            assert(ops_view(ops@) =~= before + f2(p@));
        }
    }
    let ghost a2 = ops_view(ops@);
    proof {
        assert(procs.take(n as int) =~= procs);
    }
    let ghost f3 = |p: InfoView| behavior_graph_ops(p.pid, counts_of(sec, p.pid));
    for i in 0..n
        invariant
            n == procs.len(),
            procs == state.procs(),
            f3 == (|p: InfoView| behavior_graph_ops(p.pid, counts_of(sec, p.pid))),
            ops_view(ops@) == a2 + procs.take(i as int).flat_map(f3),
    {
        let p = &state.processes[i];
        let b = get_behavior(sec, p.pid);
        let ghost before = ops_view(ops@);
        behavior_ops_for(p.pid, b.files_created, b.sockets_opened, b.children_spawned, &mut ops);
        proof {
            assert(procs[i as int] == p@);
            procs.lemma_flat_map_take_append(f3, i as int);
        }
    }
    let ghost a3 = ops_view(ops@);
    proof {
        assert(procs.take(n as int) =~= procs);
    }
    let mut user_id = string_of("user:");
    user_id.append(user);
    push_op(&mut ops, GraphOp::AddIfMissing(Node { id: user_id.clone(), node_type: NodeType::User, name: string_of(user), pid: None }));
    let ghost a4 = ops_view(ops@);
    let ghost f5 = |p: InfoView| GraphOpView::Link("user:"@ + user@, proc_id(p.pid), KindView::Owns);
    for i in 0..n
        invariant
            n == procs.len(),
            procs == state.procs(),
            user_id@ == "user:"@ + user@,
            f5 == (|p: InfoView| GraphOpView::Link("user:"@ + user@, proc_id(p.pid), KindView::Owns)),
            ops_view(ops@) == a4 + procs.take(i as int).map_values(f5),
    {
        let p = &state.processes[i];
        push_op(&mut ops, GraphOp::Link(user_id.clone(), proc_node_id(p.pid), EdgeKind::Owns));
        proof {
            assert(procs[i as int] == p@);
            lemma_take_next(procs, i as int);
            assert(procs.take(i + 1).map_values(f5) =~= procs.take(i as int).map_values(f5).push(f5(p@)));
        }
    }
    let ghost a5 = ops_view(ops@);
    proof {
        assert(procs.take(n as int) =~= procs);
    }
    let ghost f6 = |p: InfoView| service_graph_ops(p);
    for i in 0..n
        invariant
            n == procs.len(),
            procs == state.procs(),
            f6 == (|p: InfoView| service_graph_ops(p)),
            ops_view(ops@) == a5 + procs.take(i as int).flat_map(f6),
    {
        let p = &state.processes[i];
        let ghost before = ops_view(ops@);
        service_ops_for(p, &mut ops);
        proof {
            assert(procs[i as int] == p@);
            procs.lemma_flat_map_take_append(f6, i as int);
        }
    }
    let ghost a6 = ops_view(ops@);
    proof {
        assert(procs.take(n as int) =~= procs);
    }
    push_op(&mut ops, GraphOp::AddIfMissing(Node { id: string_of("registry:HKCU"), node_type: NodeType::Registry, name: string_of("HKCU"), pid: None }));
    push_op(&mut ops, GraphOp::AddIfMissing(Node { id: string_of("registry:HKLM"), node_type: NodeType::Registry, name: string_of("HKLM"), pid: None }));
    proof {
        reveal_strlit("registry:HKCU");
        reveal_strlit("registry:HKLM");
        reveal_strlit("registry:");
        reveal_strlit("HKCU");
        reveal_strlit("HKLM");
        assert(hive_node("HKCU"@).id =~= "registry:HKCU"@);
        assert(hive_node("HKLM"@).id =~= "registry:HKLM"@);
    }
    let ghost a7 = ops_view(ops@);
    let ghost f8 = |p: InfoView| registry_graph_ops(p);
    for i in 0..n
        invariant
            n == procs.len(),
            procs == state.procs(),
            f8 == (|p: InfoView| registry_graph_ops(p)),
            ops_view(ops@) == a7 + procs.take(i as int).flat_map(f8),
    {
        let p = &state.processes[i];
        let ghost before = ops_view(ops@);
        registry_ops_for(p, &mut ops);
        proof {
            assert(procs[i as int] == p@);
            procs.lemma_flat_map_take_append(f8, i as int);
        }
    }
    proof {
        assert(procs.take(n as int) =~= procs);
        assert(ops_view(ops@) =~= rebuild_ops(procs, sec, user@));
    }
    ops
}

/// Rebuild the graph of a process snapshot: process nodes with parent links, aggregated
/// behavior nodes (created files, opened sockets, spawned children) from the security
/// counters, the user `user` owning every process, service nodes for service-like processes,
/// and the registry hives with the processes that commonly touch them.
pub fn rebuild_from_state(state: &ProcessState, sec: &SecurityState, user: &str) -> (g: Graph)
    ensures
        g.wf(),
        exists|tss: Seq<u64>|
            (g.nodes_v(), g.edges_v()) == #[trigger] graph_after(
                Seq::empty(),
                Seq::empty(),
                rebuild_ops(state.procs(), sec, user@),
                tss,
            ),
{
    let ops = build_rebuild_ops(state, sec, user);
    let mut g = Graph::default();
    proof {
        assert(g.nodes_v() =~= Seq::<NodeView>::empty());
        assert(g.edges_v() =~= Seq::<EdgeView>::empty());
    }
    run_graph_ops(&mut g, ops);
    g
}

/// Whether a graph snapshot is due: at least five minutes since the last one.
pub fn snapshot_due(now_secs: u64, last_secs: u64) -> (b: bool)
    ensures
        b == (now_secs >= last_secs && now_secs - last_secs >= 300),
{
    now_secs.saturating_sub(last_secs) >= 300
}

} // verus!
