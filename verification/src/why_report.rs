use crate::graph::{
    ancestry, behavior_edges, edges_view, label_of, node_or_placeholder, parent_edge_of, reason_edges_for_pid, reason_for_pid,
    reason_structured_for_pid, EdgeKind, EdgeView, Graph, GraphEdge, KindView, Node, NodeType, NodeView,
};
use crate::seq_facts::lemma_take_next;
use crate::text::{debug_quote, debug_quoted, decimal, join_with, joined_with, push_decimal, string_of};
use vstd::prelude::*;
use vstd::string::StringExecFns;

verus! {

broadcast use {vstd::string::group_string_axioms, vstd::seq_lib::group_seq_properties, vstd::seq::group_seq_axioms};

/// How a relation is named in reports (its variant name; `Other` with its quoted text).
pub open spec fn kind_label(k: KindView) -> Seq<char> {
    match k {
        KindView::ParentOf => "ParentOf"@,
        KindView::ChildOf => "ChildOf"@,
        KindView::Spawned => "Spawned"@,
        KindView::Opened => "Opened"@,
        KindView::UsesNetwork => "UsesNetwork"@,
        KindView::UsesFile => "UsesFile"@,
        KindView::RelatedTo => "RelatedTo"@,
        KindView::MemberOfFamily => "MemberOfFamily"@,
        KindView::Owns => "Owns"@,
        KindView::Provides => "Provides"@,
        KindView::TouchesRegistry => "TouchesRegistry"@,
        KindView::CreatedFiles => "CreatedFiles"@,
        KindView::OpenedSockets => "OpenedSockets"@,
        KindView::SpawnedChildrenMetric => "SpawnedChildrenMetric"@,
        KindView::Other(s) => "Other("@ + debug_quoted(s) + ")"@,
    }
}

/// The name of a relation (see `kind_label`).
pub fn kind_text(k: &EdgeKind) -> (r: String)
    ensures
        r@ == kind_label(k@),
{
    match k {
        EdgeKind::ParentOf => string_of("ParentOf"),
        EdgeKind::ChildOf => string_of("ChildOf"),
        EdgeKind::Spawned => string_of("Spawned"),
        EdgeKind::Opened => string_of("Opened"),
        EdgeKind::UsesNetwork => string_of("UsesNetwork"),
        EdgeKind::UsesFile => string_of("UsesFile"),
        EdgeKind::RelatedTo => string_of("RelatedTo"),
        EdgeKind::MemberOfFamily => string_of("MemberOfFamily"),
        EdgeKind::Owns => string_of("Owns"),
        EdgeKind::Provides => string_of("Provides"),
        EdgeKind::TouchesRegistry => string_of("TouchesRegistry"),
        EdgeKind::CreatedFiles => string_of("CreatedFiles"),
        EdgeKind::OpenedSockets => string_of("OpenedSockets"),
        EdgeKind::SpawnedChildrenMetric => string_of("SpawnedChildrenMetric"),
        EdgeKind::Other(s) => {
            let mut r = string_of("Other(");
            let q = debug_quote(s.as_str());
            r.append(q.as_str());
            r.append(")");
            r
        },
    }
}

/// How a node type is named in reports.
pub open spec fn node_type_name(t: NodeType) -> Seq<char> {
    match t {
        NodeType::Process => "Process"@,
        NodeType::File => "File"@,
        NodeType::Socket => "Socket"@,
        NodeType::User => "User"@,
        NodeType::Service => "Service"@,
        NodeType::Registry => "Registry"@,
        NodeType::Other => "Other"@,
    }
}

fn push_node_type_name(s: &mut String, t: NodeType)
    ensures
        final(s)@ == old(s)@ + node_type_name(t),
{
    match t {
        NodeType::Process => s.append("Process"),
        NodeType::File => s.append("File"),
        NodeType::Socket => s.append("Socket"),
        NodeType::User => s.append("User"),
        NodeType::Service => s.append("Service"),
        NodeType::Registry => s.append("Registry"),
        NodeType::Other => s.append("Other"),
    }
}

/// The label text of node id `id` (see `label_of`).
fn label_text(g: &Graph, id: &String) -> (r: String)
    requires
        g.wf(),
    ensures
        r@ == label_of(g.nodes_v(), id@),
{
    match g.find_node(id) {
        Some(i) => {
            proof {
                crate::graph::lemma_node_with(g.nodes_v(), i as int);
            }
            g.nodes[i].name.clone()
        },
        None => id.clone(),
    }
}

/// The trace line of one behavior edge.
pub open spec fn edge_trace_line(nodes: Seq<NodeView>, e: EdgeView) -> Seq<char> {
    "    -> "@ + kind_label(e.kind) + " -> "@ + label_of(nodes, e.dst) + " (count="@ + decimal(e.count as nat) + " ts="@
        + decimal(e.ts as nat) + ")"@
}

/// The trace lines of one ancestor: its name and type, then its behavior edges.
pub open spec fn trace_entry(nodes: Seq<NodeView>, n: NodeView, es: Seq<EdgeView>) -> Seq<Seq<char>> {
    seq![" - "@ + n.name + " ("@ + node_type_name(n.node_type) + ")"@] + es.map_values(
        |e: EdgeView| edge_trace_line(nodes, e),
    )
}

/// The ancestors of `pid`, root first, with their behavior edges.
pub open spec fn reason_path(g: &Graph, pid: u32) -> Seq<(NodeView, Seq<EdgeView>)> {
    ancestry(g, pid).map_values(
        |id: Seq<char>| (node_or_placeholder(g.nodes_v(), id), behavior_edges(g.edges_v(), id)),
    ).reverse()
}

/// The ancestry labels of `pid`, root first.
pub open spec fn reason_names(g: &Graph, pid: u32) -> Seq<Seq<char>> {
    ancestry(g, pid).map_values(|id: Seq<char>| label_of(g.nodes_v(), id)).reverse()
}

/// The console report for `why <pid>`: a notice when the graph has no path for it; else
/// each ancestor, root first, with its behavior edges, then the ancestry line.
pub open spec fn why_lines(g: &Graph, pid: u32) -> Seq<Seq<char>> {
    let path = reason_path(g, pid);
    if path.len() == 0 {
        seq!["No graph path found for pid "@ + decimal(pid as nat)]
    } else {
        seq!["Reason trace for pid "@ + decimal(pid as nat) + ":"@] + path.flat_map(
            |p: (NodeView, Seq<EdgeView>)| trace_entry(g.nodes_v(), p.0, p.1),
        ) + if reason_names(g, pid).len() > 0 {
            seq!["Ancestry: "@ + joined_with(reason_names(g, pid), " -> "@)]
        } else {
            Seq::empty()
        }
    }
}

/// One relation line of the `why` message: source, relation and destination labels.
pub open spec fn edge_body_line(nodes: Seq<NodeView>, e: EdgeView) -> Seq<char> {
    label_of(nodes, e.src) + " --"@ + kind_label(e.kind) + "--> "@ + label_of(nodes, e.dst) + "\n"@
}

/// The display message for `why <pid>` (published when a path exists): the ancestry line,
/// then one line per edge on the way.
pub open spec fn why_body(g: &Graph, pid: u32) -> Seq<char> {
    "Ancestry: "@ + joined_with(reason_names(g, pid), " -> "@) + "\n"@ + ancestry(g, pid).flat_map(
        |id: Seq<char>| behavior_edges(g.edges_v(), id) + parent_edge_of(g.edges_v(), id),
    ).reverse().flat_map(|e: EdgeView| edge_body_line(g.nodes_v(), e))
}

fn push_line(lines: &mut Vec<String>, s: String)
    ensures
        final(lines)@.map_values(|x: String| x@) == old(lines)@.map_values(|x: String| x@).push(s@),
{
    let ghost before = lines@;
    lines.push(s);
    proof {
        assert(lines@.map_values(|x: String| x@) =~= before.map_values(|x: String| x@).push(s@));
    }
}

fn push_trace_entry(lines: &mut Vec<String>, g: &Graph, n: &Node, es: &Vec<GraphEdge>)
    requires
        g.wf(),
    ensures
        final(lines)@.map_values(|x: String| x@) == old(lines)@.map_values(|x: String| x@) + trace_entry(
            g.nodes_v(),
            n@,
            edges_view(es@),
        ),
{
    let ghost l0 = lines@.map_values(|x: String| x@);
    let mut head = string_of(" - ");
    head.append(n.name.as_str());
    head.append(" (");
    push_node_type_name(&mut head, n.node_type);
    head.append(")");
    push_line(lines, head);
    let ghost l1 = lines@.map_values(|x: String| x@);
    let ghost ev = edges_view(es@);
    let ghost f = |e: EdgeView| edge_trace_line(g.nodes_v(), e);
    for i in 0..es.len()
        invariant
            g.wf(),
            ev == edges_view(es@),
            f == (|e: EdgeView| edge_trace_line(g.nodes_v(), e)),
            lines@.map_values(|x: String| x@) == l1 + ev.take(i as int).map_values(f),
    {
        let e = &es[i];
        let mut l = string_of("    -> ");
        let k = kind_text(&e.kind);
        l.append(k.as_str());
        l.append(" -> ");
        let d = label_text(g, &e.dst);
        l.append(d.as_str());
        l.append(" (count=");
        push_decimal(&mut l, e.count as u128);
        l.append(" ts=");
        push_decimal(&mut l, e.ts as u128);
        l.append(")");
        push_line(lines, l);
        proof {
            lemma_take_next(ev, i as int);
            assert(lines@.map_values(|x: String| x@) =~= l1 + ev.take(i + 1).map_values(f));
        }
    }
    proof {
        assert(ev.take(es@.len() as int) =~= ev);
        assert(lines@.map_values(|x: String| x@) =~= l0 + trace_entry(g.nodes_v(), n@, ev));
    }
}

/// The console report for `why <pid>` (see `why_lines`).
pub fn why_report_lines(g: &Graph, pid: u32) -> (r: Vec<String>)
    requires
        g.wf(),
    ensures
        r@.map_values(|x: String| x@) == why_lines(g, pid),
{
    let path = reason_structured_for_pid(g, pid);
    let ghost pv = path@.map_values(|p: (Node, Vec<GraphEdge>)| (p.0@, edges_view(p.1@)));
    let mut lines: Vec<String> = Vec::new();
    if path.len() == 0 {
        let mut l = string_of("No graph path found for pid ");
        push_decimal(&mut l, pid as u128);
        push_line(&mut lines, l);
        proof {
            assert(lines@.map_values(|x: String| x@) =~= why_lines(g, pid));
        }
        return lines;
    }
    let mut head = string_of("Reason trace for pid ");
    push_decimal(&mut head, pid as u128);
    head.append(":");
    push_line(&mut lines, head);
    let ghost l1 = lines@.map_values(|x: String| x@);
    let ghost f = |p: (NodeView, Seq<EdgeView>)| trace_entry(g.nodes_v(), p.0, p.1);
    for i in 0..path.len()
        invariant
            g.wf(),
            pv == path@.map_values(|p: (Node, Vec<GraphEdge>)| (p.0@, edges_view(p.1@))),
            f == (|p: (NodeView, Seq<EdgeView>)| trace_entry(g.nodes_v(), p.0, p.1)),
            lines@.map_values(|x: String| x@) == l1 + pv.take(i as int).flat_map(f),
    {
        push_trace_entry(&mut lines, g, &path[i].0, &path[i].1);
        proof {
            lemma_take_next(pv, i as int);
            pv.take(i as int).lemma_flat_map_push(f, pv[i as int]);
            assert(lines@.map_values(|x: String| x@) =~= l1 + pv.take(i + 1).flat_map(f));
        }
    }
    proof {
        assert(pv.take(path@.len() as int) =~= pv);
    }
    let names = reason_for_pid(g, pid);
    if names.len() > 0 {
        let mut l = string_of("Ancestry: ");
        let j = join_with(&names, " -> ");
        l.append(j.as_str());
        push_line(&mut lines, l);
    }
    proof {
        assert(lines@.map_values(|x: String| x@) =~= why_lines(g, pid));
    }
    lines
}

/// The display message for `why <pid>` (see `why_body`).
pub fn why_message(g: &Graph, pid: u32) -> (s: String)
    requires
        g.wf(),
    ensures
        s@ == why_body(g, pid),
{
    let names = reason_for_pid(g, pid);
    let mut s = string_of("Ancestry: ");
    let j = join_with(&names, " -> ");
    s.append(j.as_str());
    s.append("\n");
    let edges = reason_edges_for_pid(g, pid);
    let ghost s0 = s@;
    let ghost ev = edges_view(edges@);
    let ghost f = |e: EdgeView| edge_body_line(g.nodes_v(), e);
    proof {
        assert(ev.take(0).flat_map(f) =~= Seq::<char>::empty()) by {
            assert(ev.take(0) =~= Seq::<EdgeView>::empty());
        }
    }
    for i in 0..edges.len()
        invariant
            g.wf(),
            ev == edges_view(edges@),
            f == (|e: EdgeView| edge_body_line(g.nodes_v(), e)),
            s@ == s0 + ev.take(i as int).flat_map(f),
    {
        let e = &edges[i];
        let a = label_text(g, &e.src);
        s.append(a.as_str());
        s.append(" --");
        let k = kind_text(&e.kind);
        s.append(k.as_str());
        s.append("--> ");
        let b = label_text(g, &e.dst);
        s.append(b.as_str());
        s.append("\n");
        proof {
            lemma_take_next(ev, i as int);
            ev.take(i as int).lemma_flat_map_push(f, ev[i as int]);
            assert(s@ =~= s0 + ev.take(i + 1).flat_map(f));
        }
    }
    proof {
        assert(ev.take(edges@.len() as int) =~= ev);
        assert(s@ =~= why_body(g, pid));
    }
    s
}

} // verus!
