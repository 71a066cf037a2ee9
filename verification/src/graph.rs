use crate::clock::unix_now_secs;
use crate::text::{decimal, push_decimal, string_of};
use vstd::prelude::*;
use vstd::string::StringExecFns;

verus! {

broadcast use {
    vstd::string::group_string_axioms,
    vstd::seq_lib::group_seq_properties,
    vstd::seq::group_seq_axioms,
};

/// The kind of entity a graph node stands for.
#[derive(Debug, Clone, Copy, PartialEq, Eq, Structural)]
pub enum NodeType {
    Process,
    File,
    Socket,
    User,
    Service,
    Registry,
    Other,
}

/// A node of the system knowledge graph.
pub struct Node {
    pub id: String,
    pub node_type: NodeType,
    pub name: String,
    pub pid: Option<u32>,
}

pub struct NodeView {
    pub id: Seq<char>,
    pub node_type: NodeType,
    pub name: Seq<char>,
    pub pid: Option<u32>,
}

impl View for Node {
    type V = NodeView;

    open spec fn view(&self) -> NodeView {
        NodeView { id: self.id@, node_type: self.node_type, name: self.name@, pid: self.pid }
    }
}

impl Clone for Node {
    fn clone(&self) -> (r: Self)
        ensures
            r@ == self@,
    {
        Node { id: self.id.clone(), node_type: self.node_type, name: self.name.clone(), pid: self.pid }
    }
}

/// The relation an edge records.
pub enum EdgeKind {
    ParentOf,
    ChildOf,
    Spawned,
    Opened,
    UsesNetwork,
    UsesFile,
    RelatedTo,
    MemberOfFamily,
    Owns,
    Provides,
    TouchesRegistry,
    CreatedFiles,
    OpenedSockets,
    SpawnedChildrenMetric,
    Other(String),
}

pub enum KindView {
    ParentOf,
    ChildOf,
    Spawned,
    Opened,
    UsesNetwork,
    UsesFile,
    RelatedTo,
    MemberOfFamily,
    Owns,
    Provides,
    TouchesRegistry,
    CreatedFiles,
    OpenedSockets,
    SpawnedChildrenMetric,
    Other(Seq<char>),
}

impl View for EdgeKind {
    type V = KindView;

    open spec fn view(&self) -> KindView {
        match self {
            EdgeKind::ParentOf => KindView::ParentOf,
            EdgeKind::ChildOf => KindView::ChildOf,
            EdgeKind::Spawned => KindView::Spawned,
            EdgeKind::Opened => KindView::Opened,
            EdgeKind::UsesNetwork => KindView::UsesNetwork,
            EdgeKind::UsesFile => KindView::UsesFile,
            EdgeKind::RelatedTo => KindView::RelatedTo,
            EdgeKind::MemberOfFamily => KindView::MemberOfFamily,
            EdgeKind::Owns => KindView::Owns,
            EdgeKind::Provides => KindView::Provides,
            EdgeKind::TouchesRegistry => KindView::TouchesRegistry,
            EdgeKind::CreatedFiles => KindView::CreatedFiles,
            EdgeKind::OpenedSockets => KindView::OpenedSockets,
            EdgeKind::SpawnedChildrenMetric => KindView::SpawnedChildrenMetric,
            EdgeKind::Other(s) => KindView::Other(s@),
        }
    }
}

impl Clone for EdgeKind {
    fn clone(&self) -> (r: Self)
        ensures
            r@ == self@,
    {
        match self {
            EdgeKind::ParentOf => EdgeKind::ParentOf,
            EdgeKind::ChildOf => EdgeKind::ChildOf,
            EdgeKind::Spawned => EdgeKind::Spawned,
            EdgeKind::Opened => EdgeKind::Opened,
            EdgeKind::UsesNetwork => EdgeKind::UsesNetwork,
            EdgeKind::UsesFile => EdgeKind::UsesFile,
            EdgeKind::RelatedTo => EdgeKind::RelatedTo,
            EdgeKind::MemberOfFamily => EdgeKind::MemberOfFamily,
            EdgeKind::Owns => EdgeKind::Owns,
            EdgeKind::Provides => EdgeKind::Provides,
            EdgeKind::TouchesRegistry => EdgeKind::TouchesRegistry,
            EdgeKind::CreatedFiles => EdgeKind::CreatedFiles,
            EdgeKind::OpenedSockets => EdgeKind::OpenedSockets,
            EdgeKind::SpawnedChildrenMetric => EdgeKind::SpawnedChildrenMetric,
            EdgeKind::Other(s) => EdgeKind::Other(s.clone()),
        }
    }
}

impl EdgeKind {
    /// Whether two kinds are the same (for `Other`, with the same text).
    pub fn same_as(&self, other: &EdgeKind) -> (r: bool)
        ensures
            r == (self@ == other@),
    {
        match (self, other) {
            (EdgeKind::ParentOf, EdgeKind::ParentOf) => true,
            (EdgeKind::ChildOf, EdgeKind::ChildOf) => true,
            (EdgeKind::Spawned, EdgeKind::Spawned) => true,
            (EdgeKind::Opened, EdgeKind::Opened) => true,
            (EdgeKind::UsesNetwork, EdgeKind::UsesNetwork) => true,
            (EdgeKind::UsesFile, EdgeKind::UsesFile) => true,
            (EdgeKind::RelatedTo, EdgeKind::RelatedTo) => true,
            (EdgeKind::MemberOfFamily, EdgeKind::MemberOfFamily) => true,
            (EdgeKind::Owns, EdgeKind::Owns) => true,
            (EdgeKind::Provides, EdgeKind::Provides) => true,
            (EdgeKind::TouchesRegistry, EdgeKind::TouchesRegistry) => true,
            (EdgeKind::CreatedFiles, EdgeKind::CreatedFiles) => true,
            (EdgeKind::OpenedSockets, EdgeKind::OpenedSockets) => true,
            (EdgeKind::SpawnedChildrenMetric, EdgeKind::SpawnedChildrenMetric) => true,
            (EdgeKind::Other(a), EdgeKind::Other(b)) => *a == *b,
            _ => false,
        }
    }

    /// Whether the kind records parentage (`ParentOf` or `Spawned`).
    pub fn is_parent_link(&self) -> (r: bool)
        ensures
            r == is_parent_kind(self@),
    {
        match self {
            EdgeKind::ParentOf => true,
            EdgeKind::Spawned => true,
            _ => false,
        }
    }

    /// Whether the kind records a behavior or service relation.
    pub fn is_behavior_link(&self) -> (r: bool)
        ensures
            r == is_behavior_kind(self@),
    {
        match self {
            EdgeKind::CreatedFiles => true,
            EdgeKind::OpenedSockets => true,
            EdgeKind::Provides => true,
            EdgeKind::Owns => true,
            EdgeKind::TouchesRegistry => true,
            EdgeKind::SpawnedChildrenMetric => true,
            _ => false,
        }
    }
}

/// `ParentOf` or `Spawned`.
pub open spec fn is_parent_kind(k: KindView) -> bool {
    k matches KindView::ParentOf || k matches KindView::Spawned
}

/// The behavior and service relations reported next to an ancestry chain.
pub open spec fn is_behavior_kind(k: KindView) -> bool {
    ||| k matches KindView::CreatedFiles
    ||| k matches KindView::OpenedSockets
    ||| k matches KindView::Provides
    ||| k matches KindView::Owns
    ||| k matches KindView::TouchesRegistry
    ||| k matches KindView::SpawnedChildrenMetric
}

/// A directed, counted relation between two node ids.
pub struct GraphEdge {
    pub src: String,
    pub dst: String,
    pub kind: EdgeKind,
    pub ts: u64,
    pub count: u32,
}

pub struct EdgeView {
    pub src: Seq<char>,
    pub dst: Seq<char>,
    pub kind: KindView,
    pub ts: u64,
    pub count: u32,
}

impl View for GraphEdge {
    type V = EdgeView;

    open spec fn view(&self) -> EdgeView {
        EdgeView { src: self.src@, dst: self.dst@, kind: self.kind@, ts: self.ts, count: self.count }
    }
}

impl Clone for GraphEdge {
    fn clone(&self) -> (r: Self)
        ensures
            r@ == self@,
    {
        GraphEdge {
            src: self.src.clone(),
            dst: self.dst.clone(),
            kind: self.kind.clone(),
            ts: self.ts,
            count: self.count,
        }
    }
}

/// The system knowledge graph: nodes keyed by their (distinct) ids, and edges.
pub struct Graph {
    pub nodes: Vec<Node>,
    pub edges: Vec<GraphEdge>,
}

pub open spec fn nodes_view(v: Seq<Node>) -> Seq<NodeView> {
    v.map_values(|n: Node| n@)
}

pub open spec fn edges_view(v: Seq<GraphEdge>) -> Seq<EdgeView> {
    v.map_values(|e: GraphEdge| e@)
}

/// No two nodes share an id.
pub open spec fn ids_distinct(s: Seq<NodeView>) -> bool {
    forall|i: int, j: int| 0 <= i < j < s.len() ==> s[i].id != s[j].id
}

/// Whether a node with id `id` is present.
pub open spec fn has_node(s: Seq<NodeView>, id: Seq<char>) -> bool {
    exists|i: int| 0 <= i < s.len() && s[i].id == id
}

/// The node with id `id` (meaningful when `has_node`).
pub open spec fn node_with(s: Seq<NodeView>, id: Seq<char>) -> NodeView {
    s[choose|i: int| 0 <= i < s.len() && s[i].id == id]
}

/// The node list after adding `n`: it replaces the node with the same id, or is appended.
pub open spec fn upsert_node(s: Seq<NodeView>, n: NodeView) -> Seq<NodeView> {
    if has_node(s, n.id) {
        s.update(choose|i: int| 0 <= i < s.len() && s[i].id == n.id, n)
    } else {
        s.push(n)
    }
}

/// Whether edge `e` links `src` to `dst` with kind `k`.
pub open spec fn edge_matches(e: EdgeView, src: Seq<char>, dst: Seq<char>, k: KindView) -> bool {
    e.src == src && e.dst == dst && e.kind == k
}

/// The index of the first edge linking `src` to `dst` with kind `k`, if any.
pub open spec fn first_match(edges: Seq<EdgeView>, src: Seq<char>, dst: Seq<char>, k: KindView) -> Option<int> {
    if exists|i: int| 0 <= i < edges.len() && edge_matches(edges[i], src, dst, k) {
        Some(
            choose|i: int|
                0 <= i < edges.len() && edge_matches(edges[i], src, dst, k) && forall|j: int|
                    0 <= j < i ==> !edge_matches(#[trigger] edges[j], src, dst, k),
        )
    } else {
        None
    }
}

/// `a + 1` saturating at `u32::MAX`.
pub open spec fn sat_inc(a: u32) -> u32 {
    if a == u32::MAX {
        a
    } else {
        (a + 1) as u32
    }
}

/// The edge list after recording `src -kind-> dst` at time `ts`: the first identical edge
/// has its count incremented (saturating) and its time updated, or a new edge with count 1
/// is appended.
pub open spec fn record_edge(edges: Seq<EdgeView>, src: Seq<char>, dst: Seq<char>, k: KindView, ts: u64) -> Seq<EdgeView> {
    match first_match(edges, src, dst, k) {
        Some(i) => edges.update(i, EdgeView { ts, count: sat_inc(edges[i].count), ..edges[i] }),
        None => edges.push(EdgeView { src, dst, kind: k, ts, count: 1 }),
    }
}

/// The neighbors that edge `e` contributes for node `id`: its destination when it leaves
/// `id`, then its source when it enters `id`, each when present as a node.
pub open spec fn edge_neighbors(nodes: Seq<NodeView>, e: EdgeView, id: Seq<char>) -> Seq<NodeView> {
    (if e.src == id && has_node(nodes, e.dst) {
        seq![node_with(nodes, e.dst)]
    } else {
        Seq::empty()
    }) + (if e.dst == id && has_node(nodes, e.src) {
        seq![node_with(nodes, e.src)]
    } else {
        Seq::empty()
    })
}

/// All neighbors of `id`, edge by edge.
pub open spec fn neighbors_of(nodes: Seq<NodeView>, edges: Seq<EdgeView>, id: Seq<char>) -> Seq<NodeView> {
    edges.flat_map(|e: EdgeView| edge_neighbors(nodes, e, id))
}

impl Graph {
    pub open spec fn nodes_v(&self) -> Seq<NodeView> {
        nodes_view(self.nodes@)
    }

    pub open spec fn edges_v(&self) -> Seq<EdgeView> {
        edges_view(self.edges@)
    }

    /// Node ids are distinct.
    pub open spec fn wf(&self) -> bool {
        ids_distinct(self.nodes_v())
    }

    /// The empty graph.
    pub fn default() -> (g: Self)
        ensures
            g.wf(),
            g.nodes_v().len() == 0,
            g.edges_v().len() == 0,
    {
        let g = Graph { nodes: Vec::new(), edges: Vec::new() };
        assert(g.nodes_v() =~= Seq::<NodeView>::empty());
        assert(g.edges_v() =~= Seq::<EdgeView>::empty());
        g
    }

    /// The index of the node with id `id`, if present.
    pub fn find_node(&self, id: &String) -> (r: Option<usize>)
        ensures
            match r {
                Some(i) => i < self.nodes@.len() && self.nodes@[i as int].id@ == id@,
                None => !has_node(self.nodes_v(), id@),
            },
    {
        let n = self.nodes.len();
        for i in 0..n
            invariant
                n == self.nodes@.len(),
                forall|j: int| 0 <= j < i ==> self.nodes@[j].id@ != id@,
        {
            if self.nodes[i].id == *id {
                return Some(i);
            }
        }
        proof {
            if has_node(self.nodes_v(), id@) {
                let j = choose|j: int| 0 <= j < self.nodes_v().len() && self.nodes_v()[j].id == id@;
                assert(self.nodes@[j].id@ == id@);
            }
        }
        None
    }

    /// Whether a node with id `id` is present.
    pub fn contains_node(&self, id: &String) -> (b: bool)
        ensures
            b == has_node(self.nodes_v(), id@),
    {
        match self.find_node(id) {
            Some(i) => {
                assert(self.nodes_v()[i as int].id == id@);
                true
            },
            None => false,
        }
    }

    /// Add `n`, replacing the node with the same id.
    pub fn add_node(&mut self, n: Node)
        requires
            old(self).wf(),
        ensures
            final(self).wf(),
            final(self).nodes_v() == upsert_node(old(self).nodes_v(), n@),
            final(self).edges@ == old(self).edges@,
    {
        let ghost s = self.nodes_v();
        let ghost nv = n@;
        match self.find_node(&n.id) {
            Some(i) => {
                proof {
                    let c = choose|c: int| 0 <= c < s.len() && s[c].id == nv.id;
                    if c != i {
                        assert(s[c].id == s[i as int].id);
                    }
                    assert(c == i as int);
                }
                self.nodes.set(i, n);
                proof {
                    assert(self.nodes_v() =~= s.update(i as int, nv));
                    let t = self.nodes_v();
                    assert forall|a: int, b: int| 0 <= a < b < t.len() implies t[a].id != t[b].id by {
                        assert(s[a].id != s[b].id);
                    }
                }
            },
            None => {
                self.nodes.push(n);
                proof {
                    assert(self.nodes_v() =~= s.push(nv));
                }
            },
        }
    }

    /// Record `src -kind-> dst` with the current time.
    pub fn add_edge(&mut self, src: &str, dst: &str, kind: EdgeKind)
        requires
            old(self).wf(),
        ensures
            final(self).wf(),
            final(self).nodes@ == old(self).nodes@,
            exists|ts: u64| final(self).edges_v() == record_edge(old(self).edges_v(), src@, dst@, kind@, ts),
    {
        let ts = unix_now_secs();
        self.add_edge_at(src, dst, kind, ts);
    }

    /// Record `src -kind-> dst` at time `ts`.
    pub fn add_edge_at(&mut self, src: &str, dst: &str, kind: EdgeKind, ts: u64)
        requires
            old(self).wf(),
        ensures
            final(self).wf(),
            final(self).nodes@ == old(self).nodes@,
            final(self).edges_v() == record_edge(old(self).edges_v(), src@, dst@, kind@, ts),
    {
        let ghost es = self.edges_v();
        let s = string_of(src);
        let d = string_of(dst);
        let n = self.edges.len();
        for i in 0..n
            invariant
                n == self.edges@.len(),
                es == self.edges_v(),
                self.nodes@ == old(self).nodes@,
                self.edges@ == old(self).edges@,
                self.wf(),
                s@ == src@,
                d@ == dst@,
                forall|j: int| 0 <= j < i ==> !edge_matches(#[trigger] es[j], src@, dst@, kind@),
        {
            if self.edges[i].src == s && self.edges[i].dst == d && self.edges[i].kind.same_as(&kind) {
                let mut e = self.edges[i].clone();
                e.count = e.count.saturating_add(1);
                e.ts = ts;
                proof {
                    assert(edge_matches(es[i as int], src@, dst@, kind@));
                    lemma_first_match_at(es, i as int, src@, dst@, kind@);
                }
                self.edges.set(i, e);
                proof {
                    assert(self.edges_v() =~= record_edge(es, src@, dst@, kind@, ts));
                    assert(self.nodes_v() == old(self).nodes_v());
                }
                return;
            }
        }
        let e = GraphEdge { src: s, dst: d, kind, ts, count: 1 };
        self.edges.push(e);
        proof {
            assert(self.edges_v() =~= record_edge(es, src@, dst@, kind@, ts));
        }
    }

    /// The neighbors of node `id` (see `neighbors_of`).
    pub fn neighbors(&self, id: &str) -> (r: Vec<&Node>)
        requires
            self.wf(),
        ensures
            r@.map_values(|n: &Node| (*n)@) == neighbors_of(self.nodes_v(), self.edges_v(), id@),
    {
        let key = string_of(id);
        let mut out: Vec<&Node> = Vec::new();
        let n = self.edges.len();
        let ghost es = self.edges_v();
        let ghost ns = self.nodes_v();
        let ghost f = |e: EdgeView| edge_neighbors(ns, e, id@);
        for i in 0..n
            invariant
                n == self.edges@.len(),
                es == self.edges_v(),
                ns == self.nodes_v(),
                ids_distinct(ns),
                key@ == id@,
                f == |e: EdgeView| edge_neighbors(ns, e, id@),
                out@.map_values(|n: &Node| (*n)@) == es.take(i as int).flat_map(f),
        {
            let ghost before = out@.map_values(|n: &Node| (*n)@);
            let e = &self.edges[i];
            if e.src == key {
                match self.find_node(&e.dst) {
                    Some(k) => {
                        out.push(&self.nodes[k]);
                        proof {
                            lemma_node_with(ns, k as int);
                        }
                    },
                    None => {},
                }
            }
            let ghost mid = out@.map_values(|n: &Node| (*n)@);
            if e.dst == key {
                match self.find_node(&e.src) {
                    Some(k) => {
                        out.push(&self.nodes[k]);
                        proof {
                            lemma_node_with(ns, k as int);
                        }
                    },
                    None => {},
                }
            }
            proof {
                es.lemma_flat_map_take_append(f, i as int);
                let ev = es[i as int];
                assert(ev == e@);
                let first: Seq<NodeView> = if ev.src == id@ && has_node(ns, ev.dst) {
                    seq![node_with(ns, ev.dst)]
                } else {
                    Seq::empty()
                };
                let second: Seq<NodeView> = if ev.dst == id@ && has_node(ns, ev.src) {
                    seq![node_with(ns, ev.src)]
                } else {
                    Seq::empty()
                };
                assert(mid =~= before + first);
                assert(out@.map_values(|n: &Node| (*n)@) =~= mid + second);
                assert(f(ev) == first + second);
                assert(out@.map_values(|n: &Node| (*n)@) =~= before + f(ev));
            }
        }
        proof {
            assert(es.take(n as int) =~= es);
        }
        out
    }
}

/// The first matching edge is at `i` when edge `i` matches and no earlier one does.
pub proof fn lemma_first_match_at(es: Seq<EdgeView>, i: int, src: Seq<char>, dst: Seq<char>, k: KindView)
    requires
        0 <= i < es.len(),
        edge_matches(es[i], src, dst, k),
        forall|j: int| 0 <= j < i ==> !edge_matches(#[trigger] es[j], src, dst, k),
    ensures
        first_match(es, src, dst, k) == Some(i),
{
    let c = choose|c: int|
        0 <= c < es.len() && edge_matches(es[c], src, dst, k) && forall|j: int|
            0 <= j < c ==> !edge_matches(#[trigger] es[j], src, dst, k);
    if c < i {
        assert(!edge_matches(es[c], src, dst, k));
    } else if c > i {
        assert(!edge_matches(es[i], src, dst, k));
    }
}

/// With distinct ids, the node found at `k` is the node with its id.
pub proof fn lemma_node_with(ns: Seq<NodeView>, k: int)
    requires
        ids_distinct(ns),
        0 <= k < ns.len(),
    ensures
        has_node(ns, ns[k].id),
        node_with(ns, ns[k].id) == ns[k],
{
    let c = choose|c: int| 0 <= c < ns.len() && ns[c].id == ns[k].id;
    if c != k {
        if c < k {
            assert(ns[c].id != ns[k].id);
        } else {
            assert(ns[k].id != ns[c].id);
        }
    }
}

/// The node id of process `pid`: `proc:<pid>`.
pub open spec fn proc_id(pid: u32) -> Seq<char> {
    "proc:"@ + decimal(pid as nat)
}

/// The node id of process `pid`.
pub fn proc_node_id(pid: u32) -> (s: String)
    ensures
        s@ == proc_id(pid),
{
    let mut s = string_of("proc:");
    push_decimal(&mut s, pid as u128);
    s
}

impl Clone for Graph {
    fn clone(&self) -> (r: Self)
        ensures
            r.nodes_v() == self.nodes_v(),
            r.edges_v() == self.edges_v(),
    {
        let mut nodes: Vec<Node> = Vec::new();
        let n = self.nodes.len();
        for i in 0..n
            invariant
                n == self.nodes@.len(),
                nodes_view(nodes@) == nodes_view(self.nodes@).take(i as int),
        {
            let ghost before = nodes@;
            nodes.push(self.nodes[i].clone());
            proof {
                let t = nodes_view(self.nodes@);
                t.lemma_take_succ_push(i as int);
                before.lemma_push_map_commute(|n: Node| n@, nodes@[i as int]);
                assert(nodes@ =~= before.push(nodes@[i as int]));
                assert(nodes_view(nodes@) =~= nodes_view(self.nodes@).take(i + 1));
            }
        }
        let mut edges: Vec<GraphEdge> = Vec::new();
        let m = self.edges.len();
        for i in 0..m
            invariant
                m == self.edges@.len(),
                edges_view(edges@) == edges_view(self.edges@).take(i as int),
        {
            let ghost before = edges@;
            edges.push(self.edges[i].clone());
            proof {
                let t = edges_view(self.edges@);
                t.lemma_take_succ_push(i as int);
                before.lemma_push_map_commute(|e: GraphEdge| e@, edges@[i as int]);
                assert(edges@ =~= before.push(edges@[i as int]));
                assert(edges_view(edges@) =~= edges_view(self.edges@).take(i + 1));
            }
        }
        proof {
            assert(nodes_view(self.nodes@).take(n as int) =~= nodes_view(self.nodes@));
            assert(edges_view(self.edges@).take(m as int) =~= edges_view(self.edges@));
        }
        Graph { nodes, edges }
    }
}

/// A copy of the graph.
pub fn get_graph(g: &Graph) -> (r: Graph)
    ensures
        r.nodes_v() == g.nodes_v(),
        r.edges_v() == g.edges_v(),
{
    g.clone()
}

/// Copies of the neighbors of the node of process `pid`.
pub fn get_neighbors_for_pid(g: &Graph, pid: u32) -> (r: Vec<Node>)
    requires
        g.wf(),
    ensures
        nodes_view(r@) == neighbors_of(g.nodes_v(), g.edges_v(), proc_id(pid)),
{
    let id = proc_node_id(pid);
    let refs = g.neighbors(id.as_str());
    let mut out: Vec<Node> = Vec::new();
    let n = refs.len();
    for i in 0..n
        invariant
            n == refs@.len(),
            nodes_view(out@) == refs@.map_values(|n: &Node| (*n)@).take(i as int),
    {
        let ghost before = out@;
        out.push(refs[i].clone());
        proof {
            let t = refs@.map_values(|n: &Node| (*n)@);
            t.lemma_take_succ_push(i as int);
            before.lemma_push_map_commute(|n: Node| n@, out@[i as int]);
            assert(out@ =~= before.push(out@[i as int]));
            assert(nodes_view(out@) =~= refs@.map_values(|n: &Node| (*n)@).take(i + 1));
        }
    }
    proof {
        assert(refs@.map_values(|n: &Node| (*n)@).take(n as int) =~= refs@.map_values(|n: &Node| (*n)@));
    }
    out
}

/// Add the node of process `pid` unless present, and link it from its parent's node when
/// the parent (non-zero) is present.
pub fn apply_process_started(g: &mut Graph, pid: u32, name: &str, parent_pid: u32)
    requires
        old(g).wf(),
    ensures
        final(g).wf(),
        final(g).nodes_v() == (if has_node(old(g).nodes_v(), proc_id(pid)) {
            old(g).nodes_v()
        } else {
            old(g).nodes_v().push(
                NodeView { id: proc_id(pid), node_type: NodeType::Process, name: name@, pid: Some(pid) },
            )
        }),
        parent_pid != 0 && has_node(final(g).nodes_v(), proc_id(parent_pid)) ==> exists|ts: u64|
            final(g).edges_v() == record_edge(
                old(g).edges_v(),
                proc_id(parent_pid),
                proc_id(pid),
                KindView::ParentOf,
                ts,
            ),
        !(parent_pid != 0 && has_node(final(g).nodes_v(), proc_id(parent_pid))) ==> final(g).edges_v()
            == old(g).edges_v(),
{
    let id = proc_node_id(pid);
    if !g.contains_node(&id) {
        let node = Node { id: id.clone(), node_type: NodeType::Process, name: string_of(name), pid: Some(pid) };
        g.add_node(node);
        proof {
            assert(upsert_node(old(g).nodes_v(), node@) == old(g).nodes_v().push(node@));
        }
    }
    if parent_pid != 0 {
        let parent_id = proc_node_id(parent_pid);
        if g.contains_node(&parent_id) {
            let ghost before = g.edges_v();
            g.add_edge(parent_id.as_str(), id.as_str(), EdgeKind::ParentOf);
            proof {
                let ts = choose|ts: u64| g.edges_v() == record_edge(before, proc_id(parent_pid), proc_id(pid), KindView::ParentOf, ts);
                assert(g.edges_v() == record_edge(old(g).edges_v(), proc_id(parent_pid), proc_id(pid), KindView::ParentOf, ts));
            }
        }
    }
}

/// Whether nothing in the graph, node or edge, mentions `id`.
pub open spec fn unmentioned(ns: Seq<NodeView>, es: Seq<EdgeView>, id: Seq<char>) -> bool {
    &&& !has_node(ns, id)
    &&& forall|i: int| 0 <= i < es.len() ==> #[trigger] es[i].src != id && es[i].dst != id
}

/// Law: in a graph that does not mention a process, recording its start and then its
/// termination gives the graph back, whatever its name, parent or link time.
pub proof fn law_start_then_terminate_graph(
    ns: Seq<NodeView>,
    es: Seq<EdgeView>,
    pid: u32,
    name: Seq<char>,
    parent_pid: u32,
    ts: u64,
)
    requires
        unmentioned(ns, es, proc_id(pid)),
    ensures
        ns.push(NodeView { id: proc_id(pid), node_type: NodeType::Process, name, pid: Some(pid) }).filter(
            |n: NodeView| n.id != proc_id(pid),
        ) == ns,
        record_edge(es, proc_id(parent_pid), proc_id(pid), KindView::ParentOf, ts).filter(
            |e: EdgeView| e.src != proc_id(pid) && e.dst != proc_id(pid),
        ) == es,
        es.filter(|e: EdgeView| e.src != proc_id(pid) && e.dst != proc_id(pid)) == es,
{
    let id = proc_id(pid);
    let np = |n: NodeView| n.id != id;
    let ep = |e: EdgeView| e.src != id && e.dst != id;
    assert forall|i: int| 0 <= i < ns.len() implies np(#[trigger] ns[i]) by {
        if ns[i].id == id {
            assert(has_node(ns, id));
        }
    }
    crate::seq_facts::lemma_filter_keeps_all(ns, np);
    ns.lemma_filter_push(NodeView { id, node_type: NodeType::Process, name, pid: Some(pid) }, np);
    assert forall|i: int| 0 <= i < es.len() implies ep(#[trigger] es[i]) by {}
    crate::seq_facts::lemma_filter_keeps_all(es, ep);
    assert(!(exists|i: int| 0 <= i < es.len() && edge_matches(es[i], proc_id(parent_pid), id, KindView::ParentOf)));
    es.lemma_filter_push(EdgeView { src: proc_id(parent_pid), dst: id, kind: KindView::ParentOf, ts, count: 1 }, ep);
}

/// Remove the node of process `pid` and every edge that touches it.
pub fn apply_process_terminated(g: &mut Graph, pid: u32)
    requires
        old(g).wf(),
    ensures
        final(g).wf(),
        final(g).nodes_v() == old(g).nodes_v().filter(|n: NodeView| n.id != proc_id(pid)),
        final(g).edges_v() == old(g).edges_v().filter(
            |e: EdgeView| e.src != proc_id(pid) && e.dst != proc_id(pid),
        ),
{
    let id = proc_node_id(pid);
    let ghost ns = g.nodes_v();
    let ghost es = g.edges_v();
    let ghost np = |n: NodeView| n.id != proc_id(pid);
    let ghost ep = |e: EdgeView| e.src != proc_id(pid) && e.dst != proc_id(pid);
    let mut nodes: Vec<Node> = Vec::new();
    let n = g.nodes.len();
    for i in 0..n
        invariant
            n == g.nodes@.len(),
            ns == g.nodes_v(),
            id@ == proc_id(pid),
            np == |n: NodeView| n.id != proc_id(pid),
            nodes_view(nodes@) == ns.take(i as int).filter(np),
    {
        proof {
            ns.lemma_take_succ_push(i as int);
            ns.take(i as int).lemma_filter_push(ns[i as int], np);
        }
        if g.nodes[i].id != id {
            nodes.push(g.nodes[i].clone());
            proof {
                assert(nodes_view(nodes@) =~= ns.take(i as int).filter(np).push(ns[i as int]));
            }
        }
    }
    let mut edges: Vec<GraphEdge> = Vec::new();
    let m = g.edges.len();
    for i in 0..m
        invariant
            m == g.edges@.len(),
            es == g.edges_v(),
            id@ == proc_id(pid),
            ep == |e: EdgeView| e.src != proc_id(pid) && e.dst != proc_id(pid),
            edges_view(edges@) == es.take(i as int).filter(ep),
    {
        proof {
            es.lemma_take_succ_push(i as int);
            es.take(i as int).lemma_filter_push(es[i as int], ep);
        }
        if g.edges[i].src != id && g.edges[i].dst != id {
            edges.push(g.edges[i].clone());
            proof {
                assert(edges_view(edges@) =~= es.take(i as int).filter(ep).push(es[i as int]));
            }
        }
    }
    proof {
        assert(ns.take(n as int) =~= ns);
        assert(es.take(m as int) =~= es);
        let f = ns.filter(np);
        assert forall|a: int, b: int| 0 <= a < b < f.len() implies f[a].id != f[b].id by {
            lemma_filter_preserves_distinct(ns, np, a, b);
        }
    }
    g.nodes = nodes;
    g.edges = edges;
}

/// Filtering keeps node ids distinct.
pub proof fn lemma_filter_preserves_distinct(ns: Seq<NodeView>, p: spec_fn(NodeView) -> bool, a: int, b: int)
    requires
        ids_distinct(ns),
        0 <= a < b < ns.filter(p).len(),
    ensures
        ns.filter(p)[a].id != ns.filter(p)[b].id,
    decreases ns.len(),
{
    if ns.len() > 0 {
        let init = ns.drop_last();
        let x = ns.last();
        assert(init.push(x) =~= ns);
        init.lemma_filter_push(x, p);
        assert(ids_distinct(init));
        if p(x) && b == init.filter(p).len() {
            let fa = init.filter(p)[a];
            assert(init.filter(p).contains(fa));
            init.lemma_filter_contains_rev(p, fa);
            let k = choose|k: int| 0 <= k < init.len() && init[k] == fa;
            assert(ns[k] == fa);
            assert(ns[ns.len() - 1] == x);
        } else {
            lemma_filter_preserves_distinct(init, p, a, b);
        }
    }
}

/// The index of the first edge into `cur` that records parentage, if any.
pub open spec fn parent_link(edges: Seq<EdgeView>, cur: Seq<char>) -> Option<int> {
    if exists|i: int| 0 <= i < edges.len() && edges[i].dst == cur && is_parent_kind(edges[i].kind) {
        Some(
            choose|i: int|
                0 <= i < edges.len() && edges[i].dst == cur && is_parent_kind(edges[i].kind)
                    && forall|j: int|
                    0 <= j < i ==> !(#[trigger] edges[j].dst == cur && is_parent_kind(edges[j].kind)),
        )
    } else {
        None
    }
}

/// The ancestry walk from `cur`: `cur`, then the source of its first parentage edge, and
/// so on, for at most `fuel` nodes and stopping before a node already in `visited`.
pub open spec fn walk(edges: Seq<EdgeView>, cur: Seq<char>, visited: Set<Seq<char>>, fuel: nat) -> Seq<Seq<char>>
    decreases fuel,
{
    if fuel == 0 || visited.contains(cur) {
        Seq::empty()
    } else {
        seq![cur] + match parent_link(edges, cur) {
            Some(i) => walk(edges, edges[i].src, visited.insert(cur), (fuel - 1) as nat),
            None => Seq::empty(),
        }
    }
}

/// The ancestry walk of process `pid` (at most 50 nodes), from the process upwards.
pub open spec fn ancestry(g: &Graph, pid: u32) -> Seq<Seq<char>> {
    walk(g.edges_v(), proc_id(pid), Set::empty(), 50)
}

/// The index of the first edge into `cur` that records parentage.
pub fn find_parent_link(g: &Graph, cur: &String) -> (r: Option<usize>)
    ensures
        match r {
            Some(i) => parent_link(g.edges_v(), cur@) == Some(i as int) && i < g.edges@.len(),
            None => parent_link(g.edges_v(), cur@) is None,
        },
{
    let ghost es = g.edges_v();
    let n = g.edges.len();
    for i in 0..n
        invariant
            n == g.edges@.len(),
            es == g.edges_v(),
            forall|j: int| 0 <= j < i ==> !(#[trigger] es[j].dst == cur@ && is_parent_kind(es[j].kind)),
    {
        if g.edges[i].dst == *cur && g.edges[i].kind.is_parent_link() {
            proof {
                assert(es[i as int].dst == cur@ && is_parent_kind(es[i as int].kind));
                let c = choose|c: int|
                    0 <= c < es.len() && es[c].dst == cur@ && is_parent_kind(es[c].kind)
                        && forall|j: int|
                        0 <= j < c ==> !(#[trigger] es[j].dst == cur@ && is_parent_kind(es[j].kind));
                if c < i {
                    assert(!(es[c].dst == cur@ && is_parent_kind(es[c].kind)));
                } else if c > i {
                    assert(!(es[i as int].dst == cur@ && is_parent_kind(es[i as int].kind)));
                }
            }
            return Some(i);
        }
    }
    None
}

pub open spec fn strings_view(v: Seq<String>) -> Seq<Seq<char>> {
    v.map_values(|s: String| s@)
}

/// Whether `v` holds a string equal to `s`.
pub fn contains_string(v: &Vec<String>, s: &String) -> (b: bool)
    ensures
        b == strings_view(v@).contains(s@),
{
    let n = v.len();
    for i in 0..n
        invariant
            n == v@.len(),
            forall|j: int| 0 <= j < i ==> v@[j]@ != s@,
    {
        if v[i] == *s {
            assert(strings_view(v@)[i as int] == s@);
            return true;
        }
    }
    proof {
        if strings_view(v@).contains(s@) {
            let j = choose|j: int| 0 <= j < strings_view(v@).len() && strings_view(v@)[j] == s@;
            assert(v@[j]@ == s@);
        }
    }
    false
}

/// The ids along the ancestry walk of process `pid`, from the process upwards.
pub fn ancestry_ids(g: &Graph, pid: u32) -> (r: Vec<String>)
    ensures
        strings_view(r@) == ancestry(g, pid),
{
    let ghost es = g.edges_v();
    let mut ids: Vec<String> = Vec::new();
    let mut cur = proc_node_id(pid);
    let mut depth: usize = 0;
    proof {
        assert(strings_view(ids@) =~= Seq::<Seq<char>>::empty());
        assert(strings_view(ids@).to_set() =~= Set::<Seq<char>>::empty());
    }
    loop
        invariant
            es == g.edges_v(),
            depth <= 50,
            ancestry(g, pid) == strings_view(ids@) + walk(es, cur@, strings_view(ids@).to_set(), (50 - depth) as nat),
        decreases 50 - depth,
    {
        if depth >= 50 || contains_string(&ids, &cur) {
            proof {
                assert(walk(es, cur@, strings_view(ids@).to_set(), (50 - depth) as nat) =~= Seq::<Seq<char>>::empty());
                assert(strings_view(ids@) + Seq::<Seq<char>>::empty() =~= strings_view(ids@));
            }
            return ids;
        }
        let ghost before = strings_view(ids@);
        ids.push(cur.clone());
        proof {
            assert(strings_view(ids@) =~= before.push(cur@));
            assert(strings_view(ids@).to_set() =~= before.to_set().insert(cur@));
        }
        match find_parent_link(g, &cur) {
            Some(i) => {
                let next = g.edges[i].src.clone();
                proof {
                    assert(next@ == es[i as int].src);
                    lemma_walk_step(es, cur@, before, (50 - depth) as nat);
                }
                cur = next;
                depth = depth + 1;
            },
            None => {
                proof {
                    lemma_walk_step(es, cur@, before, (50 - depth) as nat);
                }
                return ids;
            },
        }
    }
}

/// One step of the walk, seen from the list of ids already taken.
proof fn lemma_walk_step(es: Seq<EdgeView>, cur: Seq<char>, taken: Seq<Seq<char>>, fuel: nat)
    requires
        fuel > 0,
        !taken.to_set().contains(cur),
    ensures
        taken + walk(es, cur, taken.to_set(), fuel) == taken.push(cur) + match parent_link(es, cur) {
            Some(i) => walk(es, es[i].src, taken.push(cur).to_set(), (fuel - 1) as nat),
            None => Seq::empty(),
        },
{
    assert(taken.push(cur).to_set() =~= taken.to_set().insert(cur));
    let rest = match parent_link(es, cur) {
        Some(i) => walk(es, es[i].src, taken.to_set().insert(cur), (fuel - 1) as nat),
        None => Seq::<Seq<char>>::empty(),
    };
    assert(walk(es, cur, taken.to_set(), fuel) == seq![cur] + rest);
    assert(taken + (seq![cur] + rest) =~= taken.push(cur) + rest);
}

/// The label shown for node id `id`: the node's name when present, else the id itself.
pub open spec fn label_of(nodes: Seq<NodeView>, id: Seq<char>) -> Seq<char> {
    if has_node(nodes, id) {
        node_with(nodes, id).name
    } else {
        id
    }
}

/// The ancestry of process `pid` as labels, root first and the process last.
pub fn reason_for_pid(g: &Graph, pid: u32) -> (r: Vec<String>)
    requires
        g.wf(),
    ensures
        strings_view(r@) == ancestry(g, pid).map_values(|id: Seq<char>| label_of(g.nodes_v(), id)).reverse(),
{
    let ids = ancestry_ids(g, pid);
    let ghost lab = ancestry(g, pid).map_values(|id: Seq<char>| label_of(g.nodes_v(), id));
    let mut out: Vec<String> = Vec::new();
    let n = ids.len();
    let mut k: usize = n;
    while k > 0
        invariant
            k <= n,
            n == ids@.len(),
            strings_view(ids@) == ancestry(g, pid),
            lab == ancestry(g, pid).map_values(|id: Seq<char>| label_of(g.nodes_v(), id)),
            g.wf(),
            strings_view(out@) == lab.subrange(k as int, n as int).reverse(),
        decreases k,
    {
        k = k - 1;
        let label = match g.find_node(&ids[k]) {
            Some(i) => {
                proof {
                    lemma_node_with(g.nodes_v(), i as int);
                }
                g.nodes[i].name.clone()
            },
            None => ids[k].clone(),
        };
        let ghost prev = strings_view(out@);
        let ghost prev_raw = out@;
        out.push(label);
        proof {
            assert(label@ == lab[k as int]);
            assert(out@ =~= prev_raw.push(label));
            assert(strings_view(out@) =~= prev.push(lab[k as int]));
            assert(lab.subrange(k as int, n as int).reverse() =~= lab.subrange(k + 1, n as int).reverse().push(lab[k as int]));
        }
    }
    proof {
        assert(lab.subrange(0, n as int) =~= lab);
    }
    out
}

/// The node with id `id`, or a placeholder of type `Other` named after the id.
pub open spec fn node_or_placeholder(nodes: Seq<NodeView>, id: Seq<char>) -> NodeView {
    if has_node(nodes, id) {
        node_with(nodes, id)
    } else {
        NodeView { id, node_type: NodeType::Other, name: id, pid: None }
    }
}

/// Law: the names of the structured reasons of a process are its plain reasons: the entry
/// for each ancestor (root first) is named by the ancestor's label.
pub proof fn law_reason_names(g: &Graph, pid: u32)
    ensures
        ancestry(g, pid).map_values(
            |id: Seq<char>| (node_or_placeholder(g.nodes_v(), id), behavior_edges(g.edges_v(), id)),
        ).reverse().map_values(|p: (NodeView, Seq<EdgeView>)| p.0.name) == ancestry(g, pid).map_values(
            |id: Seq<char>| label_of(g.nodes_v(), id),
        ).reverse(),
{
    let a = ancestry(g, pid);
    let lhs = a.map_values(
        |id: Seq<char>| (node_or_placeholder(g.nodes_v(), id), behavior_edges(g.edges_v(), id)),
    ).reverse().map_values(|p: (NodeView, Seq<EdgeView>)| p.0.name);
    let rhs = a.map_values(|id: Seq<char>| label_of(g.nodes_v(), id)).reverse();
    assert forall|i: int| 0 <= i < lhs.len() implies lhs[i] == rhs[i] by {
        let id = a[a.len() - 1 - i];
        if has_node(g.nodes_v(), id) {
        }
    }
    assert(lhs =~= rhs);
}

/// The behavior and service edges leaving `id`, in order.
pub open spec fn behavior_edges(edges: Seq<EdgeView>, id: Seq<char>) -> Seq<EdgeView> {
    edges.filter(|e: EdgeView| e.src == id && is_behavior_kind(e.kind))
}

/// The parentage edge taken from `id`, if any.
pub open spec fn parent_edge_of(edges: Seq<EdgeView>, id: Seq<char>) -> Seq<EdgeView> {
    match parent_link(edges, id) {
        Some(i) => seq![edges[i]],
        None => Seq::empty(),
    }
}

/// A copy of the node with id `id`, or a placeholder.
pub fn node_or_placeholder_for(g: &Graph, id: &String) -> (r: Node)
    requires
        g.wf(),
    ensures
        r@ == node_or_placeholder(g.nodes_v(), id@),
{
    match g.find_node(id) {
        Some(i) => {
            proof {
                lemma_node_with(g.nodes_v(), i as int);
            }
            g.nodes[i].clone()
        },
        None => Node { id: id.clone(), node_type: NodeType::Other, name: id.clone(), pid: None },
    }
}

/// Copies of the behavior and service edges leaving `id`.
pub fn behavior_edges_from(g: &Graph, id: &String) -> (r: Vec<GraphEdge>)
    ensures
        edges_view(r@) == behavior_edges(g.edges_v(), id@),
{
    let ghost es = g.edges_v();
    let ghost pred = |e: EdgeView| e.src == id@ && is_behavior_kind(e.kind);
    let mut out: Vec<GraphEdge> = Vec::new();
    let n = g.edges.len();
    for i in 0..n
        invariant
            n == g.edges@.len(),
            es == g.edges_v(),
            pred == |e: EdgeView| e.src == id@ && is_behavior_kind(e.kind),
            edges_view(out@) == es.take(i as int).filter(pred),
    {
        proof {
            es.lemma_take_succ_push(i as int);
            es.take(i as int).lemma_filter_push(es[i as int], pred);
        }
        if g.edges[i].src == *id && g.edges[i].kind.is_behavior_link() {
            let ghost before = out@;
            out.push(g.edges[i].clone());
            proof {
                assert(out@ =~= before.push(out@[before.len() as int]));
                before.lemma_push_map_commute(|e: GraphEdge| e@, out@[before.len() as int]);
                assert(edges_view(out@) =~= es.take(i as int).filter(pred).push(es[i as int]));
            }
        }
    }
    proof {
        assert(es.take(n as int) =~= es);
    }
    out
}

/// For each node of the ancestry of `pid` (root first): the node (or a placeholder) and the
/// behavior and service edges that leave it.
pub fn reason_structured_for_pid(g: &Graph, pid: u32) -> (r: Vec<(Node, Vec<GraphEdge>)>)
    requires
        g.wf(),
    ensures
        r@.map_values(|p: (Node, Vec<GraphEdge>)| (p.0@, edges_view(p.1@))) == ancestry(g, pid).map_values(
            |id: Seq<char>| (node_or_placeholder(g.nodes_v(), id), behavior_edges(g.edges_v(), id)),
        ).reverse(),
{
    let ids = ancestry_ids(g, pid);
    let ghost want = ancestry(g, pid).map_values(
        |id: Seq<char>| (node_or_placeholder(g.nodes_v(), id), behavior_edges(g.edges_v(), id)),
    );
    let mut out: Vec<(Node, Vec<GraphEdge>)> = Vec::new();
    let n = ids.len();
    let mut k: usize = n;
    while k > 0
        invariant
            k <= n,
            n == ids@.len(),
            strings_view(ids@) == ancestry(g, pid),
            want == ancestry(g, pid).map_values(
                |id: Seq<char>| (node_or_placeholder(g.nodes_v(), id), behavior_edges(g.edges_v(), id)),
            ),
            g.wf(),
            out@.map_values(|p: (Node, Vec<GraphEdge>)| (p.0@, edges_view(p.1@))) == want.subrange(k as int, n as int).reverse(),
        decreases k,
    {
        k = k - 1;
        let node = node_or_placeholder_for(g, &ids[k]);
        let inc = behavior_edges_from(g, &ids[k]);
        let ghost prev_raw = out@;
        out.push((node, inc));
        proof {
            let f = |p: (Node, Vec<GraphEdge>)| (p.0@, edges_view(p.1@));
            assert(out@ =~= prev_raw.push(out@[prev_raw.len() as int]));
            prev_raw.lemma_push_map_commute(f, out@[prev_raw.len() as int]);
            assert(f(out@[prev_raw.len() as int]) == want[k as int]);
            assert(want.subrange(k as int, n as int).reverse() =~= want.subrange(k + 1, n as int).reverse().push(want[k as int]));
        }
    }
    proof {
        assert(want.subrange(0, n as int) =~= want);
    }
    out
}

/// The edges explaining the ancestry of `pid`, root first: for each node of the walk its
/// behavior and service edges, then the parentage edge taken from it.
#[verifier::spinoff_prover]
#[verifier::rlimit(40)]
pub fn reason_edges_for_pid(g: &Graph, pid: u32) -> (r: Vec<GraphEdge>)
    requires
        g.wf(),
    ensures
        edges_view(r@) == ancestry(g, pid).flat_map(
            |id: Seq<char>| behavior_edges(g.edges_v(), id) + parent_edge_of(g.edges_v(), id),
        ).reverse(),
{
    let ids = ancestry_ids(g, pid);
    let ghost f = |id: Seq<char>| behavior_edges(g.edges_v(), id) + parent_edge_of(g.edges_v(), id);
    let ghost anc = ancestry(g, pid);
    let mut collected: Vec<GraphEdge> = Vec::new();
    let n = ids.len();
    for i in 0..n
        invariant
            n == ids@.len(),
            strings_view(ids@) == anc,
            anc == ancestry(g, pid),
            f == |id: Seq<char>| behavior_edges(g.edges_v(), id) + parent_edge_of(g.edges_v(), id),
            edges_view(collected@) == anc.take(i as int).flat_map(f),
    {
        proof {
            anc.lemma_flat_map_take_append(f, i as int);
        }
        let ghost before = edges_view(collected@);
        let inc = behavior_edges_from(g, &ids[i]);
        append_edges(&mut collected, &inc);
        match find_parent_link(g, &ids[i]) {
            Some(j) => {
                let ghost mid = collected@;
                collected.push(g.edges[j].clone());
                proof {
                    assert(collected@ =~= mid.push(collected@[mid.len() as int]));
                    mid.lemma_push_map_commute(|e: GraphEdge| e@, collected@[mid.len() as int]);
                    assert(parent_edge_of(g.edges_v(), anc[i as int]) == seq![g.edges_v()[j as int]]);
                    assert(edges_view(collected@) =~= before + f(anc[i as int]));
                }
            },
            None => {
                proof {
                    assert(parent_edge_of(g.edges_v(), anc[i as int]) =~= Seq::<EdgeView>::empty());
                    assert(edges_view(collected@) =~= before + f(anc[i as int]));
                }
            },
        }
    }
    proof {
        assert(anc.take(n as int) =~= anc);
    }
    reverse_edges(&collected)
}

/// Append copies of `more` to `v`.
pub fn append_edges(v: &mut Vec<GraphEdge>, more: &Vec<GraphEdge>)
    ensures
        edges_view(final(v)@) == edges_view(old(v)@) + edges_view(more@),
{
    let ghost start = edges_view(v@);
    let n = more.len();
    for i in 0..n
        invariant
            n == more@.len(),
            edges_view(v@) == start + edges_view(more@).take(i as int),
            start == edges_view(old(v)@),
    {
        let ghost before = v@;
        v.push(more[i].clone());
        proof {
            assert(v@ =~= before.push(v@[before.len() as int]));
            before.lemma_push_map_commute(|e: GraphEdge| e@, v@[before.len() as int]);
            edges_view(more@).lemma_take_succ_push(i as int);
            assert(edges_view(v@) =~= start + edges_view(more@).take(i + 1));
        }
    }
    proof {
        assert(edges_view(more@).take(n as int) =~= edges_view(more@));
    }
}

/// Copies of `v` in reverse order.
pub fn reverse_edges(v: &Vec<GraphEdge>) -> (r: Vec<GraphEdge>)
    ensures
        edges_view(r@) == edges_view(v@).reverse(),
{
    let ghost ev = edges_view(v@);
    let mut out: Vec<GraphEdge> = Vec::new();
    let n = v.len();
    let mut k: usize = n;
    while k > 0
        invariant
            k <= n,
            n == v@.len(),
            ev == edges_view(v@),
            edges_view(out@) == ev.subrange(k as int, n as int).reverse(),
        decreases k,
    {
        k = k - 1;
        let ghost before = out@;
        out.push(v[k].clone());
        proof {
            assert(out@ =~= before.push(out@[before.len() as int]));
            before.lemma_push_map_commute(|e: GraphEdge| e@, out@[before.len() as int]);
            assert(ev.subrange(k as int, n as int).reverse() =~= ev.subrange(k + 1, n as int).reverse().push(ev[k as int]));
        }
    }
    proof {
        assert(ev.subrange(0, n as int) =~= ev);
    }
    out
}

/// Whether some edge links `a` and `b` (in either direction).
pub open spec fn adjacent(edges: Seq<EdgeView>, a: Seq<char>, b: Seq<char>) -> bool {
    exists|i: int|
        0 <= i < edges.len() && ((edges[i].src == a && edges[i].dst == b) || (edges[i].dst == a
            && edges[i].src == b))
}

/// Whether positions `i` and `i + 1` of `p` are linked by an edge.
pub open spec fn step_linked(edges: Seq<EdgeView>, p: Seq<Seq<char>>, i: int) -> bool {
    adjacent(edges, p[i], p[i + 1])
}

/// Whether consecutive ids of `p` are linked by edges.
pub open spec fn is_walk(edges: Seq<EdgeView>, p: Seq<Seq<char>>) -> bool {
    forall|i: int| 0 <= i < p.len() - 1 ==> #[trigger] step_linked(edges, p, i)
}

/// Whether `x` is at most `k` edges away from `start`: some walk of at most `k` edges leads
/// from `start` to `x`.
pub open spec fn within(edges: Seq<EdgeView>, start: Seq<char>, x: Seq<char>, k: nat) -> bool {
    exists|p: Seq<Seq<char>>|
        #[trigger] is_walk(edges, p) && 1 <= p.len() <= k + 1 && p[0] == start && p.last() == x
}

/// `start` is within any bound of itself.
pub proof fn lemma_within_start(edges: Seq<EdgeView>, start: Seq<char>, k: nat)
    ensures
        within(edges, start, start, k),
{
    let p = seq![start];
    assert(is_walk(edges, p));
}

/// A neighbor of an id within `k` edges is within `k + 1` edges.
pub proof fn lemma_within_step(edges: Seq<EdgeView>, start: Seq<char>, y: Seq<char>, x: Seq<char>, k: nat)
    requires
        within(edges, start, y, k),
        adjacent(edges, y, x),
    ensures
        within(edges, start, x, k + 1),
{
    let p = choose|p: Seq<Seq<char>>|
        #[trigger] is_walk(edges, p) && 1 <= p.len() <= k + 1 && p[0] == start && p.last() == y;
    let q = p.push(x);
    assert forall|i: int| 0 <= i < q.len() - 1 implies #[trigger] step_linked(edges, q, i) by {
        if i < p.len() - 1 {
            assert(step_linked(edges, p, i));
        }
    }
    assert(is_walk(edges, q));
}

/// Being within `k` edges implies being within any larger bound.
pub proof fn lemma_within_mono(edges: Seq<EdgeView>, start: Seq<char>, x: Seq<char>, k: nat, m: nat)
    requires
        within(edges, start, x, k),
        k <= m,
    ensures
        within(edges, start, x, m),
{
    let p = choose|p: Seq<Seq<char>>|
        #[trigger] is_walk(edges, p) && 1 <= p.len() <= k + 1 && p[0] == start && p.last() == x;
    assert(is_walk(edges, p));
}

/// The neighbor that edge `e` gives `cur`: its destination when it leaves `cur`, else its
/// source when it enters `cur`.
pub open spec fn edge_other_end(e: EdgeView, cur: Seq<char>) -> Option<Seq<char>> {
    if e.src == cur {
        Some(e.dst)
    } else if e.dst == cur {
        Some(e.src)
    } else {
        None
    }
}

/// The ids that can occur in a search from `start`.
pub open spec fn id_pool(edges: Seq<EdgeView>, start: Seq<char>) -> Seq<Seq<char>> {
    edges.map_values(|e: EdgeView| e.src) + edges.map_values(|e: EdgeView| e.dst) + seq![start]
}

/// A duplicate-free sequence drawn from `p` is no longer than `p`.
pub proof fn lemma_nodup_within_pool<A>(s: Seq<A>, p: Seq<A>)
    requires
        s.no_duplicates(),
        forall|j: int| 0 <= j < s.len() ==> p.contains(#[trigger] s[j]),
    ensures
        s.len() <= p.len(),
{
    s.unique_seq_to_set();
    p.lemma_cardinality_of_set();
    assert(s.to_set().subset_of(p.to_set())) by {
        assert forall|x: A| s.to_set().contains(x) implies p.to_set().contains(x) by {
            let j = choose|j: int| 0 <= j < s.len() && s[j] == x;
        }
    }
    vstd::set_lib::lemma_len_subset(s.to_set(), p.to_set());
}

/// The discovered ids and their distances after scanning the first `t` edges from `cur`:
/// each edge at `cur` whose other end is not yet discovered adds that end at distance `dn`.
pub open spec fn scan_edges(
    es: Seq<EdgeView>,
    cur: Seq<char>,
    s: Seq<Seq<char>>,
    d: Seq<usize>,
    dn: usize,
    t: int,
) -> (Seq<Seq<char>>, Seq<usize>)
    decreases t,
{
    if t <= 0 {
        (s, d)
    } else {
        let prev = scan_edges(es, cur, s, d, dn, t - 1);
        match edge_other_end(es[t - 1], cur) {
            Some(x) => if prev.0.contains(x) {
                prev
            } else {
                (prev.0.push(x), prev.1.push(dn))
            },
            None => prev,
        }
    }
}

/// Whether `(s, d, head)` is a search state drawn from the ids around `start`.
pub open spec fn search_ok(es: Seq<EdgeView>, start: Seq<char>, s: Seq<Seq<char>>, d: Seq<usize>, head: int) -> bool {
    &&& s.no_duplicates()
    &&& forall|j: int| 0 <= j < s.len() ==> id_pool(es, start).contains(#[trigger] s[j])
    &&& s.len() == d.len()
    &&& 0 <= head <= s.len()
}

/// The discovery sequence of the breadth-first search from state `(s, d, head)`: the entries
/// from `head` on are expanded in order, each closer than `depth` by scanning all edges in
/// order (see `scan_edges`).
pub open spec fn search_from(
    es: Seq<EdgeView>,
    start: Seq<char>,
    depth: usize,
    s: Seq<Seq<char>>,
    d: Seq<usize>,
    head: int,
) -> Seq<Seq<char>>
    decreases id_pool(es, start).len() - head,
    when search_ok(es, start, s, d, head)
    via search_from_decreases
{
    if head >= s.len() {
        s
    } else {
        let next = if d[head] < depth {
            scan_edges(es, s[head], s, d, (d[head] + 1) as usize, es.len() as int)
        } else {
            (s, d)
        };
        search_from(es, start, depth, next.0, next.1, head + 1)
    }
}

/// The search measure stays non-negative: a duplicate-free state drawn from the pool is no
/// longer than the pool.
#[via_fn]
proof fn search_from_decreases(
    es: Seq<EdgeView>,
    start: Seq<char>,
    depth: usize,
    s: Seq<Seq<char>>,
    d: Seq<usize>,
    head: int,
) {
    if search_ok(es, start, s, d, head) {
        lemma_nodup_within_pool(s, id_pool(es, start));
    }
}

/// Scanning edges keeps a valid search state, only ever adding ids.
proof fn lemma_scan_ok(
    es: Seq<EdgeView>,
    start: Seq<char>,
    cur: Seq<char>,
    s: Seq<Seq<char>>,
    d: Seq<usize>,
    dn: usize,
    t: int,
    head: int,
)
    requires
        search_ok(es, start, s, d, head),
        t <= es.len(),
    ensures
        search_ok(es, start, scan_edges(es, cur, s, d, dn, t).0, scan_edges(es, cur, s, d, dn, t).1, head),
        scan_edges(es, cur, s, d, dn, t).0.len() >= s.len(),
        scan_edges(es, cur, s, d, dn, t).0.subrange(0, s.len() as int) == s,
        scan_edges(es, cur, s, d, dn, t).1.subrange(0, s.len() as int) == d,
        forall|j: int|
            s.len() <= j < scan_edges(es, cur, s, d, dn, t).1.len() ==> #[trigger] scan_edges(es, cur, s, d, dn, t).1[j]
                == dn,
    decreases t,
{
    if t > 0 {
        lemma_scan_ok(es, start, cur, s, d, dn, t - 1, head);
        let prev = scan_edges(es, cur, s, d, dn, t - 1);
        match edge_other_end(es[t - 1], cur) {
            Some(x) => {
                if !prev.0.contains(x) {
                    let pool = id_pool(es, start);
                    let e = es[t - 1];
                    assert(pool =~= es.map_values(|e: EdgeView| e.src) + es.map_values(|e: EdgeView| e.dst) + seq![start]);
                    if e.src == cur {
                        assert(pool[es.len() + t - 1] == e.dst);
                    } else {
                        assert(pool[t - 1] == e.src);
                    }
                    assert(prev.0.push(x).subrange(0, s.len() as int) =~= prev.0.subrange(0, s.len() as int));
                    assert(prev.1.push(dn).subrange(0, s.len() as int) =~= prev.1.subrange(0, s.len() as int));
                }
            },
            None => {},
        }
    } else {
        assert(s.subrange(0, s.len() as int) =~= s);
        assert(d.subrange(0, s.len() as int) =~= d);
    }
}

/// The ids discovered by a breadth-first search from `start` up to `depth` edges away, in
/// discovery order, `start` excluded.
pub open spec fn bfs_order(es: Seq<EdgeView>, start: Seq<char>, depth: usize) -> Seq<Seq<char>> {
    search_from(es, start, depth, seq![start], seq![0usize], 0).skip(1)
}

/// The nodes of the ids of `ids` that are present, in order.
pub open spec fn present_nodes(ns: Seq<NodeView>, ids: Seq<Seq<char>>) -> Seq<NodeView> {
    ids.filter(|x: Seq<char>| has_node(ns, x)).map_values(|x: Seq<char>| node_with(ns, x))
}

/// The search state of a breadth-first walk from `start`: ids in discovery order with their
/// distances; entries before `head` have been expanded (up to `depth`).
pub open spec fn bfs_inv(
    edges: Seq<EdgeView>,
    start: Seq<char>,
    depth: nat,
    s: Seq<Seq<char>>,
    d: Seq<usize>,
    head: int,
) -> bool {
    &&& s.len() == d.len()
    &&& s.len() >= 1
    &&& s[0] == start
    &&& d[0] == 0
    &&& 0 <= head <= s.len()
    &&& s.no_duplicates()
    &&& forall|j: int| 0 <= j < s.len() ==> id_pool(edges, start).contains(#[trigger] s[j])
    &&& forall|j: int| 0 <= j < s.len() ==> #[trigger] d[j] <= depth && within(edges, start, s[j], d[j] as nat)
    &&& forall|a: int, b: int| 0 <= a <= b < s.len() ==> d[a] <= d[b]
    &&& head < s.len() ==> forall|j: int| 0 <= j < s.len() ==> #[trigger] d[j] <= d[head] + 1
    &&& forall|a: int, x: Seq<char>|
        0 <= a < head && d[a] < depth && #[trigger] adjacent(edges, s[a], x) ==> exists|j: int|
            0 <= j < s.len() && s[j] == x && d[j] <= d[a] + 1
}

/// Every id on a walk of at most `depth` edges from `start` has been discovered, at a distance
/// no larger than its position on the walk, once the search is done.
proof fn lemma_bfs_complete_walk(
    edges: Seq<EdgeView>,
    start: Seq<char>,
    depth: nat,
    s: Seq<Seq<char>>,
    d: Seq<usize>,
    p: Seq<Seq<char>>,
    i: int,
)
    requires
        bfs_inv(edges, start, depth, s, d, s.len() as int),
        is_walk(edges, p),
        1 <= p.len() <= depth + 1,
        p[0] == start,
        0 <= i < p.len(),
    ensures
        exists|j: int| 0 <= j < s.len() && s[j] == p[i] && d[j] <= i,
    decreases i,
{
    if i == 0 {
        assert(s[0] == p[0] && d[0] <= 0);
    } else {
        lemma_bfs_complete_walk(edges, start, depth, s, d, p, i - 1);
        let a = choose|a: int| 0 <= a < s.len() && s[a] == p[i - 1] && d[a] <= i - 1;
        assert(step_linked(edges, p, i - 1));
        assert(adjacent(edges, s[a], p[i]));
    }
}

/// Every id within `k <= depth` edges of `start` has been discovered once the search is done.
pub proof fn lemma_bfs_complete(
    edges: Seq<EdgeView>,
    start: Seq<char>,
    depth: nat,
    s: Seq<Seq<char>>,
    d: Seq<usize>,
    x: Seq<char>,
    k: nat,
)
    requires
        bfs_inv(edges, start, depth, s, d, s.len() as int),
        within(edges, start, x, k),
        k <= depth,
    ensures
        exists|j: int| 0 <= j < s.len() && s[j] == x && d[j] <= k,
{
    let p = choose|p: Seq<Seq<char>>|
        #[trigger] is_walk(edges, p) && 1 <= p.len() <= k + 1 && p[0] == start && p.last() == x;
    lemma_bfs_complete_walk(edges, start, depth, s, d, p, p.len() - 1);
}

/// The collected nodes are present nodes whose ids were discovered after the start.
spec fn out_sound(ns: Seq<NodeView>, o: Seq<NodeView>, s: Seq<Seq<char>>) -> bool {
    forall|i: int| 0 <= i < o.len() ==> {
        &&& has_node(ns, #[trigger] o[i].id)
        &&& o[i] == node_with(ns, o[i].id)
        &&& exists|j: int| 1 <= j < s.len() && s[j] == o[i].id
    }
}

/// Every present node whose id was discovered after the start has been collected.
spec fn out_complete(ns: Seq<NodeView>, o: Seq<NodeView>, s: Seq<Seq<char>>) -> bool {
    forall|j: int|
        1 <= j < s.len() && has_node(ns, #[trigger] s[j]) ==> exists|i: int| 0 <= i < o.len() && o[i].id == s[j]
}

/// The collected nodes come in the order of their discovery distances.
#[verifier::opaque]
spec fn out_ordered(o: Seq<NodeView>, s: Seq<Seq<char>>, d: Seq<usize>) -> bool {
    forall|i: int, i2: int, j: int, j2: int|
        #![trigger o[i], o[i2], s[j], s[j2]]
        0 <= i < i2 < o.len() && 0 <= j < s.len() && 0 <= j2 < s.len() && s[j] == o[i].id && s[j2] == o[i2].id
            ==> d[j] <= d[j2]
}

/// No collected node is trivially in order.
proof fn lemma_ordered_empty(o: Seq<NodeView>, s: Seq<Seq<char>>, d: Seq<usize>)
    requires
        o.len() == 0,
    ensures
        out_ordered(o, s, d),
{
    reveal(out_ordered);
}

/// `a` is no farther from `start` than `b`: every bound that `b` is within, `a` is within too.
pub open spec fn no_farther(edges: Seq<EdgeView>, start: Seq<char>, a: Seq<char>, b: Seq<char>) -> bool {
    forall|k: nat| #[trigger] within(edges, start, b, k) ==> within(edges, start, a, k)
}

/// Discovering a new id `x` at distance `dx`, at least every distance so far, and possibly
/// collecting its node keeps the collected nodes in distance order.
proof fn lemma_ordered_extend(
    o: Seq<NodeView>,
    o2: Seq<NodeView>,
    s: Seq<Seq<char>>,
    d: Seq<usize>,
    x: Seq<char>,
    dx: usize,
)
    requires
        out_ordered(o, s, d),
        s.len() == d.len(),
        !s.contains(x),
        forall|j: int| 0 <= j < s.len() ==> #[trigger] d[j] <= dx,
        forall|i: int| 0 <= i < o.len() ==> s.contains(#[trigger] o[i].id),
        o.len() <= o2.len() <= o.len() + 1,
        o2.subrange(0, o.len() as int) == o,
        o2.len() == o.len() + 1 ==> o2[o.len() as int].id == x,
    ensures
        out_ordered(o2, s.push(x), d.push(dx)),
{
    reveal(out_ordered);
    let s2 = s.push(x);
    let d2 = d.push(dx);
    assert forall|i: int, i2: int, j: int, j2: int|
        0 <= i < i2 < o2.len() && 0 <= j < s2.len() && 0 <= j2 < s2.len() && #[trigger] s2[j] == #[trigger] o2[i].id
            && #[trigger] s2[j2] == #[trigger] o2[i2].id implies d2[j] <= d2[j2] by {
        assert(o2[i] == o[i]);
        assert(s.contains(o[i].id));
        if j == s.len() {
            assert(false);
        }
        if i2 < o.len() {
            assert(o2[i2] == o[i2]);
            assert(s.contains(o[i2].id));
            if j2 == s.len() {
                assert(false);
            }
            assert(s[j] == o[i].id && s[j2] == o[i2].id);
        } else {
            if j2 < s.len() {
                assert(s[j2] == x);
                assert(false);
            }
        }
    }
}

/// Once the search is done, nodes collected in distance order are each no farther from the
/// start than the ones after them.
proof fn lemma_out_in_order(
    es: Seq<EdgeView>,
    st: Seq<char>,
    depth: nat,
    sv: Seq<Seq<char>>,
    dv: Seq<usize>,
    ns: Seq<NodeView>,
    o: Seq<NodeView>,
)
    requires
        bfs_inv(es, st, depth, sv, dv, sv.len() as int),
        out_sound(ns, o, sv),
        out_ordered(o, sv, dv),
    ensures
        forall|i: int, i2: int| 0 <= i < i2 < o.len() ==> no_farther(es, st, #[trigger] o[i].id, #[trigger] o[i2].id),
{
    reveal(out_ordered);
    assert forall|i: int, i2: int| 0 <= i < i2 < o.len() implies no_farther(es, st, #[trigger] o[i].id, #[trigger] o[i2].id) by {
        assert(has_node(ns, o[i].id));
        assert(has_node(ns, o[i2].id));
        let j = choose|j: int| 1 <= j < sv.len() && sv[j] == o[i].id;
        let j2 = choose|j2: int| 1 <= j2 < sv.len() && sv[j2] == o[i2].id;
        assert(dv[j] <= dv[j2]);
        assert forall|k: nat| #[trigger] within(es, st, o[i2].id, k) implies within(es, st, o[i].id, k) by {
            assert(dv[j] <= depth && within(es, st, sv[j], dv[j] as nat));
            if dv[j] <= k {
                lemma_within_mono(es, st, sv[j], dv[j] as nat, k);
            } else {
                assert(dv[j2] <= depth);
                lemma_bfs_complete(es, st, depth, sv, dv, o[i2].id, k);
                let j3 = choose|j3: int| 0 <= j3 < sv.len() && sv[j3] == o[i2].id && dv[j3] <= k;
                assert(j3 == j2);
            }
        }
    }
}

/// The other ends of the first `t` edges at `cur` are discovered within distance `lim`.
spec fn ends_seen(es: Seq<EdgeView>, cur: Seq<char>, s: Seq<Seq<char>>, d: Seq<usize>, lim: int, t: int) -> bool {
    forall|t2: int| 0 <= t2 < t ==> match #[trigger] edge_other_end(es[t2], cur) {
        Some(x) => exists|j: int| 0 <= j < s.len() && s[j] == x && d[j] <= lim,
        None => true,
    }
}

/// Discovering a new neighbor `x` of the entry at `head` keeps the search state.
#[verifier::spinoff_prover]
#[verifier::rlimit(30)]
proof fn lemma_discover(
    es: Seq<EdgeView>,
    ns: Seq<NodeView>,
    st: Seq<char>,
    depth: nat,
    s: Seq<Seq<char>>,
    d: Seq<usize>,
    head: int,
    o: Seq<NodeView>,
    o2: Seq<NodeView>,
    x: Seq<char>,
    t: int,
)
    requires
        bfs_inv(es, st, depth, s, d, head),
        head < s.len(),
        d[head] < depth,
        depth <= usize::MAX,
        0 <= t < es.len(),
        edge_other_end(es[t], s[head]) == Some(x),
        !s.contains(x),
        ends_seen(es, s[head], s, d, d[head] + 1, t),
        out_sound(ns, o, s),
        out_complete(ns, o, s),
        ids_distinct(o),
        o2 == (if has_node(ns, x) { o.push(node_with(ns, x)) } else { o }),
    ensures
        bfs_inv(es, st, depth, s.push(x), d.push((d[head] + 1) as usize), head),
        s.push(x).len() <= id_pool(es, st).len(),
        ends_seen(es, s[head], s.push(x), d.push((d[head] + 1) as usize), d[head] + 1, t + 1),
        out_sound(ns, o2, s.push(x)),
        out_complete(ns, o2, s.push(x)),
        ids_distinct(o2),
{
    let s2 = s.push(x);
    let d2 = d.push((d[head] + 1) as usize);
    let pool = id_pool(es, st);
    assert(d2[s.len() as int] == d[head] + 1);
    assert(adjacent(es, s[head], x));
    lemma_within_step(es, st, s[head], x, d[head] as nat);
    assert(pool.contains(x)) by {
        if es[t].src == s[head] {
            assert(pool[es.len() + t] == x);
        } else {
            assert(pool[t] == x);
        }
    }
    assert(s2[s.len() as int] == x);
    assert(s2.no_duplicates());
    assert forall|j: int| 0 <= j < s2.len() implies pool.contains(#[trigger] s2[j]) by {
        if j < s.len() {
            assert(s2[j] == s[j]);
        }
    }
    lemma_nodup_within_pool(s2, pool);
    assert forall|j: int| 0 <= j < s2.len() implies #[trigger] d2[j] <= depth && within(es, st, s2[j], d2[j] as nat) by {
        if j < s.len() {
            assert(d2[j] == d[j] && s2[j] == s[j]);
        }
    }
    assert forall|a: int, b: int| 0 <= a <= b < s2.len() implies d2[a] <= d2[b] by {
        if b < s.len() {
            assert(d2[a] == d[a] && d2[b] == d[b]);
        } else if a < s.len() {
            assert(d[a] <= d[head] + 1);
        }
    }
    assert forall|j: int| 0 <= j < s2.len() implies #[trigger] d2[j] <= d2[head] + 1 by {
        if j < s.len() {
            assert(d[j] <= d[head] + 1);
        }
    }
    assert forall|a: int, y: Seq<char>|
        0 <= a < head && d2[a] < depth && #[trigger] adjacent(es, s2[a], y) implies exists|j: int|
            0 <= j < s2.len() && s2[j] == y && d2[j] <= d2[a] + 1 by {
        assert(s2[a] == s[a] && d2[a] == d[a]);
        let j = choose|j: int| 0 <= j < s.len() && s[j] == y && d[j] <= d[a] + 1;
        assert(s2[j] == y && d2[j] == d[j]);
    }
    assert forall|t2: int| 0 <= t2 < t + 1 implies match #[trigger] edge_other_end(es[t2], s2[head]) {
        Some(y) => exists|j: int| 0 <= j < s2.len() && s2[j] == y && d2[j] <= d[head] + 1,
        None => true,
    } by {
        assert(s2[head] == s[head]);
        if t2 < t {
            match edge_other_end(es[t2], s[head]) {
                Some(y) => {
                    let j = choose|j: int| 0 <= j < s.len() && s[j] == y && d[j] <= d[head] + 1;
                    assert(s2[j] == y && d2[j] == d[j]);
                },
                None => {},
            }
        } else {
            assert(s2[s.len() as int] == x && d2[s.len() as int] == d[head] + 1);
        }
    }
    assert forall|i: int| 0 <= i < o2.len() implies {
        &&& has_node(ns, #[trigger] o2[i].id)
        &&& o2[i] == node_with(ns, o2[i].id)
        &&& exists|j: int| 1 <= j < s2.len() && s2[j] == o2[i].id
    } by {
        if i < o.len() {
            assert(o2[i] == o[i]);
            let j = choose|j: int| 1 <= j < s.len() && s[j] == o[i].id;
            assert(s2[j] == o[i].id);
        } else {
            assert(o2[i] == node_with(ns, x));
            let c = choose|c: int| 0 <= c < ns.len() && ns[c].id == x;
            assert(o2[i].id == x);
            assert(s2[s.len() as int] == x);
        }
    }
    assert forall|j: int|
        1 <= j < s2.len() && has_node(ns, #[trigger] s2[j]) implies exists|i: int| 0 <= i < o2.len() && o2[i].id == s2[j] by {
        if j < s.len() {
            assert(s2[j] == s[j]);
            let i = choose|i: int| 0 <= i < o.len() && o[i].id == s[j];
            assert(o2[i] == o[i]);
        } else {
            let c = choose|c: int| 0 <= c < ns.len() && ns[c].id == x;
            assert(o2[o.len() as int] == node_with(ns, x));
        }
    }
    assert forall|a: int, b: int| 0 <= a < b < o2.len() implies o2[a].id != o2[b].id by {
        if b < o.len() {
            assert(o2[a] == o[a] && o2[b] == o[b]);
        } else {
            assert(o2[a] == o[a]);
            let j = choose|j: int| 1 <= j < s.len() && s[j] == o[a].id;
            let c = choose|c: int| 0 <= c < ns.len() && ns[c].id == x;
            assert(o2[b].id == x);
        }
    }
}

/// A neighbor that was discovered before keeps the search state.
proof fn lemma_seen(
    es: Seq<EdgeView>,
    st: Seq<char>,
    depth: nat,
    s: Seq<Seq<char>>,
    d: Seq<usize>,
    head: int,
    t: int,
)
    requires
        bfs_inv(es, st, depth, s, d, head),
        head < s.len(),
        0 <= t < es.len(),
        ends_seen(es, s[head], s, d, d[head] + 1, t),
        match edge_other_end(es[t], s[head]) {
            Some(x) => s.contains(x),
            None => true,
        },
    ensures
        ends_seen(es, s[head], s, d, d[head] + 1, t + 1),
{
    assert forall|t2: int| 0 <= t2 < t + 1 implies match #[trigger] edge_other_end(es[t2], s[head]) {
        Some(y) => exists|j: int| 0 <= j < s.len() && s[j] == y && d[j] <= d[head] + 1,
        None => true,
    } by {
        if t2 == t {
            match edge_other_end(es[t2], s[head]) {
                Some(y) => {
                    let j = choose|j: int| 0 <= j < s.len() && s[j] == y;
                    assert(d[j] <= d[head] + 1);
                },
                None => {},
            }
        }
    }
}

/// Expanding the entry at `head` (when it is closer than `depth`) moves the search on by one.
proof fn lemma_advance(es: Seq<EdgeView>, st: Seq<char>, depth: nat, s: Seq<Seq<char>>, d: Seq<usize>, head: int)
    requires
        bfs_inv(es, st, depth, s, d, head),
        head < s.len(),
        d[head] < depth ==> ends_seen(es, s[head], s, d, d[head] + 1, es.len() as int),
    ensures
        bfs_inv(es, st, depth, s, d, head + 1),
{
    assert forall|a: int, x: Seq<char>|
        0 <= a < head + 1 && d[a] < depth && #[trigger] adjacent(es, s[a], x) implies exists|j: int|
            0 <= j < s.len() && s[j] == x && d[j] <= d[a] + 1 by {
        if a == head {
            let i = choose|i: int|
                0 <= i < es.len() && ((es[i].src == s[head] && es[i].dst == x) || (es[i].dst == s[head]
                    && es[i].src == x));
            assert(edge_other_end(es[i], s[head]) == Some(x));
        }
    }
    if head + 1 < s.len() {
        assert forall|j: int| 0 <= j < s.len() implies #[trigger] d[j] <= d[head + 1] + 1 by {
            assert(d[head] <= d[head + 1]);
        }
    }
}

/// One more discovered id adds its node, when present, at the end of the present nodes.
proof fn lemma_present_push(ns: Seq<NodeView>, s: Seq<Seq<char>>, x: Seq<char>)
    requires
        s.len() >= 1,
    ensures
        present_nodes(ns, s.push(x).skip(1)) == (if has_node(ns, x) {
            present_nodes(ns, s.skip(1)).push(node_with(ns, x))
        } else {
            present_nodes(ns, s.skip(1))
        }),
{
    assert(s.push(x).skip(1) =~= s.skip(1).push(x));
    crate::seq_facts::lemma_filter_map_push(
        s.skip(1),
        x,
        |y: Seq<char>| has_node(ns, y),
        |y: Seq<char>| node_with(ns, y),
    );
}

/// Expanding the entry at `head` (when closer than `depth`) moves the search on by one entry
/// without changing where it ends.
proof fn lemma_search_advance(
    es: Seq<EdgeView>,
    st: Seq<char>,
    depth: usize,
    s: Seq<Seq<char>>,
    d: Seq<usize>,
    head: int,
    s2: Seq<Seq<char>>,
    d2: Seq<usize>,
)
    requires
        search_ok(es, st, s, d, head),
        head < s.len(),
        d[head] < depth ==> s2 == scan_edges(es, s[head], s, d, (d[head] + 1) as usize, es.len() as int).0
            && d2 == scan_edges(es, s[head], s, d, (d[head] + 1) as usize, es.len() as int).1,
        !(d[head] < depth) ==> s2 == s && d2 == d,
    ensures
        search_from(es, st, depth, s, d, head) == search_from(es, st, depth, s2, d2, head + 1),
{
    let next = if d[head] < depth {
        scan_edges(es, s[head], s, d, (d[head] + 1) as usize, es.len() as int)
    } else {
        (s, d)
    };
    // The definition unfolds once the next state is known to be a valid search state too.
    lemma_nodup_within_pool(s, id_pool(es, st));
    lemma_scan_ok(es, st, s[head], s, d, (d[head] + 1) as usize, es.len() as int, head + 1);
    assert(search_from(es, st, depth, s, d, head) == search_from(es, st, depth, next.0, next.1, head + 1));
    assert(next.0 == s2 && next.1 == d2);
}

/// Distances are in discovery order, and none exceeds the one at `head` by more than one.
pub open spec fn dist_sorted(d: Seq<usize>, head: int) -> bool {
    &&& forall|a: int, b: int| 0 <= a <= b < d.len() ==> d[a] <= d[b]
    &&& head < d.len() ==> forall|j: int| 0 <= j < d.len() ==> #[trigger] d[j] <= d[head] + 1
}

/// Whether `a` is a prefix of `b`.
pub open spec fn prefix_of<A>(a: Seq<A>, b: Seq<A>) -> bool {
    a.len() <= b.len() && b.subrange(0, a.len() as int) == a
}

/// A search only ever adds to its state.
proof fn lemma_search_extends(es: Seq<EdgeView>, st: Seq<char>, depth: usize, s: Seq<Seq<char>>, d: Seq<usize>, head: int)
    requires
        search_ok(es, st, s, d, head),
    ensures
        prefix_of(s, search_from(es, st, depth, s, d, head)),
    decreases id_pool(es, st).len() - head,
{
    lemma_nodup_within_pool(s, id_pool(es, st));
    if head < s.len() {
        let next = if d[head] < depth {
            scan_edges(es, s[head], s, d, (d[head] + 1) as usize, es.len() as int)
        } else {
            (s, d)
        };
        lemma_scan_ok(es, st, s[head], s, d, (d[head] + 1) as usize, es.len() as int, head + 1);
        lemma_search_advance(es, st, depth, s, d, head, next.0, next.1);
        lemma_search_extends(es, st, depth, next.0, next.1, head + 1);
        let r = search_from(es, st, depth, s, d, head);
        assert(r.subrange(0, s.len() as int) =~= r.subrange(0, next.0.len() as int).subrange(0, s.len() as int));
    } else {
        assert(s.subrange(0, s.len() as int) =~= s);
    }
}

/// A search whose remaining entries are all at least `depth` away expands nothing more.
proof fn lemma_search_idle(es: Seq<EdgeView>, st: Seq<char>, depth: usize, s: Seq<Seq<char>>, d: Seq<usize>, head: int)
    requires
        search_ok(es, st, s, d, head),
        forall|j: int| head <= j < d.len() ==> #[trigger] d[j] >= depth,
    ensures
        search_from(es, st, depth, s, d, head) == s,
    decreases id_pool(es, st).len() - head,
{
    lemma_nodup_within_pool(s, id_pool(es, st));
    if head < s.len() {
        lemma_search_advance(es, st, depth, s, d, head, s, d);
        lemma_search_idle(es, st, depth, s, d, head + 1);
    }
}

/// Searches that differ only in their depth bound, by one, agree up to where the shallower
/// one stops.
proof fn lemma_search_prefix(es: Seq<EdgeView>, st: Seq<char>, depth: usize, s: Seq<Seq<char>>, d: Seq<usize>, head: int)
    requires
        search_ok(es, st, s, d, head),
        dist_sorted(d, head),
        depth < usize::MAX,
    ensures
        prefix_of(search_from(es, st, depth, s, d, head), search_from(es, st, (depth + 1) as usize, s, d, head)),
    decreases id_pool(es, st).len() - head,
{
    lemma_nodup_within_pool(s, id_pool(es, st));
    let deeper = (depth + 1) as usize;
    if head >= s.len() {
        assert(s.subrange(0, s.len() as int) =~= s);
    } else if d[head] < depth {
        let dn = (d[head] + 1) as usize;
        let next = scan_edges(es, s[head], s, d, dn, es.len() as int);
        lemma_scan_ok(es, st, s[head], s, d, dn, es.len() as int, head + 1);
        lemma_search_advance(es, st, depth, s, d, head, next.0, next.1);
        lemma_search_advance(es, st, deeper, s, d, head, next.0, next.1);
        let n1 = next.1;
        assert(n1.subrange(0, d.len() as int) == d);
        assert forall|a: int, b: int| 0 <= a <= b < n1.len() implies n1[a] <= n1[b] by {
            if b < d.len() {
                assert(n1[a] == d[a] && n1[b] == d[b]);
            } else if a < d.len() {
                assert(n1[a] == d[a]);
                assert(d[a] <= d[head] + 1);
            }
        }
        if head + 1 < n1.len() {
            assert forall|j: int| 0 <= j < n1.len() implies #[trigger] n1[j] <= n1[head + 1] + 1 by {
                if head + 1 < d.len() {
                    assert(n1[head + 1] == d[head + 1]);
                    assert(d[head] <= d[head + 1]);
                }
                if j < d.len() {
                    assert(n1[j] == d[j]);
                    assert(d[j] <= d[head] + 1);
                }
            }
        }
        lemma_search_prefix(es, st, depth, next.0, next.1, head + 1);
    } else {
        lemma_search_idle(es, st, depth, s, d, head);
        lemma_search_extends(es, st, deeper, s, d, head);
    }
}

/// Law: the breadth-first search one edge deeper lists first everything the shallower one
/// lists, in the same order; and the first ring is one scan of the edges at the start.
pub proof fn law_bfs_depth_prefix(es: Seq<EdgeView>, ns: Seq<NodeView>, st: Seq<char>, depth: usize)
    requires
        depth < usize::MAX,
    ensures
        prefix_of(bfs_order(es, st, depth), bfs_order(es, st, (depth + 1) as usize)),
        prefix_of(present_nodes(ns, bfs_order(es, st, depth)), present_nodes(ns, bfs_order(es, st, (depth + 1) as usize))),
        bfs_order(es, st, 1) == scan_edges(es, st, seq![st], seq![0usize], 1, es.len() as int).0.skip(1),
{
    let s0 = seq![st];
    let d0 = seq![0usize];
    assert(id_pool(es, st)[id_pool(es, st).len() - 1] == st);
    assert(search_ok(es, st, s0, d0, 0));
    lemma_search_prefix(es, st, depth, s0, d0, 0);
    let a = search_from(es, st, depth, s0, d0, 0);
    let b = search_from(es, st, (depth + 1) as usize, s0, d0, 0);
    lemma_search_extends(es, st, depth, s0, d0, 0);
    let a1 = a.skip(1);
    let b1 = b.skip(1);
    assert(b1.subrange(0, a1.len() as int) =~= b.subrange(0, a.len() as int).skip(1));
    let rest = b1.subrange(a1.len() as int, b1.len() as int);
    assert(b1 =~= a1 + rest);
    let p = |x: Seq<char>| has_node(ns, x);
    let f = |x: Seq<char>| node_with(ns, x);
    Seq::filter_distributes_over_add(a1, rest, p);
    assert((a1.filter(p) + rest.filter(p)).map_values(f) =~= a1.filter(p).map_values(f) + rest.filter(p).map_values(f));
    let pa = present_nodes(ns, a1);
    let pb = present_nodes(ns, b1);
    assert(pb.subrange(0, pa.len() as int) =~= pa);
    // The first ring: the start is expanded once, and every entry it adds is one edge away.
    let dn = 1usize;
    let sc = scan_edges(es, st, s0, d0, dn, es.len() as int);
    lemma_scan_ok(es, st, st, s0, d0, dn, es.len() as int, 1);
    lemma_search_advance(es, st, 1, s0, d0, 0, sc.0, sc.1);
    lemma_search_idle(es, st, 1, sc.0, sc.1, 1);
}

/// The present nodes at most `depth` edges away from the node of `pid` (which is excluded),
/// in breadth-first order.
#[verifier::rlimit(50)]
pub fn get_neighbors_for_pid_depth(g: &Graph, pid: u32, depth: usize) -> (r: Vec<Node>)
    requires
        g.wf(),
    ensures
        ids_distinct(nodes_view(r@)),
        forall|i: int| 0 <= i < r@.len() ==> {
            let n = #[trigger] nodes_view(r@)[i];
            &&& has_node(g.nodes_v(), n.id)
            &&& n == node_with(g.nodes_v(), n.id)
            &&& n.id != proc_id(pid)
            &&& within(g.edges_v(), proc_id(pid), n.id, depth as nat)
        },
        forall|x: Seq<char>|
            has_node(g.nodes_v(), x) && x != proc_id(pid) && #[trigger] within(g.edges_v(), proc_id(pid), x, depth as nat)
                ==> exists|i: int| 0 <= i < r@.len() && nodes_view(r@)[i].id == x,
        forall|i: int, j: int|
            0 <= i < j < r@.len() ==> no_farther(
                g.edges_v(),
                proc_id(pid),
                #[trigger] nodes_view(r@)[i].id,
                #[trigger] nodes_view(r@)[j].id,
            ),
        nodes_view(r@) == present_nodes(g.nodes_v(), bfs_order(g.edges_v(), proc_id(pid), depth)),
{
    let ghost es = g.edges_v();
    let ghost ns = g.nodes_v();
    let start = proc_node_id(pid);
    let ghost st = start@;
    let mut out: Vec<Node> = Vec::new();
    if depth == 0 {
        proof {
            assert forall|x: Seq<char>|
                has_node(ns, x) && x != st && #[trigger] within(es, st, x, depth as nat) implies false by {
                let p = choose|p: Seq<Seq<char>>|
                    #[trigger] is_walk(es, p) && 1 <= p.len() <= 1 && p[0] == st && p.last() == x;
            }
            let s1 = seq![st];
            let d1 = seq![0usize];
            assert(id_pool(es, st)[id_pool(es, st).len() - 1] == st);
            assert(search_ok(es, st, s1, d1, 0));
            assert(search_ok(es, st, s1, d1, 1));
            assert(search_from(es, st, depth, s1, d1, 1) == s1);
            assert(search_from(es, st, depth, s1, d1, 0) == s1);
            assert(bfs_order(es, st, depth) =~= Seq::<Seq<char>>::empty());
            assert(nodes_view(out@) =~= present_nodes(ns, bfs_order(es, st, depth)));
        }
        return out;
    }
    let mut ids: Vec<String> = Vec::new();
    let mut dist: Vec<usize> = Vec::new();
    ids.push(start.clone());
    dist.push(0);
    let ghost pool = id_pool(es, st);
    proof {
        assert(pool[pool.len() - 1] == st);
        assert(strings_view(ids@) =~= seq![st]);
        lemma_within_start(es, st, 0);
        assert(out_sound(ns, nodes_view(out@), strings_view(ids@)));
        lemma_ordered_empty(nodes_view(out@), strings_view(ids@), dist@);
        assert(dist@ =~= seq![0usize]);
        assert(strings_view(ids@).skip(1) =~= Seq::<Seq<char>>::empty());
        assert(nodes_view(out@) =~= present_nodes(ns, strings_view(ids@).skip(1)));
    }
    let ghost whole = search_from(es, st, depth, seq![st], seq![0usize], 0);
    let mut head: usize = 0;
    while head < ids.len()
        invariant
            es == g.edges_v(),
            ns == g.nodes_v(),
            ids_distinct(ns),
            st == start@,
            st == proc_id(pid),
            pool == id_pool(es, st),
            ids@.len() <= pool.len(),
            depth > 0,
            bfs_inv(es, st, depth as nat, strings_view(ids@), dist@, head as int),
            out_sound(ns, nodes_view(out@), strings_view(ids@)),
            out_complete(ns, nodes_view(out@), strings_view(ids@)),
            out_ordered(nodes_view(out@), strings_view(ids@), dist@),
            ids_distinct(nodes_view(out@)),
            whole == search_from(es, st, depth, seq![st], seq![0usize], 0),
            search_from(es, st, depth, strings_view(ids@), dist@, head as int) == whole,
            nodes_view(out@) == present_nodes(ns, strings_view(ids@).skip(1)),
        decreases pool.len() - head,
    {
        let d = dist[head];
        let ghost sh = strings_view(ids@);
        let ghost dh = dist@;
        if d < depth {
            let cur = ids[head].clone();
            let m = g.edges.len();
            for t in 0..m
                invariant
                    sh[head as int] == cur@,
                    dh[head as int] == d,
                    head < sh.len(),
                    strings_view(ids@) == scan_edges(es, cur@, sh, dh, (d + 1) as usize, t as int).0,
                    dist@ == scan_edges(es, cur@, sh, dh, (d + 1) as usize, t as int).1,
                    nodes_view(out@) == present_nodes(ns, strings_view(ids@).skip(1)),
                    m == g.edges@.len(),
                    es == g.edges_v(),
                    ns == g.nodes_v(),
                    ids_distinct(ns),
                    st == proc_id(pid),
                    pool == id_pool(es, st),
                    ids@.len() <= pool.len(),
                    head < ids@.len(),
                    cur@ == strings_view(ids@)[head as int],
                    d == dist@[head as int],
                    d < depth,
                    bfs_inv(es, st, depth as nat, strings_view(ids@), dist@, head as int),
                    ends_seen(es, cur@, strings_view(ids@), dist@, d + 1, t as int),
                    out_sound(ns, nodes_view(out@), strings_view(ids@)),
                    out_complete(ns, nodes_view(out@), strings_view(ids@)),
                    out_ordered(nodes_view(out@), strings_view(ids@), dist@),
                    ids_distinct(nodes_view(out@)),
            {
                let e = &g.edges[t];
                let nb: Option<String> = if e.src == cur {
                    Some(e.dst.clone())
                } else if e.dst == cur {
                    Some(e.src.clone())
                } else {
                    None
                };
                proof {
                    assert(es[t as int] == e@);
                }
                let ghost s0 = strings_view(ids@);
                let ghost d0 = dist@;
                let ghost o0 = nodes_view(out@);
                match nb {
                    Some(x) => {
                        if !contains_string(&ids, &x) {
                            let ghost raw = out@;
                            match g.find_node(&x) {
                                Some(k) => {
                                    proof {
                                        lemma_node_with(ns, k as int);
                                    }
                                    out.push(g.nodes[k].clone());
                                    proof {
                                        assert(nodes_view(out@) =~= o0.push(node_with(ns, x@)));
                                    }
                                },
                                None => {},
                            }
                            proof {
                                lemma_discover(es, ns, st, depth as nat, s0, d0, head as int, o0,
                                    nodes_view(out@), x@, t as int);
                            }
                            proof {
                                assert forall|i: int| 0 <= i < o0.len() implies s0.contains(#[trigger] o0[i].id) by {
                                    let j = choose|j: int| 1 <= j < s0.len() && s0[j] == o0[i].id;
                                }
                                assert(nodes_view(out@).subrange(0, o0.len() as int) =~= o0);
                                lemma_ordered_extend(o0, nodes_view(out@), s0, d0, x@, (d + 1) as usize);
                            }
                            proof {
                                lemma_present_push(ns, s0, x@);
                            }
                            ids.push(x);
                            dist.push(d + 1);
                            proof {
                                assert(strings_view(ids@) =~= s0.push(x@));
                                assert(dist@ =~= d0.push((d + 1) as usize));
                            }
                        } else {
                            proof {
                                lemma_seen(es, st, depth as nat, s0, d0, head as int, t as int);
                            }
                        }
                    },
                    None => {
                        proof {
                            lemma_seen(es, st, depth as nat, s0, d0, head as int, t as int);
                        }
                    },
                }
            }
        }
        proof {
            lemma_advance(es, st, depth as nat, strings_view(ids@), dist@, head as int);
            lemma_search_advance(es, st, depth, sh, dh, head as int, strings_view(ids@), dist@);
        }
        head = head + 1;
    }
    proof {
        let sv = strings_view(ids@);
        let dv = dist@;
        let o = nodes_view(out@);
        assert forall|i: int| 0 <= i < out@.len() implies within(es, st, #[trigger] nodes_view(out@)[i].id, depth as nat) && nodes_view(out@)[i].id != st by {
            let n = o[i];
            assert(has_node(ns, o[i].id));
            let j = choose|j: int| 1 <= j < sv.len() && sv[j] == n.id;
            assert(dv[j] <= depth && within(es, st, sv[j], dv[j] as nat));
            lemma_within_mono(es, st, sv[j], dv[j] as nat, depth as nat);
            assert(sv[0] != sv[j]);
        }
        assert forall|x: Seq<char>|
            has_node(ns, x) && x != st && #[trigger] within(es, st, x, depth as nat) implies exists|i: int|
                0 <= i < out@.len() && nodes_view(out@)[i].id == x by {
            lemma_bfs_complete(es, st, depth as nat, sv, dv, x, depth as nat);
            let j = choose|j: int| 0 <= j < sv.len() && sv[j] == x && dv[j] <= depth;
            assert(j != 0);
        }
        lemma_out_in_order(es, st, depth as nat, sv, dv, ns, o);
        assert(search_ok(es, st, sv, dv, sv.len() as int));
        assert(search_from(es, st, depth, sv, dv, sv.len() as int) == sv);
        assert(bfs_order(es, st, depth) == sv.skip(1));
    }
    out
}

} // verus!
