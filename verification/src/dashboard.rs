use crate::graph::lemma_nodup_within_pool;
use crate::process_state::{has_pid, pids_of, InfoView, ProcessInfo, ProcessState};
use crate::runtime_cycle::{infos_view, top_of, top_processes};
use crate::surfaces::process::parent_entry;
use std::collections::HashSet;
use vstd::prelude::*;

verus! {

broadcast use {
    vstd::std_specs::hash::group_hash_axioms,
    vstd::seq_lib::group_seq_properties,
    vstd::seq::group_seq_axioms,
};

/// How many processes the dashboard lists.
pub const VISIBLE_ROWS: usize = 12;

/// The processes the dashboard lists: the busiest ones of the latest snapshot, busiest first.
pub fn current_visible_procs(latest: &Option<ProcessState>) -> (r: Vec<ProcessInfo>)
    ensures
        latest is None ==> r@.len() == 0,
        latest matches Some(s) ==> top_of(s.procs(), infos_view(r@), VISIBLE_ROWS as int),
{
    match latest {
        None => Vec::new(),
        Some(s) => top_processes(s, VISIBLE_ROWS),
    }
}

/// The pid listed at row `idx`, if there is such a row.
pub fn get_selected_pid(visible: &Vec<ProcessInfo>, idx: usize) -> (r: Option<u32>)
    ensures
        r == (if idx < visible@.len() { Some(visible@[idx as int].pid) } else { None::<u32> }),
{
    if idx < visible.len() {
        Some(visible[idx].pid)
    } else {
        None
    }
}

/// The first row listing `pid`.
pub fn find_visible_index_by_pid(visible: &Vec<ProcessInfo>, pid: u32) -> (r: Option<usize>)
    ensures
        match r {
            Some(i) => i < visible@.len() && visible@[i as int].pid == pid && forall|j: int|
                0 <= j < i ==> #[trigger] visible@[j].pid != pid,
            None => forall|j: int| 0 <= j < visible@.len() ==> #[trigger] visible@[j].pid != pid,
        },
{
    let mut i: usize = 0;
    while i < visible.len()
        invariant
            i <= visible@.len(),
            forall|j: int| 0 <= j < i ==> #[trigger] visible@[j].pid != pid,
        decreases visible@.len() - i,
    {
        if visible[i].pid == pid {
            return Some(i);
        }
        i = i + 1;
    }
    None
}

/// Keep a selected row inside a list of `count` rows.
pub fn clamp_selection(sel: usize, count: usize) -> (r: usize)
    ensures
        r == (if count == 0 { 0 } else if sel >= count { (count - 1) as usize } else { sel }),
{
    if count == 0 {
        0
    } else if sel >= count {
        count - 1
    } else {
        sel
    }
}

// ---------------------------------------------------------------------------------------------
// Descendants in the lineage
// ---------------------------------------------------------------------------------------------

/// `p[i + 1]` is a recorded child of `p[i]`.
pub open spec fn link_at(s: ProcessState, p: Seq<u32>, i: int) -> bool {
    s.lineage.children_of(p[i]).contains(p[i + 1])
}

/// Each pid of `p` after the first is a recorded child of the one before.
pub open spec fn is_chain(s: ProcessState, p: Seq<u32>) -> bool {
    forall|i: int| 0 <= i < p.len() - 1 ==> #[trigger] link_at(s, p, i)
}

/// Some chain of recorded children leads from `root` to `x`.
pub open spec fn reaches(s: ProcessState, root: u32, x: u32) -> bool {
    exists|p: Seq<u32>| #[trigger] is_chain(s, p) && p.len() >= 1 && p[0] == root && p.last() == x
}

/// `x` is a descendant of `root`: reached through one or more child links, and not `root`
/// itself.
pub open spec fn descends(s: ProcessState, root: u32, x: u32) -> bool {
    x != root && reaches(s, root, x)
}

proof fn lemma_reaches_root(s: ProcessState, root: u32)
    ensures
        reaches(s, root, root),
{
    let p = seq![root];
    assert(is_chain(s, p));
}

proof fn lemma_reaches_step(s: ProcessState, root: u32, y: u32, x: u32)
    requires
        reaches(s, root, y),
        s.lineage.children_of(y).contains(x),
    ensures
        reaches(s, root, x),
{
    let p = choose|p: Seq<u32>| #[trigger] is_chain(s, p) && p.len() >= 1 && p[0] == root && p.last() == y;
    let q = p.push(x);
    assert forall|i: int| 0 <= i < q.len() - 1 implies #[trigger] link_at(s, q, i) by {
        if i < p.len() - 1 {
            assert(link_at(s, p, i));
        }
    }
    assert(is_chain(s, q));
}

/// A recorded child is a process of the snapshot.
proof fn lemma_child_in_snapshot(s: ProcessState, y: u32, c: u32)
    requires
        s.wf(),
        s.lineage.children_of(y).contains(c),
    ensures
        pids_of(s.procs()).contains(c),
{
    let pred = |x: InfoView| x.parent_pid == y;
    let f = s.procs().filter(pred);
    assert(s.lineage.children_of(y) == pids_of(f));
    let j = choose|j: int| 0 <= j < pids_of(f).len() && pids_of(f)[j] == c;
    assert(f[j].pid == c);
    assert(f.contains(f[j]));
    s.procs().lemma_filter_contains_rev(pred, f[j]);
    let k = choose|k: int| 0 <= k < s.procs().len() && s.procs()[k] == f[j];
    assert(pids_of(s.procs())[k] == c);
}

/// The pids seen so far: the root, then the descendants found.
spec fn seen_of(root: u32, out: Seq<u32>) -> Seq<u32> {
    seq![root] + out
}

spec fn dfs_inv(s: ProcessState, root: u32, out: Seq<u32>, stack: Seq<u32>) -> bool {
    &&& out.no_duplicates()
    &&& !out.contains(root)
    &&& stack.no_duplicates()
    &&& forall|i: int| 0 <= i < stack.len() ==> seen_of(root, out).contains(#[trigger] stack[i])
    &&& forall|i: int| 0 <= i < out.len() ==> reaches(s, root, #[trigger] out[i])
    &&& forall|i: int| 0 <= i < out.len() ==> pids_of(s.procs()).contains(#[trigger] out[i])
    &&& forall|y: u32, c: u32|
        #![trigger seen_of(root, out).contains(y), s.lineage.children_of(y).contains(c)]
        seen_of(root, out).contains(y) && !stack.contains(y) && s.lineage.children_of(y).contains(c)
            ==> seen_of(root, out).contains(c)
}

proof fn lemma_dfs_complete(s: ProcessState, root: u32, out: Seq<u32>, p: Seq<u32>, i: int)
    requires
        dfs_inv(s, root, out, Seq::empty()),
        is_chain(s, p),
        p.len() >= 1,
        p[0] == root,
        0 <= i < p.len(),
    ensures
        seen_of(root, out).contains(p[i]),
    decreases i,
{
    if i == 0 {
        assert(seen_of(root, out)[0] == root);
    } else {
        lemma_dfs_complete(s, root, out, p, i - 1);
        assert(link_at(s, p, i - 1));
        assert(!Seq::<u32>::empty().contains(p[i - 1]));
    }
}

/// All descendants of `root` in the lineage of `s`, each once, in depth-first discovery order.
fn descendants_in(s: &ProcessState, root: u32) -> (r: Vec<u32>)
    requires
        s.wf(),
    ensures
        r@.no_duplicates(),
        forall|x: u32| r@.contains(x) <==> descends(*s, root, x),
{
    let ghost n = s.procs().len();
    let mut out: Vec<u32> = Vec::new();
    let mut stack: Vec<u32> = Vec::new();
    stack.push(root);
    proof {
        lemma_reaches_root(*s, root);
        assert(seen_of(root, out@)[0] == root);
    }
    while stack.len() > 0
        invariant
            s.wf(),
            n == s.procs().len(),
            dfs_inv(*s, root, out@, stack@),
        decreases 2 * (n - out@.len()) + stack@.len(),
    {
        proof {
            lemma_nodup_within_pool(out@, pids_of(s.procs()));
        }
        let ghost m0 = 2 * (n - out@.len()) + stack@.len();
        let cur = stack.pop().unwrap();
        let ghost out0 = out@;
        let ghost st0 = stack@;
        proof {
            assert(st0.push(cur).no_duplicates());
            assert(!st0.contains(cur)) by {
                if st0.contains(cur) {
                    let k = choose|k: int| 0 <= k < st0.len() && st0[k] == cur;
                    assert(st0.push(cur)[k] == st0.push(cur)[st0.len() as int]);
                }
            }
            assert(seen_of(root, out@).contains(cur)) by {
                assert(st0.push(cur)[st0.len() as int] == cur);
            }
        }
        let kids = s.lineage.get_children(cur);
        let m = kids.len();
        for t in 0..m
            invariant
                s.wf(),
                n == s.procs().len(),
                m == kids@.len(),
                kids@ == s.lineage.children_of(cur),
                seen_of(root, out@).contains(cur),
                !stack@.contains(cur),
                out@.len() >= out0.len(),
                out@.len() <= n,
                2 * (n - out@.len()) + stack@.len() <= 2 * (n - out0.len()) + st0.len(),
                out@.no_duplicates(),
                !out@.contains(root),
                stack@.no_duplicates(),
                forall|i: int| 0 <= i < stack@.len() ==> seen_of(root, out@).contains(#[trigger] stack@[i]),
                forall|i: int| 0 <= i < out@.len() ==> reaches(*s, root, #[trigger] out@[i]),
                forall|i: int| 0 <= i < out@.len() ==> pids_of(s.procs()).contains(#[trigger] out@[i]),
                forall|j: int| 0 <= j < t ==> seen_of(root, out@).contains(#[trigger] kids@[j]),
                forall|y: u32, c: u32|
                    #![trigger seen_of(root, out@).contains(y), s.lineage.children_of(y).contains(c)]
                    seen_of(root, out@).contains(y) && !stack@.contains(y) && y != cur && s.lineage.children_of(
                        y,
                    ).contains(c) ==> seen_of(root, out@).contains(c),
        {
            let c = kids[t];
            let known = c == root || contains_pid(&out, c);
            if !known {
                let ghost o1 = out@;
                let ghost k1 = stack@;
                proof {
                    assert(kids@.contains(c)) by {
                        assert(kids@[t as int] == c);
                    }
                    lemma_child_in_snapshot(*s, cur, c);
                    lemma_nodup_within_pool(out@, pids_of(s.procs()));
                    assert(out@.len() < n) by {
                        lemma_nodup_within_pool(out@.push(c), pids_of(s.procs()));
                    }
                    if cur == root {
                        lemma_reaches_root(*s, root);
                    } else {
                        let k = choose|k: int| 0 <= k < seen_of(root, o1).len() && seen_of(root, o1)[k] == cur;
                        assert(o1[k - 1] == cur);
                    }
                    lemma_reaches_step(*s, root, cur, c);
                }
                out.push(c);
                stack.push(c);
                proof {
                    assert(seen_of(root, out@) =~= seen_of(root, o1).push(c));
                    assert forall|i: int| 0 <= i < stack@.len() implies seen_of(root, out@).contains(#[trigger] stack@[i]) by {
                        if i < k1.len() {
                            let w = choose|w: int| 0 <= w < seen_of(root, o1).len() && seen_of(root, o1)[w] == k1[i];
                            assert(seen_of(root, out@)[w] == k1[i]);
                        } else {
                            assert(seen_of(root, out@)[seen_of(root, o1).len() as int] == c);
                        }
                    }
                    assert forall|j: int| 0 <= j <= t implies seen_of(root, out@).contains(#[trigger] kids@[j]) by {
                        if j < t {
                            let w = choose|w: int| 0 <= w < seen_of(root, o1).len() && seen_of(root, o1)[w] == kids@[j];
                            assert(seen_of(root, out@)[w] == kids@[j]);
                        } else {
                            assert(seen_of(root, out@)[seen_of(root, o1).len() as int] == c);
                        }
                    }
                    assert forall|y: u32, c2: u32|
                        #![trigger seen_of(root, out@).contains(y), s.lineage.children_of(y).contains(c2)]
                        seen_of(root, out@).contains(y) && !stack@.contains(y) && y != cur && s.lineage.children_of(
                            y,
                        ).contains(c2) implies seen_of(root, out@).contains(c2) by {
                        if y != c {
                            let w = choose|w: int| 0 <= w < seen_of(root, out@).len() && seen_of(root, out@)[w] == y;
                            assert(seen_of(root, o1)[w] == y);
                            assert(!k1.contains(y)) by {
                                if k1.contains(y) {
                                    let z = choose|z: int| 0 <= z < k1.len() && k1[z] == y;
                                    assert(stack@[z] == y);
                                }
                            }
                            assert(seen_of(root, o1).contains(c2));
                            let w2 = choose|w2: int| 0 <= w2 < seen_of(root, o1).len() && seen_of(root, o1)[w2] == c2;
                            assert(seen_of(root, out@)[w2] == c2);
                        } else {
                            assert(stack@[stack@.len() - 1] == c);
                        }
                    }
                    assert(!stack@.contains(cur)) by {
                        if stack@.contains(cur) {
                            let z = choose|z: int| 0 <= z < stack@.len() && stack@[z] == cur;
                            if z < k1.len() {
                                assert(k1[z] == cur);
                            }
                        }
                    }
                    assert(!out@.contains(root)) by {
                        if out@.contains(root) {
                            let z = choose|z: int| 0 <= z < out@.len() && out@[z] == root;
                            if z < o1.len() {
                                assert(o1[z] == root);
                            }
                        }
                    }
                    assert(seen_of(root, out@).contains(cur)) by {
                        let w = choose|w: int| 0 <= w < seen_of(root, o1).len() && seen_of(root, o1)[w] == cur;
                        assert(seen_of(root, out@)[w] == cur);
                    }
                }
            } else {
                proof {
                    if c == root {
                        assert(seen_of(root, out@)[0] == c);
                    } else {
                        let z = choose|z: int| 0 <= z < out@.len() && out@[z] == c;
                        assert(seen_of(root, out@)[z + 1] == c);
                    }
                }
            }
        }
        proof {
            assert(2 * (n - out@.len()) + stack@.len() < m0);
            assert forall|y: u32, c: u32|
                #![trigger seen_of(root, out@).contains(y), s.lineage.children_of(y).contains(c)]
                seen_of(root, out@).contains(y) && !stack@.contains(y) && s.lineage.children_of(y).contains(c)
                    implies seen_of(root, out@).contains(c) by {
                if y == cur {
                    let j = choose|j: int| 0 <= j < kids@.len() && kids@[j] == c;
                    assert(seen_of(root, out@).contains(kids@[j]));
                }
            }
        }
    }
    proof {
        assert forall|x: u32| out@.contains(x) <==> descends(*s, root, x) by {
            if out@.contains(x) {
                let z = choose|z: int| 0 <= z < out@.len() && out@[z] == x;
                assert(reaches(*s, root, out@[z]));
            }
            if descends(*s, root, x) {
                let p = choose|p: Seq<u32>| #[trigger] is_chain(*s, p) && p.len() >= 1 && p[0] == root && p.last() == x;
                lemma_dfs_complete(*s, root, out@, p, p.len() - 1);
                let w = choose|w: int| 0 <= w < seen_of(root, out@).len() && seen_of(root, out@)[w] == x;
                assert(out@[w - 1] == x);
            }
        }
    }
    out
}

fn contains_pid(v: &Vec<u32>, x: u32) -> (b: bool)
    ensures
        b == v@.contains(x),
{
    let mut i: usize = 0;
    while i < v.len()
        invariant
            i <= v@.len(),
            forall|j: int| 0 <= j < i ==> v@[j] != x,
        decreases v@.len() - i,
    {
        if v[i] == x {
            proof {
                assert(v@[i as int] == x);
            }
            return true;
        }
        i = i + 1;
    }
    false
}

/// The descendants of `pid` in the latest snapshot's lineage, each once; none without a
/// snapshot.
pub fn get_descendants(latest: &Option<ProcessState>, pid: u32) -> (r: Vec<u32>)
    requires
        latest is Some ==> latest->0.wf(),
    ensures
        latest is None ==> r@.len() == 0,
        latest matches Some(s) ==> r@.no_duplicates() && forall|x: u32| r@.contains(x) <==> descends(*s, pid, x),
{
    match latest {
        None => Vec::new(),
        Some(s) => descendants_in(s, pid),
    }
}

// ---------------------------------------------------------------------------------------------
// Keyboard handling
// ---------------------------------------------------------------------------------------------

/// The keys the dashboard reacts to: `q`, the arrows, Enter, and `t g f k s e E c y n`.
#[derive(Debug, Clone, Copy, PartialEq, Eq, Structural)]
pub enum DashKey {
    Quit,
    Up,
    Down,
    Enter,
    Lineage,
    Graph,
    Focus,
    Kill,
    Suspend,
    Expand,
    ExpandAll,
    Collapse,
    Yes,
    No,
    Other,
}

/// The keys of the investigation screen: Esc or `q` closes it, Left goes to the parent and
/// Right to the first child.
#[derive(Debug, Clone, Copy, PartialEq, Eq, Structural)]
pub enum InvestigationKey {
    Close,
    Left,
    Right,
    Other,
}

/// An action waiting for confirmation.
#[derive(Debug, Clone, Copy, PartialEq, Eq, Structural)]
pub enum Confirm {
    Kill(u32),
    Suspend(u32),
}

/// What the dashboard asks its runner to do after a key.
#[derive(Debug, Clone, Copy, PartialEq, Eq, Structural)]
pub enum DashAction {
    Nothing,
    Quit,
    ShowLineage(u32),
    ShowGraph(u32),
    FocusFindings(u32),
    Kill(u32),
    Suspend(u32),
}

/// The interactive state of the dashboard: the selected row, an action waiting for
/// confirmation, the pids expanded in the tree, and the pid under investigation.
pub struct Dashboard {
    pub selected: usize,
    pub pending: Option<Confirm>,
    pub expanded: HashSet<u32>,
    pub investigation: Option<u32>,
}

pub struct DashView {
    pub selected: usize,
    pub pending: Option<Confirm>,
    pub expanded: Set<u32>,
    pub investigation: Option<u32>,
}

impl View for Dashboard {
    type V = DashView;

    open spec fn view(&self) -> DashView {
        DashView {
            selected: self.selected,
            pending: self.pending,
            expanded: self.expanded@,
            investigation: self.investigation,
        }
    }
}

/// The pid of row `idx` of the listed processes.
pub open spec fn row_pid(vis: Seq<InfoView>, idx: usize) -> Option<u32> {
    if idx < vis.len() {
        Some(vis[idx as int].pid)
    } else {
        None
    }
}

/// The descendants of `pid` in the latest snapshot, as a set.
pub open spec fn descendant_set(latest: Option<ProcessState>, pid: u32) -> Set<u32> {
    match latest {
        Some(s) => Set::new(|x: u32| descends(s, pid, x)),
        None => Set::empty(),
    }
}

/// `n + 1`, saturating.
pub open spec fn inc_index(n: usize) -> usize {
    if n == usize::MAX {
        n
    } else {
        (n + 1) as usize
    }
}

/// Keep a selected row inside a list of `count` rows.
pub open spec fn clamped(sel: usize, count: nat) -> usize {
    if count == 0 {
        0
    } else if sel >= count {
        (count - 1) as usize
    } else {
        sel
    }
}

/// `d` with another selected row.
pub open spec fn with_selected(d: DashView, sel: usize) -> DashView {
    DashView { selected: sel, pending: d.pending, expanded: d.expanded, investigation: d.investigation }
}

/// `d` with another pending confirmation.
pub open spec fn with_pending(d: DashView, p: Option<Confirm>) -> DashView {
    DashView { selected: d.selected, pending: p, expanded: d.expanded, investigation: d.investigation }
}

/// `d` with another expanded set.
pub open spec fn with_expanded(d: DashView, e: Set<u32>) -> DashView {
    DashView { selected: d.selected, pending: d.pending, expanded: e, investigation: d.investigation }
}

/// `d` with another investigated pid.
pub open spec fn with_investigation(d: DashView, i: Option<u32>) -> DashView {
    DashView { selected: d.selected, pending: d.pending, expanded: d.expanded, investigation: i }
}

/// The state and action after `key`, before the selection is clamped to the list.
pub open spec fn key_effect(d: DashView, key: DashKey, vis: Seq<InfoView>, latest: Option<ProcessState>) -> (
    DashView,
    DashAction,
) {
    let sel = row_pid(vis, d.selected);
    match key {
        DashKey::Quit => (d, DashAction::Quit),
        DashKey::Up => (with_selected(d, if d.selected > 0 { (d.selected - 1) as usize } else { 0 }), DashAction::Nothing),
        DashKey::Down => (with_selected(d, inc_index(d.selected)), DashAction::Nothing),
        DashKey::Enter => (
            match sel {
                Some(p) => with_investigation(d, Some(p)),
                None => d,
            },
            DashAction::Nothing,
        ),
        DashKey::Lineage => (
            d,
            match sel {
                Some(p) => DashAction::ShowLineage(p),
                None => DashAction::Nothing,
            },
        ),
        DashKey::Graph => (
            d,
            match sel {
                Some(p) => DashAction::ShowGraph(p),
                None => DashAction::Nothing,
            },
        ),
        DashKey::Focus => (
            d,
            match sel {
                Some(p) => DashAction::FocusFindings(p),
                None => DashAction::Nothing,
            },
        ),
        DashKey::Kill => (
            match sel {
                Some(p) => with_pending(d, Some(Confirm::Kill(p))),
                None => d,
            },
            DashAction::Nothing,
        ),
        DashKey::Suspend => (
            match sel {
                Some(p) => with_pending(d, Some(Confirm::Suspend(p))),
                None => d,
            },
            DashAction::Nothing,
        ),
        DashKey::Expand => (
            match sel {
                Some(p) => with_expanded(d, if d.expanded.contains(p) { d.expanded.remove(p) } else { d.expanded.insert(p) }),
                None => d,
            },
            DashAction::Nothing,
        ),
        DashKey::ExpandAll => (
            match sel {
                Some(p) => with_expanded(d, d.expanded.union(descendant_set(latest, p)).insert(p)),
                None => d,
            },
            DashAction::Nothing,
        ),
        DashKey::Collapse => (
            match sel {
                Some(p) => with_expanded(d, d.expanded.difference(descendant_set(latest, p)).remove(p)),
                None => d,
            },
            DashAction::Nothing,
        ),
        DashKey::Yes => (
            with_pending(d, None),
            match d.pending {
                Some(Confirm::Kill(p)) => DashAction::Kill(p),
                Some(Confirm::Suspend(p)) => DashAction::Suspend(p),
                None => DashAction::Nothing,
            },
        ),
        DashKey::No => (with_pending(d, None), DashAction::Nothing),
        DashKey::Other => (d, DashAction::Nothing),
    }
}

/// The state and action after `key`: every key but `Quit` ends with the selection clamped
/// to the listed rows.
pub open spec fn after_key(d: DashView, key: DashKey, vis: Seq<InfoView>, latest: Option<ProcessState>) -> (
    DashView,
    DashAction,
) {
    let (e, a) = key_effect(d, key, vis, latest);
    if key == DashKey::Quit {
        (e, a)
    } else {
        (with_selected(e, clamped(e.selected, vis.len())), a)
    }
}

/// The first row listing `pid`, if any.
pub open spec fn first_row(vis: Seq<InfoView>, pid: u32) -> Option<usize> {
    if exists|i: int| 0 <= i < vis.len() && vis[i].pid == pid {
        Some(
            (choose|i: int| 0 <= i < vis.len() && vis[i].pid == pid && forall|j: int| 0 <= j < i ==> vis[j].pid != pid) as usize,
        )
    } else {
        None
    }
}

/// Move the investigation to `target`, selecting its row when it is listed.
pub open spec fn investigate(d: DashView, vis: Seq<InfoView>, target: u32) -> DashView {
    with_selected(
        with_investigation(d, Some(target)),
        match first_row(vis, target) {
            Some(i) => i,
            None => d.selected,
        },
    )
}

/// The state after a key of the investigation screen.
pub open spec fn after_investigation_key(
    d: DashView,
    key: InvestigationKey,
    vis: Seq<InfoView>,
    latest: Option<ProcessState>,
) -> DashView {
    match d.investigation {
        None => d,
        Some(ipid) => match key {
            InvestigationKey::Close => with_investigation(d, None),
            InvestigationKey::Left => match latest {
                Some(s) => match parent_entry(s, ipid) {
                    Some(pp) => investigate(d, vis, pp),
                    None => d,
                },
                None => d,
            },
            InvestigationKey::Right => match latest {
                Some(s) => if s.lineage.children_of(ipid).len() > 0 {
                    investigate(d, vis, s.lineage.children_of(ipid)[0])
                } else {
                    d
                },
                None => d,
            },
            InvestigationKey::Other => d,
        },
    }
}

proof fn lemma_first_row(vis: Seq<InfoView>, pid: u32, r: Option<usize>)
    requires
        match r {
            Some(i) => i < vis.len() && vis[i as int].pid == pid && forall|j: int|
                0 <= j < i ==> #[trigger] vis[j].pid != pid,
            None => forall|j: int| 0 <= j < vis.len() ==> #[trigger] vis[j].pid != pid,
        },
    ensures
        r == first_row(vis, pid),
{
    match r {
        Some(i) => {
            assert(vis[i as int].pid == pid);
            let c = choose|c: int| 0 <= c < vis.len() && vis[c].pid == pid && forall|j: int| 0 <= j < c ==> vis[j].pid != pid;
            if c < i {
                assert(vis[c].pid != pid);
            }
            if i < c {
                assert(vis[i as int].pid != pid);
            }
        },
        None => {},
    }
}

impl Dashboard {
    pub fn new() -> (d: Self)
        ensures
            d@.selected == 0,
            d@.pending is None,
            d@.expanded == Set::<u32>::empty(),
            d@.investigation is None,
    {
        Dashboard { selected: 0, pending: None, expanded: HashSet::new(), investigation: None }
    }

    /// React to a key of the main screen (see `after_key`).
    pub fn on_key(&mut self, key: DashKey, visible: &Vec<ProcessInfo>, latest: &Option<ProcessState>) -> (a: DashAction)
        requires
            latest is Some ==> latest->0.wf(),
        ensures
            (final(self)@, a) == after_key(old(self)@, key, infos_view(visible@), *latest),
    {
        let ghost vis = infos_view(visible@);
        let sel = get_selected_pid(visible, self.selected);
        proof {
            assert(sel == row_pid(vis, old(self).selected)) by {
                if old(self).selected < visible@.len() {
                    assert(vis[old(self).selected as int] == visible@[old(self).selected as int]@);
                }
            }
        }
        let mut action = DashAction::Nothing;
        match key {
            DashKey::Quit => {
                return DashAction::Quit;
            },
            DashKey::Up => {
                if self.selected > 0 {
                    self.selected = self.selected - 1;
                }
            },
            DashKey::Down => {
                self.selected = self.selected.saturating_add(1);
            },
            DashKey::Enter => {
                if let Some(p) = sel {
                    self.investigation = Some(p);
                }
            },
            DashKey::Lineage => {
                if let Some(p) = sel {
                    action = DashAction::ShowLineage(p);
                }
            },
            DashKey::Graph => {
                if let Some(p) = sel {
                    action = DashAction::ShowGraph(p);
                }
            },
            DashKey::Focus => {
                if let Some(p) = sel {
                    action = DashAction::FocusFindings(p);
                }
            },
            DashKey::Kill => {
                if let Some(p) = sel {
                    self.pending = Some(Confirm::Kill(p));
                }
            },
            DashKey::Suspend => {
                if let Some(p) = sel {
                    self.pending = Some(Confirm::Suspend(p));
                }
            },
            DashKey::Expand => {
                if let Some(p) = sel {
                    if self.expanded.contains(&p) {
                        self.expanded.remove(&p);
                    } else {
                        self.expanded.insert(p);
                    }
                }
            },
            DashKey::ExpandAll => {
                if let Some(p) = sel {
                    let desc = get_descendants(latest, p);
                    let ghost e0 = self.expanded@;
                    for i in 0..desc.len()
                        invariant
                            self.expanded@ == e0.union(desc@.take(i as int).to_set()),
                            self.selected == old(self).selected,
                            self.pending == old(self).pending,
                            self.investigation == old(self).investigation,
                    {
                        self.expanded.insert(desc[i]);
                        proof {
                            crate::seq_facts::lemma_take_next(desc@, i as int);
                            assert(desc@.take(i + 1).to_set() =~= desc@.take(i as int).to_set().insert(desc@[i as int]));
                            assert(self.expanded@ =~= e0.union(desc@.take(i + 1).to_set()));
                        }
                    }
                    self.expanded.insert(p);
                    proof {
                        assert(desc@.take(desc@.len() as int) =~= desc@);
                        assert(desc@.to_set() =~= descendant_set(*latest, p)) by {
                            if latest is None {
                                assert(desc@ =~= Seq::<u32>::empty());
                            }
                        }
                    }
                }
            },
            DashKey::Collapse => {
                if let Some(p) = sel {
                    let desc = get_descendants(latest, p);
                    let ghost e0 = self.expanded@;
                    for i in 0..desc.len()
                        invariant
                            self.expanded@ == e0.difference(desc@.take(i as int).to_set()),
                            self.selected == old(self).selected,
                            self.pending == old(self).pending,
                            self.investigation == old(self).investigation,
                    {
                        self.expanded.remove(&desc[i]);
                        proof {
                            crate::seq_facts::lemma_take_next(desc@, i as int);
                            assert(desc@.take(i + 1).to_set() =~= desc@.take(i as int).to_set().insert(desc@[i as int]));
                            assert(self.expanded@ =~= e0.difference(desc@.take(i + 1).to_set()));
                        }
                    }
                    self.expanded.remove(&p);
                    proof {
                        assert(desc@.take(desc@.len() as int) =~= desc@);
                        assert(desc@.to_set() =~= descendant_set(*latest, p)) by {
                            if latest is None {
                                assert(desc@ =~= Seq::<u32>::empty());
                            }
                        }
                    }
                }
            },
            DashKey::Yes => {
                match self.pending {
                    Some(Confirm::Kill(p)) => {
                        action = DashAction::Kill(p);
                    },
                    Some(Confirm::Suspend(p)) => {
                        action = DashAction::Suspend(p);
                    },
                    None => {},
                }
                self.pending = None;
            },
            DashKey::No => {
                self.pending = None;
            },
            DashKey::Other => {},
        }
        self.selected = clamp_selection(self.selected, visible.len());
        proof {
            assert(self.expanded@ =~= after_key(old(self)@, key, vis, *latest).0.expanded);
        }
        action
    }

    /// React to a key of the investigation screen (see `after_investigation_key`).
    pub fn on_investigation_key(
        &mut self,
        key: InvestigationKey,
        visible: &Vec<ProcessInfo>,
        latest: &Option<ProcessState>,
    )
        requires
            latest is Some ==> latest->0.wf(),
        ensures
            final(self)@ == after_investigation_key(old(self)@, key, infos_view(visible@), *latest),
    {
        let ghost vis = infos_view(visible@);
        let ipid = match self.investigation {
            None => {
                return;
            },
            Some(p) => p,
        };
        let target: Option<u32> = match key {
            InvestigationKey::Close => {
                self.investigation = None;
                return;
            },
            InvestigationKey::Left => match latest {
                Some(s) => s.lineage.get_parent(ipid),
                None => None,
            },
            InvestigationKey::Right => match latest {
                Some(s) => {
                    let kids = s.lineage.get_children(ipid);
                    if kids.len() > 0 {
                        Some(kids[0])
                    } else {
                        None
                    }
                },
                None => None,
            },
            InvestigationKey::Other => None,
        };
        if let Some(t) = target {
            self.investigation = Some(t);
            let idx = find_visible_index_by_pid(visible, t);
            proof {
                assert forall|j: int| 0 <= j < visible@.len() implies #[trigger] vis[j].pid == visible@[j].pid by {}
                lemma_first_row(vis, t, idx);
            }
            if let Some(i) = idx {
                self.selected = i;
            }
        }
    }
}

/// Law: after any key but `Quit`, the selected row lies inside the listed rows (row 0 when
/// nothing is listed).
pub proof fn law_selection_in_list(d: DashView, key: DashKey, vis: Seq<InfoView>, latest: Option<ProcessState>)
    requires
        key != DashKey::Quit,
    ensures
        vis.len() == 0 ==> after_key(d, key, vis, latest).0.selected == 0,
        vis.len() > 0 ==> after_key(d, key, vis, latest).0.selected < vis.len(),
{
}

/// Law: a process is killed or suspended only on `y`, confirming that very action on that
/// very process, and the confirmation is then consumed.
pub proof fn law_actions_need_confirmation(d: DashView, key: DashKey, vis: Seq<InfoView>, latest: Option<ProcessState>, pid: u32)
    ensures
        after_key(d, key, vis, latest).1 == DashAction::Kill(pid) ==> key == DashKey::Yes && d.pending == Some(
            Confirm::Kill(pid),
        ) && after_key(d, key, vis, latest).0.pending is None,
        after_key(d, key, vis, latest).1 == DashAction::Suspend(pid) ==> key == DashKey::Yes && d.pending == Some(
            Confirm::Suspend(pid),
        ) && after_key(d, key, vis, latest).0.pending is None,
{
}

} // verus!
