use crate::text::{lowercase, seq_contains, str_contains, string_of, to_lowercase};
use std::collections::HashMap;
use vstd::prelude::*;

verus! {

broadcast use {
    vstd::std_specs::hash::group_hash_axioms,
    vstd::string::group_string_axioms,
    vstd::seq_lib::group_seq_properties,
    vstd::seq::group_seq_axioms,
};

/// A raw process record as a collector reports it. CPU usage (percent) and memory (MB) are
/// fixed-point numbers with two decimals: the stored value is the quantity times 100.
pub struct Process {
    pub pid: u32,
    pub name: String,
    pub cpu_percent_x100: u32,
    pub memory_mb_x100: u32,
    pub threads: u32,
    pub parent_pid: u32,
    pub start_time: Option<u64>,
}

/// The string contents of an optional string.
pub open spec fn opt_str(o: Option<String>) -> Option<Seq<char>> {
    match o {
        Some(s) => Some(s@),
        None => None,
    }
}

/// A copy of an optional string.
pub fn clone_opt_string(o: &Option<String>) -> (r: Option<String>)
    ensures
        opt_str(r) == opt_str(*o),
{
    match o {
        Some(s) => Some(s.clone()),
        None => None,
    }
}

/// Identity metadata of a process.
pub struct ProcessIdentity {
    pub path: Option<String>,
    pub signer: Option<String>,
    pub company: Option<String>,
    pub category: Option<String>,
    pub start_time: Option<u64>,
    pub risk_score: u8,
}

pub struct IdentityView {
    pub path: Option<Seq<char>>,
    pub signer: Option<Seq<char>>,
    pub company: Option<Seq<char>>,
    pub category: Option<Seq<char>>,
    pub start_time: Option<u64>,
    pub risk_score: u8,
}

impl View for ProcessIdentity {
    type V = IdentityView;

    open spec fn view(&self) -> IdentityView {
        IdentityView {
            path: opt_str(self.path),
            signer: opt_str(self.signer),
            company: opt_str(self.company),
            category: opt_str(self.category),
            start_time: self.start_time,
            risk_score: self.risk_score,
        }
    }
}

impl Clone for ProcessIdentity {
    fn clone(&self) -> (r: Self)
        ensures
            r@ == self@,
    {
        ProcessIdentity {
            path: clone_opt_string(&self.path),
            signer: clone_opt_string(&self.signer),
            company: clone_opt_string(&self.company),
            category: clone_opt_string(&self.category),
            start_time: self.start_time,
            risk_score: self.risk_score,
        }
    }
}

pub open spec fn opt_identity(o: Option<ProcessIdentity>) -> Option<IdentityView> {
    match o {
        Some(i) => Some(i@),
        None => None,
    }
}

/// One process of a snapshot.
pub struct ProcessInfo {
    pub pid: u32,
    pub name: String,
    pub cpu_percent_x100: u32,
    pub memory_mb_x100: u32,
    pub threads: u32,
    pub parent_pid: u32,
    pub identity: Option<ProcessIdentity>,
}

pub struct InfoView {
    pub pid: u32,
    pub name: Seq<char>,
    pub cpu_percent_x100: u32,
    pub memory_mb_x100: u32,
    pub threads: u32,
    pub parent_pid: u32,
    pub identity: Option<IdentityView>,
}

impl View for ProcessInfo {
    type V = InfoView;

    open spec fn view(&self) -> InfoView {
        InfoView {
            pid: self.pid,
            name: self.name@,
            cpu_percent_x100: self.cpu_percent_x100,
            memory_mb_x100: self.memory_mb_x100,
            threads: self.threads,
            parent_pid: self.parent_pid,
            identity: opt_identity(self.identity),
        }
    }
}

impl Clone for ProcessInfo {
    fn clone(&self) -> (r: Self)
        ensures
            r@ == self@,
    {
        let identity = match &self.identity {
            Some(i) => Some(i.clone()),
            None => None,
        };
        ProcessInfo {
            pid: self.pid,
            name: self.name.clone(),
            cpu_percent_x100: self.cpu_percent_x100,
            memory_mb_x100: self.memory_mb_x100,
            threads: self.threads,
            parent_pid: self.parent_pid,
            identity,
        }
    }
}

/// The snapshot entry that a collector record becomes: same figures, and an identity
/// holding only the start time.
pub open spec fn info_of_process(p: Process) -> InfoView {
    InfoView {
        pid: p.pid,
        name: p.name@,
        cpu_percent_x100: p.cpu_percent_x100,
        memory_mb_x100: p.memory_mb_x100,
        threads: p.threads,
        parent_pid: p.parent_pid,
        identity: Some(
            IdentityView {
                path: None,
                signer: None,
                company: None,
                category: None,
                start_time: p.start_time,
                risk_score: 0,
            },
        ),
    }
}

impl ProcessInfo {
    pub fn from(p: Process) -> (r: ProcessInfo)
        ensures
            r@ == info_of_process(p),
    {
        ProcessInfo {
            pid: p.pid,
            name: p.name,
            cpu_percent_x100: p.cpu_percent_x100,
            memory_mb_x100: p.memory_mb_x100,
            threads: p.threads,
            parent_pid: p.parent_pid,
            identity: Some(
                ProcessIdentity {
                    path: None,
                    signer: None,
                    company: None,
                    category: None,
                    start_time: p.start_time,
                    risk_score: 0,
                },
            ),
        }
    }
}

// ---------------------------------------------------------------------------------------------
// Families
// ---------------------------------------------------------------------------------------------

/// The canonical family for a process name, given the name's lowercase form.
pub open spec fn family_of_lower(lower: Seq<char>, name: Seq<char>) -> Seq<char> {
    if seq_contains(lower, "code"@) || seq_contains(lower, "vscode"@) {
        "vscode"@
    } else if seq_contains(lower, "brave"@) || seq_contains(lower, "chrome"@) || seq_contains(
        lower,
        "chromium"@,
    ) {
        "chromium"@
    } else if seq_contains(lower, "msedgewebview2"@) || seq_contains(lower, "msedge"@)
        || seq_contains(lower, "webview"@) {
        "webview2"@
    } else if seq_contains(lower, "svchost"@) {
        "svchost"@
    } else if seq_contains(lower, "dllhost"@) {
        "dllhost"@
    } else if seq_contains(lower, "conhost"@) {
        "conhost"@
    } else {
        name
    }
}

/// The canonical family of a process name.
pub open spec fn family_of(name: Seq<char>) -> Seq<char> {
    family_of_lower(lowercase(name), name)
}

/// The family for `name`, where `lower` is the lowercase form of `name`.
pub fn family_for_lower(lower: &str, name: &str) -> (r: String)
    ensures
        r@ == family_of_lower(lower@, name@),
{
    if str_contains(lower, "code") || str_contains(lower, "vscode") {
        return string_of("vscode");
    }
    if str_contains(lower, "brave") || str_contains(lower, "chrome") || str_contains(
        lower,
        "chromium",
    ) {
        return string_of("chromium");
    }
    if str_contains(lower, "msedgewebview2") || str_contains(lower, "msedge") || str_contains(
        lower,
        "webview",
    ) {
        return string_of("webview2");
    }
    if str_contains(lower, "svchost") {
        return string_of("svchost");
    }
    if str_contains(lower, "dllhost") {
        return string_of("dllhost");
    }
    if str_contains(lower, "conhost") {
        return string_of("conhost");
    }
    string_of(name)
}

/// Derive a canonical family name for a process executable name
/// (e.g. `Code.exe` -> `vscode`).
pub fn family_for_name(name: &str) -> (r: String)
    ensures
        r@ == family_of(name@),
{
    let lower = to_lowercase(name);
    family_for_lower(lower.as_str(), name)
}

/// Aggregated figures of one family.
pub struct ProcessFamily {
    pub name: String,
    pub count: usize,
    pub pids: Vec<u32>,
    pub total_cpu_x100: u128,
    pub total_memory_x100: u128,
}

pub struct FamilyView {
    pub name: Seq<char>,
    pub count: nat,
    pub pids: Seq<u32>,
    pub total_cpu_x100: int,
    pub total_memory_x100: int,
}

impl View for ProcessFamily {
    type V = FamilyView;

    open spec fn view(&self) -> FamilyView {
        FamilyView {
            name: self.name@,
            count: self.count as nat,
            pids: self.pids@,
            total_cpu_x100: self.total_cpu_x100 as int,
            total_memory_x100: self.total_memory_x100 as int,
        }
    }
}

impl ProcessFamily {
    pub fn new(name: String) -> (f: Self)
        ensures
            f@ == (FamilyView {
                name: name@,
                count: 0,
                pids: Seq::empty(),
                total_cpu_x100: 0,
                total_memory_x100: 0,
            }),
    {
        ProcessFamily { name, count: 0, pids: Vec::new(), total_cpu_x100: 0, total_memory_x100: 0 }
    }
}

impl Clone for ProcessFamily {
    fn clone(&self) -> (r: Self)
        ensures
            r@ == self@,
    {
        let pids = copy_u32s(&self.pids);
        ProcessFamily {
            name: self.name.clone(),
            count: self.count,
            pids,
            total_cpu_x100: self.total_cpu_x100,
            total_memory_x100: self.total_memory_x100,
        }
    }
}

/// The processes that belong to family `f`, in snapshot order.
pub open spec fn members(procs: Seq<InfoView>, f: Seq<char>) -> Seq<InfoView> {
    procs.filter(|p: InfoView| family_of(p.name) == f)
}

pub open spec fn pids_of(s: Seq<InfoView>) -> Seq<u32> {
    s.map_values(|p: InfoView| p.pid)
}

pub open spec fn sum_cpu(s: Seq<InfoView>) -> int
    decreases s.len(),
{
    if s.len() == 0 {
        0
    } else {
        sum_cpu(s.drop_last()) + s.last().cpu_percent_x100
    }
}

pub open spec fn sum_memory(s: Seq<InfoView>) -> int
    decreases s.len(),
{
    if s.len() == 0 {
        0
    } else {
        sum_memory(s.drop_last()) + s.last().memory_mb_x100
    }
}

/// `fam` is the aggregate of family `fam.name` over `procs`.
pub open spec fn family_aggregates(procs: Seq<InfoView>, fam: FamilyView) -> bool {
    let m = members(procs, fam.name);
    &&& fam.pids == pids_of(m)
    &&& fam.count == m.len()
    &&& fam.total_cpu_x100 == sum_cpu(m)
    &&& fam.total_memory_x100 == sum_memory(m)
}

/// `fams` holds exactly one aggregate per family present in `procs`.
pub open spec fn families_of(procs: Seq<InfoView>, fams: Seq<FamilyView>) -> bool {
    &&& forall|i: int| 0 <= i < fams.len() ==> family_aggregates(procs, #[trigger] fams[i])
    &&& forall|i: int, j: int| 0 <= i < j < fams.len() ==> fams[i].name != fams[j].name
    &&& forall|i: int| 0 <= i < fams.len() ==> #[trigger] members(procs, fams[i].name).len() > 0
    &&& forall|k: int| 0 <= k < procs.len() ==> has_family(fams, family_of(#[trigger] procs[k].name))
}

/// Whether `fams` holds an entry named `f`.
pub open spec fn has_family(fams: Seq<FamilyView>, f: Seq<char>) -> bool {
    exists|i: int| 0 <= i < fams.len() && fams[i].name == f
}

// ---------------------------------------------------------------------------------------------
// Lineage
// ---------------------------------------------------------------------------------------------

/// Parent -> children mapping and ancestor chains.
pub struct ProcessLineage {
    pub parent: HashMap<u32, u32>,
    pub children: HashMap<u32, Vec<u32>>,
    pub ancestors: HashMap<u32, Vec<u32>>,
}

impl ProcessLineage {
    pub fn new() -> (l: Self)
        ensures
            l.parent@ == Map::<u32, u32>::empty(),
            l.children@ == Map::<u32, Vec<u32>>::empty(),
            l.ancestors@ == Map::<u32, Vec<u32>>::empty(),
    {
        ProcessLineage { parent: HashMap::new(), children: HashMap::new(), ancestors: HashMap::new() }
    }

    /// The children recorded for `pid`.
    pub open spec fn children_of(&self, pid: u32) -> Seq<u32> {
        list_at(self.children@, pid)
    }

    /// The ancestor chain recorded for `pid`.
    pub open spec fn ancestors_of(&self, pid: u32) -> Seq<u32> {
        list_at(self.ancestors@, pid)
    }

    pub fn get_children(&self, pid: u32) -> (r: Vec<u32>)
        ensures
            r@ == self.children_of(pid),
    {
        match self.children.get(&pid) {
            Some(v) => copy_u32s(v),
            None => Vec::new(),
        }
    }

    pub fn get_ancestors(&self, pid: u32) -> (r: Vec<u32>)
        ensures
            r@ == self.ancestors_of(pid),
    {
        match self.ancestors.get(&pid) {
            Some(v) => copy_u32s(v),
            None => Vec::new(),
        }
    }

    /// The recorded parent of `pid`, unless it is 0 or unknown.
    pub fn get_parent(&self, pid: u32) -> (r: Option<u32>)
        ensures
            r == (if self.parent@.contains_key(pid) && self.parent@[pid] != 0 {
                Some(self.parent@[pid])
            } else {
                None
            }),
    {
        match self.parent.get(&pid) {
            Some(p) => {
                if *p == 0 {
                    None
                } else {
                    Some(*p)
                }
            },
            None => None,
        }
    }
}

/// The list stored under `k`, empty when there is none.
pub open spec fn list_at(m: Map<u32, Vec<u32>>, k: u32) -> Seq<u32> {
    if m.contains_key(k) {
        m[k]@
    } else {
        Seq::empty()
    }
}

/// A copy of a list of pids.
pub fn copy_u32s(v: &Vec<u32>) -> (r: Vec<u32>)
    ensures
        r@ == v@,
{
    let mut out: Vec<u32> = Vec::new();
    let n = v.len();
    for i in 0..n
        invariant
            n == v@.len(),
            out@ == v@.subrange(0, i as int),
    {
        out.push(v[i]);
    }
    assert(out@ =~= v@);
    out
}

/// The ancestor chain of `cur` over the parent relation `parent`: parent, grandparent, ...,
/// stopping at a parent of 0, at a process whose parent is unknown, or before repeating a
/// pid already in `visited` or in the chain.
pub open spec fn ancestor_chain(parent: Map<u32, u32>, cur: u32, visited: Set<u32>) -> Seq<u32>
    decreases parent.dom().difference(visited).len(),
    when parent.dom().finite()
{
    if parent.contains_key(cur) {
        let p = parent[cur];
        if p == 0 || visited.contains(p) {
            Seq::empty()
        } else if !parent.contains_key(p) {
            seq![p]
        } else {
            proof {
                parent.dom().lemma_set_insert_diff_decreases(visited, p);
            }
            seq![p] + ancestor_chain(parent, p, visited.insert(p))
        }
    } else {
        Seq::empty()
    }
}

/// Whether some process in `s` has pid `pid`.
pub open spec fn has_pid(s: Seq<InfoView>, pid: u32) -> bool {
    exists|i: int| 0 <= i < s.len() && s[i].pid == pid
}

/// No two processes in `s` share a pid.
pub open spec fn pids_distinct(s: Seq<InfoView>) -> bool {
    forall|i: int, j: int| 0 <= i < j < s.len() ==> s[i].pid != s[j].pid
}

/// The pids of the processes in `s` whose parent is `p`, in order.
pub open spec fn children_list(s: Seq<InfoView>, p: u32) -> Seq<u32> {
    pids_of(s.filter(|x: InfoView| x.parent_pid == p))
}

/// `lin` is the lineage of the process list `s`.
pub open spec fn lineage_of(s: Seq<InfoView>, lin: &ProcessLineage) -> bool {
    &&& forall|k: u32| #[trigger] lin.parent@.contains_key(k) <==> has_pid(s, k)
    &&& forall|i: int| 0 <= i < s.len() ==> lin.parent@[#[trigger] s[i].pid] == s[i].parent_pid
    &&& forall|p: u32|
        #[trigger] lin.children@.contains_key(p) <==> exists|i: int|
            0 <= i < s.len() && s[i].parent_pid == p
    &&& forall|p: u32| #[trigger] lin.children_of(p) == children_list(s, p)
    &&& forall|k: u32| #[trigger] lin.ancestors@.contains_key(k) <==> has_pid(s, k)
    &&& forall|k: u32|
        #[trigger] lin.ancestors_of(k) == (if has_pid(s, k) {
            ancestor_chain(lin.parent@, k, Set::empty())
        } else {
            Seq::empty()
        })
}

/// A process snapshot: processes (pids distinct), their families and their lineage.
pub struct ProcessState {
    pub processes: Vec<ProcessInfo>,
    pub families: Vec<ProcessFamily>,
    pub lineage: ProcessLineage,
}

impl ProcessState {
    pub open spec fn procs(&self) -> Seq<InfoView> {
        self.processes@.map_values(|p: ProcessInfo| p@)
    }

    pub open spec fn fams(&self) -> Seq<FamilyView> {
        self.families@.map_values(|f: ProcessFamily| f@)
    }

    /// Pids are distinct, and families and lineage are those of the processes.
    pub open spec fn wf(&self) -> bool {
        &&& pids_distinct(self.procs())
        &&& families_of(self.procs(), self.fams())
        &&& lineage_of(self.procs(), &self.lineage)
    }

    /// The empty snapshot.
    pub fn default() -> (s: Self)
        ensures
            s.wf(),
            s.procs().len() == 0,
            s.fams().len() == 0,
    {
        let s = ProcessState { processes: Vec::new(), families: Vec::new(), lineage: ProcessLineage::new() };
        proof {
            assert(s.procs() =~= Seq::<InfoView>::empty());
            assert(s.fams() =~= Seq::<FamilyView>::empty());
            assert forall|p: u32| #[trigger] s.lineage.children_of(p) == children_list(s.procs(), p) by {
                assert(s.procs().filter(|x: InfoView| x.parent_pid == p) =~= Seq::<InfoView>::empty());
            }
        }
        s
    }

    /// Build a snapshot from collector records: a later record for a pid replaces an
    /// earlier one; families and lineage are computed from the result.
    pub fn from_vec(vec: Vec<Process>) -> (s: Self)
        ensures
            s.wf(),
            s.procs() == collect_infos(vec@),
    {
        let mut processes: Vec<ProcessInfo> = Vec::new();
        let n = vec.len();
        for i in 0..n
            invariant
                n == vec@.len(),
                pids_distinct(processes@.map_values(|p: ProcessInfo| p@)),
                processes@.map_values(|p: ProcessInfo| p@) == collect_infos(vec@.take(i as int)),
        {
            let info = info_from_ref(&vec[i]);
            upsert_info(&mut processes, info);
            proof {
                assert(vec@.take(i + 1).drop_last() =~= vec@.take(i as int));
            }
        }
        proof {
            assert(vec@.take(n as int) =~= vec@);
        }
        let mut state = ProcessState { processes, families: Vec::new(), lineage: ProcessLineage::new() };
        state.recompute_families();
        state.recompute_lineage();
        state
    }

    /// Recompute parent, children and ancestor chains from the processes.
    pub fn recompute_lineage(&mut self)
        requires
            pids_distinct(old(self).procs()),
        ensures
            final(self).processes@ == old(self).processes@,
            final(self).families@ == old(self).families@,
            lineage_of(final(self).procs(), &final(self).lineage),
    {
        let n = self.processes.len();
        let ghost procs = self.procs();
        let mut parent: HashMap<u32, u32> = HashMap::new();
        let mut children: HashMap<u32, Vec<u32>> = HashMap::new();
        for i in 0..n
            invariant
                n == procs.len(),
                procs == self.procs(),
                pids_distinct(procs),
                forall|k: u32| #[trigger] parent@.contains_key(k) <==> has_pid(procs.take(i as int), k),
                forall|j: int| 0 <= j < i ==> parent@[#[trigger] procs[j].pid] == procs[j].parent_pid,
                forall|p: u32|
                    #[trigger] children@.contains_key(p) <==> exists|j: int|
                        0 <= j < i && procs[j].parent_pid == p,
                forall|p: u32| #[trigger] list_at(children@, p) == children_list(procs.take(i as int), p),
        {
            let pid = self.processes[i].pid;
            let pp = self.processes[i].parent_pid;
            let ghost x = procs[i as int];
            let ghost pre = procs.take(i as int);
            let ghost old_children = children@;
            let ghost old_parent = parent@;
            proof {
                assert(x.pid == pid && x.parent_pid == pp);
                assert(procs.take(i + 1) =~= pre.push(x));
            }
            parent.insert(pid, pp);
            let mut v = match children.remove(&pp) {
                Some(v) => v,
                None => Vec::new(),
            };
            v.push(pid);
            children.insert(pp, v);
            proof {
                let post = procs.take(i + 1);
                assert forall|k: u32| #[trigger] parent@.contains_key(k) <==> has_pid(post, k) by {
                    if has_pid(post, k) && k != pid {
                        let j = choose|j: int| 0 <= j < post.len() && post[j].pid == k;
                        assert(pre[j].pid == k);
                    }
                    if has_pid(pre, k) {
                        let j = choose|j: int| 0 <= j < pre.len() && pre[j].pid == k;
                        assert(post[j].pid == k);
                    }
                    assert(post[i as int].pid == pid);
                }
                assert forall|j: int| 0 <= j < i + 1 implies parent@[#[trigger] procs[j].pid] == procs[j].parent_pid by {
                    if j < i {
                        assert(procs[j].pid != procs[i as int].pid);
                    }
                }
                assert forall|p: u32| #[trigger] children@.contains_key(p) <==> exists|j: int|
                    0 <= j < i + 1 && procs[j].parent_pid == p by {
                    if p == pp {
                        assert(procs[i as int].parent_pid == p);
                    }
                }
                assert forall|p: u32| #[trigger] list_at(children@, p) == children_list(post, p) by {
                    let pred = |y: InfoView| y.parent_pid == p;
                    pre.lemma_filter_push(x, pred);
                    assert(post == pre.push(x));
                    if p == pp {
                        let f = pre.filter(pred);
                        assert(post.filter(pred) == f.push(x));
                        assert(pids_of(f.push(x)) =~= pids_of(f).push(x.pid));
                        assert(list_at(children@, p) =~= list_at(old_children, p).push(pid));
                        assert(list_at(old_children, p) == children_list(pre, p));
                    } else {
                        assert(post.filter(pred) == pre.filter(pred));
                        assert(list_at(children@, p) == list_at(old_children, p));
                    }
                }
            }
        }
        proof {
            assert(procs.take(n as int) =~= procs);
        }
        let mut ancestors: HashMap<u32, Vec<u32>> = HashMap::new();
        for i in 0..n
            invariant
                n == procs.len(),
                procs == self.procs(),
                forall|k: u32| #[trigger] ancestors@.contains_key(k) <==> has_pid(procs.take(i as int), k),
                forall|k: u32|
                    #[trigger] ancestors@.contains_key(k) ==> ancestors@[k]@ == ancestor_chain(
                        parent@,
                        k,
                        Set::empty(),
                    ),
        {
            let pid = self.processes[i].pid;
            let chain = compute_ancestors(&parent, pid);
            ancestors.insert(pid, chain);
            proof {
                let pre = procs.take(i as int);
                let post = procs.take(i + 1);
                assert(post =~= pre.push(procs[i as int]));
                assert forall|k: u32| #[trigger] ancestors@.contains_key(k) <==> has_pid(post, k) by {
                    if has_pid(post, k) && k != pid {
                        let j = choose|j: int| 0 <= j < post.len() && post[j].pid == k;
                        assert(pre[j].pid == k);
                    }
                    if has_pid(pre, k) {
                        let j = choose|j: int| 0 <= j < pre.len() && pre[j].pid == k;
                        assert(post[j].pid == k);
                    }
                    assert(post[i as int].pid == pid);
                }
            }
        }
        proof {
            assert(procs.take(n as int) =~= procs);
        }
        self.lineage = ProcessLineage { parent, children, ancestors };
    }

    /// Recompute the family aggregates from the processes.
    pub fn recompute_families(&mut self)
        ensures
            final(self).processes@ == old(self).processes@,
            final(self).lineage == old(self).lineage,
            families_of(final(self).procs(), final(self).fams()),
    {
        let mut fams: Vec<ProcessFamily> = Vec::new();
        let n = self.processes.len();
        let ghost procs = self.procs();
        for i in 0..n
            invariant
                n == procs.len(),
                procs == self.procs(),
                families_of(procs.take(i as int), fams@.map_values(|f: ProcessFamily| f@)),
                forall|j: int| 0 <= j < fams@.len() ==> #[trigger] fams@[j].count <= i,
                forall|j: int| 0 <= j < fams@.len() ==> #[trigger] fams@[j].total_cpu_x100 <= i * 4294967295,
                forall|j: int| 0 <= j < fams@.len() ==> #[trigger] fams@[j].total_memory_x100 <= i * 4294967295,
        {
            let info = &self.processes[i];
            let f = family_for_name(info.name.as_str());
            let ghost x = procs[i as int];
            let ghost pre = procs.take(i as int);
            let ghost old_fams = fams@.map_values(|f: ProcessFamily| f@);
            proof {
                assert(procs.take(i + 1) =~= pre.push(x));
                assert(x == info@);
            }
            let (found, k) = find_family(&fams, &f);
            if found {
                let mut e = fams[k].clone();
                e.count = e.count + 1;
                e.pids.push(info.pid);
                e.total_cpu_x100 = e.total_cpu_x100 + info.cpu_percent_x100 as u128;
                e.total_memory_x100 = e.total_memory_x100 + info.memory_mb_x100 as u128;
                fams.set(k, e);
            } else {
                let mut e = ProcessFamily::new(f);
                e.count = 1;
                e.pids.push(info.pid);
                e.total_cpu_x100 = info.cpu_percent_x100 as u128;
                e.total_memory_x100 = info.memory_mb_x100 as u128;
                fams.push(e);
            }
            proof {
                let nf = fams@.map_values(|f: ProcessFamily| f@);
                if found {
                    assert(nf =~= old_fams.update(k as int, FamilyView {
                        name: old_fams[k as int].name,
                        count: old_fams[k as int].count + 1,
                        pids: old_fams[k as int].pids.push(x.pid),
                        total_cpu_x100: old_fams[k as int].total_cpu_x100 + x.cpu_percent_x100,
                        total_memory_x100: old_fams[k as int].total_memory_x100 + x.memory_mb_x100,
                    }));
                } else {
                    assert(nf =~= old_fams.push(FamilyView {
                        name: family_of(x.name),
                        count: 1,
                        pids: seq![x.pid],
                        total_cpu_x100: x.cpu_percent_x100 as int,
                        total_memory_x100: x.memory_mb_x100 as int,
                    }));
                }
                lemma_families_step(pre, x, old_fams, nf, k as int, found);
            }
        }
        proof {
            assert(procs.take(n as int) =~= procs);
        }
        self.families = fams;
    }
}

/// The ancestor chain of `pid` over `parent` (see `ancestor_chain`).
pub fn compute_ancestors(parent: &HashMap<u32, u32>, pid: u32) -> (r: Vec<u32>)
    ensures
        r@ == ancestor_chain(parent@, pid, Set::empty()),
{
    let ghost pm = parent@;
    let mut chain: Vec<u32> = Vec::new();
    let mut current = pid;
    proof {
        assert(chain@.to_set() =~= Set::<u32>::empty());
    }
    loop
        invariant
            pm == parent@,
            pm.dom().finite(),
            ancestor_chain(pm, pid, Set::empty()) == chain@ + ancestor_chain(pm, current, chain@.to_set()),
        decreases pm.dom().difference(chain@.to_set()).len() + (if pm.contains_key(current) { 1int } else { 0int }),
    {
        match parent.get(&current) {
            Some(p) => {
                let p = *p;
                let seen = contains_u32(&chain, p);
                if p == 0 || seen {
                    proof {
                        assert(ancestor_chain(pm, current, chain@.to_set()) =~= Seq::<u32>::empty());
                        assert(chain@ + Seq::<u32>::empty() =~= chain@);
                    }
                    return chain;
                }
                let ghost old_chain = chain@;
                assert(pm.contains_key(current));
                chain.push(p);
                proof {
                    assert(chain@.to_set() =~= old_chain.to_set().insert(p));
                    if pm.contains_key(p) {
                        pm.dom().lemma_set_insert_diff_decreases(old_chain.to_set(), p);
                        assert(old_chain + ancestor_chain(pm, current, old_chain.to_set()) =~= chain@ + ancestor_chain(pm, p, chain@.to_set()));
                    } else {
                        assert(pm.dom().difference(chain@.to_set()) =~= pm.dom().difference(old_chain.to_set()));
                        assert(ancestor_chain(pm, p, chain@.to_set()) =~= Seq::<u32>::empty());
                        assert(old_chain + ancestor_chain(pm, current, old_chain.to_set()) =~= chain@ + ancestor_chain(pm, p, chain@.to_set()));
                    }
                }
                current = p;
            },
            None => {
                proof {
                    assert(chain@ + Seq::<u32>::empty() =~= chain@);
                }
                return chain;
            },
        }
    }
}

/// Whether `v` holds `x`.
pub fn contains_u32(v: &Vec<u32>, x: u32) -> (b: bool)
    ensures
        b == v@.contains(x),
{
    let n = v.len();
    for i in 0..n
        invariant
            n == v@.len(),
            forall|j: int| 0 <= j < i ==> v@[j] != x,
    {
        if v[i] == x {
            return true;
        }
    }
    false
}

/// The snapshot list after inserting `p`: it replaces the entry with the same pid, or is
/// appended when there is none.
pub open spec fn upsert(s: Seq<InfoView>, p: InfoView) -> Seq<InfoView> {
    if has_pid(s, p.pid) {
        s.update(choose|i: int| 0 <= i < s.len() && s[i].pid == p.pid, p)
    } else {
        s.push(p)
    }
}

/// The snapshot list that a sequence of collector records yields.
pub open spec fn collect_infos(ps: Seq<Process>) -> Seq<InfoView>
    decreases ps.len(),
{
    if ps.len() == 0 {
        Seq::empty()
    } else {
        upsert(collect_infos(ps.drop_last()), info_of_process(ps.last()))
    }
}

/// The snapshot entry for a collector record.
pub fn info_from_ref(p: &Process) -> (r: ProcessInfo)
    ensures
        r@ == info_of_process(*p),
{
    ProcessInfo {
        pid: p.pid,
        name: p.name.clone(),
        cpu_percent_x100: p.cpu_percent_x100,
        memory_mb_x100: p.memory_mb_x100,
        threads: p.threads,
        parent_pid: p.parent_pid,
        identity: Some(
            ProcessIdentity {
                path: None,
                signer: None,
                company: None,
                category: None,
                start_time: p.start_time,
                risk_score: 0,
            },
        ),
    }
}

/// Insert `info`, replacing the entry with the same pid.
pub fn upsert_info(v: &mut Vec<ProcessInfo>, info: ProcessInfo)
    requires
        pids_distinct(old(v)@.map_values(|p: ProcessInfo| p@)),
    ensures
        pids_distinct(final(v)@.map_values(|p: ProcessInfo| p@)),
        final(v)@.map_values(|p: ProcessInfo| p@) == upsert(old(v)@.map_values(|p: ProcessInfo| p@), info@),
{
    let ghost s = v@.map_values(|p: ProcessInfo| p@);
    let ghost iv = info@;
    let n = v.len();
    for i in 0..n
        invariant
            n == v@.len(),
            s == v@.map_values(|p: ProcessInfo| p@),
            v@ == old(v)@,
            pids_distinct(s),
            iv == info@,
            forall|j: int| 0 <= j < i ==> s[j].pid != info.pid,
    {
        if v[i].pid == info.pid {
            proof {
                assert(has_pid(s, iv.pid));
                let c = choose|c: int| 0 <= c < s.len() && s[c].pid == iv.pid;
                if c != i {
                    assert(s[c].pid == s[i as int].pid);
                }
                assert(c == i as int);
                assert(upsert(s, iv) == s.update(i as int, iv));
            }
            v.set(i, info);
            proof {
                assert(v@.map_values(|p: ProcessInfo| p@) =~= s.update(i as int, iv));
                let t = v@.map_values(|p: ProcessInfo| p@);
                assert forall|a: int, b: int| 0 <= a < b < t.len() implies t[a].pid != t[b].pid by {
                    assert(s[a].pid != s[b].pid);
                }
            }
            return;
        }
    }
    v.push(info);
    proof {
        assert(v@.map_values(|p: ProcessInfo| p@) =~= s.push(iv));
    }
}

/// The position of the family named `f` in `fams`, if there is one.
fn find_family(fams: &Vec<ProcessFamily>, f: &String) -> (r: (bool, usize))
    ensures
        r.0 ==> r.1 < fams@.len() && fams@[r.1 as int].name@ == f@,
        !r.0 ==> forall|j: int| 0 <= j < fams@.len() ==> fams@[j].name@ != f@,
{
    let mut k: usize = 0;
    while k < fams.len()
        invariant
            k <= fams@.len(),
            forall|j: int| 0 <= j < k ==> fams@[j].name@ != f@,
        decreases fams@.len() - k,
    {
        if fams[k].name == *f {
            return (true, k);
        }
        k = k + 1;
    }
    (false, 0)
}

/// Adding one process to a prefix extends its family aggregates.
proof fn lemma_families_step(
    pre: Seq<InfoView>,
    x: InfoView,
    old_fams: Seq<FamilyView>,
    new_fams: Seq<FamilyView>,
    k: int,
    found: bool,
)
    requires
        families_of(pre, old_fams),
        found ==> {
            &&& 0 <= k < old_fams.len()
            &&& old_fams[k].name == family_of(x.name)
            &&& new_fams == old_fams.update(k, FamilyView {
                name: old_fams[k].name,
                count: old_fams[k].count + 1,
                pids: old_fams[k].pids.push(x.pid),
                total_cpu_x100: old_fams[k].total_cpu_x100 + x.cpu_percent_x100,
                total_memory_x100: old_fams[k].total_memory_x100 + x.memory_mb_x100,
            })
        },
        !found ==> {
            &&& forall|j: int| 0 <= j < old_fams.len() ==> old_fams[j].name != family_of(x.name)
            &&& new_fams == old_fams.push(FamilyView {
                name: family_of(x.name),
                count: 1,
                pids: seq![x.pid],
                total_cpu_x100: x.cpu_percent_x100 as int,
                total_memory_x100: x.memory_mb_x100 as int,
            })
        },
    ensures
        families_of(pre.push(x), new_fams),
{
    let post = pre.push(x);
    let fx = family_of(x.name);
    assert forall|f: Seq<char>| #[trigger] members(post, f) == (if f == fx {
        members(pre, f).push(x)
    } else {
        members(pre, f)
    }) by {
        pre.lemma_filter_push(x, |p: InfoView| family_of(p.name) == f);
    }
    assert forall|i: int| 0 <= i < new_fams.len() implies family_aggregates(post, #[trigger] new_fams[i]) by {
        let e = new_fams[i];
        if e.name == fx {
            let m = members(pre, fx);
            assert(members(post, fx) == m.push(x));
            assert(m.push(x).drop_last() =~= m);
            assert(sum_cpu(m.push(x)) == sum_cpu(m) + x.cpu_percent_x100);
            assert(sum_memory(m.push(x)) == sum_memory(m) + x.memory_mb_x100);
            assert(pids_of(m.push(x)) =~= pids_of(m).push(x.pid));
            if !found {
                assert(i == old_fams.len());
                assert(m.len() == 0) by {
                    if m.len() > 0 {
                        let w = m[0];
                        assert(m.contains(w));
                        assert(pre.contains(w) && family_of(w.name) == fx) by {
                            pre.lemma_filter_contains_rev(|p: InfoView| family_of(p.name) == fx, w);
                        }
                        let kk = choose|kk: int| 0 <= kk < pre.len() && pre[kk] == w;
                        assert(pre[kk].name == w.name);
                    }
                }
                assert(m =~= Seq::<InfoView>::empty());
                assert(pids_of(m.push(x)) =~= seq![x.pid]);
            } else {
                assert(i == k);
            }
        } else {
            assert(members(post, e.name) == members(pre, e.name));
        }
    }
    assert forall|i: int, j: int| 0 <= i < j < new_fams.len() implies new_fams[i].name != new_fams[j].name by {
        if !found && j == old_fams.len() {
        } else {
            assert(old_fams[i].name != old_fams[j].name);
        }
    }
    assert forall|i: int| 0 <= i < new_fams.len() implies #[trigger] members(post, new_fams[i].name).len() > 0 by {
        if new_fams[i].name == fx {
            assert(members(post, fx).len() == members(pre, fx).len() + 1);
        } else {
            assert(i < old_fams.len());
            assert(new_fams[i].name == old_fams[i].name);
            assert(members(post, new_fams[i].name) == members(pre, old_fams[i].name));
        }
    }
    assert forall|kk: int| 0 <= kk < post.len() implies has_family(new_fams, family_of(#[trigger] post[kk].name)) by {
        if kk == pre.len() {
            if found {
                assert(new_fams[k].name == family_of(post[kk].name));
            } else {
                assert(new_fams[old_fams.len() as int].name == family_of(post[kk].name));
            }
        } else {
            assert(post[kk] == pre[kk]);
            assert(has_family(old_fams, family_of(pre[kk].name)));
            let i = choose|i: int| 0 <= i < old_fams.len() && old_fams[i].name == family_of(pre[kk].name);
            assert(new_fams[i].name == family_of(post[kk].name));
        }
    }
}

/// The process with pid `pid` (meaningful when `has_pid`).
pub open spec fn proc_with(s: Seq<InfoView>, pid: u32) -> InfoView {
    s[choose|i: int| 0 <= i < s.len() && s[i].pid == pid]
}

/// With distinct pids, the process found at `k` is the process with its pid.
pub proof fn lemma_proc_with(s: Seq<InfoView>, k: int)
    requires
        pids_distinct(s),
        0 <= k < s.len(),
    ensures
        has_pid(s, s[k].pid),
        proc_with(s, s[k].pid) == s[k],
{
    let c = choose|c: int| 0 <= c < s.len() && s[c].pid == s[k].pid;
    if c < k {
        assert(s[c].pid != s[k].pid);
    } else if c > k {
        assert(s[k].pid != s[c].pid);
    }
}

/// A copy of the processes.
fn clone_infos(v: &Vec<ProcessInfo>) -> (r: Vec<ProcessInfo>)
    ensures
        r@.map_values(|p: ProcessInfo| p@) == v@.map_values(|p: ProcessInfo| p@),
{
    let mut out: Vec<ProcessInfo> = Vec::new();
    let n = v.len();
    for i in 0..n
        invariant
            n == v@.len(),
            out@.map_values(|p: ProcessInfo| p@) == v@.take(i as int).map_values(|p: ProcessInfo| p@),
    {
        let ghost before = out@;
        out.push(v[i].clone());
        proof {
            assert(out@.map_values(|p: ProcessInfo| p@) =~= before.map_values(|p: ProcessInfo| p@).push(v@[i as int]@));
            assert(v@.take(i + 1).map_values(|p: ProcessInfo| p@) =~= v@.take(i as int).map_values(|p: ProcessInfo| p@).push(v@[i as int]@));
        }
    }
    proof {
        assert(v@.take(n as int) =~= v@);
    }
    out
}

/// A copy of the family aggregates.
fn clone_families(v: &Vec<ProcessFamily>) -> (r: Vec<ProcessFamily>)
    ensures
        r@.map_values(|f: ProcessFamily| f@) == v@.map_values(|f: ProcessFamily| f@),
{
    let mut out: Vec<ProcessFamily> = Vec::new();
    let n = v.len();
    for i in 0..n
        invariant
            n == v@.len(),
            out@.map_values(|f: ProcessFamily| f@) == v@.take(i as int).map_values(|f: ProcessFamily| f@),
    {
        let ghost before = out@;
        out.push(v[i].clone());
        proof {
            assert(out@.map_values(|f: ProcessFamily| f@) =~= before.map_values(|f: ProcessFamily| f@).push(v@[i as int]@));
            assert(v@.take(i + 1).map_values(|f: ProcessFamily| f@) =~= v@.take(i as int).map_values(|f: ProcessFamily| f@).push(v@[i as int]@));
        }
    }
    proof {
        assert(v@.take(n as int) =~= v@);
    }
    out
}

impl Clone for ProcessState {
    fn clone(&self) -> (r: Self)
        ensures
            r.procs() == self.procs(),
            r.fams() == self.fams(),
            r.lineage.parent@ == self.lineage.parent@,
            r.lineage.children@ == self.lineage.children@,
            r.lineage.ancestors@ == self.lineage.ancestors@,
            self.wf() ==> r.wf(),
    {
        let r = ProcessState {
            processes: clone_infos(&self.processes),
            families: clone_families(&self.families),
            lineage: ProcessLineage {
                parent: self.lineage.parent.clone(),
                children: self.lineage.children.clone(),
                ancestors: self.lineage.ancestors.clone(),
            },
        };
        proof {
            assert forall|p: u32| #[trigger] r.lineage.children_of(p) == self.lineage.children_of(p) by {}
            assert forall|p: u32| #[trigger] r.lineage.ancestors_of(p) == self.lineage.ancestors_of(p) by {}
        }
        r
    }
}

impl ProcessState {
    /// The position of the process with pid `pid`, if there is one.
    pub fn find_process(&self, pid: u32) -> (r: Option<usize>)
        requires
            self.wf(),
        ensures
            match r {
                Some(i) => i < self.procs().len() && self.procs()[i as int].pid == pid
                    && proc_with(self.procs(), pid) == self.procs()[i as int],
                None => !has_pid(self.procs(), pid),
            },
    {
        let n = self.processes.len();
        for i in 0..n
            invariant
                n == self.procs().len(),
                self.wf(),
                forall|j: int| 0 <= j < i ==> self.procs()[j].pid != pid,
        {
            if self.processes[i].pid == pid {
                proof {
                    assert(self.procs()[i as int] == self.processes@[i as int]@);
                    lemma_proc_with(self.procs(), i as int);
                }
                return Some(i);
            }
            proof {
                assert(self.procs()[i as int] == self.processes@[i as int]@);
            }
        }
        None
    }
}

/// Two processes that agree on everything but their identity.
pub open spec fn core_eq(x: InfoView, y: InfoView) -> bool {
    &&& x.pid == y.pid
    &&& x.name == y.name
    &&& x.cpu_percent_x100 == y.cpu_percent_x100
    &&& x.memory_mb_x100 == y.memory_mb_x100
    &&& x.threads == y.threads
    &&& x.parent_pid == y.parent_pid
}

/// Two process lists that agree position by position on everything but identities.
pub open spec fn same_core(a: Seq<InfoView>, b: Seq<InfoView>) -> bool {
    &&& a.len() == b.len()
    &&& forall|i: int| #![trigger a[i]] #![trigger b[i]] 0 <= i < a.len() ==> core_eq(a[i], b[i])
}

proof fn lemma_same_core_drop_last(a: Seq<InfoView>, b: Seq<InfoView>)
    requires
        same_core(a, b),
        a.len() > 0,
    ensures
        same_core(a.drop_last(), b.drop_last()),
        core_eq(a.last(), b.last()),
        a == a.drop_last().push(a.last()),
        b == b.drop_last().push(b.last()),
{
    assert(a =~= a.drop_last().push(a.last()));
    assert(b =~= b.drop_last().push(b.last()));
    assert forall|i: int| #![trigger a.drop_last()[i]] #![trigger b.drop_last()[i]] 0 <= i < a.drop_last().len() implies core_eq(a.drop_last()[i], b.drop_last()[i]) by {
        assert(a.drop_last()[i] == a[i] && b.drop_last()[i] == b[i]);
    }
    assert(core_eq(a[a.len() - 1], b[b.len() - 1]));
}

/// Family members carry over between lists that agree but on identities.
pub proof fn lemma_members_core(a: Seq<InfoView>, b: Seq<InfoView>, f: Seq<char>)
    requires
        same_core(a, b),
    ensures
        pids_of(members(a, f)) == pids_of(members(b, f)),
        members(a, f).len() == members(b, f).len(),
        sum_cpu(members(a, f)) == sum_cpu(members(b, f)),
        sum_memory(members(a, f)) == sum_memory(members(b, f)),
    decreases a.len(),
{
    let p = |x: InfoView| family_of(x.name) == f;
    if a.len() == 0 {
        assert(members(a, f) =~= Seq::<InfoView>::empty());
        assert(members(b, f) =~= Seq::<InfoView>::empty());
    } else {
        lemma_same_core_drop_last(a, b);
        let a0 = a.drop_last();
        let b0 = b.drop_last();
        lemma_members_core(a0, b0, f);
        a0.lemma_filter_push(a.last(), p);
        b0.lemma_filter_push(b.last(), p);
        if p(a.last()) {
            let ma = members(a0, f);
            let mb = members(b0, f);
            assert(ma.push(a.last()).drop_last() =~= ma);
            assert(mb.push(b.last()).drop_last() =~= mb);
            assert(pids_of(ma.push(a.last())) =~= pids_of(ma).push(a.last().pid));
            assert(pids_of(mb.push(b.last())) =~= pids_of(mb).push(b.last().pid));
        }
    }
}

/// Children lists carry over between lists that agree but on identities.
pub proof fn lemma_children_core(a: Seq<InfoView>, b: Seq<InfoView>, parent: u32)
    requires
        same_core(a, b),
    ensures
        children_list(a, parent) == children_list(b, parent),
    decreases a.len(),
{
    let p = |x: InfoView| x.parent_pid == parent;
    if a.len() == 0 {
        assert(a.filter(p) =~= Seq::<InfoView>::empty());
        assert(b.filter(p) =~= Seq::<InfoView>::empty());
    } else {
        lemma_same_core_drop_last(a, b);
        let a0 = a.drop_last();
        let b0 = b.drop_last();
        lemma_children_core(a0, b0, parent);
        a0.lemma_filter_push(a.last(), p);
        b0.lemma_filter_push(b.last(), p);
        if p(a.last()) {
            assert(pids_of(a0.filter(p).push(a.last())) =~= pids_of(a0.filter(p)).push(a.last().pid));
            assert(pids_of(b0.filter(p).push(b.last())) =~= pids_of(b0.filter(p)).push(b.last().pid));
        }
    }
}

/// Well-formedness carries over to a snapshot whose processes differ only in identities.
pub proof fn lemma_wf_core(s: &ProcessState, t: &ProcessState)
    requires
        s.wf(),
        same_core(s.procs(), t.procs()),
        t.fams() == s.fams(),
        t.lineage.parent@ == s.lineage.parent@,
        t.lineage.children@ == s.lineage.children@,
        t.lineage.ancestors@ == s.lineage.ancestors@,
    ensures
        t.wf(),
{
    let a = s.procs();
    let b = t.procs();
    assert forall|k: u32| has_pid(a, k) <==> has_pid(b, k) by {
        if has_pid(a, k) {
            let i = choose|i: int| 0 <= i < a.len() && a[i].pid == k;
            assert(core_eq(a[i], b[i]));
        }
        if has_pid(b, k) {
            let i = choose|i: int| 0 <= i < b.len() && b[i].pid == k;
            assert(core_eq(a[i], b[i]));
        }
    }
    assert forall|i: int, j: int| 0 <= i < j < b.len() implies b[i].pid != b[j].pid by {
        assert(core_eq(a[i], b[i]) && core_eq(a[j], b[j]));
    }
    let fams = s.fams();
    assert forall|i: int| 0 <= i < fams.len() implies family_aggregates(b, #[trigger] fams[i]) by {
        lemma_members_core(a, b, fams[i].name);
    }
    assert forall|i: int| 0 <= i < fams.len() implies #[trigger] members(b, fams[i].name).len() > 0 by {
        lemma_members_core(a, b, fams[i].name);
    }
    assert forall|k: int| 0 <= k < b.len() implies has_family(fams, family_of(#[trigger] b[k].name)) by {
        assert(core_eq(a[k], b[k]));
        assert(has_family(fams, family_of(a[k].name)));
    }
    let lin = &t.lineage;
    assert forall|i: int| 0 <= i < b.len() implies lin.parent@[#[trigger] b[i].pid] == b[i].parent_pid by {
        assert(core_eq(a[i], b[i]));
        assert(s.lineage.parent@[a[i].pid] == a[i].parent_pid);
    }
    assert forall|p: u32| #[trigger] lin.children@.contains_key(p) <==> exists|i: int| 0 <= i < b.len() && b[i].parent_pid == p by {
        if lin.children@.contains_key(p) {
            let i = choose|i: int| 0 <= i < a.len() && a[i].parent_pid == p;
            assert(core_eq(a[i], b[i]));
        }
        if exists|i: int| 0 <= i < b.len() && b[i].parent_pid == p {
            let i = choose|i: int| 0 <= i < b.len() && b[i].parent_pid == p;
            assert(core_eq(a[i], b[i]));
        }
    }
    assert forall|p: u32| #[trigger] lin.children_of(p) == children_list(b, p) by {
        lemma_children_core(a, b, p);
        assert(s.lineage.children_of(p) == children_list(a, p));
    }
    assert forall|k: u32| #[trigger] lin.ancestors_of(k) == (if has_pid(b, k) {
        ancestor_chain(lin.parent@, k, Set::empty())
    } else {
        Seq::empty()
    }) by {
        assert(s.lineage.ancestors_of(k) == lin.ancestors_of(k));
    }
}

} // verus!
