use crate::process_state::{InfoView, ProcessState};
use crate::rules::{severity_name, severity_to_string, Finding, FindingView};
use crate::security_state::{get_process_score, SecurityState};
use crate::text::{debug_quote, debug_quoted, decimal, join_with, joined_with, lex_lt, push_decimal, seq_ends_with, seq_starts_with, str_ends_with, str_lt, str_starts_with, string_of};
use vstd::string::StringExecFns;
use crate::seq_facts::{distinct_in_order, lemma_distinct_in_order, lemma_filter_map_push, lemma_take_next, tally};
use vstd::prelude::*;

verus! {

broadcast use {vstd::string::group_string_axioms, vstd::seq_lib::group_seq_properties, vstd::seq::group_seq_axioms};

/// A finding as a snapshot stores it, with its severity by name.
pub struct FindingRecord {
    pub title: String,
    pub description: String,
    pub risk: u8,
    pub severity: String,
}

/// The record of a finding.
pub fn finding_record(f: &Finding) -> (r: FindingRecord)
    ensures
        r.title@ == f.title@,
        r.description@ == f.description@,
        r.risk == f.risk,
        r.severity@ == severity_name(f.severity),
{
    FindingRecord {
        title: f.title.clone(),
        description: f.description.clone(),
        risk: f.risk,
        severity: severity_to_string(&f.severity),
    }
}

/// The risk score of each process of the snapshot, in snapshot order.
pub fn risk_list(state: &ProcessState, sec: &SecurityState) -> (r: Vec<(u32, u8)>)
    requires
        sec.wf(),
    ensures
        r@.len() == state.procs().len(),
        forall|i: int| 0 <= i < r@.len() ==> #[trigger] r@[i].0 == state.procs()[i].pid && r@[i].1 as int == sec.score(r@[i].0),
{
    let mut out: Vec<(u32, u8)> = Vec::new();
    let n = state.processes.len();
    for i in 0..n
        invariant
            n == state.procs().len(),
            sec.wf(),
            out@.len() == i,
            forall|j: int| 0 <= j < i ==> #[trigger] out@[j].0 == state.procs()[j].pid && out@[j].1 as int == sec.score(out@[j].0),
    {
        let pid = state.processes[i].pid;
        proof {
            assert(state.procs()[i as int] == state.processes@[i as int]@);
        }
        out.push((pid, get_process_score(sec, pid)));
    }
    out
}

/// What two snapshots are compared on: their pids, finding titles, risk scores and graph
/// sizes.
pub struct SnapshotSummary {
    pub pids: Vec<u32>,
    pub finding_titles: Vec<String>,
    pub risk: Vec<(u32, u8)>,
    pub graph_nodes: usize,
    pub graph_edges: usize,
}

/// The differences between a previous and a current snapshot.
pub struct SnapshotDiff {
    pub added: Vec<u32>,
    pub removed: Vec<u32>,
    pub new_findings: Vec<String>,
    /// `(pid, previous score, current score)` for each process whose score changed.
    pub risk_changes: Vec<(u32, u8, u8)>,
    pub prev_nodes: usize,
    pub cur_nodes: usize,
    pub prev_edges: usize,
    pub cur_edges: usize,
}

/// The score recorded for `pid`: its last entry in `risk`, 0 when it has none.
pub open spec fn score_in(risk: Seq<(u32, u8)>, pid: u32) -> u8
    decreases risk.len(),
{
    if risk.len() == 0 {
        0
    } else if risk.last().0 == pid {
        risk.last().1
    } else {
        score_in(risk.drop_last(), pid)
    }
}

/// The pids of `risk`, in order.
pub open spec fn risk_pids(risk: Seq<(u32, u8)>) -> Seq<u32> {
    risk.map_values(|e: (u32, u8)| e.0)
}

pub open spec fn titles_view(v: Seq<String>) -> Seq<Seq<char>> {
    v.map_values(|s: String| s@)
}

/// Processes in `cur` and not in `prev`, in order of first appearance.
pub open spec fn added_pids(prev: Seq<u32>, cur: Seq<u32>) -> Seq<u32> {
    distinct_in_order(cur).filter(|p: u32| !prev.contains(p))
}

/// Finding titles in `cur` and not in `prev`, in order of first appearance.
pub open spec fn new_titles(prev: Seq<Seq<char>>, cur: Seq<Seq<char>>) -> Seq<Seq<char>> {
    distinct_in_order(cur).filter(|t: Seq<char>| !prev.contains(t))
}

/// The score changes from `prev` to `cur`, for the processes of `cur` in order of first
/// appearance.
pub open spec fn risk_deltas(prev: Seq<(u32, u8)>, cur: Seq<(u32, u8)>) -> Seq<(u32, u8, u8)> {
    distinct_in_order(risk_pids(cur)).filter(|p: u32| score_in(prev, p) != score_in(cur, p)).map_values(
        |p: u32| (p, score_in(prev, p), score_in(cur, p)),
    )
}

/// The recorded score of `pid` in `risk` (see `score_in`).
fn score_of(risk: &Vec<(u32, u8)>, pid: u32) -> (r: u8)
    ensures
        r == score_in(risk@, pid),
{
    let mut r: u8 = 0;
    let n = risk.len();
    for i in 0..n
        invariant
            n == risk@.len(),
            r == score_in(risk@.take(i as int), pid),
    {
        proof {
            lemma_take_next(risk@, i as int);
            assert(risk@.take(i + 1).drop_last() =~= risk@.take(i as int));
        }
        if risk[i].0 == pid {
            r = risk[i].1;
        }
    }
    proof {
        assert(risk@.take(n as int) =~= risk@);
    }
    r
}

/// The elements of `v` that `other` lacks, in order of first appearance.
fn missing_from(v: &Vec<u32>, other: &Vec<u32>) -> (r: Vec<u32>)
    ensures
        r@ == added_pids(other@, v@),
{
    let counts = tally(v);
    let ghost ds = counts@.map_values(|c: (u32, usize)| c.0);
    let ghost p = |x: u32| !other@.contains(x);
    let mut out: Vec<u32> = Vec::new();
    let n = counts.len();
    for i in 0..n
        invariant
            n == counts@.len(),
            ds == counts@.map_values(|c: (u32, usize)| c.0),
            p == (|x: u32| !other@.contains(x)),
            out@ == ds.take(i as int).filter(p),
    {
        let x = counts[i].0;
        proof {
            assert(ds[i as int] == x);
            lemma_take_next(ds, i as int);
            ds.take(i as int).lemma_filter_push(x, p);
        }
        if !crate::process_state::contains_u32(other, x) {
            out.push(x);
        }
    }
    proof {
        assert(ds.take(n as int) =~= ds);
    }
    out
}

/// Whether `v` holds a string equal to `s`.
fn has_title(v: &Vec<String>, s: &String) -> (b: bool)
    ensures
        b == titles_view(v@).contains(s@),
{
    crate::graph::contains_string(v, s)
}

/// The titles of `v` that `other` lacks, in order of first appearance.
fn new_titles_of(v: &Vec<String>, other: &Vec<String>) -> (r: Vec<String>)
    ensures
        titles_view(r@) == new_titles(titles_view(other@), titles_view(v@)),
{
    let ghost tv = titles_view(v@);
    let ghost ov = titles_view(other@);
    let mut seen: Vec<String> = Vec::new();
    let mut out: Vec<String> = Vec::new();
    let ghost p = |t: Seq<char>| !ov.contains(t);
    let n = v.len();
    for i in 0..n
        invariant
            n == v@.len(),
            tv == titles_view(v@),
            ov == titles_view(other@),
            p == (|t: Seq<char>| !ov.contains(t)),
            titles_view(seen@) == distinct_in_order(tv.take(i as int)),
            titles_view(out@) == distinct_in_order(tv.take(i as int)).filter(p),
    {
        let t = &v[i];
        let ghost pre = tv.take(i as int);
        proof {
            assert(tv[i as int] == t@);
            lemma_take_next(tv, i as int);
            assert(tv.take(i + 1).drop_last() =~= pre);
        }
        if !has_title(&seen, t) {
            let ghost s0 = seen@;
            seen.push(t.clone());
            proof {
                assert(titles_view(seen@) =~= titles_view(s0).push(t@));
                distinct_in_order(pre).lemma_filter_push(t@, p);
            }
            if !has_title(other, t) {
                let ghost o0 = out@;
                out.push(t.clone());
                proof {
                    assert(titles_view(out@) =~= titles_view(o0).push(t@));
                }
            }
        }
    }
    proof {
        assert(tv.take(n as int) =~= tv);
    }
    out
}

/// The score changes from `prev` to `cur` (see `risk_deltas`).
fn risk_changes_of(prev: &Vec<(u32, u8)>, cur: &Vec<(u32, u8)>) -> (r: Vec<(u32, u8, u8)>)
    ensures
        r@ == risk_deltas(prev@, cur@),
{
    let mut pids: Vec<u32> = Vec::new();
    let m = cur.len();
    for i in 0..m
        invariant
            m == cur@.len(),
            pids@ == risk_pids(cur@.take(i as int)),
    {
        pids.push(cur[i].0);
        proof {
            assert(risk_pids(cur@.take(i + 1)) =~= risk_pids(cur@.take(i as int)).push(cur@[i as int].0));
        }
    }
    proof {
        assert(cur@.take(m as int) =~= cur@);
    }
    let counts = tally(&pids);
    let ghost ds = counts@.map_values(|c: (u32, usize)| c.0);
    let ghost p = |x: u32| score_in(prev@, x) != score_in(cur@, x);
    let ghost f = |x: u32| (x, score_in(prev@, x), score_in(cur@, x));
    let mut out: Vec<(u32, u8, u8)> = Vec::new();
    let n = counts.len();
    for i in 0..n
        invariant
            n == counts@.len(),
            ds == counts@.map_values(|c: (u32, usize)| c.0),
            p == (|x: u32| score_in(prev@, x) != score_in(cur@, x)),
            f == (|x: u32| (x, score_in(prev@, x), score_in(cur@, x))),
            out@ == ds.take(i as int).filter(p).map_values(f),
    {
        let x = counts[i].0;
        proof {
            assert(ds[i as int] == x);
            lemma_take_next(ds, i as int);
            lemma_filter_map_push(ds.take(i as int), x, p, f);
        }
        let a = score_of(prev, x);
        let b = score_of(cur, x);
        if a != b {
            out.push((x, a, b));
        }
    }
    proof {
        assert(ds.take(n as int) =~= ds);
    }
    out
}

/// Compare a current snapshot with a previous one: processes added and removed, new finding
/// titles, score changes, and the graph sizes of both.
pub fn compare_snapshots(prev: &SnapshotSummary, cur: &SnapshotSummary) -> (d: SnapshotDiff)
    ensures
        d.added@ == added_pids(prev.pids@, cur.pids@),
        d.removed@ == added_pids(cur.pids@, prev.pids@),
        titles_view(d.new_findings@) == new_titles(titles_view(prev.finding_titles@), titles_view(cur.finding_titles@)),
        d.risk_changes@ == risk_deltas(prev.risk@, cur.risk@),
        d.prev_nodes == prev.graph_nodes,
        d.cur_nodes == cur.graph_nodes,
        d.prev_edges == prev.graph_edges,
        d.cur_edges == cur.graph_edges,
{
    SnapshotDiff {
        added: missing_from(&cur.pids, &prev.pids),
        removed: missing_from(&prev.pids, &cur.pids),
        new_findings: new_titles_of(&cur.finding_titles, &prev.finding_titles),
        risk_changes: risk_changes_of(&prev.risk, &cur.risk),
        prev_nodes: prev.graph_nodes,
        cur_nodes: cur.graph_nodes,
        prev_edges: prev.graph_edges,
        cur_edges: cur.graph_edges,
    }
}

/// Law: a snapshot compared with itself shows no added or removed process, no new finding
/// and no score change.
pub proof fn law_compare_self(pids: Seq<u32>, titles: Seq<Seq<char>>, risk: Seq<(u32, u8)>)
    ensures
        added_pids(pids, pids).len() == 0,
        new_titles(titles, titles).len() == 0,
        risk_deltas(risk, risk).len() == 0,
{
    lemma_distinct_in_order(pids);
    lemma_distinct_in_order(titles);
    lemma_distinct_in_order(risk_pids(risk));
    let a = distinct_in_order(pids);
    assert forall|i: int| 0 <= i < a.len() implies pids.contains(#[trigger] a[i]) by {
        assert(a.contains(a[i]));
    }
    lemma_filter_none(a, |p: u32| !pids.contains(p));
    let t = distinct_in_order(titles);
    assert forall|i: int| 0 <= i < t.len() implies titles.contains(#[trigger] t[i]) by {
        assert(t.contains(t[i]));
    }
    lemma_filter_none(t, |x: Seq<char>| !titles.contains(x));
    lemma_filter_none(distinct_in_order(risk_pids(risk)), |p: u32| score_in(risk, p) != score_in(risk, p));
}

/// Filtering with a predicate that no element meets leaves nothing.
proof fn lemma_filter_none<A>(s: Seq<A>, p: spec_fn(A) -> bool)
    requires
        forall|i: int| 0 <= i < s.len() ==> !p(#[trigger] s[i]),
    ensures
        s.filter(p).len() == 0,
    decreases s.len(),
{
    if s.len() > 0 {
        let rest = s.drop_last();
        assert(s =~= rest.push(s.last()));
        assert forall|i: int| 0 <= i < rest.len() implies !p(#[trigger] rest[i]) by {
            assert(rest[i] == s[i]);
        }
        lemma_filter_none(rest, p);
        rest.lemma_filter_push(s.last(), p);
        assert(!p(s[s.len() - 1]));
    } else {
        assert(s.filter(p) =~= Seq::<A>::empty());
    }
}

// ---------------------------------------------------------------------------------------------
// Diff report
// ---------------------------------------------------------------------------------------------

/// A list written as `[a, b, c]`.
pub open spec fn bracketed(items: Seq<Seq<char>>) -> Seq<char> {
    "["@ + joined_with(items, ", "@) + "]"@
}

/// A score change written as `pid P: before -> after`.
pub open spec fn change_text(c: (u32, u8, u8)) -> Seq<char> {
    "pid "@ + decimal(c.0 as nat) + ": "@ + decimal(c.1 as nat) + " -> "@ + decimal(c.2 as nat)
}

/// The readable diff: added and removed pids, new finding titles and score changes as
/// lists (texts quoted), then the graph sizes; without a previous snapshot, a notice.
pub open spec fn diff_report(d: Option<SnapshotDiff>) -> Seq<char> {
    match d {
        None => "No previously loaded snapshot for comparison.\n"@,
        Some(d) => "Processes added: "@ + bracketed(d.added@.map_values(|p: u32| decimal(p as nat))) + "\nProcesses removed: "@
            + bracketed(d.removed@.map_values(|p: u32| decimal(p as nat))) + "\nNew findings: "@ + bracketed(
            titles_view(d.new_findings@).map_values(|t: Seq<char>| debug_quoted(t)),
        ) + "\nRisk changes: "@ + bracketed(d.risk_changes@.map_values(|c: (u32, u8, u8)| debug_quoted(change_text(c))))
            + "\nGraph nodes: prev="@ + decimal(d.prev_nodes as nat) + " cur="@ + decimal(d.cur_nodes as nat)
            + " edges: prev="@ + decimal(d.prev_edges as nat) + " cur="@ + decimal(d.cur_edges as nat) + "\n"@,
    }
}

fn list_text(items: &Vec<String>) -> (s: String)
    ensures
        s@ == bracketed(items@.map_values(|x: String| x@)),
{
    let mut s = string_of("[");
    let j = join_with(items, ", ");
    s.append(j.as_str());
    s.append("]");
    s
}

/// The readable diff (see `diff_report`).
pub fn diff_text(d: &Option<SnapshotDiff>) -> (s: String)
    ensures
        s@ == diff_report(*d),
{
    match d {
        None => string_of("No previously loaded snapshot for comparison.\n"),
        Some(d) => {
            let mut added: Vec<String> = Vec::new();
            for i in 0..d.added.len()
                invariant
                    added@.map_values(|x: String| x@) == d.added@.take(i as int).map_values(|p: u32| decimal(p as nat)),
            {
                let mut t = string_of("");
                proof {
                    reveal_strlit("");
                }
                push_decimal(&mut t, d.added[i] as u128);
                let ghost before = added@;
                added.push(t);
                proof {
                    lemma_take_next(d.added@, i as int);
                    assert(added@.map_values(|x: String| x@) =~= before.map_values(|x: String| x@).push(t@));
                    assert(added@.map_values(|x: String| x@) =~= d.added@.take(i + 1).map_values(|p: u32| decimal(p as nat)));
                }
            }
            let mut removed: Vec<String> = Vec::new();
            for i in 0..d.removed.len()
                invariant
                    removed@.map_values(|x: String| x@) == d.removed@.take(i as int).map_values(|p: u32| decimal(p as nat)),
            {
                let mut t = string_of("");
                proof {
                    reveal_strlit("");
                }
                push_decimal(&mut t, d.removed[i] as u128);
                let ghost before = removed@;
                removed.push(t);
                proof {
                    lemma_take_next(d.removed@, i as int);
                    assert(removed@.map_values(|x: String| x@) =~= before.map_values(|x: String| x@).push(t@));
                    assert(removed@.map_values(|x: String| x@) =~= d.removed@.take(i + 1).map_values(|p: u32| decimal(p as nat)));
                }
            }
            let mut titles: Vec<String> = Vec::new();
            let ghost tv = titles_view(d.new_findings@);
            for i in 0..d.new_findings.len()
                invariant
                    tv == titles_view(d.new_findings@),
                    titles@.map_values(|x: String| x@) == tv.take(i as int).map_values(|t: Seq<char>| debug_quoted(t)),
            {
                let t = debug_quote(d.new_findings[i].as_str());
                let ghost before = titles@;
                titles.push(t);
                proof {
                    lemma_take_next(tv, i as int);
                    assert(titles@.map_values(|x: String| x@) =~= before.map_values(|x: String| x@).push(t@));
                    assert(titles@.map_values(|x: String| x@) =~= tv.take(i + 1).map_values(|t: Seq<char>| debug_quoted(t)));
                }
            }
            let mut changes: Vec<String> = Vec::new();
            for i in 0..d.risk_changes.len()
                invariant
                    changes@.map_values(|x: String| x@) == d.risk_changes@.take(i as int).map_values(
                        |c: (u32, u8, u8)| debug_quoted(change_text(c)),
                    ),
            {
                let c = d.risk_changes[i];
                let mut t = string_of("pid ");
                push_decimal(&mut t, c.0 as u128);
                t.append(": ");
                push_decimal(&mut t, c.1 as u128);
                t.append(" -> ");
                push_decimal(&mut t, c.2 as u128);
                let q = debug_quote(t.as_str());
                let ghost before = changes@;
                changes.push(q);
                proof {
                    lemma_take_next(d.risk_changes@, i as int);
                    assert(changes@.map_values(|x: String| x@) =~= before.map_values(|x: String| x@).push(q@));
                    assert(changes@.map_values(|x: String| x@) =~= d.risk_changes@.take(i + 1).map_values(
                        |c: (u32, u8, u8)| debug_quoted(change_text(c)),
                    ));
                }
            }
            proof {
                assert(d.added@.take(d.added@.len() as int) =~= d.added@);
                assert(d.removed@.take(d.removed@.len() as int) =~= d.removed@);
                assert(tv.take(tv.len() as int) =~= tv);
                assert(d.risk_changes@.take(d.risk_changes@.len() as int) =~= d.risk_changes@);
            }
            let mut s = string_of("Processes added: ");
            let a = list_text(&added);
            s.append(a.as_str());
            s.append("\nProcesses removed: ");
            let r = list_text(&removed);
            s.append(r.as_str());
            s.append("\nNew findings: ");
            let f = list_text(&titles);
            s.append(f.as_str());
            s.append("\nRisk changes: ");
            let c = list_text(&changes);
            s.append(c.as_str());
            s.append("\nGraph nodes: prev=");
            push_decimal(&mut s, d.prev_nodes as u128);
            s.append(" cur=");
            push_decimal(&mut s, d.cur_nodes as u128);
            s.append(" edges: prev=");
            push_decimal(&mut s, d.prev_edges as u128);
            s.append(" cur=");
            push_decimal(&mut s, d.cur_edges as u128);
            s.append("\n");
            proof {
                assert(s@ =~= diff_report(Some(*d)));
            }
            s
        },
    }
}

/// The readable diff of the current snapshot against the loaded one, if any.
pub fn compare_with_loaded(loaded: &Option<SnapshotSummary>, current: &SnapshotSummary) -> (s: String)
    ensures
        loaded is None ==> s@ == diff_report(None),
        loaded matches Some(prev) ==> exists|d: SnapshotDiff|
            #![trigger diff_report(Some(d))]
            {
                &&& d.added@ == added_pids(prev.pids@, current.pids@)
                &&& d.removed@ == added_pids(current.pids@, prev.pids@)
                &&& titles_view(d.new_findings@) == new_titles(titles_view(prev.finding_titles@), titles_view(current.finding_titles@))
                &&& d.risk_changes@ == risk_deltas(prev.risk@, current.risk@)
                &&& d.prev_nodes == prev.graph_nodes && d.cur_nodes == current.graph_nodes
                &&& d.prev_edges == prev.graph_edges && d.cur_edges == current.graph_edges
                &&& s@ == diff_report(Some(d))
            },
{
    match loaded {
        None => diff_text(&None),
        Some(prev) => {
            let d = compare_snapshots(prev, current);
            let o = Some(d);
            let s = diff_text(&o);
            proof {
                let dd = o->0;
                assert(s@ == diff_report(Some(dd)));
            }
            s
        },
    }
}

// ---------------------------------------------------------------------------------------------
// Snapshot files
// ---------------------------------------------------------------------------------------------

/// Whether a file name is that of a saved snapshot: `snapshot_` ... `.json`.
pub open spec fn is_snapshot_name(n: Seq<char>) -> bool {
    seq_starts_with(n, "snapshot_"@) && seq_ends_with(n, ".json"@)
}

/// The snapshot file to load among the file names of the snapshot directory: the last of
/// the snapshot names in name order (dates in the names make it the newest).
pub fn latest_snapshot_file(names: &Vec<String>) -> (r: Option<usize>)
    ensures
        match r {
            Some(i) => {
                &&& i < names@.len()
                &&& is_snapshot_name(names@[i as int]@)
                &&& forall|j: int|
                    0 <= j < names@.len() && is_snapshot_name(#[trigger] names@[j]@) ==> !lex_lt(
                        names@[i as int]@,
                        names@[j]@,
                    )
            },
            None => forall|j: int| 0 <= j < names@.len() ==> !is_snapshot_name(#[trigger] names@[j]@),
        },
{
    let mut best: Option<usize> = None;
    for i in 0..names.len()
        invariant
            match best {
                Some(b) => {
                    &&& b < i
                    &&& is_snapshot_name(names@[b as int]@)
                    &&& forall|j: int|
                        0 <= j < i && is_snapshot_name(#[trigger] names@[j]@) ==> !lex_lt(names@[b as int]@, names@[j]@)
                },
                None => forall|j: int| 0 <= j < i ==> !is_snapshot_name(#[trigger] names@[j]@),
            },
    {
        let n = names[i].as_str();
        if str_starts_with(n, "snapshot_") && str_ends_with(n, ".json") {
            match best {
                None => {
                    best = Some(i);
                    proof {
                        crate::text::lemma_lex_irrefl(names@[i as int]@);
                    }
                },
                Some(b) => {
                    if str_lt(names[b].as_str(), n) {
                        best = Some(i);
                        proof {
                            crate::text::lemma_lex_irrefl(names@[i as int]@);
                            assert forall|j: int|
                                0 <= j < i + 1 && is_snapshot_name(#[trigger] names@[j]@) implies !lex_lt(
                                names@[i as int]@,
                                names@[j]@,
                            ) by {
                                if j < i {
                                    crate::text::lemma_lex_total(names@[i as int]@, names@[j]@);
                                    if lex_lt(names@[i as int]@, names@[j]@) {
                                        crate::text::lemma_lex_trans(names@[b as int]@, names@[i as int]@, names@[j]@);
                                    }
                                }
                            }
                        }
                    } else {
                        proof {
                            crate::text::lemma_lex_total(names@[b as int]@, names@[i as int]@);
                        }
                    }
                },
            }
        }
    }
    best
}

} // verus!
