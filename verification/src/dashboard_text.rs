use crate::dashboard::{row_pid, Confirm};
use crate::process_events::{EventView, ProcessEvent};
use crate::process_state::{has_pid, opt_identity, proc_with, IdentityView, InfoView, ProcessIdentity, ProcessInfo, ProcessState};
use crate::runtime::UiMessage;
use crate::runtime_cycle::infos_view;
use crate::security_state::{
    contribution_view, get_behavior, get_contributions, get_process_score, lemma_score_range, max_score, status_for_pid,
    status_label, status_name, status_of_score, SecurityScores, SecurityState,
};
use crate::seq_facts::{lemma_filter_map_push, lemma_take_next};
use crate::surfaces::process::{join_lines, joined};
use crate::text::{decimal, fixed1, push_decimal, push_fixed1, push_signed, signed_decimal, string_of};
use vstd::prelude::*;
use vstd::string::{StrSliceExecFns, StringExecFns};

verus! {

broadcast use {vstd::string::group_string_axioms, vstd::seq_lib::group_seq_properties, vstd::seq::group_seq_axioms};

fn push_line(lines: &mut Vec<String>, s: String)
    ensures
        final(lines)@.map_values(|x: String| x@) == old(lines)@.map_values(|x: String| x@).push(s@),
{
    let ghost before = lines@;
    lines.push(s);
    proof {
        assert(lines@.map_values(|x: String| x@) =~= before.map_values(|x: String| x@).push(s@));
    }
}

// ---------------------------------------------------------------------------------------------
// Score contributions
// ---------------------------------------------------------------------------------------------

/// The reader-facing name of a score contribution label; unknown labels show as they are.
pub open spec fn friendly(label: Seq<char>) -> Seq<char> {
    if label == "script_engine"@ {
        "Script engine"@
    } else if label == "powershell"@ {
        "PowerShell"@
    } else if label == "interactive_console"@ {
        "Interactive console"@
    } else if label == "spawned_from_devtool"@ {
        "Spawned from devtool"@
    } else if label == "unsigned"@ {
        "Unsigned binary"@
    } else if label == "verification_failed"@ {
        "Signature verification failed"@
    } else if label == "network_activity"@ {
        "Network activity"@
    } else if label == "behavior_threshold_severe"@ {
        "Behavior (severe)"@
    } else if label == "behavior_threshold_high"@ {
        "Behavior (high)"@
    } else if label == "behavior_threshold_medium"@ {
        "Behavior (medium)"@
    } else if label == "set"@ {
        "Explicit set"@
    } else {
        label
    }
}

fn is_label(label: &String, lit: &str) -> (b: bool)
    ensures
        b == (label@ == lit@),
{
    *label == string_of(lit)
}

/// The reader-facing name of a contribution label (see `friendly`).
pub fn friendly_label(label: &String) -> (r: String)
    ensures
        r@ == friendly(label@),
{
    if is_label(label, "script_engine") {
        string_of("Script engine")
    } else if is_label(label, "powershell") {
        string_of("PowerShell")
    } else if is_label(label, "interactive_console") {
        string_of("Interactive console")
    } else if is_label(label, "spawned_from_devtool") {
        string_of("Spawned from devtool")
    } else if is_label(label, "unsigned") {
        string_of("Unsigned binary")
    } else if is_label(label, "verification_failed") {
        string_of("Signature verification failed")
    } else if is_label(label, "network_activity") {
        string_of("Network activity")
    } else if is_label(label, "behavior_threshold_severe") {
        string_of("Behavior (severe)")
    } else if is_label(label, "behavior_threshold_high") {
        string_of("Behavior (high)")
    } else if is_label(label, "behavior_threshold_medium") {
        string_of("Behavior (medium)")
    } else if is_label(label, "set") {
        string_of("Explicit set")
    } else {
        label.clone()
    }
}

/// `+delta Name` for a contribution.
pub open spec fn contribution_entry(c: (Seq<char>, i32)) -> Seq<char> {
    "+"@ + signed_decimal(c.1 as int) + " "@ + friendly(c.0)
}

fn contribution_text(c: &(String, i32)) -> (s: String)
    ensures
        s@ == contribution_entry(contribution_view(*c)),
{
    let mut s = string_of("+");
    push_signed(&mut s, c.1);
    s.append(" ");
    let f = friendly_label(&c.0);
    s.append(f.as_str());
    s
}

// ---------------------------------------------------------------------------------------------
// Detail panel
// ---------------------------------------------------------------------------------------------

/// `name(pid)`.
pub open spec fn name_pid(p: InfoView) -> Seq<char> {
    p.name + "("@ + decimal(p.pid as nat) + ")"@
}

fn name_pid_text(p: &ProcessInfo) -> (s: String)
    ensures
        s@ == name_pid(p@),
{
    let mut s = p.name.clone();
    s.append("(");
    push_decimal(&mut s, p.pid as u128);
    s.append(")");
    s
}

/// The chain from the oldest known ancestor of `p` down to `p`.
pub open spec fn chain_names(s: ProcessState, p: InfoView) -> Seq<Seq<char>> {
    s.lineage.ancestors_of(p.pid).reverse().filter(|a: u32| has_pid(s.procs(), a)).map_values(
        |a: u32| name_pid(proc_with(s.procs(), a)),
    ).push(name_pid(p))
}

/// `n` indentation steps of four spaces.
pub open spec fn indent(n: nat) -> Seq<char>
    decreases n,
{
    if n == 0 {
        Seq::empty()
    } else {
        indent((n - 1) as nat) + "    "@
    }
}

/// Line `i` of the ancestry tree: the root as is, then each name one step further in.
pub open spec fn tree_line(names: Seq<Seq<char>>, i: int) -> Seq<char> {
    if i == 0 {
        names[0]
    } else {
        indent((i - 1) as nat) + "└─ "@ + names[i]
    }
}

/// The ancestry tree of `p`: its chain of ancestors, then its present direct children.
pub open spec fn ancestry_tree(s: ProcessState, p: InfoView) -> Seq<Seq<char>> {
    let names = chain_names(s, p);
    Seq::new(names.len(), |i: int| tree_line(names, i)) + s.lineage.children_of(p.pid).filter(
        |c: u32| has_pid(s.procs(), c),
    ).map_values(|c: u32| "    └─ "@ + name_pid(proc_with(s.procs(), c)))
}

/// The value of an optional text, or nothing.
pub open spec fn or_empty(o: Option<Seq<char>>) -> Seq<char> {
    match o {
        Some(v) => v,
        None => Seq::empty(),
    }
}

/// Path, signer and company of an identity, or `<unknown>`.
pub open spec fn identity_summary(id: Option<IdentityView>) -> Seq<char> {
    match id {
        Some(d) => or_empty(d.path) + " "@ + or_empty(d.signer) + " "@ + or_empty(d.company),
        None => "<unknown>"@,
    }
}

/// The detail panel of the process listed at row `idx`.
pub open spec fn detail_text(vis: Seq<InfoView>, idx: usize, latest: Option<ProcessState>, sec: SecurityState) -> Seq<
    char,
> {
    match row_pid(vis, idx) {
        None => "<no selection>"@,
        Some(pid) => match latest {
            None => "<no state>"@,
            Some(s) => if has_pid(s.procs(), pid) {
                let p = proc_with(s.procs(), pid);
                let tree = ancestry_tree(s, p);
                "PID: "@ + decimal(p.pid as nat) + "\nName: "@ + p.name + "\nParent: "@ + decimal(p.parent_pid as nat)
                    + "\n"@ + (if tree.len() == 0 { "<none>"@ } else { joined(tree) }) + "\nCPU: "@ + fixed1(
                    p.cpu_percent_x100 as nat,
                ) + "%\nMEM: "@ + fixed1(p.memory_mb_x100 as nat) + " MB\nThreads: "@ + decimal(p.threads as nat)
                    + "\nScore: "@ + decimal(sec.score(pid) as nat) + "% ("@ + status_label(
                    status_of_score(sec.score(pid)),
                ) + ")\nIdentity: "@ + identity_summary(p.identity) + "\n\nContributions:\n"@ + sec.contribs(
                    pid,
                ).flat_map(|c: (Seq<char>, i32)| contribution_entry(c) + "\n"@)
            } else {
                "<not found>"@
            },
        },
    }
}

fn push_indent(s: &mut String, n: usize)
    ensures
        final(s)@ == old(s)@ + indent(n as nat),
{
    let ghost s0 = s@;
    for k in 0..n
        invariant
            s@ == s0 + indent(k as nat),
    {
        s.append("    ");
        proof {
            assert(s@ =~= s0 + indent((k + 1) as nat));
        }
    }
}

fn chain_names_vec(s: &ProcessState, p: &ProcessInfo) -> (r: Vec<String>)
    requires
        s.wf(),
    ensures
        r@.map_values(|x: String| x@) == chain_names(*s, p@),
{
    let anc = s.lineage.get_ancestors(p.pid);
    let ghost procs = s.procs();
    let ghost rev = anc@.reverse();
    let ghost pr = |a: u32| has_pid(procs, a);
    let ghost f = |a: u32| name_pid(proc_with(procs, a));
    let mut names: Vec<String> = Vec::new();
    let n = anc.len();
    for t in 0..n
        invariant
            n == anc@.len(),
            anc@ == s.lineage.ancestors_of(p.pid),
            s.wf(),
            procs == s.procs(),
            rev == anc@.reverse(),
            pr == (|a: u32| has_pid(procs, a)),
            f == (|a: u32| name_pid(proc_with(procs, a))),
            names@.map_values(|x: String| x@) == rev.take(t as int).filter(pr).map_values(f),
    {
        let a = anc[n - 1 - t];
        proof {
            assert(rev[t as int] == a);
            lemma_take_next(rev, t as int);
            lemma_filter_map_push(rev.take(t as int), a, pr, f);
        }
        match s.find_process(a) {
            Some(k) => {
                proof {
                    assert(procs[k as int] == s.processes@[k as int]@);
                }
                let e = name_pid_text(&s.processes[k]);
                push_line(&mut names, e);
            },
            None => {},
        }
    }
    proof {
        assert(rev.take(n as int) =~= rev);
    }
    let me = name_pid_text(p);
    push_line(&mut names, me);
    names
}

fn ancestry_tree_vec(s: &ProcessState, p: &ProcessInfo) -> (r: Vec<String>)
    requires
        s.wf(),
    ensures
        r@.map_values(|x: String| x@) == ancestry_tree(*s, p@),
{
    let names = chain_names_vec(s, p);
    let ghost nv = names@.map_values(|x: String| x@);
    let mut lines: Vec<String> = Vec::new();
    let m = names.len();
    for i in 0..m
        invariant
            m == names@.len(),
            nv == names@.map_values(|x: String| x@),
            lines@.map_values(|x: String| x@) == Seq::new(i as nat, |j: int| tree_line(nv, j)),
    {
        let ghost before = lines@.map_values(|x: String| x@);
        if i == 0 {
            push_line(&mut lines, names[0].clone());
        } else {
            let mut l = string_of("");
            proof {
                reveal_strlit("");
            }
            push_indent(&mut l, i - 1);
            l.append("└─ ");
            l.append(names[i].as_str());
            push_line(&mut lines, l);
        }
        proof {
            assert(lines@.map_values(|x: String| x@) =~= Seq::new((i + 1) as nat, |j: int| tree_line(nv, j)));
        }
    }
    let ghost l1 = lines@.map_values(|x: String| x@);
    let kids = s.lineage.get_children(p.pid);
    let ghost procs = s.procs();
    let ghost pr = |c: u32| has_pid(procs, c);
    let ghost f = |c: u32| "    └─ "@ + name_pid(proc_with(procs, c));
    let k = kids.len();
    for t in 0..k
        invariant
            k == kids@.len(),
            s.wf(),
            procs == s.procs(),
            pr == (|c: u32| has_pid(procs, c)),
            f == (|c: u32| "    └─ "@ + name_pid(proc_with(procs, c))),
            lines@.map_values(|x: String| x@) == l1 + kids@.take(t as int).filter(pr).map_values(f),
    {
        let c = kids[t];
        proof {
            lemma_take_next(kids@, t as int);
            lemma_filter_map_push(kids@.take(t as int), c, pr, f);
        }
        match s.find_process(c) {
            Some(j) => {
                proof {
                    assert(procs[j as int] == s.processes@[j as int]@);
                }
                let mut l = string_of("    └─ ");
                let e = name_pid_text(&s.processes[j]);
                l.append(e.as_str());
                push_line(&mut lines, l);
            },
            None => {},
        }
    }
    proof {
        assert(kids@.take(k as int) =~= kids@);
        assert(lines@.map_values(|x: String| x@) =~= ancestry_tree(*s, p@));
    }
    lines
}

fn push_or_empty(s: &mut String, o: &Option<String>)
    ensures
        final(s)@ == old(s)@ + or_empty(crate::process_state::opt_str(*o)),
{
    match o {
        Some(v) => s.append(v.as_str()),
        None => {
            proof {
                assert(s@ =~= old(s)@ + Seq::<char>::empty());
            }
        },
    }
}

fn identity_summary_text(id: &Option<ProcessIdentity>) -> (s: String)
    ensures
        s@ == identity_summary(opt_identity(*id)),
{
    match id {
        Some(d) => {
            let mut s = string_of("");
            proof {
                reveal_strlit("");
            }
            push_or_empty(&mut s, &d.path);
            s.append(" ");
            push_or_empty(&mut s, &d.signer);
            s.append(" ");
            push_or_empty(&mut s, &d.company);
            proof {
                assert(s@ =~= identity_summary(opt_identity(*id)));
            }
            s
        },
        None => string_of("<unknown>"),
    }
}

fn push_contributions(s: &mut String, cs: &Vec<(String, i32)>)
    ensures
        final(s)@ == old(s)@ + cs@.map_values(|c: (String, i32)| contribution_view(c)).flat_map(
            |c: (Seq<char>, i32)| contribution_entry(c) + "\n"@,
        ),
{
    let ghost s0 = s@;
    let ghost cv = cs@.map_values(|c: (String, i32)| contribution_view(c));
    let ghost f = |c: (Seq<char>, i32)| contribution_entry(c) + "\n"@;
    proof {
        assert(cv.take(0).flat_map(f) =~= Seq::<char>::empty()) by {
            assert(cv.take(0) =~= Seq::<(Seq<char>, i32)>::empty());
        }
    }
    for i in 0..cs.len()
        invariant
            cv == cs@.map_values(|c: (String, i32)| contribution_view(c)),
            f == (|c: (Seq<char>, i32)| contribution_entry(c) + "\n"@),
            s@ == s0 + cv.take(i as int).flat_map(f),
    {
        let e = contribution_text(&cs[i]);
        s.append(e.as_str());
        s.append("\n");
        proof {
            lemma_take_next(cv, i as int);
            cv.take(i as int).lemma_flat_map_push(f, cv[i as int]);
            assert(s@ =~= s0 + cv.take(i + 1).flat_map(f));
        }
    }
    proof {
        assert(cv.take(cs@.len() as int) =~= cv);
    }
}

/// The detail panel of the process at row `idx` of the listed processes (see `detail_text`).
pub fn detail_panel(visible: &Vec<ProcessInfo>, idx: usize, latest: &Option<ProcessState>, sec: &SecurityState) -> (r:
    String)
    requires
        latest is Some ==> latest->0.wf(),
        sec.wf(),
    ensures
        r@ == detail_text(infos_view(visible@), idx, *latest, *sec),
{
    let ghost vis = infos_view(visible@);
    if idx >= visible.len() {
        return string_of("<no selection>");
    }
    let pid = visible[idx].pid;
    proof {
        assert(vis[idx as int] == visible@[idx as int]@);
    }
    let s = match latest {
        None => {
            return string_of("<no state>");
        },
        Some(s) => s,
    };
    let k = match s.find_process(pid) {
        None => {
            return string_of("<not found>");
        },
        Some(k) => k,
    };
    proof {
        assert(s.procs()[k as int] == s.processes@[k as int]@);
        lemma_score_range(sec, pid);
    }
    let p = &s.processes[k];
    let mut out = string_of("PID: ");
    push_decimal(&mut out, p.pid as u128);
    out.append("\nName: ");
    out.append(p.name.as_str());
    out.append("\nParent: ");
    push_decimal(&mut out, p.parent_pid as u128);
    out.append("\n");
    let tree = ancestry_tree_vec(s, p);
    if tree.len() == 0 {
        out.append("<none>");
    } else {
        let t = join_lines(&tree);
        out.append(t.as_str());
    }
    out.append("\nCPU: ");
    push_fixed1(&mut out, p.cpu_percent_x100 as u128);
    out.append("%\nMEM: ");
    push_fixed1(&mut out, p.memory_mb_x100 as u128);
    out.append(" MB\nThreads: ");
    push_decimal(&mut out, p.threads as u128);
    out.append("\nScore: ");
    let score = get_process_score(sec, pid);
    push_decimal(&mut out, score as u128);
    out.append("% (");
    out.append(status_name(status_for_pid(sec, pid)));
    out.append(")\nIdentity: ");
    let ident = identity_summary_text(&p.identity);
    out.append(ident.as_str());
    out.append("\n\nContributions:\n");
    let cs = get_contributions(sec, pid);
    push_contributions(&mut out, &cs);
    proof {
        assert(out@ =~= detail_text(vis, idx, *latest, *sec));
    }
    out
}

// ---------------------------------------------------------------------------------------------
// Investigation screen
// ---------------------------------------------------------------------------------------------

/// `name (pid)`.
pub open spec fn name_spaced_pid(p: InfoView) -> Seq<char> {
    p.name + " ("@ + decimal(p.pid as nat) + ")"@
}

/// The path of an identity, or `<unknown>`.
pub open spec fn path_or_unknown(id: Option<IdentityView>) -> Seq<char> {
    match id {
        Some(d) => match d.path {
            Some(v) => v,
            None => "<unknown>"@,
        },
        None => "<unknown>"@,
    }
}

/// The lines of the investigation screen for `ipid`.
pub open spec fn investigation_lines(ipid: u32, latest: Option<ProcessState>, sec: SecurityState) -> Seq<Seq<char>> {
    match latest {
        None => seq!["No state available"@],
        Some(s) => if !has_pid(s.procs(), ipid) {
            seq!["Process not found in snapshot"@]
        } else {
            let p = proc_with(s.procs(), ipid);
            let kids = s.lineage.children_of(p.pid);
            let sockets = sec.counters(p.pid).sockets_opened;
            let cs = sec.contribs(p.pid);
            seq![
                name_spaced_pid(p),
                Seq::empty(),
                "Path:\n"@ + path_or_unknown(p.identity),
                "Parent: "@ + (if has_pid(s.procs(), p.parent_pid) {
                    name_spaced_pid(proc_with(s.procs(), p.parent_pid))
                } else {
                    "<none>"@
                }),
            ] + (if kids.len() == 0 {
                seq!["Children: none"@]
            } else {
                seq!["Children:"@] + kids.filter(|c: u32| has_pid(s.procs(), c)).map_values(
                    |c: u32| " - "@ + name_spaced_pid(proc_with(s.procs(), c)),
                )
            }) + seq![
                if sockets > 0 {
                    "Connections: "@ + decimal(sockets as nat) + " socket(s) opened (addresses not available)"@
                } else {
                    "Connections: none"@
                },
                Seq::empty(),
                "Risk Factors:"@,
            ] + (if cs.len() == 0 {
                seq![" - none"@]
            } else {
                cs.map_values(|c: (Seq<char>, i32)| " "@ + contribution_entry(c))
            }) + seq![Seq::empty(), "Command Line: <not available>"@]
        },
    }
}

fn name_spaced_pid_text(p: &ProcessInfo) -> (s: String)
    ensures
        s@ == name_spaced_pid(p@),
{
    let mut s = p.name.clone();
    s.append(" (");
    push_decimal(&mut s, p.pid as u128);
    s.append(")");
    s
}

fn push_children_entries(lines: &mut Vec<String>, s: &ProcessState, pid: u32)
    requires
        s.wf(),
    ensures
        final(lines)@.map_values(|x: String| x@) == old(lines)@.map_values(|x: String| x@) + s.lineage.children_of(
            pid,
        ).filter(|c: u32| has_pid(s.procs(), c)).map_values(|c: u32| " - "@ + name_spaced_pid(proc_with(s.procs(), c))),
{
    let ghost l0 = lines@.map_values(|x: String| x@);
    let kids = s.lineage.get_children(pid);
    let ghost procs = s.procs();
    let ghost pr = |c: u32| has_pid(procs, c);
    let ghost f = |c: u32| " - "@ + name_spaced_pid(proc_with(procs, c));
    let k = kids.len();
    for t in 0..k
        invariant
            k == kids@.len(),
            s.wf(),
            procs == s.procs(),
            pr == (|c: u32| has_pid(procs, c)),
            f == (|c: u32| " - "@ + name_spaced_pid(proc_with(procs, c))),
            lines@.map_values(|x: String| x@) == l0 + kids@.take(t as int).filter(pr).map_values(f),
    {
        let c = kids[t];
        proof {
            lemma_take_next(kids@, t as int);
            lemma_filter_map_push(kids@.take(t as int), c, pr, f);
        }
        match s.find_process(c) {
            Some(j) => {
                proof {
                    assert(procs[j as int] == s.processes@[j as int]@);
                }
                let mut l = string_of(" - ");
                let e = name_spaced_pid_text(&s.processes[j]);
                l.append(e.as_str());
                push_line(lines, l);
            },
            None => {},
        }
    }
    proof {
        assert(kids@.take(k as int) =~= kids@);
    }
}

/// The first lines of the investigation screen: name, a blank line, path and parent.
pub open spec fn investigation_head(s: ProcessState, p: InfoView) -> Seq<Seq<char>> {
    seq![
        name_spaced_pid(p),
        Seq::empty(),
        "Path:\n"@ + path_or_unknown(p.identity),
        "Parent: "@ + (if has_pid(s.procs(), p.parent_pid) {
            name_spaced_pid(proc_with(s.procs(), p.parent_pid))
        } else {
            "<none>"@
        }),
    ]
}

/// The children lines of the investigation screen.
pub open spec fn investigation_children(s: ProcessState, p: InfoView) -> Seq<Seq<char>> {
    let kids = s.lineage.children_of(p.pid);
    if kids.len() == 0 {
        seq!["Children: none"@]
    } else {
        seq!["Children:"@] + kids.filter(|c: u32| has_pid(s.procs(), c)).map_values(
            |c: u32| " - "@ + name_spaced_pid(proc_with(s.procs(), c)),
        )
    }
}

/// The connection and risk-factor lines of the investigation screen, and its last lines.
pub open spec fn investigation_tail(sec: SecurityState, pid: u32) -> Seq<Seq<char>> {
    let sockets = sec.counters(pid).sockets_opened;
    let cs = sec.contribs(pid);
    seq![
        if sockets > 0 {
            "Connections: "@ + decimal(sockets as nat) + " socket(s) opened (addresses not available)"@
        } else {
            "Connections: none"@
        },
        Seq::empty(),
        "Risk Factors:"@,
    ] + (if cs.len() == 0 {
        seq![" - none"@]
    } else {
        cs.map_values(|c: (Seq<char>, i32)| " "@ + contribution_entry(c))
    }) + seq![Seq::empty(), "Command Line: <not available>"@]
}

proof fn lemma_investigation_parts(ipid: u32, s: ProcessState, sec: SecurityState)
    requires
        has_pid(s.procs(), ipid),
    ensures
        investigation_lines(ipid, Some(s), sec) == investigation_head(s, proc_with(s.procs(), ipid))
            + investigation_children(s, proc_with(s.procs(), ipid)) + investigation_tail(
            sec,
            proc_with(s.procs(), ipid).pid,
        ),
{
    let p = proc_with(s.procs(), ipid);
    assert(investigation_lines(ipid, Some(s), sec) =~= investigation_head(s, p) + investigation_children(s, p)
        + investigation_tail(sec, p.pid));
}

fn investigation_head_lines(s: &ProcessState, p: &ProcessInfo) -> (r: Vec<String>)
    requires
        s.wf(),
    ensures
        r@.map_values(|x: String| x@) == investigation_head(*s, p@),
{
    let mut lines: Vec<String> = Vec::new();
    push_line(&mut lines, name_spaced_pid_text(p));
    push_line(&mut lines, string_of(""));
    let mut path = string_of("Path:\n");
    match &p.identity {
        Some(d) => match &d.path {
            Some(v) => path.append(v.as_str()),
            None => path.append("<unknown>"),
        },
        None => path.append("<unknown>"),
    }
    push_line(&mut lines, path);
    let mut parent = string_of("Parent: ");
    match s.find_process(p.parent_pid) {
        Some(j) => {
            proof {
                assert(s.procs()[j as int] == s.processes@[j as int]@);
            }
            let e = name_spaced_pid_text(&s.processes[j]);
            parent.append(e.as_str());
        },
        None => parent.append("<none>"),
    }
    push_line(&mut lines, parent);
    proof {
        reveal_strlit("");
        assert(""@ =~= Seq::<char>::empty());
        assert(lines@.map_values(|x: String| x@) =~= investigation_head(*s, p@));
    }
    lines
}

fn push_investigation_children(lines: &mut Vec<String>, s: &ProcessState, p: &ProcessInfo)
    requires
        s.wf(),
    ensures
        final(lines)@.map_values(|x: String| x@) == old(lines)@.map_values(|x: String| x@) + investigation_children(
            *s,
            p@,
        ),
{
    let ghost l0 = lines@.map_values(|x: String| x@);
    let kids = s.lineage.get_children(p.pid);
    if kids.len() == 0 {
        push_line(lines, string_of("Children: none"));
    } else {
        push_line(lines, string_of("Children:"));
        push_children_entries(lines, s, p.pid);
    }
    proof {
        assert(lines@.map_values(|x: String| x@) =~= l0 + investigation_children(*s, p@));
    }
}

fn push_investigation_tail(lines: &mut Vec<String>, sec: &SecurityState, pid: u32)
    ensures
        final(lines)@.map_values(|x: String| x@) == old(lines)@.map_values(|x: String| x@) + investigation_tail(
            *sec,
            pid,
        ),
{
    let ghost l0 = lines@.map_values(|x: String| x@);
    let b = get_behavior(sec, pid);
    if b.sockets_opened > 0 {
        let mut c = string_of("Connections: ");
        push_decimal(&mut c, b.sockets_opened as u128);
        c.append(" socket(s) opened (addresses not available)");
        push_line(lines, c);
    } else {
        push_line(lines, string_of("Connections: none"));
    }
    push_line(lines, string_of(""));
    push_line(lines, string_of("Risk Factors:"));
    let ghost l6 = lines@.map_values(|x: String| x@);
    let cs = get_contributions(sec, pid);
    let ghost cv = cs@.map_values(|c: (String, i32)| contribution_view(c));
    if cs.len() == 0 {
        push_line(lines, string_of(" - none"));
    } else {
        let ghost f = |c: (Seq<char>, i32)| " "@ + contribution_entry(c);
        for i in 0..cs.len()
            invariant
                cv == cs@.map_values(|c: (String, i32)| contribution_view(c)),
                f == (|c: (Seq<char>, i32)| " "@ + contribution_entry(c)),
                lines@.map_values(|x: String| x@) == l6 + cv.take(i as int).map_values(f),
        {
            let mut l = string_of(" ");
            let e = contribution_text(&cs[i]);
            l.append(e.as_str());
            push_line(lines, l);
            proof {
                lemma_take_next(cv, i as int);
                assert(lines@.map_values(|x: String| x@) =~= l6 + cv.take(i + 1).map_values(f));
            }
        }
        proof {
            assert(cv.take(cs@.len() as int) =~= cv);
        }
    }
    push_line(lines, string_of(""));
    push_line(lines, string_of("Command Line: <not available>"));
    proof {
        reveal_strlit("");
        assert(""@ =~= Seq::<char>::empty());
        assert(lines@.map_values(|x: String| x@) =~= l0 + investigation_tail(*sec, pid));
    }
}

/// The lines of the investigation screen for `ipid` (see `investigation_lines`).
pub fn investigation_text(ipid: u32, latest: &Option<ProcessState>, sec: &SecurityState) -> (r: Vec<String>)
    requires
        latest is Some ==> latest->0.wf(),
    ensures
        r@.map_values(|x: String| x@) == investigation_lines(ipid, *latest, *sec),
{
    let mut lines: Vec<String> = Vec::new();
    let s = match latest {
        None => {
            push_line(&mut lines, string_of("No state available"));
            proof {
                assert(lines@.map_values(|x: String| x@) =~= investigation_lines(ipid, *latest, *sec));
            }
            return lines;
        },
        Some(s) => s,
    };
    let k = match s.find_process(ipid) {
        None => {
            push_line(&mut lines, string_of("Process not found in snapshot"));
            proof {
                assert(lines@.map_values(|x: String| x@) =~= investigation_lines(ipid, *latest, *sec));
            }
            return lines;
        },
        Some(k) => k,
    };
    proof {
        assert(s.procs()[k as int] == s.processes@[k as int]@);
        lemma_investigation_parts(ipid, *s, *sec);
    }
    let p = &s.processes[k];
    let mut lines = investigation_head_lines(s, p);
    push_investigation_children(&mut lines, s, p);
    push_investigation_tail(&mut lines, sec, p.pid);
    proof {
        assert(lines@.map_values(|x: String| x@) =~= investigation_lines(ipid, *latest, *sec));
    }
    lines
}

// ---------------------------------------------------------------------------------------------
// Header figures, rows and messages
// ---------------------------------------------------------------------------------------------

/// The figures line: total CPU and memory of the snapshot, its process count and the
/// status of the highest score; without a snapshot, zeros and `Unknown`.
pub open spec fn stats_text(latest: Option<ProcessState>, max: u8) -> Seq<char> {
    match latest {
        Some(s) => "CPU "@ + fixed1(crate::process_state::sum_cpu(s.procs()) as nat) + "%   MEM "@ + fixed1(
            crate::process_state::sum_memory(s.procs()) as nat,
        ) + "MB   PROCS "@ + decimal(s.procs().len()) + "   Security: "@ + status_label(status_of_score(max as int)),
        None => "CPU 0.0%   MEM 0.0MB   PROCS 0   Security: Unknown"@,
    }
}

/// The figures line (see `stats_text`), with the highest score of `sec`.
pub fn stats_line(latest: &Option<ProcessState>, sec: &SecurityState) -> (r: String)
    requires
        sec.wf(),
    ensures
        exists|m: u8|
            #![trigger stats_text(*latest, m)]
            (forall|p: u32| sec.score(p) <= m) && (m == 0 || exists|p: u32| sec.score(p) == m) && r@ == stats_text(
                *latest,
                m,
            ),
{
    let m = max_score(sec);
    match latest {
        None => {
            let r = string_of("CPU 0.0%   MEM 0.0MB   PROCS 0   Security: Unknown");
            assert(r@ == stats_text(*latest, m));
            r
        },
        Some(s) => {
            let ghost ps = s.procs();
            let mut cpu: u128 = 0;
            let mut mem: u128 = 0;
            let n = s.processes.len();
            for i in 0..n
                invariant
                    n == ps.len(),
                    ps == s.procs(),
                    cpu == crate::process_state::sum_cpu(ps.take(i as int)),
                    mem == crate::process_state::sum_memory(ps.take(i as int)),
                    cpu <= i * 4294967295,
                    mem <= i * 4294967295,
            {
                proof {
                    assert(ps[i as int] == s.processes@[i as int]@);
                    assert(ps.take(i + 1).drop_last() =~= ps.take(i as int));
                }
                cpu = cpu + s.processes[i].cpu_percent_x100 as u128;
                mem = mem + s.processes[i].memory_mb_x100 as u128;
            }
            proof {
                assert(ps.take(n as int) =~= ps);
            }
            let mut r = string_of("CPU ");
            push_fixed1(&mut r, cpu);
            r.append("%   MEM ");
            push_fixed1(&mut r, mem);
            r.append("MB   PROCS ");
            push_decimal(&mut r, n as u128);
            r.append("   Security: ");
            r.append(status_name(SecurityScores::map_score_to_status(m)));
            assert(r@ == stats_text(*latest, m));
            r
        },
    }
}

/// The cells of a process row: pid, name, CPU and score.
pub open spec fn row_cells(p: InfoView, score: u8) -> Seq<Seq<char>> {
    seq![decimal(p.pid as nat), p.name, fixed1(p.cpu_percent_x100 as nat) + "%"@, decimal(score as nat) + "%"@]
}

/// The cells of the row of `p` (see `row_cells`).
pub fn process_row(p: &ProcessInfo, sec: &SecurityState) -> (r: Vec<String>)
    requires
        sec.wf(),
    ensures
        exists|score: u8| score as int == sec.score(p.pid) && r@.map_values(|x: String| x@) == row_cells(p@, score),
{
    let score = get_process_score(sec, p.pid);
    let mut r: Vec<String> = Vec::new();
    let mut a = string_of("");
    proof {
        reveal_strlit("");
    }
    push_decimal(&mut a, p.pid as u128);
    push_line(&mut r, a);
    push_line(&mut r, p.name.clone());
    let mut c = string_of("");
    push_fixed1(&mut c, p.cpu_percent_x100 as u128);
    c.append("%");
    push_line(&mut r, c);
    let mut d = string_of("");
    push_decimal(&mut d, score as u128);
    d.append("%");
    push_line(&mut r, d);
    proof {
        assert(r@.map_values(|x: String| x@) =~= row_cells(p@, score));
    }
    r
}

/// The question asked before a confirmed action.
pub open spec fn confirm_question(c: Confirm) -> Seq<char> {
    match c {
        Confirm::Kill(p) => "Confirm KILL PID "@ + decimal(p as nat) + "? (y/n)"@,
        Confirm::Suspend(p) => "Confirm SUSPEND PID "@ + decimal(p as nat) + "? (y/n)"@,
    }
}

/// The question asked before `c` (see `confirm_question`).
pub fn confirm_text(c: Confirm) -> (r: String)
    ensures
        r@ == confirm_question(c),
{
    match c {
        Confirm::Kill(p) => {
            let mut s = string_of("Confirm KILL PID ");
            push_decimal(&mut s, p as u128);
            s.append("? (y/n)");
            s
        },
        Confirm::Suspend(p) => {
            let mut s = string_of("Confirm SUSPEND PID ");
            push_decimal(&mut s, p as u128);
            s.append("? (y/n)");
            s
        },
    }
}

/// The events-list entry of a process event, stamped with the clock text `t`.
pub open spec fn event_entry(t: Seq<char>, e: EventView) -> Seq<char> {
    "["@ + t + "] "@ + match e {
        EventView::Started(info) => info.name + " started (PID "@ + decimal(info.pid as nat) + ")"@,
        EventView::Terminated(pid) => "PID "@ + decimal(pid as nat) + " terminated"@,
        EventView::CpuSpike { pid, cpu_x100 } => "PID "@ + decimal(pid as nat) + " CPU spike "@ + fixed1(cpu_x100 as nat)
            + "%"@,
        EventView::FamilyCpuSpike { family, cpu_x100 } => family + " family CPU spike "@ + fixed1(cpu_x100 as nat)
            + "%"@,
        EventView::FamilyNormalized { family } => family + " family normalized"@,
    }
}

/// The events-list entry of `ev` (see `event_entry`).
pub fn event_row(t: &str, ev: &ProcessEvent) -> (r: String)
    requires
        ev@ matches EventView::FamilyCpuSpike { cpu_x100, .. } ==> cpu_x100 + 5 <= u128::MAX,
    ensures
        r@ == event_entry(t@, ev@),
{
    let mut s = string_of("[");
    s.append(t);
    s.append("] ");
    let ghost s0 = s@;
    match ev {
        ProcessEvent::Started(info) => {
            s.append(info.name.as_str());
            s.append(" started (PID ");
            push_decimal(&mut s, info.pid as u128);
            s.append(")");
        },
        ProcessEvent::Terminated(pid) => {
            s.append("PID ");
            push_decimal(&mut s, *pid as u128);
            s.append(" terminated");
        },
        ProcessEvent::CpuSpike { pid, cpu_x100 } => {
            s.append("PID ");
            push_decimal(&mut s, *pid as u128);
            s.append(" CPU spike ");
            push_fixed1(&mut s, *cpu_x100 as u128);
            s.append("%");
        },
        ProcessEvent::FamilyCpuSpike { family, cpu_x100 } => {
            s.append(family.as_str());
            s.append(" family CPU spike ");
            push_fixed1(&mut s, *cpu_x100);
            s.append("%");
        },
        ProcessEvent::FamilyNormalized { family } => {
            s.append(family.as_str());
            s.append(" family normalized");
        },
    }
    proof {
        assert(s@ =~= event_entry(t@, ev@));
    }
    s
}

/// `text` with each line break turned into a space.
pub open spec fn one_line(text: Seq<char>) -> Seq<char> {
    text.map_values(|c: char| if c == '\n' { ' ' } else { c })
}

/// The events-list entry of a display message: its topic, then its body on one line.
pub open spec fn ui_entry(topic: Seq<char>, body: Seq<char>) -> Seq<char> {
    "[UI:"@ + topic + "] "@ + one_line(body)
}

/// The events-list entry of `m` (see `ui_entry`).
pub fn ui_row(m: &UiMessage) -> (r: String)
    ensures
        r@ == ui_entry(m.topic@, m.body@),
{
    let mut s = string_of("[UI:");
    s.append(m.topic.as_str());
    s.append("] ");
    let ghost s0 = s@;
    let body = m.body.as_str();
    let n = body.unicode_len();
    for i in 0..n
        invariant
            n == body@.len(),
            body@ == m.body@,
            s@ == s0 + one_line(body@.subrange(0, i as int)),
    {
        let c = body.get_char(i);
        if c == '\n' {
            s.append(" ");
        } else {
            s.append(body.substring_char(i, i + 1));
        }
        proof {
            reveal_strlit(" ");
            assert(one_line(body@.subrange(0, i + 1)) =~= one_line(body@.subrange(0, i as int)).push(
                if c == '\n' { ' ' } else { c },
            ));
            assert(s@ =~= s0 + one_line(body@.subrange(0, i + 1)));
        }
    }
    proof {
        assert(body@.subrange(0, n as int) =~= body@);
    }
    s
}

// ---------------------------------------------------------------------------------------------
// Display messages kept by the dashboard
// ---------------------------------------------------------------------------------------------

/// Topic and body of a display message.
pub open spec fn message_view(m: UiMessage) -> (Seq<char>, Seq<char>) {
    (m.topic@, m.body@)
}

pub open spec fn messages_view(v: Seq<UiMessage>) -> Seq<(Seq<char>, Seq<char>)> {
    v.map_values(|m: UiMessage| message_view(m))
}

/// The display messages the dashboard has received, oldest first, at most 200 of them.
pub struct UiMessageLog {
    pub items: Vec<UiMessage>,
}

/// The log after `m` arrives: the oldest entry goes when 200 are held.
pub open spec fn log_after(h: Seq<(Seq<char>, Seq<char>)>, m: (Seq<char>, Seq<char>)) -> Seq<(Seq<char>, Seq<char>)> {
    if h.len() >= 200 {
        h.drop_first().push(m)
    } else {
        h.push(m)
    }
}

impl UiMessageLog {
    pub open spec fn wf(&self) -> bool {
        self.items@.len() <= 200
    }

    pub fn new() -> (l: Self)
        ensures
            l.wf(),
            l.items@.len() == 0,
    {
        UiMessageLog { items: Vec::new() }
    }

    /// Keep `m` (see `log_after`).
    pub fn on_message(&mut self, m: UiMessage)
        requires
            old(self).wf(),
        ensures
            final(self).wf(),
            messages_view(final(self).items@) == log_after(messages_view(old(self).items@), message_view(m)),
    {
        let ghost h0 = messages_view(self.items@);
        let ghost mv = message_view(m);
        self.items.push(m);
        proof {
            assert(messages_view(self.items@) =~= h0.push(mv));
        }
        if self.items.len() > 200 {
            self.items.remove(0);
            proof {
                assert(messages_view(self.items@) =~= h0.drop_first().push(mv));
            }
        }
    }
}

/// Law: the log never holds more than 200 messages, and the newest one is last.
pub proof fn law_log_bounded(h: Seq<(Seq<char>, Seq<char>)>, m: (Seq<char>, Seq<char>))
    requires
        h.len() <= 200,
    ensures
        log_after(h, m).len() <= 200,
        log_after(h, m).last() == m,
{
}

/// The entries of the `n` newest messages of the log, newest first.
pub fn newest_message_rows(log: &UiMessageLog, n: usize) -> (r: Vec<String>)
    ensures
        r@.map_values(|x: String| x@) == messages_view(log.items@).reverse().take(
            if log.items@.len() < n { log.items@.len() as int } else { n as int },
        ).map_values(|m: (Seq<char>, Seq<char>)| ui_entry(m.0, m.1)),
{
    let ghost rv = messages_view(log.items@).reverse();
    let ghost f = |m: (Seq<char>, Seq<char>)| ui_entry(m.0, m.1);
    let len = log.items.len();
    let k: usize = if len < n { len } else { n };
    let mut out: Vec<String> = Vec::new();
    for t in 0..k
        invariant
            len == log.items@.len(),
            k <= len,
            rv == messages_view(log.items@).reverse(),
            f == (|m: (Seq<char>, Seq<char>)| ui_entry(m.0, m.1)),
            out@.map_values(|x: String| x@) == rv.take(t as int).map_values(f),
    {
        let row = ui_row(&log.items[len - 1 - t]);
        proof {
            assert(rv[t as int] == message_view(log.items@[len - 1 - t]));
            lemma_take_next(rv, t as int);
        }
        push_line(&mut out, row);
        proof {
            assert(out@.map_values(|x: String| x@) =~= rv.take(t + 1).map_values(f));
        }
    }
    out
}

} // verus!
