use crate::event_bus::{EventBus, Sub, Topic};
use crate::graph::{Node, NodeType, NodeView};
use crate::process_events::{EventView, ProcessEvent};
use crate::process_state::{has_pid, proc_with, IdentityView, InfoView, ProcessInfo, ProcessState};
use crate::runtime::{hold, release_all, released_all, Subscription};
use crate::seq_facts::{lemma_filter_map_push, lemma_take_next};
use crate::text::{decimal, fixed1, push_decimal, push_fixed1, string_of};
use vstd::prelude::*;
use vstd::string::StringExecFns;

verus! {

broadcast use {vstd::string::group_string_axioms, vstd::seq_lib::group_seq_properties, vstd::seq::group_seq_axioms};

/// Subscribe the process surface to process events; the subscription is kept in `held`.
pub fn register(bus: &mut EventBus, held: &mut Vec<Subscription>)
    requires
        old(bus).wf(),
        old(bus).next_id < usize::MAX,
    ensures
        final(bus).wf(),
        final(bus).next_id == old(bus).next_id + 1,
        final(bus).subs@ == old(bus).subs@.push(Sub { id: old(bus).next_id, topic: Topic::Process }),
        final(held)@ == old(held)@.push(Subscription { id: old(bus).next_id, topic: Topic::Process }),
{
    hold(bus, held, Topic::Process);
}

/// Unsubscribe every held process-event subscription.
pub fn unregister(bus: &mut EventBus, held: &mut Vec<Subscription>)
    requires
        old(bus).wf(),
    ensures
        final(bus).wf(),
        final(bus).subs@ == released_all(old(bus).subs@, old(held)@, Topic::Process),
        final(held)@.len() == 0,
{
    release_all(bus, held, Topic::Process);
}

/// A line `prefix` + the value, when there is a value.
pub open spec fn opt_line(prefix: Seq<char>, o: Option<Seq<char>>) -> Seq<Seq<char>> {
    match o {
        Some(v) => seq![prefix + v],
        None => Seq::empty(),
    }
}

/// The identity lines of a started process.
pub open spec fn identity_lines(id: Option<IdentityView>) -> Seq<Seq<char>> {
    match id {
        None => Seq::empty(),
        Some(d) => (match d.start_time {
            Some(st) => seq!["  Identity start_time: "@ + decimal(st as nat)],
            None => Seq::empty(),
        }) + seq!["  Identity risk_score: "@ + decimal(d.risk_score as nat)] + opt_line("  Identity path: "@, d.path)
            + opt_line("  Identity signer: "@, d.signer) + opt_line("  Identity company: "@, d.company) + opt_line(
            "  Identity category: "@,
            d.category,
        ),
    }
}

/// `name(pid) ` for an ancestor.
pub open spec fn ancestor_entry(p: InfoView) -> Seq<char> {
    p.name + "("@ + decimal(p.pid as nat) + ") "@
}

/// The ancestors line of `pid` in snapshot `s`, root first, when it has ancestors.
pub open spec fn ancestor_lines(s: ProcessState, pid: u32) -> Seq<Seq<char>> {
    let anc = s.lineage.ancestors_of(pid);
    if anc.len() > 0 {
        seq![
            "[ProcessSurface] Ancestors for "@ + decimal(pid as nat) + ": "@ + anc.reverse().filter(|a: u32| has_pid(s.procs(), a)).flat_map(
                |a: u32| ancestor_entry(proc_with(s.procs(), a)),
            ),
        ]
    } else {
        Seq::empty()
    }
}

/// The line of a child.
pub open spec fn child_line(p: InfoView) -> Seq<char> {
    "  - "@ + p.name + " ("@ + decimal(p.pid as nat) + ") CPU:"@ + fixed1(p.cpu_percent_x100 as nat) + "% MEM:"@ + fixed1(
        p.memory_mb_x100 as nat,
    )
}

/// The children lines of `pid` in snapshot `s`, when it has children.
pub open spec fn children_lines(s: ProcessState, pid: u32) -> Seq<Seq<char>> {
    let ch = s.lineage.children_of(pid);
    if ch.len() > 0 {
        seq!["[ProcessSurface] Children of "@ + decimal(pid as nat) + ": "@ + decimal(ch.len())] + ch.filter(
            |c: u32| has_pid(s.procs(), c),
        ).map_values(|c: u32| child_line(proc_with(s.procs(), c)))
    } else {
        Seq::empty()
    }
}

/// The lines describing a started process: its name and pid, its identity, and with a
/// snapshot its ancestors and direct children.
pub open spec fn started_lines(info: InfoView, latest: Option<ProcessState>) -> Seq<Seq<char>> {
    seq!["[ProcessSurface] Started: "@ + info.name + " ("@ + decimal(info.pid as nat) + ")"@] + identity_lines(info.identity)
        + match latest {
        Some(s) => ancestor_lines(s, info.pid) + children_lines(s, info.pid),
        None => Seq::empty(),
    }
}

/// Lines joined with newlines.
pub open spec fn joined(lines: Seq<Seq<char>>) -> Seq<char>
    decreases lines.len(),
{
    if lines.len() == 0 {
        Seq::empty()
    } else if lines.len() == 1 {
        lines[0]
    } else {
        joined(lines.drop_last()) + "\n"@ + lines.last()
    }
}

/// The message for a process event.
pub open spec fn surface_text(ev: EventView, latest: Option<ProcessState>) -> Seq<char> {
    match ev {
        EventView::Started(info) => joined(started_lines(info, latest)),
        EventView::Terminated(pid) => "[ProcessSurface] Terminated: "@ + decimal(pid as nat),
        EventView::CpuSpike { pid, cpu_x100 } => "[ProcessSurface] CPU spike: "@ + decimal(pid as nat) + " -> "@ + fixed1(
            cpu_x100 as nat,
        ) + "%"@,
        EventView::FamilyCpuSpike { family, cpu_x100 } => "[ProcessSurface] Family CPU spike: "@ + family + " -> "@
            + fixed1(cpu_x100 as nat) + "%"@,
        EventView::FamilyNormalized { family } => "[ProcessSurface] Family normalized: "@ + family,
    }
}

fn push_line(lines: &mut Vec<String>, s: String)
    ensures
        final(lines)@.map_values(|x: String| x@) == old(lines)@.map_values(|x: String| x@).push(s@),
{
    let ghost before = lines@;
    lines.push(s);
    proof {
        assert(lines@.map_values(|x: String| x@) =~= before.map_values(|x: String| x@).push(s@));
    }
}

fn push_opt_line(lines: &mut Vec<String>, prefix: &str, o: &Option<String>)
    ensures
        final(lines)@.map_values(|x: String| x@) == old(lines)@.map_values(|x: String| x@) + opt_line(
            prefix@,
            crate::process_state::opt_str(*o),
        ),
{
    let ghost before = lines@.map_values(|x: String| x@);
    match o {
        Some(v) => {
            let mut s = string_of(prefix);
            s.append(v.as_str());
            push_line(lines, s);
        },
        None => {},
    }
    assert(lines@.map_values(|x: String| x@) =~= before + opt_line(prefix@, crate::process_state::opt_str(*o)));
}

fn push_identity_lines(lines: &mut Vec<String>, identity: &Option<crate::process_state::ProcessIdentity>)
    ensures
        final(lines)@.map_values(|x: String| x@) == old(lines)@.map_values(|x: String| x@) + identity_lines(
            crate::process_state::opt_identity(*identity),
        ),
{
    let ghost l0 = lines@.map_values(|x: String| x@);
    match identity {
        Some(id) => {
            match id.start_time {
                Some(st) => {
                    let mut s = string_of("  Identity start_time: ");
                    push_decimal(&mut s, st as u128);
                    push_line(lines, s);
                },
                None => {},
            }
            let mut s = string_of("  Identity risk_score: ");
            push_decimal(&mut s, id.risk_score as u128);
            push_line(lines, s);
            push_opt_line(lines, "  Identity path: ", &id.path);
            push_opt_line(lines, "  Identity signer: ", &id.signer);
            push_opt_line(lines, "  Identity company: ", &id.company);
            push_opt_line(lines, "  Identity category: ", &id.category);
        },
        None => {},
    }
    proof {
        assert(lines@.map_values(|x: String| x@) =~= l0 + identity_lines(crate::process_state::opt_identity(*identity)));
    }
}

fn push_ancestor_line(lines: &mut Vec<String>, s: &ProcessState, pid: u32)
    requires
        s.wf(),
    ensures
        final(lines)@.map_values(|x: String| x@) == old(lines)@.map_values(|x: String| x@) + ancestor_lines(*s, pid),
{
    let ghost l1 = lines@.map_values(|x: String| x@);
    let anc = s.lineage.get_ancestors(pid);
    if anc.len() > 0 {
        let mut line = string_of("[ProcessSurface] Ancestors for ");
        push_decimal(&mut line, pid as u128);
        line.append(": ");
        let ghost prefix = line@;
        let ghost procs = s.procs();
        let ghost rev = anc@.reverse();
        let ghost p = |a: u32| has_pid(procs, a);
        let ghost f = |a: u32| ancestor_entry(proc_with(procs, a));
        let n = anc.len();
        for t in 0..n
            invariant
                n == anc@.len(),
                s.wf(),
                procs == s.procs(),
                rev == anc@.reverse(),
                p == (|a: u32| has_pid(procs, a)),
                f == (|a: u32| ancestor_entry(proc_with(procs, a))),
                line@ == prefix + rev.take(t as int).filter(p).flat_map(f),
        {
            let a = anc[n - 1 - t];
            proof {
                assert(rev[t as int] == a);
                lemma_take_next(rev, t as int);
                rev.take(t as int).lemma_filter_push(a, p);
            }
            match s.find_process(a) {
                Some(k) => {
                    proof {
                        assert(procs[k as int] == s.processes@[k as int]@);
                        rev.take(t as int).filter(p).lemma_flat_map_push(f, a);
                    }
                    let pr = &s.processes[k];
                    line.append(pr.name.as_str());
                    line.append("(");
                    push_decimal(&mut line, pr.pid as u128);
                    line.append(") ");
                    proof {
                        assert(line@ =~= prefix + rev.take(t + 1).filter(p).flat_map(f));
                    }
                },
                None => {},
            }
        }
        proof {
            assert(rev.take(n as int) =~= rev);
        }
        push_line(lines, line);
    }
    proof {
        assert(lines@.map_values(|x: String| x@) =~= l1 + ancestor_lines(*s, pid));
    }
}

fn push_children_lines(lines: &mut Vec<String>, s: &ProcessState, pid: u32)
    requires
        s.wf(),
    ensures
        final(lines)@.map_values(|x: String| x@) == old(lines)@.map_values(|x: String| x@) + children_lines(*s, pid),
{
    let ghost l2 = lines@.map_values(|x: String| x@);
    let ch = s.lineage.get_children(pid);
    if ch.len() > 0 {
        let mut hdr = string_of("[ProcessSurface] Children of ");
        push_decimal(&mut hdr, pid as u128);
        hdr.append(": ");
        push_decimal(&mut hdr, ch.len() as u128);
        push_line(lines, hdr);
        let ghost l3 = lines@.map_values(|x: String| x@);
        let ghost procs = s.procs();
        let ghost p = |c: u32| has_pid(procs, c);
        let ghost f = |c: u32| child_line(proc_with(procs, c));
        let m = ch.len();
        for t in 0..m
            invariant
                m == ch@.len(),
                s.wf(),
                procs == s.procs(),
                p == (|c: u32| has_pid(procs, c)),
                f == (|c: u32| child_line(proc_with(procs, c))),
                lines@.map_values(|x: String| x@) == l3 + ch@.take(t as int).filter(p).map_values(f),
        {
            let c = ch[t];
            proof {
                lemma_take_next(ch@, t as int);
                lemma_filter_map_push(ch@.take(t as int), c, p, f);
            }
            match s.find_process(c) {
                Some(k) => {
                    proof {
                        assert(procs[k as int] == s.processes@[k as int]@);
                    }
                    let pr = &s.processes[k];
                    let mut line = string_of("  - ");
                    line.append(pr.name.as_str());
                    line.append(" (");
                    push_decimal(&mut line, pr.pid as u128);
                    line.append(") CPU:");
                    push_fixed1(&mut line, pr.cpu_percent_x100 as u128);
                    line.append("% MEM:");
                    push_fixed1(&mut line, pr.memory_mb_x100 as u128);
                    push_line(lines, line);
                    proof {
                        assert(lines@.map_values(|x: String| x@) =~= l3 + ch@.take(t + 1).filter(p).map_values(f));
                    }
                },
                None => {},
            }
        }
        proof {
            assert(ch@.take(m as int) =~= ch@);
        }
    }
    proof {
        assert(lines@.map_values(|x: String| x@) =~= l2 + children_lines(*s, pid));
    }
}

/// The lines describing a started process (see `started_lines`).
pub fn started_message_lines(info: &ProcessInfo, latest: &Option<ProcessState>) -> (r: Vec<String>)
    requires
        latest is Some ==> latest->0.wf(),
    ensures
        r@.map_values(|x: String| x@) == started_lines(info@, *latest),
{
    let mut lines: Vec<String> = Vec::new();
    let mut head = string_of("[ProcessSurface] Started: ");
    head.append(info.name.as_str());
    head.append(" (");
    push_decimal(&mut head, info.pid as u128);
    head.append(")");
    push_line(&mut lines, head);
    push_identity_lines(&mut lines, &info.identity);
    let ghost l1 = lines@.map_values(|x: String| x@);
    match latest {
        Some(s) => {
            push_ancestor_line(&mut lines, s, info.pid);
            push_children_lines(&mut lines, s, info.pid);
            proof {
                assert(lines@.map_values(|x: String| x@) =~= started_lines(info@, *latest));
            }
        },
        None => {
            proof {
                assert(lines@.map_values(|x: String| x@) =~= started_lines(info@, *latest));
            }
        },
    }
    lines
}

/// Lines joined with newlines.
pub fn join_lines(lines: &Vec<String>) -> (s: String)
    ensures
        s@ == joined(lines@.map_values(|x: String| x@)),
{
    let ghost lv = lines@.map_values(|x: String| x@);
    let mut s = string_of("");
    let n = lines.len();
    proof {
        reveal_strlit("");
        assert(s@ =~= joined(lv.take(0)));
    }
    for i in 0..n
        invariant
            n == lines@.len(),
            lv == lines@.map_values(|x: String| x@),
            s@ == joined(lv.take(i as int)),
    {
        if i > 0 {
            s.append("\n");
        }
        s.append(lines[i].as_str());
        proof {
            lemma_take_next(lv, i as int);
            assert(lv.take(i + 1).drop_last() =~= lv.take(i as int));
            if i == 0 {
                assert(s@ =~= lv[0]);
            }
        }
    }
    proof {
        assert(lv.take(n as int) =~= lv);
    }
    s
}

/// The message the process surface shows for an event (see `surface_text`).
pub fn surface_message(ev: &ProcessEvent, latest: &Option<ProcessState>) -> (s: String)
    requires
        latest is Some ==> latest->0.wf(),
        ev@ matches EventView::FamilyCpuSpike { cpu_x100, .. } ==> cpu_x100 + 5 <= u128::MAX,
    ensures
        s@ == surface_text(ev@, *latest),
{
    match ev {
        ProcessEvent::Started(info) => {
            let lines = started_message_lines(info, latest);
            join_lines(&lines)
        },
        ProcessEvent::Terminated(pid) => {
            let mut s = string_of("[ProcessSurface] Terminated: ");
            push_decimal(&mut s, *pid as u128);
            s
        },
        ProcessEvent::CpuSpike { pid, cpu_x100 } => {
            let mut s = string_of("[ProcessSurface] CPU spike: ");
            push_decimal(&mut s, *pid as u128);
            s.append(" -> ");
            push_fixed1(&mut s, *cpu_x100 as u128);
            s.append("%");
            s
        },
        ProcessEvent::FamilyCpuSpike { family, cpu_x100 } => {
            let mut s = string_of("[ProcessSurface] Family CPU spike: ");
            s.append(family.as_str());
            s.append(" -> ");
            push_fixed1(&mut s, *cpu_x100);
            s.append("%");
            s
        },
        ProcessEvent::FamilyNormalized { family } => {
            let mut s = string_of("[ProcessSurface] Family normalized: ");
            s.append(family.as_str());
            s
        },
    }
}

// ---------------------------------------------------------------------------------------------
// Lineage and graph views of a process
// ---------------------------------------------------------------------------------------------

/// The recorded parent of `pid`, when it is not 0.
pub open spec fn parent_entry(s: ProcessState, pid: u32) -> Option<u32> {
    if s.lineage.parent@.contains_key(pid) && s.lineage.parent@[pid] != 0 {
        Some(s.lineage.parent@[pid])
    } else {
        None
    }
}

/// The lines of the lineage view of `pid`: its ancestors root first, its parent and its
/// direct children; without a snapshot, a single notice.
pub open spec fn lineage_lines(latest: Option<ProcessState>, pid: u32) -> Seq<Seq<char>> {
    match latest {
        None => seq!["No latest state available"@],
        Some(s) => {
            let anc = s.lineage.ancestors_of(pid);
            let ch = s.lineage.children_of(pid);
            seq!["Process Lineage for PID "@ + decimal(pid as nat) + ":"@] + (if anc.len() == 0 {
                seq!["  Ancestors: <none>"@]
            } else {
                seq![
                    "  Ancestors: "@ + anc.reverse().filter(|a: u32| has_pid(s.procs(), a)).flat_map(
                        |a: u32| ancestor_entry(proc_with(s.procs(), a)),
                    ),
                ]
            }) + (match parent_entry(s, pid) {
                Some(pp) => if has_pid(s.procs(), pp) {
                    seq!["  Parent: "@ + proc_with(s.procs(), pp).name + " ("@ + decimal(pp as nat) + ")"@]
                } else {
                    Seq::empty()
                },
                None => Seq::empty(),
            }) + (if ch.len() == 0 {
                seq!["  Children: <none>"@]
            } else {
                seq!["  Children:"@] + ch.filter(|c: u32| has_pid(s.procs(), c)).map_values(
                    |c: u32| "  "@ + child_line(proc_with(s.procs(), c)),
                )
            })
        },
    }
}

fn ancestors_text(s: &ProcessState, anc: &Vec<u32>) -> (line: String)
    requires
        s.wf(),
    ensures
        line@ == anc@.reverse().filter(|a: u32| has_pid(s.procs(), a)).flat_map(
            |a: u32| ancestor_entry(proc_with(s.procs(), a)),
        ),
{
    let mut line = string_of("");
    proof {
        reveal_strlit("");
    }
    let ghost procs = s.procs();
    let ghost rev = anc@.reverse();
    let ghost p = |a: u32| has_pid(procs, a);
    let ghost f = |a: u32| ancestor_entry(proc_with(procs, a));
    let n = anc.len();
    proof {
        assert(rev.take(0).filter(p).flat_map(f) =~= Seq::<char>::empty()) by {
            assert(rev.take(0).filter(p) =~= Seq::<u32>::empty());
        }
    }
    for t in 0..n
        invariant
            n == anc@.len(),
            s.wf(),
            procs == s.procs(),
            rev == anc@.reverse(),
            p == (|a: u32| has_pid(procs, a)),
            f == (|a: u32| ancestor_entry(proc_with(procs, a))),
            line@ == rev.take(t as int).filter(p).flat_map(f),
    {
        let a = anc[n - 1 - t];
        proof {
            assert(rev[t as int] == a);
            lemma_take_next(rev, t as int);
            rev.take(t as int).lemma_filter_push(a, p);
        }
        match s.find_process(a) {
            Some(k) => {
                proof {
                    assert(procs[k as int] == s.processes@[k as int]@);
                    rev.take(t as int).filter(p).lemma_flat_map_push(f, a);
                }
                let pr = &s.processes[k];
                line.append(pr.name.as_str());
                line.append("(");
                push_decimal(&mut line, pr.pid as u128);
                line.append(") ");
                proof {
                    assert(line@ =~= rev.take(t + 1).filter(p).flat_map(f));
                }
            },
            None => {},
        }
    }
    proof {
        assert(rev.take(n as int) =~= rev);
    }
    line
}

/// The lineage view of `pid` in the latest snapshot (see `lineage_lines`).
pub fn show_lineage_lines(latest: &Option<ProcessState>, pid: u32) -> (r: Vec<String>)
    requires
        latest is Some ==> latest->0.wf(),
    ensures
        r@.map_values(|x: String| x@) == lineage_lines(*latest, pid),
{
    let mut lines: Vec<String> = Vec::new();
    match latest {
        None => {
            push_line(&mut lines, string_of("No latest state available"));
            proof {
                assert(lines@.map_values(|x: String| x@) =~= lineage_lines(*latest, pid));
            }
        },
        Some(s) => {
            let mut head = string_of("Process Lineage for PID ");
            push_decimal(&mut head, pid as u128);
            head.append(":");
            push_line(&mut lines, head);
            let ghost l0 = lines@.map_values(|x: String| x@);
            let anc = s.lineage.get_ancestors(pid);
            if anc.len() == 0 {
                push_line(&mut lines, string_of("  Ancestors: <none>"));
            } else {
                let mut l = string_of("  Ancestors: ");
                let rest = ancestors_text(s, &anc);
                l.append(rest.as_str());
                push_line(&mut lines, l);
            }
            let ghost l1 = lines@.map_values(|x: String| x@);
            match s.lineage.get_parent(pid) {
                Some(pp) => {
                    match s.find_process(pp) {
                        Some(k) => {
                            proof {
                                assert(s.procs()[k as int] == s.processes@[k as int]@);
                            }
                            let pr = &s.processes[k];
                            let mut l = string_of("  Parent: ");
                            l.append(pr.name.as_str());
                            l.append(" (");
                            push_decimal(&mut l, pr.pid as u128);
                            l.append(")");
                            push_line(&mut lines, l);
                        },
                        None => {},
                    }
                },
                None => {},
            }
            let ghost l2 = lines@.map_values(|x: String| x@);
            let ch = s.lineage.get_children(pid);
            if ch.len() == 0 {
                push_line(&mut lines, string_of("  Children: <none>"));
            } else {
                push_line(&mut lines, string_of("  Children:"));
                let ghost l3 = lines@.map_values(|x: String| x@);
                let ghost procs = s.procs();
                let ghost p = |c: u32| has_pid(procs, c);
                let ghost f = |c: u32| "  "@ + child_line(proc_with(procs, c));
                let m = ch.len();
                for t in 0..m
                    invariant
                        m == ch@.len(),
                        s.wf(),
                        procs == s.procs(),
                        p == (|c: u32| has_pid(procs, c)),
                        f == (|c: u32| "  "@ + child_line(proc_with(procs, c))),
                        lines@.map_values(|x: String| x@) == l3 + ch@.take(t as int).filter(p).map_values(f),
                {
                    let c = ch[t];
                    proof {
                        lemma_take_next(ch@, t as int);
                        lemma_filter_map_push(ch@.take(t as int), c, p, f);
                    }
                    match s.find_process(c) {
                        Some(k) => {
                            proof {
                                assert(procs[k as int] == s.processes@[k as int]@);
                            }
                            let pr = &s.processes[k];
                            let mut line = string_of("  ");
                            line.append("  - ");
                            line.append(pr.name.as_str());
                            line.append(" (");
                            push_decimal(&mut line, pr.pid as u128);
                            line.append(") CPU:");
                            push_fixed1(&mut line, pr.cpu_percent_x100 as u128);
                            line.append("% MEM:");
                            push_fixed1(&mut line, pr.memory_mb_x100 as u128);
                            proof {
                                assert(line@ =~= "  "@ + child_line(procs[k as int]));
                            }
                            push_line(&mut lines, line);
                            proof {
                                assert(lines@.map_values(|x: String| x@) =~= l3 + ch@.take(t + 1).filter(p).map_values(f));
                            }
                        },
                        None => {},
                    }
                }
                proof {
                    assert(ch@.take(m as int) =~= ch@);
                }
            }
            proof {
                reveal_strlit("  Ancestors: <none>");
                reveal_strlit("  Children: <none>");
                reveal_strlit("  Children:");
                assert(lines@.map_values(|x: String| x@) =~= lineage_lines(*latest, pid));
            }
        },
    }
    lines
}

/// The name the graph views give a node type.
pub open spec fn node_type_label(t: NodeType) -> Seq<char> {
    match t {
        NodeType::Process => "process"@,
        NodeType::File => "file"@,
        NodeType::Socket => "socket"@,
        NodeType::User => "user"@,
        NodeType::Service => "service"@,
        NodeType::Registry => "registry"@,
        NodeType::Other => "other"@,
    }
}

/// `- name [type] pid=P id=I`, with `-` for a node without pid.
pub open spec fn neighbor_entry(n: NodeView) -> Seq<char> {
    "- "@ + n.name + " ["@ + node_type_label(n.node_type) + "] pid="@ + (match n.pid {
        Some(p) => decimal(p as nat),
        None => "-"@,
    }) + " id="@ + n.id
}

/// The neighbor lines of a graph view: one indented entry per node, or a notice.
pub open spec fn neighbor_lines(ns: Seq<NodeView>) -> Seq<Seq<char>> {
    if ns.len() == 0 {
        seq!["  <none>"@]
    } else {
        ns.map_values(|n: NodeView| "  "@ + neighbor_entry(n))
    }
}

/// The graph view of `pid` at `depth` (`None` for the direct-neighbor view).
pub open spec fn graph_lines(pid: u32, depth: Option<usize>, ns: Seq<NodeView>) -> Seq<Seq<char>> {
    match depth {
        None => seq!["Graph neighbors for PID "@ + decimal(pid as nat) + ":"@] + neighbor_lines(ns),
        Some(d) => seq!["Graph neighbors for PID "@ + decimal(pid as nat) + " (depth="@ + decimal(d as nat) + "):"@]
            + if d == 0 {
            seq!["  <none> (depth 0)"@]
        } else {
            neighbor_lines(ns)
        },
    }
}

fn push_node_type(s: &mut String, t: NodeType)
    ensures
        final(s)@ == old(s)@ + node_type_label(t),
{
    match t {
        NodeType::Process => s.append("process"),
        NodeType::File => s.append("file"),
        NodeType::Socket => s.append("socket"),
        NodeType::User => s.append("user"),
        NodeType::Service => s.append("service"),
        NodeType::Registry => s.append("registry"),
        NodeType::Other => s.append("other"),
    }
}

/// The entry of a neighbor node (see `neighbor_entry`).
pub fn neighbor_text(n: &Node) -> (s: String)
    ensures
        s@ == neighbor_entry(n@),
{
    let mut s = string_of("- ");
    s.append(n.name.as_str());
    s.append(" [");
    push_node_type(&mut s, n.node_type);
    s.append("] pid=");
    match n.pid {
        Some(p) => push_decimal(&mut s, p as u128),
        None => s.append("-"),
    }
    s.append(" id=");
    s.append(n.id.as_str());
    s
}

/// The graph view of `pid` over its neighbors `neigh` (see `graph_lines`).
pub fn show_graph_lines(pid: u32, depth: Option<usize>, neigh: &Vec<Node>) -> (r: Vec<String>)
    ensures
        r@.map_values(|x: String| x@) == graph_lines(pid, depth, neigh@.map_values(|n: Node| n@)),
{
    let ghost ns = neigh@.map_values(|n: Node| n@);
    let mut lines: Vec<String> = Vec::new();
    let mut head = string_of("Graph neighbors for PID ");
    push_decimal(&mut head, pid as u128);
    let list_needed = match depth {
        None => {
            head.append(":");
            true
        },
        Some(d) => {
            head.append(" (depth=");
            push_decimal(&mut head, d as u128);
            head.append("):");
            d != 0
        },
    };
    push_line(&mut lines, head);
    let ghost l0 = lines@.map_values(|x: String| x@);
    if !list_needed {
        push_line(&mut lines, string_of("  <none> (depth 0)"));
    } else if neigh.len() == 0 {
        push_line(&mut lines, string_of("  <none>"));
    } else {
        let ghost f = |n: NodeView| "  "@ + neighbor_entry(n);
        for i in 0..neigh.len()
            invariant
                ns == neigh@.map_values(|n: Node| n@),
                f == (|n: NodeView| "  "@ + neighbor_entry(n)),
                lines@.map_values(|x: String| x@) == l0 + ns.take(i as int).map_values(f),
        {
            let mut line = string_of("  ");
            let e = neighbor_text(&neigh[i]);
            line.append(e.as_str());
            push_line(&mut lines, line);
            proof {
                lemma_take_next(ns, i as int);
                assert(lines@.map_values(|x: String| x@) =~= l0 + ns.take(i + 1).map_values(f));
            }
        }
        proof {
            assert(ns.take(neigh@.len() as int) =~= ns);
        }
    }
    proof {
        assert(lines@.map_values(|x: String| x@) =~= graph_lines(pid, depth, ns));
    }
    lines
}

/// The message the depth view publishes: one entry per neighbor, each ended by a newline.
pub fn graph_depth_body(neigh: &Vec<Node>) -> (s: String)
    ensures
        s@ == neigh@.map_values(|n: Node| n@).flat_map(|n: NodeView| neighbor_entry(n) + "\n"@),
{
    let ghost ns = neigh@.map_values(|n: Node| n@);
    let ghost f = |n: NodeView| neighbor_entry(n) + "\n"@;
    let mut s = string_of("");
    proof {
        reveal_strlit("");
        assert(ns.take(0).flat_map(f) =~= Seq::<char>::empty()) by {
            assert(ns.take(0) =~= Seq::<NodeView>::empty());
        }
    }
    for i in 0..neigh.len()
        invariant
            ns == neigh@.map_values(|n: Node| n@),
            f == (|n: NodeView| neighbor_entry(n) + "\n"@),
            s@ == ns.take(i as int).flat_map(f),
    {
        let e = neighbor_text(&neigh[i]);
        s.append(e.as_str());
        s.append("\n");
        proof {
            lemma_take_next(ns, i as int);
            ns.take(i as int).lemma_flat_map_push(f, ns[i as int]);
            assert(s@ =~= ns.take(i + 1).flat_map(f));
        }
    }
    proof {
        assert(ns.take(neigh@.len() as int) =~= ns);
    }
    s
}

} // verus!
