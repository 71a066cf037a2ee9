use crate::security_state::{
    behavior_verdict, clamp_score, crosses_network_threshold, evaluate_behavior, incr_child_spawn, incr_file_create,
    incr_socket_open, lemma_score_range, record_contribution, sat_add_u32, set_process_score, status_for_pid,
    status_of_score, BehaviorCounters, SecurityState, SecurityStatus,
};
use crate::process_state::{has_pid, proc_with, InfoView, ProcessInfo, ProcessState};
use crate::text::{decimal, lowercase, push_decimal, seq_contains, str_contains, string_of, to_lowercase};
use crate::event_bus::{EventBus, Sub, Topic};
use crate::runtime::{hold, release_all, released_all, Subscription};
use vstd::prelude::*;
use vstd::string::StringExecFns;

verus! {

broadcast use {vstd::string::group_string_axioms, vstd::seq_lib::group_seq_properties, vstd::seq::group_seq_axioms};

/// Result of checking the signature of a process executable.
#[derive(Debug, Clone, Copy, PartialEq, Eq, Structural)]
pub enum SignatureVerification {
    Signed,
    Unsigned,
    Unknown,
    VerificationFailed,
}

/// What is known of a process executable: its file name and its full path, each when it is
/// valid text.
pub struct ExeInfo {
    pub file_name: Option<String>,
    pub path: Option<String>,
}

/// Executables of large multi-process applications and of the system, by lowercase file name.
pub open spec fn allowed_exe(lower: Seq<char>) -> bool {
    ||| lower == "code.exe"@
    ||| lower == "brave.exe"@
    ||| lower == "msedgewebview2.exe"@
    ||| lower == "svchost.exe"@
    ||| lower == "dllhost.exe"@
    ||| lower == "conhost.exe"@
    ||| lower == "explorer.exe"@
    ||| lower == "system"@
}

/// Installed-software and system locations, by lowercase path.
pub open spec fn trusted_location(lower: Seq<char>) -> bool {
    seq_contains(lower, "program files"@) || seq_contains(lower, "windows\\system32"@)
}

/// The verdict for an executable: unknown when the executable is unknown, signed for an
/// allowed file name or a trusted location, otherwise verification failed (which is not the
/// same as unsigned).
pub open spec fn exe_verdict(exe: Option<(Option<Seq<char>>, Option<Seq<char>>)>) -> SignatureVerification {
    match exe {
        None => SignatureVerification::Unknown,
        Some((f, p)) => if f is Some && allowed_exe(lowercase(f->0)) {
            SignatureVerification::Signed
        } else if p is Some && trusted_location(lowercase(p->0)) {
            SignatureVerification::Signed
        } else {
            SignatureVerification::VerificationFailed
        },
    }
}

pub open spec fn exe_view(exe: Option<ExeInfo>) -> Option<(Option<Seq<char>>, Option<Seq<char>>)> {
    match exe {
        None => None,
        Some(e) => Some(
            (
                match e.file_name {
                    Some(f) => Some(f@),
                    None => None,
                },
                match e.path {
                    Some(p) => Some(p@),
                    None => None,
                },
            ),
        ),
    }
}

/// Whether `lower` is one of the allowed executable names.
fn is_allowed_exe(lower: &String) -> (b: bool)
    ensures
        b == allowed_exe(lower@),
{
    let names = ["code.exe", "brave.exe", "msedgewebview2.exe", "svchost.exe", "dllhost.exe", "conhost.exe", "explorer.exe", "system"];
    proof {
        assert(names@ == seq!["code.exe", "brave.exe", "msedgewebview2.exe", "svchost.exe", "dllhost.exe", "conhost.exe", "explorer.exe", "system"]);
    }
    let mut i: usize = 0;
    while i < 8
        invariant
            names@ == seq!["code.exe", "brave.exe", "msedgewebview2.exe", "svchost.exe", "dllhost.exe", "conhost.exe", "explorer.exe", "system"],
            i <= 8,
            forall|j: int| 0 <= j < i ==> lower@ != names@[j]@,
        decreases 8 - i,
    {
        let cand = string_of(names[i]);
        if *lower == cand {
            return true;
        }
        i = i + 1;
    }
    false
}

/// The signature verdict for an executable (see `exe_verdict`).
pub fn classify_exe(exe: &Option<ExeInfo>) -> (v: SignatureVerification)
    ensures
        v == exe_verdict(exe_view(*exe)),
{
    match exe {
        None => SignatureVerification::Unknown,
        Some(e) => {
            match &e.file_name {
                Some(f) => {
                    let lower = to_lowercase(f.as_str());
                    if is_allowed_exe(&lower) {
                        return SignatureVerification::Signed;
                    }
                },
                None => {},
            }
            match &e.path {
                Some(p) => {
                    let lower = to_lowercase(p.as_str());
                    if str_contains(lower.as_str(), "program files") || str_contains(lower.as_str(), "windows\\system32") {
                        return SignatureVerification::Signed;
                    }
                },
                None => {},
            }
            SignatureVerification::VerificationFailed
        },
    }
}

// ---------------------------------------------------------------------------------------------
// Score operations
// ---------------------------------------------------------------------------------------------

/// One update of the security bookkeeping of one process.
pub enum SecOp {
    FileCreate(u32),
    SocketOpen(u32),
    ChildSpawn(u32),
    Evaluate(u32),
    SetScore(u32, u8),
    Record(u32, String, i32),
}

pub enum SecOpView {
    FileCreate(u32),
    SocketOpen(u32),
    ChildSpawn(u32),
    Evaluate(u32),
    SetScore(u32, u8),
    Record(u32, Seq<char>, i32),
}

impl View for SecOp {
    type V = SecOpView;

    open spec fn view(&self) -> SecOpView {
        match self {
            SecOp::FileCreate(p) => SecOpView::FileCreate(*p),
            SecOp::SocketOpen(p) => SecOpView::SocketOpen(*p),
            SecOp::ChildSpawn(p) => SecOpView::ChildSpawn(*p),
            SecOp::Evaluate(p) => SecOpView::Evaluate(*p),
            SecOp::SetScore(p, v) => SecOpView::SetScore(*p, *v),
            SecOp::Record(p, l, d) => SecOpView::Record(*p, l@, *d),
        }
    }
}

/// The process an operation updates.
pub open spec fn op_pid(op: SecOpView) -> u32 {
    match op {
        SecOpView::FileCreate(p) => p,
        SecOpView::SocketOpen(p) => p,
        SecOpView::ChildSpawn(p) => p,
        SecOpView::Evaluate(p) => p,
        SecOpView::SetScore(p, _) => p,
        SecOpView::Record(p, _, _) => p,
    }
}

/// The bookkeeping of one process: score, contributors, and the counters of created files,
/// opened sockets and spawned children.
pub type PidSec = (int, Seq<(Seq<char>, i32)>, (u32, u32, u32));

pub open spec fn sec_of(st: &SecurityState, p: u32) -> PidSec {
    (st.score(p), st.contribs(p), (st.counters(p).files_created, st.counters(p).sockets_opened, st.counters(p).children_spawned))
}

/// The behavior verdict for counters `c` (files, sockets, children).
pub open spec fn verdict_of(c: (u32, u32, u32)) -> Option<(Seq<char>, i32)> {
    behavior_verdict(BehaviorCounters { files_created: c.0, sockets_opened: c.1, children_spawned: c.2, last_updated: 0 })
}

/// The effect of `op` on the bookkeeping of the process it updates.
pub open spec fn op_effect(t: PidSec, op: SecOpView) -> PidSec {
    match op {
        SecOpView::FileCreate(_) => (t.0, t.1, (sat_add_u32(t.2.0, 1), t.2.1, t.2.2)),
        SecOpView::SocketOpen(_) => {
            let s2 = sat_add_u32(t.2.1, 1);
            if crosses_network_threshold(t.2.1, s2) {
                (clamp_score(t.0, 30), t.1.push(("network_activity"@, 30i32)), (t.2.0, s2, t.2.2))
            } else {
                (t.0, t.1, (t.2.0, s2, t.2.2))
            }
        },
        SecOpView::ChildSpawn(_) => (t.0, t.1, (t.2.0, t.2.1, sat_add_u32(t.2.2, 1))),
        SecOpView::Evaluate(_) => match verdict_of(t.2) {
            Some((label, delta)) => (clamp_score(t.0, delta as int), t.1.push((label, delta)), t.2),
            None => t,
        },
        SecOpView::SetScore(_, v) => (if v <= 100 { v as int } else { 100 }, t.1, t.2),
        SecOpView::Record(_, label, delta) => (clamp_score(t.0, delta as int), t.1.push((label, delta)), t.2),
    }
}

/// The bookkeeping of process `p` after the operations `ops`, in order.
pub open spec fn fold_ops(t: PidSec, ops: Seq<SecOpView>, p: u32) -> PidSec
    decreases ops.len(),
{
    if ops.len() == 0 {
        t
    } else {
        let prev = fold_ops(t, ops.drop_last(), p);
        if op_pid(ops.last()) == p {
            op_effect(prev, ops.last())
        } else {
            prev
        }
    }
}

/// Operations whose recorded deltas stay small.
pub open spec fn ops_ok(ops: Seq<SecOpView>) -> bool {
    forall|i: int| 0 <= i < ops.len() ==> (#[trigger] ops[i] matches SecOpView::Record(_, _, d) ==> d <= 1000)
}

/// Apply one operation.
pub(crate) fn run_op(st: &mut SecurityState, op: &SecOp)
    requires
        old(st).wf(),
        op@ matches SecOpView::Record(_, _, d) ==> d <= 1000,
    ensures
        final(st).wf(),
        forall|p: u32|
            #[trigger] sec_of(final(st), p) == if op_pid(op@) == p {
                op_effect(sec_of(old(st), p), op@)
            } else {
                sec_of(old(st), p)
            },
{
    match op {
        SecOp::FileCreate(p) => incr_file_create(st, *p, 1),
        SecOp::SocketOpen(p) => incr_socket_open(st, *p, 1),
        SecOp::ChildSpawn(p) => incr_child_spawn(st, *p, 1),
        SecOp::Evaluate(p) => {
            proof {
                let c = old(st).counters(*p);
                assert(behavior_verdict(c) == verdict_of(sec_of(old(st), *p).2));
            }
            evaluate_behavior(st, *p)
        },
        SecOp::SetScore(p, v) => set_process_score(st, *p, *v),
        SecOp::Record(p, l, d) => {
            proof {
                lemma_score_range(st, *p);
            }
            record_contribution(st, *p, l.as_str(), *d)
        },
    }
}

/// Apply the operations `ops`, in order.
fn run_ops(st: &mut SecurityState, ops: &Vec<SecOp>)
    requires
        old(st).wf(),
        ops_ok(ops@.map_values(|o: SecOp| o@)),
    ensures
        final(st).wf(),
        forall|p: u32| #[trigger] sec_of(final(st), p) == fold_ops(sec_of(old(st), p), ops@.map_values(|o: SecOp| o@), p),
{
    let ghost ov = ops@.map_values(|o: SecOp| o@);
    let n = ops.len();
    for i in 0..n
        invariant
            n == ops@.len(),
            ov == ops@.map_values(|o: SecOp| o@),
            ops_ok(ov),
            st.wf(),
            forall|p: u32| #[trigger] sec_of(st, p) == fold_ops(sec_of(old(st), p), ov.take(i as int), p),
    {
        let ghost mid = *st;
        proof {
            assert(ov[i as int] == ops@[i as int]@);
        }
        run_op(st, &ops[i]);
        proof {
            assert(ov.take(i + 1).drop_last() =~= ov.take(i as int));
            assert(ov.take(i + 1).last() == ov[i as int]);
            assert forall|p: u32| #[trigger] sec_of(st, p) == fold_ops(sec_of(old(st), p), ov.take(i + 1), p) by {
                assert(sec_of(&mid, p) == fold_ops(sec_of(old(st), p), ov.take(i as int), p));
            }
        }
    }
    proof {
        assert(ov.take(n as int) =~= ov);
    }
}

// ---------------------------------------------------------------------------------------------
// Reaction to process starts
// ---------------------------------------------------------------------------------------------

/// What the security engine reports.
pub enum SecurityEvent {
    PowershellSpawned { pid: u32 },
    /// A process start attributed to its originator: the top-most known ancestor, and the
    /// chain of known ancestors from it down to the parent as `name(pid)` entries.
    ProcessSpawnedBy { pid: u32, origin_pid: u32, origin_name: String, lineage: Vec<String> },
    UnsignedProcessStarted { pid: u32, name: String },
    /// An informational verification result (unknown or failed verification).
    ProcessSignatureVerification { pid: u32, name: String, result: SignatureVerification },
    HandleHijackDetected { pid: u32 },
}

pub enum SecurityEventView {
    PowershellSpawned { pid: u32 },
    ProcessSpawnedBy { pid: u32, origin_pid: u32, origin_name: Seq<char>, lineage: Seq<Seq<char>> },
    UnsignedProcessStarted { pid: u32, name: Seq<char> },
    ProcessSignatureVerification { pid: u32, name: Seq<char>, result: SignatureVerification },
    HandleHijackDetected { pid: u32 },
}

impl View for SecurityEvent {
    type V = SecurityEventView;

    open spec fn view(&self) -> SecurityEventView {
        match self {
            SecurityEvent::PowershellSpawned { pid } => SecurityEventView::PowershellSpawned { pid: *pid },
            SecurityEvent::ProcessSpawnedBy { pid, origin_pid, origin_name, lineage } => SecurityEventView::ProcessSpawnedBy {
                pid: *pid,
                origin_pid: *origin_pid,
                origin_name: origin_name@,
                lineage: lineage@.map_values(|s: String| s@),
            },
            SecurityEvent::UnsignedProcessStarted { pid, name } => SecurityEventView::UnsignedProcessStarted {
                pid: *pid,
                name: name@,
            },
            SecurityEvent::ProcessSignatureVerification { pid, name, result } => SecurityEventView::ProcessSignatureVerification {
                pid: *pid,
                name: name@,
                result: *result,
            },
            SecurityEvent::HandleHijackDetected { pid } => SecurityEventView::HandleHijackDetected { pid: *pid },
        }
    }
}

pub open spec fn security_events_view(v: Seq<SecurityEvent>) -> Seq<SecurityEventView> {
    v.map_values(|e: SecurityEvent| e@)
}

pub open spec fn is_powershell(lower: Seq<char>) -> bool {
    seq_contains(lower, "powershell"@)
}

pub open spec fn is_browser(lower: Seq<char>) -> bool {
    seq_contains(lower, "chrome"@) || seq_contains(lower, "brave"@) || seq_contains(lower, "edge"@)
}

pub open spec fn is_script_engine(lower: Seq<char>) -> bool {
    ||| seq_contains(lower, "powershell"@)
    ||| seq_contains(lower, "pwsh"@)
    ||| seq_contains(lower, "cscript"@)
    ||| seq_contains(lower, "wscript"@)
}

pub open spec fn is_console_host(lower: Seq<char>) -> bool {
    seq_contains(lower, "conhost"@) || seq_contains(lower, "cmd"@) || seq_contains(lower, "powershell"@)
}

pub open spec fn is_devtool(lower: Seq<char>) -> bool {
    seq_contains(lower, "code"@) || seq_contains(lower, "vscode"@)
}

/// The behavior bookkeeping of a start: file and socket activity of the process itself,
/// each followed by an evaluation, then a spawned child for its parent and an evaluation.
pub open spec fn behavior_ops(info: InfoView) -> Seq<SecOpView> {
    let l = lowercase(info.name);
    (if is_powershell(l) {
        seq![SecOpView::FileCreate(info.pid), SecOpView::Evaluate(info.pid)]
    } else {
        Seq::empty()
    }) + (if is_browser(l) {
        seq![SecOpView::SocketOpen(info.pid), SecOpView::Evaluate(info.pid)]
    } else {
        Seq::empty()
    }) + (if info.parent_pid != 0 {
        seq![SecOpView::ChildSpawn(info.parent_pid), SecOpView::Evaluate(info.parent_pid)]
    } else {
        Seq::empty()
    })
}

/// The score updates for a signature verdict.
pub open spec fn signature_ops(info: InfoView, ver: SignatureVerification) -> Seq<SecOpView> {
    match ver {
        SignatureVerification::Signed => seq![SecOpView::SetScore(info.pid, 0), SecOpView::Record(info.pid, "signed"@, 0)],
        SignatureVerification::Unsigned => seq![SecOpView::Record(info.pid, "unsigned"@, 90)],
        SignatureVerification::VerificationFailed => seq![SecOpView::Record(info.pid, "verification_failed"@, 20)],
        SignatureVerification::Unknown => Seq::empty(),
    }
}

/// Whether some known ancestor of `pid` in snapshot `s` is a developer tool.
pub open spec fn has_devtool_ancestor(s: ProcessState, pid: u32) -> bool {
    let anc = s.lineage.ancestors_of(pid);
    exists|i: int|
        0 <= i < anc.len() && has_pid(s.procs(), #[trigger] anc[i]) && is_devtool(lowercase(proc_with(s.procs(), anc[i]).name))
}

/// The explainable contributions of a script engine start.
pub open spec fn script_ops(info: InfoView, latest: Option<ProcessState>) -> Seq<SecOpView> {
    let l = lowercase(info.name);
    if is_script_engine(l) {
        seq![SecOpView::Record(info.pid, "script_engine"@, 20)] + (if seq_contains(l, "powershell"@) || seq_contains(l, "pwsh"@) {
            seq![SecOpView::Record(info.pid, "powershell"@, 20)]
        } else {
            Seq::empty()
        }) + match latest {
            Some(s) => (if has_pid(s.procs(), info.parent_pid) && is_console_host(
                lowercase(proc_with(s.procs(), info.parent_pid).name),
            ) {
                seq![SecOpView::Record(info.pid, "interactive_console"@, 10)]
            } else {
                Seq::empty()
            }) + (if has_devtool_ancestor(s, info.pid) {
                seq![SecOpView::Record(info.pid, "spawned_from_devtool"@, 10)]
            } else {
                Seq::empty()
            }),
            None => Seq::empty(),
        }
    } else {
        Seq::empty()
    }
}

/// Every bookkeeping update of a start, in order.
pub open spec fn started_ops(info: InfoView, latest: Option<ProcessState>, ver: SignatureVerification) -> Seq<SecOpView> {
    behavior_ops(info) + signature_ops(info, ver) + script_ops(info, latest)
}

/// The `name(pid)` entry of a lineage.
pub open spec fn lineage_entry(p: InfoView) -> Seq<char> {
    p.name + "("@ + decimal(p.pid as nat) + ")"@
}

/// The attribution of a start to its originator, when the snapshot knows ancestors of it.
pub open spec fn spawned_by_events(info: InfoView, latest: Option<ProcessState>) -> Seq<SecurityEventView> {
    match latest {
        Some(s) => {
            let anc = s.lineage.ancestors_of(info.pid);
            if anc.len() > 0 {
                let origin = anc.last();
                let procs = s.procs();
                seq![
                    SecurityEventView::ProcessSpawnedBy {
                        pid: info.pid,
                        origin_pid: origin,
                        origin_name: if has_pid(procs, origin) {
                            proc_with(procs, origin).name
                        } else {
                            "<unknown>"@
                        },
                        lineage: anc.reverse().filter(|a: u32| has_pid(procs, a)).map_values(
                            |a: u32| lineage_entry(proc_with(procs, a)),
                        ),
                    },
                ]
            } else {
                Seq::empty()
            }
        },
        None => Seq::empty(),
    }
}

/// The events of a start, given the bookkeeping `old` before it.
pub open spec fn started_events(
    old: &SecurityState,
    info: InfoView,
    latest: Option<ProcessState>,
    ver: SignatureVerification,
) -> Seq<SecurityEventView> {
    let l = lowercase(info.name);
    (if is_powershell(l) {
        seq![SecurityEventView::PowershellSpawned { pid: info.pid }]
    } else {
        Seq::empty()
    }) + (if info.parent_pid != 0 && status_of_score(
        fold_ops(sec_of(old, info.parent_pid), behavior_ops(info), info.parent_pid).0,
    ) == SecurityStatus::Critical {
        seq![SecurityEventView::HandleHijackDetected { pid: info.parent_pid }]
    } else {
        Seq::empty()
    }) + spawned_by_events(info, latest) + match ver {
        SignatureVerification::Signed => Seq::empty(),
        SignatureVerification::Unsigned => seq![SecurityEventView::UnsignedProcessStarted { pid: info.pid, name: info.name }],
        _ => seq![SecurityEventView::ProcessSignatureVerification { pid: info.pid, name: info.name, result: ver }],
    }
}

fn push_op(ops: &mut Vec<SecOp>, op: SecOp)
    ensures
        final(ops)@.map_values(|o: SecOp| o@) == old(ops)@.map_values(|o: SecOp| o@).push(op@),
{
    let ghost before = ops@;
    ops.push(op);
    proof {
        assert(ops@.map_values(|o: SecOp| o@) =~= before.map_values(|o: SecOp| o@).push(op@));
    }
}

fn record_op(pid: u32, label: &str, delta: i32) -> (op: SecOp)
    ensures
        op@ == SecOpView::Record(pid, label@, delta),
{
    SecOp::Record(pid, string_of(label), delta)
}

fn build_behavior_ops(info: &ProcessInfo, lower: &String) -> (ops: Vec<SecOp>)
    requires
        lower@ == lowercase(info.name@),
    ensures
        ops@.map_values(|o: SecOp| o@) == behavior_ops(info@),
        ops_ok(ops@.map_values(|o: SecOp| o@)),
{
    let mut ops: Vec<SecOp> = Vec::new();
    if str_contains(lower.as_str(), "powershell") {
        push_op(&mut ops, SecOp::FileCreate(info.pid));
        push_op(&mut ops, SecOp::Evaluate(info.pid));
    }
    if str_contains(lower.as_str(), "chrome") || str_contains(lower.as_str(), "brave") || str_contains(lower.as_str(), "edge") {
        push_op(&mut ops, SecOp::SocketOpen(info.pid));
        push_op(&mut ops, SecOp::Evaluate(info.pid));
    }
    if info.parent_pid != 0 {
        push_op(&mut ops, SecOp::ChildSpawn(info.parent_pid));
        push_op(&mut ops, SecOp::Evaluate(info.parent_pid));
    }
    assert(ops@.map_values(|o: SecOp| o@) =~= behavior_ops(info@));
    ops
}

fn build_signature_ops(info: &ProcessInfo, ver: SignatureVerification) -> (ops: Vec<SecOp>)
    ensures
        ops@.map_values(|o: SecOp| o@) == signature_ops(info@, ver),
        ops_ok(ops@.map_values(|o: SecOp| o@)),
{
    let mut ops: Vec<SecOp> = Vec::new();
    match ver {
        SignatureVerification::Signed => {
            push_op(&mut ops, SecOp::SetScore(info.pid, 0));
            push_op(&mut ops, record_op(info.pid, "signed", 0));
        },
        SignatureVerification::Unsigned => {
            push_op(&mut ops, record_op(info.pid, "unsigned", 90));
        },
        SignatureVerification::VerificationFailed => {
            push_op(&mut ops, record_op(info.pid, "verification_failed", 20));
        },
        SignatureVerification::Unknown => {},
    }
    assert(ops@.map_values(|o: SecOp| o@) =~= signature_ops(info@, ver));
    ops
}

/// Whether some known ancestor of `pid` in `s` is a developer tool.
fn find_devtool_ancestor(s: &ProcessState, pid: u32) -> (b: bool)
    requires
        s.wf(),
    ensures
        b == has_devtool_ancestor(*s, pid),
{
    let anc = s.lineage.get_ancestors(pid);
    let n = anc.len();
    for i in 0..n
        invariant
            n == anc@.len(),
            s.wf(),
            anc@ == s.lineage.ancestors_of(pid),
            forall|j: int|
                0 <= j < i ==> !(has_pid(s.procs(), #[trigger] anc@[j]) && is_devtool(lowercase(proc_with(s.procs(), anc@[j]).name))),
    {
        let a = anc[i];
        match s.find_process(a) {
            Some(k) => {
                proof {
                    assert(s.procs()[k as int] == s.processes@[k as int]@);
                }
                let pn = to_lowercase(s.processes[k].name.as_str());
                if str_contains(pn.as_str(), "code") || str_contains(pn.as_str(), "vscode") {
                    assert(has_pid(s.procs(), anc@[i as int]));
                    return true;
                }
            },
            None => {},
        }
    }
    false
}

fn build_script_ops(info: &ProcessInfo, lower: &String, latest: &Option<ProcessState>) -> (ops: Vec<SecOp>)
    requires
        lower@ == lowercase(info.name@),
        latest is Some ==> latest->0.wf(),
    ensures
        ops@.map_values(|o: SecOp| o@) == script_ops(info@, *latest),
        ops_ok(ops@.map_values(|o: SecOp| o@)),
{
    let mut ops: Vec<SecOp> = Vec::new();
    let l = lower.as_str();
    if str_contains(l, "powershell") || str_contains(l, "pwsh") || str_contains(l, "cscript") || str_contains(l, "wscript") {
        push_op(&mut ops, record_op(info.pid, "script_engine", 20));
        if str_contains(l, "powershell") || str_contains(l, "pwsh") {
            push_op(&mut ops, record_op(info.pid, "powershell", 20));
        }
        let ghost mid = ops@.map_values(|o: SecOp| o@);
        match latest {
            Some(snap) => {
                match snap.find_process(info.parent_pid) {
                    Some(k) => {
                        proof {
                            assert(snap.procs()[k as int] == snap.processes@[k as int]@);
                        }
                        let parent_name = to_lowercase(snap.processes[k].name.as_str());
                        let pl = parent_name.as_str();
                        if str_contains(pl, "conhost") || str_contains(pl, "cmd") || str_contains(pl, "powershell") {
                            push_op(&mut ops, record_op(info.pid, "interactive_console", 10));
                        }
                    },
                    None => {},
                }
                let ghost mid2 = ops@.map_values(|o: SecOp| o@);
                if find_devtool_ancestor(snap, info.pid) {
                    push_op(&mut ops, record_op(info.pid, "spawned_from_devtool", 10));
                }
                proof {
                    assert(ops@.map_values(|o: SecOp| o@) =~= script_ops(info@, *latest));
                }
            },
            None => {
                assert(ops@.map_values(|o: SecOp| o@) =~= script_ops(info@, *latest));
            },
        }
    } else {
        assert(ops@.map_values(|o: SecOp| o@) =~= script_ops(info@, *latest));
    }
    ops
}

fn push_event(events: &mut Vec<SecurityEvent>, e: SecurityEvent)
    ensures
        security_events_view(final(events)@) == security_events_view(old(events)@).push(e@),
{
    let ghost before = events@;
    events.push(e);
    proof {
        assert(security_events_view(events@) =~= security_events_view(before).push(e@));
    }
}

/// The attribution event of a start, if the snapshot knows ancestors of the process.
fn spawned_by(info: &ProcessInfo, latest: &Option<ProcessState>, events: &mut Vec<SecurityEvent>)
    requires
        latest is Some ==> latest->0.wf(),
    ensures
        security_events_view(final(events)@) == security_events_view(old(events)@) + spawned_by_events(info@, *latest),
{
    match latest {
        Some(s) => {
            let anc = s.lineage.get_ancestors(info.pid);
            if anc.len() > 0 {
                let origin = anc[anc.len() - 1];
                let origin_name = match s.find_process(origin) {
                    Some(k) => {
                        proof {
                            assert(s.procs()[k as int] == s.processes@[k as int]@);
                        }
                        s.processes[k].name.clone()
                    },
                    None => string_of("<unknown>"),
                };
                let ghost procs = s.procs();
                let ghost rev = anc@.reverse();
                let ghost p = |a: u32| has_pid(procs, a);
                let ghost f = |a: u32| lineage_entry(proc_with(procs, a));
                let mut lineage: Vec<String> = Vec::new();
                let n = anc.len();
                for t in 0..n
                    invariant
                        n == anc@.len(),
                        s.wf(),
                        procs == s.procs(),
                        rev == anc@.reverse(),
                        p == (|a: u32| has_pid(procs, a)),
                        f == (|a: u32| lineage_entry(proc_with(procs, a))),
                        lineage@.map_values(|x: String| x@) == rev.take(t as int).filter(p).map_values(f),
                {
                    let a = anc[n - 1 - t];
                    proof {
                        assert(rev[t as int] == a);
                        crate::seq_facts::lemma_take_next(rev, t as int);
                        crate::seq_facts::lemma_filter_map_push(rev.take(t as int), a, p, f);
                    }
                    match s.find_process(a) {
                        Some(k) => {
                            proof {
                                assert(s.procs()[k as int] == s.processes@[k as int]@);
                            }
                            let pr = &s.processes[k];
                            let mut entry = pr.name.clone();
                            entry.append("(");
                            push_decimal(&mut entry, pr.pid as u128);
                            entry.append(")");
                            let ghost before = lineage@;
                            lineage.push(entry);
                            proof {
                                assert(lineage@.map_values(|x: String| x@) =~= before.map_values(|x: String| x@).push(
                                    lineage@[before.len() as int]@,
                                ));
                            }
                        },
                        None => {},
                    }
                }
                proof {
                    assert(rev.take(n as int) =~= rev);
                }
                push_event(events, SecurityEvent::ProcessSpawnedBy { pid: info.pid, origin_pid: origin, origin_name, lineage });
                proof {
                    assert(security_events_view(events@) =~= security_events_view(old(events)@) + spawned_by_events(info@, *latest));
                }
            } else {
                assert(security_events_view(events@) =~= security_events_view(old(events)@) + spawned_by_events(info@, *latest));
            }
        },
        None => {
            assert(security_events_view(events@) =~= security_events_view(old(events)@) + spawned_by_events(info@, *latest));
        },
    }
}

/// React to a process start: update the bookkeeping of the process and of its parent
/// (behavior counters and their evaluation, the signature verdict `ver`, script-engine
/// signals) and report what was observed, in order.
pub fn on_process_started(
    st: &mut SecurityState,
    latest: &Option<ProcessState>,
    info: &ProcessInfo,
    ver: SignatureVerification,
) -> (events: Vec<SecurityEvent>)
    requires
        old(st).wf(),
        latest is Some ==> latest->0.wf(),
    ensures
        final(st).wf(),
        forall|p: u32| #[trigger] sec_of(final(st), p) == fold_ops(sec_of(old(st), p), started_ops(info@, *latest, ver), p),
        security_events_view(events@) == started_events(old(st), info@, *latest, ver),
{
    let lower = to_lowercase(info.name.as_str());
    let mut events: Vec<SecurityEvent> = Vec::new();
    let ghost l = lowercase(info.name@);
    if str_contains(lower.as_str(), "powershell") {
        push_event(&mut events, SecurityEvent::PowershellSpawned { pid: info.pid });
    }
    let ghost e0 = security_events_view(events@);
    assert(e0 =~= (if is_powershell(l) {
        seq![SecurityEventView::PowershellSpawned { pid: info.pid }]
    } else {
        Seq::empty()
    }));
    let ops1 = build_behavior_ops(info, &lower);
    run_ops(st, &ops1);
    let ghost mid = *st;
    if info.parent_pid != 0 {
        let status = status_for_pid(st, info.parent_pid);
        proof {
            assert(sec_of(&mid, info.parent_pid) == fold_ops(sec_of(old(st), info.parent_pid), behavior_ops(info@), info.parent_pid));
        }
        if status == SecurityStatus::Critical {
            push_event(&mut events, SecurityEvent::HandleHijackDetected { pid: info.parent_pid });
        }
    }
    let ghost e1 = security_events_view(events@);
    assert(e1 =~= e0 + (if info.parent_pid != 0 && status_of_score(
        fold_ops(sec_of(old(st), info.parent_pid), behavior_ops(info@), info.parent_pid).0,
    ) == SecurityStatus::Critical {
        seq![SecurityEventView::HandleHijackDetected { pid: info.parent_pid }]
    } else {
        Seq::empty()
    }));
    spawned_by(info, latest, &mut events);
    let ghost e2 = security_events_view(events@);
    match ver {
        SignatureVerification::Signed => {},
        SignatureVerification::Unsigned => {
            push_event(&mut events, SecurityEvent::UnsignedProcessStarted { pid: info.pid, name: info.name.clone() });
        },
        _ => {
            push_event(
                &mut events,
                SecurityEvent::ProcessSignatureVerification { pid: info.pid, name: info.name.clone(), result: ver },
            );
        },
    }
    let ops2 = build_signature_ops(info, ver);
    run_ops(st, &ops2);
    let ghost mid2 = *st;
    let ops3 = build_script_ops(info, &lower, latest);
    run_ops(st, &ops3);
    proof {
        let o1 = ops1@.map_values(|o: SecOp| o@);
        let o2 = ops2@.map_values(|o: SecOp| o@);
        let o3 = ops3@.map_values(|o: SecOp| o@);
        assert forall|p: u32| #[trigger] sec_of(st, p) == fold_ops(sec_of(old(st), p), started_ops(info@, *latest, ver), p) by {
            lemma_fold_ops_append(sec_of(old(st), p), o1, o2, p);
            lemma_fold_ops_append(sec_of(old(st), p), o1 + o2, o3, p);
            assert(sec_of(&mid, p) == fold_ops(sec_of(old(st), p), o1, p));
            assert(sec_of(&mid2, p) == fold_ops(sec_of(&mid, p), o2, p));
        }
        assert(security_events_view(events@) =~= started_events(old(st), info@, *latest, ver));
    }
    events
}

/// Running `a` and then `b` is running `a + b`.
pub proof fn lemma_fold_ops_append(t: PidSec, a: Seq<SecOpView>, b: Seq<SecOpView>, p: u32)
    ensures
        fold_ops(fold_ops(t, a, p), b, p) == fold_ops(t, a + b, p),
    decreases b.len(),
{
    if b.len() == 0 {
        assert(a + b =~= a);
    } else {
        lemma_fold_ops_append(t, a, b.drop_last(), p);
        assert((a + b).drop_last() =~= a + b.drop_last());
        assert((a + b).last() == b.last());
    }
}

/// Whether every operation of `ops` is about process `p`.
spec fn all_about(ops: Seq<SecOpView>, p: u32) -> bool {
    forall|i: int| 0 <= i < ops.len() ==> op_pid(#[trigger] ops[i]) == p
}

proof fn lemma_all_about_add(a: Seq<SecOpView>, b: Seq<SecOpView>, p: u32)
    requires
        all_about(a, p),
        all_about(b, p),
    ensures
        all_about(a + b, p),
{
    assert forall|i: int| 0 <= i < (a + b).len() implies op_pid(#[trigger] (a + b)[i]) == p by {
        if i < a.len() {
            assert((a + b)[i] == a[i]);
        } else {
            assert((a + b)[i] == b[i - a.len()]);
        }
    }
}

/// Operations about other processes leave the bookkeeping of `p` as it is.
proof fn lemma_fold_others(t: PidSec, ops: Seq<SecOpView>, p: u32, q: u32)
    requires
        all_about(ops, q),
        q != p,
    ensures
        fold_ops(t, ops, p) == t,
    decreases ops.len(),
{
    if ops.len() > 0 {
        assert(all_about(ops.drop_last(), q));
        lemma_fold_others(t, ops.drop_last(), p, q);
        assert(op_pid(ops[ops.len() - 1]) == q);
    }
}

/// The signature and script operations of a start are all about the started process.
proof fn lemma_own_ops(info: InfoView, latest: Option<ProcessState>, ver: SignatureVerification)
    ensures
        all_about(signature_ops(info, ver) + script_ops(info, latest), info.pid),
        all_about(
            (if is_powershell(lowercase(info.name)) {
                seq![SecOpView::FileCreate(info.pid), SecOpView::Evaluate(info.pid)]
            } else {
                Seq::empty()
            }) + (if is_browser(lowercase(info.name)) {
                seq![SecOpView::SocketOpen(info.pid), SecOpView::Evaluate(info.pid)]
            } else {
                Seq::empty()
            }),
            info.pid,
        ),
{
    let p = info.pid;
    let l = lowercase(info.name);
    let sig = signature_ops(info, ver);
    assert(all_about(sig, p));
    let s1: Seq<SecOpView> = seq![SecOpView::Record(p, "script_engine"@, 20)];
    let s2: Seq<SecOpView> = if seq_contains(l, "powershell"@) || seq_contains(l, "pwsh"@) {
        seq![SecOpView::Record(p, "powershell"@, 20)]
    } else {
        Seq::empty()
    };
    assert(all_about(s1, p));
    assert(all_about(s2, p));
    lemma_all_about_add(s1, s2, p);
    match latest {
        Some(s) => {
            let s3: Seq<SecOpView> = if has_pid(s.procs(), info.parent_pid) && is_console_host(
                lowercase(proc_with(s.procs(), info.parent_pid).name),
            ) {
                seq![SecOpView::Record(p, "interactive_console"@, 10)]
            } else {
                Seq::empty()
            };
            let s4: Seq<SecOpView> = if has_devtool_ancestor(s, p) {
                seq![SecOpView::Record(p, "spawned_from_devtool"@, 10)]
            } else {
                Seq::empty()
            };
            assert(all_about(s3, p));
            assert(all_about(s4, p));
            lemma_all_about_add(s3, s4, p);
            lemma_all_about_add(s1 + s2, s3 + s4, p);
        },
        None => {
            assert(all_about(s1 + s2 + Seq::<SecOpView>::empty(), p));
        },
    }
    let sc = script_ops(info, latest);
    assert(all_about(sc, p));
    lemma_all_about_add(sig, sc, p);
    let a: Seq<SecOpView> = if is_powershell(l) {
        seq![SecOpView::FileCreate(p), SecOpView::Evaluate(p)]
    } else {
        Seq::empty()
    };
    let b: Seq<SecOpView> = if is_browser(l) {
        seq![SecOpView::SocketOpen(p), SecOpView::Evaluate(p)]
    } else {
        Seq::empty()
    };
    assert(all_about(a, p));
    assert(all_about(b, p));
    lemma_all_about_add(a, b, p);
}

/// Law: a start with a parent counts one spawned child against the parent, and then
/// evaluates the parent's behavior with the new count (which may record a threshold
/// contribution); every other process apart from the started one, whose own counts of
/// spawned children stay as they were, is left untouched.
pub proof fn law_start_counts_child_for_parent(
    info: InfoView,
    latest: Option<ProcessState>,
    ver: SignatureVerification,
    t: PidSec,
    other: u32,
)
    requires
        info.parent_pid != 0,
        info.parent_pid != info.pid,
    ensures
        ({
            let c = (t.2.0, t.2.1, sat_add_u32(t.2.2, 1));
            fold_ops(t, started_ops(info, latest, ver), info.parent_pid) == match verdict_of(c) {
                Some((label, delta)) => (clamp_score(t.0, delta as int), t.1.push((label, delta)), c),
                None => (t.0, t.1, c),
            }
        }),
        fold_ops(t, started_ops(info, latest, ver), info.pid).2.2 == t.2.2,
        other != info.pid && other != info.parent_pid ==> fold_ops(t, started_ops(info, latest, ver), other) == t,
{
    let p = info.pid;
    let q = info.parent_pid;
    let l = lowercase(info.name);
    let ab = (if is_powershell(l) {
        seq![SecOpView::FileCreate(p), SecOpView::Evaluate(p)]
    } else {
        Seq::empty()
    }) + (if is_browser(l) {
        seq![SecOpView::SocketOpen(p), SecOpView::Evaluate(p)]
    } else {
        Seq::empty()
    });
    let c: Seq<SecOpView> = seq![SecOpView::ChildSpawn(q), SecOpView::Evaluate(q)];
    let rest = signature_ops(info, ver) + script_ops(info, latest);
    lemma_own_ops(info, latest, ver);
    assert(behavior_ops(info) == ab + c);
    assert(started_ops(info, latest, ver) =~= ab + c + rest);
    lemma_fold_ops_append(t, ab + c, rest, q);
    lemma_fold_ops_append(t, ab, c, q);
    lemma_fold_others(t, ab, q, p);
    let after = fold_ops(t, ab + c, q);
    lemma_fold_others(after, rest, q, p);
    let one: Seq<SecOpView> = seq![SecOpView::ChildSpawn(q)];
    assert(c.drop_last() =~= one);
    assert(one.drop_last() =~= Seq::<SecOpView>::empty());
    assert(fold_ops(t, Seq::<SecOpView>::empty(), q) == t);
    assert(fold_ops(t, one.drop_last(), q) == t);
    assert(one.last() == SecOpView::ChildSpawn(q));
    assert(fold_ops(t, one, q) == op_effect(t, SecOpView::ChildSpawn(q)));
    assert(c.last() == SecOpView::Evaluate(q));
    assert(fold_ops(t, c, q) == op_effect(op_effect(t, SecOpView::ChildSpawn(q)), SecOpView::Evaluate(q)));
    assert(after == fold_ops(t, c, q));
    // The started process: only its own file, socket and signature operations touch it.
    lemma_fold_ops_append(t, ab + c, rest, p);
    lemma_fold_ops_append(t, ab, c, p);
    lemma_fold_no_child(t, ab, p);
    lemma_fold_others(fold_ops(t, ab, p), c, p, q);
    lemma_fold_no_child(fold_ops(t, ab + c, p), rest, p);
    if other != p && other != q {
        lemma_fold_ops_append(t, ab + c, rest, other);
        lemma_fold_ops_append(t, ab, c, other);
        lemma_fold_others(t, ab, other, p);
        lemma_fold_others(t, c, other, q);
        lemma_fold_others(t, rest, other, p);
    }
}

/// Operations about `p` that spawn no child leave its count of spawned children as it is.
proof fn lemma_fold_no_child(t: PidSec, ops: Seq<SecOpView>, p: u32)
    requires
        all_about(ops, p),
        forall|i: int| 0 <= i < ops.len() ==> !(#[trigger] ops[i] is ChildSpawn),
    ensures
        fold_ops(t, ops, p).2.2 == t.2.2,
    decreases ops.len(),
{
    if ops.len() > 0 {
        assert(all_about(ops.drop_last(), p));
        lemma_fold_no_child(t, ops.drop_last(), p);
        assert(!(ops[ops.len() - 1] is ChildSpawn));
    }
}

/// Subscribe the engine to process events; the subscription is kept in `held`.
pub fn register(bus: &mut EventBus, held: &mut Vec<Subscription>)
    requires
        old(bus).wf(),
        old(bus).next_id < usize::MAX,
    ensures
        final(bus).wf(),
        final(bus).next_id == old(bus).next_id + 1,
        final(bus).subs@ == old(bus).subs@.push(Sub { id: old(bus).next_id, topic: Topic::Process }),
        final(held)@ == old(held)@.push(Subscription { id: old(bus).next_id, topic: Topic::Process }),
{
    hold(bus, held, Topic::Process);
}

/// Unsubscribe every subscription held by the engine.
pub fn unregister(bus: &mut EventBus, held: &mut Vec<Subscription>)
    requires
        old(bus).wf(),
    ensures
        final(bus).wf(),
        final(bus).subs@ == released_all(old(bus).subs@, old(held)@, Topic::Process),
        final(held)@.len() == 0,
{
    release_all(bus, held, Topic::Process);
}

} // verus!
