use crate::process_state::{InfoView, ProcessState};
use crate::text::{decimal, fixed1, push_decimal, push_fixed1, string_of};
use vstd::prelude::*;
use vstd::string::StringExecFns;

verus! {

broadcast use {vstd::string::group_string_axioms, vstd::seq_lib::group_seq_properties, vstd::seq::group_seq_axioms};

/// What the action layer reports around an action on a process.
pub enum ActionEvent {
    KillAttempt { pid: u32 },
    KillResult { pid: u32, success: bool },
    SuspendAttempt { pid: u32 },
    SuspendResult { pid: u32, success: bool },
    ExportSnapshot { path: String },
}

pub enum ActionEventView {
    KillAttempt { pid: u32 },
    KillResult { pid: u32, success: bool },
    SuspendAttempt { pid: u32 },
    SuspendResult { pid: u32, success: bool },
    ExportSnapshot { path: Seq<char> },
}

impl View for ActionEvent {
    type V = ActionEventView;

    open spec fn view(&self) -> ActionEventView {
        match self {
            ActionEvent::KillAttempt { pid } => ActionEventView::KillAttempt { pid: *pid },
            ActionEvent::KillResult { pid, success } => ActionEventView::KillResult { pid: *pid, success: *success },
            ActionEvent::SuspendAttempt { pid } => ActionEventView::SuspendAttempt { pid: *pid },
            ActionEvent::SuspendResult { pid, success } => ActionEventView::SuspendResult { pid: *pid, success: *success },
            ActionEvent::ExportSnapshot { path } => ActionEventView::ExportSnapshot { path: path@ },
        }
    }
}

/// The action handlers: each handler has a slot, and every event goes to every slot in
/// subscription order.
pub struct ActionBus {
    pub handlers: usize,
}

impl ActionBus {
    pub fn new() -> (b: Self)
        ensures
            b.handlers == 0,
    {
        ActionBus { handlers: 0 }
    }
}

/// Add a handler; returns its slot.
pub fn subscribe(bus: &mut ActionBus) -> (slot: usize)
    requires
        old(bus).handlers < usize::MAX,
    ensures
        slot == old(bus).handlers,
        final(bus).handlers == old(bus).handlers + 1,
{
    let slot = bus.handlers;
    bus.handlers = bus.handlers + 1;
    slot
}

/// The slots of the handlers that receive `ev`: all of them, in subscription order.
pub fn publish(bus: &ActionBus, ev: &ActionEvent) -> (slots: Vec<usize>)
    ensures
        slots@.len() == bus.handlers,
        forall|i: int| 0 <= i < slots@.len() ==> #[trigger] slots@[i] == i,
{
    let mut out: Vec<usize> = Vec::new();
    for i in 0..bus.handlers
        invariant
            out@.len() == i,
            forall|j: int| 0 <= j < out@.len() ==> #[trigger] out@[j] == j,
    {
        out.push(i);
    }
    out
}

/// Why an action was refused before it was attempted.
#[derive(Debug, Clone, Copy, PartialEq, Eq, Structural)]
pub enum ActionError {
    InvalidPid,
}

/// The checks before killing `pid`: pid 0 is refused; otherwise the attempt event to publish.
pub fn kill_preflight(pid: u32) -> (r: Result<ActionEvent, ActionError>)
    ensures
        pid == 0 ==> r == Err::<ActionEvent, ActionError>(ActionError::InvalidPid),
        pid != 0 ==> (r matches Ok(e) && e@ == (ActionEventView::KillAttempt { pid })),
{
    if pid == 0 {
        Err(ActionError::InvalidPid)
    } else {
        Ok(ActionEvent::KillAttempt { pid })
    }
}

/// The event reporting the outcome of a kill.
pub fn kill_result(pid: u32, success: bool) -> (e: ActionEvent)
    ensures
        e@ == (ActionEventView::KillResult { pid, success }),
{
    ActionEvent::KillResult { pid, success }
}

/// The event announcing a suspension attempt.
pub fn suspend_attempt(pid: u32) -> (e: ActionEvent)
    ensures
        e@ == (ActionEventView::SuspendAttempt { pid }),
{
    ActionEvent::SuspendAttempt { pid }
}

/// The event reporting the outcome of a suspension.
pub fn suspend_result(pid: u32, success: bool) -> (e: ActionEvent)
    ensures
        e@ == (ActionEventView::SuspendResult { pid, success }),
{
    ActionEvent::SuspendResult { pid, success }
}

/// The event for an export to `path`, published only when the export succeeded.
pub fn export_event(path: &str, succeeded: bool) -> (e: Option<ActionEvent>)
    ensures
        succeeded ==> (e matches Some(x) && x@ == (ActionEventView::ExportSnapshot { path: path@ })),
        !succeeded ==> e is None,
{
    if succeeded {
        Some(ActionEvent::ExportSnapshot { path: string_of(path) })
    } else {
        None
    }
}

/// The export line of a process.
pub open spec fn export_line(p: InfoView) -> Seq<char> {
    "PID:"@ + decimal(p.pid as nat) + " NAME:"@ + p.name + " CPU:"@ + fixed1(p.cpu_percent_x100 as nat) + " MEM:"@ + fixed1(
        p.memory_mb_x100 as nat,
    ) + " PARENT:"@ + decimal(p.parent_pid as nat)
}

/// The lines of a snapshot export, one per process.
pub fn export_lines(state: &ProcessState) -> (r: Vec<String>)
    ensures
        r@.map_values(|s: String| s@) == state.procs().map_values(|p: InfoView| export_line(p)),
{
    let ghost procs = state.procs();
    let mut out: Vec<String> = Vec::new();
    let n = state.processes.len();
    for i in 0..n
        invariant
            n == procs.len(),
            procs == state.procs(),
            out@.map_values(|s: String| s@) == procs.take(i as int).map_values(|p: InfoView| export_line(p)),
    {
        let p = &state.processes[i];
        let mut s = string_of("PID:");
        push_decimal(&mut s, p.pid as u128);
        s.append(" NAME:");
        s.append(p.name.as_str());
        s.append(" CPU:");
        push_fixed1(&mut s, p.cpu_percent_x100 as u128);
        s.append(" MEM:");
        push_fixed1(&mut s, p.memory_mb_x100 as u128);
        s.append(" PARENT:");
        push_decimal(&mut s, p.parent_pid as u128);
        let ghost before = out@;
        out.push(s);
        proof {
            assert(procs[i as int] == p@);
            assert(out@.map_values(|s: String| s@) =~= before.map_values(|s: String| s@).push(export_line(p@)));
            assert(procs.take(i + 1).map_values(|p: InfoView| export_line(p)) =~= procs.take(i as int).map_values(
                |p: InfoView| export_line(p),
            ).push(export_line(p@)));
        }
    }
    proof {
        assert(procs.take(n as int) =~= procs);
    }
    out
}

} // verus!
