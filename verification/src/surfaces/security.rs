use crate::event_bus::{EventBus, Sub, Topic};
use crate::runtime::{hold, release_all, released_all, Subscription};
use crate::security_engine::{SecurityEvent, SecurityEventView, SignatureVerification};
use crate::security_state::BehaviorCounters;
use crate::text::{decimal, join_with, joined_with, push_decimal, string_of, strings_of_vec};
use vstd::prelude::*;
use vstd::string::StringExecFns;

verus! {

/// Subscribe the security surface to security events; the subscription is kept in `held`.
pub fn register(bus: &mut EventBus, held: &mut Vec<Subscription>)
    requires
        old(bus).wf(),
        old(bus).next_id < usize::MAX,
    ensures
        final(bus).wf(),
        final(bus).next_id == old(bus).next_id + 1,
        final(bus).subs@ == old(bus).subs@.push(Sub { id: old(bus).next_id, topic: Topic::Security }),
        final(held)@ == old(held)@.push(Subscription { id: old(bus).next_id, topic: Topic::Security }),
{
    hold(bus, held, Topic::Security);
}

/// Unsubscribe every held security-event subscription.
pub fn unregister(bus: &mut EventBus, held: &mut Vec<Subscription>)
    requires
        old(bus).wf(),
    ensures
        final(bus).wf(),
        final(bus).subs@ == released_all(old(bus).subs@, old(held)@, Topic::Security),
        final(held)@.len() == 0,
{
    release_all(bus, held, Topic::Security);
}

/// The name of a verification verdict.
pub open spec fn verdict_label(v: SignatureVerification) -> Seq<char> {
    match v {
        SignatureVerification::Signed => "Signed"@,
        SignatureVerification::Unsigned => "Unsigned"@,
        SignatureVerification::Unknown => "Unknown"@,
        SignatureVerification::VerificationFailed => "VerificationFailed"@,
    }
}

/// The lines the security surface prints for an event; for a spawn attribution, `origin` is
/// the behavior of the originating process.
pub open spec fn security_lines(ev: SecurityEventView, origin: BehaviorCounters) -> Seq<Seq<char>> {
    match ev {
        SecurityEventView::PowershellSpawned { pid } => seq!["[SecuritySurface] Powershell spawned PID:"@ + decimal(pid as nat)],
        SecurityEventView::ProcessSpawnedBy { pid, origin_pid, origin_name, lineage } => seq![
            "[SecuritySurface] Process "@ + decimal(pid as nat) + " was spawned by "@ + origin_name + "("@ + decimal(
                origin_pid as nat,
            ) + ")"@,
        ] + (if lineage.len() > 0 {
            seq!["[SecuritySurface] Lineage: "@ + joined_with(lineage, " -> "@)]
        } else {
            Seq::empty()
        }) + seq![
            "[SecuritySurface] Origin behavior: files="@ + decimal(origin.files_created as nat) + " sockets="@ + decimal(
                origin.sockets_opened as nat,
            ) + " children="@ + decimal(origin.children_spawned as nat) + " (last_updated="@ + decimal(
                origin.last_updated as nat,
            ) + ")"@,
        ],
        SecurityEventView::UnsignedProcessStarted { pid, name } => seq![
            "[SecuritySurface] Unsigned process started: "@ + name + " ("@ + decimal(pid as nat) + ")"@,
        ],
        SecurityEventView::ProcessSignatureVerification { pid, name, result } => seq![
            "[SecuritySurface] Signature check "@ + name + " (pid="@ + decimal(pid as nat) + "): "@ + verdict_label(result),
        ],
        SecurityEventView::HandleHijackDetected { pid } => seq![
            "[SecuritySurface] Handle hijack suspected PID:"@ + decimal(pid as nat),
        ],
    }
}

fn one_line(s: String) -> (r: Vec<String>)
    ensures
        r@.map_values(|x: String| x@) == seq![s@],
{
    let mut r: Vec<String> = Vec::new();
    r.push(s);
    proof {
        assert(r@.map_values(|x: String| x@) =~= seq![s@]);
    }
    r
}

/// The lines the security surface prints for `ev` (see `security_lines`).
pub fn security_text(ev: &SecurityEvent, origin: &BehaviorCounters) -> (r: Vec<String>)
    ensures
        r@.map_values(|x: String| x@) == security_lines(ev@, *origin),
{
    match ev {
        SecurityEvent::PowershellSpawned { pid } => {
            let mut s = string_of("[SecuritySurface] Powershell spawned PID:");
            push_decimal(&mut s, *pid as u128);
            one_line(s)
        },
        SecurityEvent::ProcessSpawnedBy { pid, origin_pid, origin_name, lineage } => {
            let mut r: Vec<String> = Vec::new();
            let mut a = string_of("[SecuritySurface] Process ");
            push_decimal(&mut a, *pid as u128);
            a.append(" was spawned by ");
            a.append(origin_name.as_str());
            a.append("(");
            push_decimal(&mut a, *origin_pid as u128);
            a.append(")");
            r.push(a);
            if lineage.len() > 0 {
                let mut b = string_of("[SecuritySurface] Lineage: ");
                let j = join_with(lineage, " -> ");
                b.append(j.as_str());
                r.push(b);
            }
            let mut c = string_of("[SecuritySurface] Origin behavior: files=");
            push_decimal(&mut c, origin.files_created as u128);
            c.append(" sockets=");
            push_decimal(&mut c, origin.sockets_opened as u128);
            c.append(" children=");
            push_decimal(&mut c, origin.children_spawned as u128);
            c.append(" (last_updated=");
            push_decimal(&mut c, origin.last_updated as u128);
            c.append(")");
            r.push(c);
            proof {
                assert(r@.map_values(|x: String| x@) =~= security_lines(ev@, *origin));
            }
            r
        },
        SecurityEvent::UnsignedProcessStarted { pid, name } => {
            let mut s = string_of("[SecuritySurface] Unsigned process started: ");
            s.append(name.as_str());
            s.append(" (");
            push_decimal(&mut s, *pid as u128);
            s.append(")");
            one_line(s)
        },
        SecurityEvent::ProcessSignatureVerification { pid, name, result } => {
            let mut s = string_of("[SecuritySurface] Signature check ");
            s.append(name.as_str());
            s.append(" (pid=");
            push_decimal(&mut s, *pid as u128);
            s.append("): ");
            match result {
                SignatureVerification::Signed => s.append("Signed"),
                SignatureVerification::Unsigned => s.append("Unsigned"),
                SignatureVerification::Unknown => s.append("Unknown"),
                SignatureVerification::VerificationFailed => s.append("VerificationFailed"),
            }
            one_line(s)
        },
        SecurityEvent::HandleHijackDetected { pid } => {
            let mut s = string_of("[SecuritySurface] Handle hijack suspected PID:");
            push_decimal(&mut s, *pid as u128);
            one_line(s)
        },
    }
}

} // verus!
