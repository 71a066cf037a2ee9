use crate::event_bus::{without, EventBus, Sub, Topic};
use crate::process_state::ProcessState;
use vstd::prelude::*;

verus! {

/// A live subscription: the id the bus handed out and the topic it listens to.
pub struct Subscription {
    pub id: usize,
    pub topic: Topic,
}

impl Subscription {
    fn new(id: usize, topic: Topic) -> (s: Self)
        ensures
            s.id == id,
            s.topic == topic,
    {
        Subscription { id, topic }
    }
}

/// The effect of subscribing to `topic` on `old`: `sub` is the new subscription.
pub open spec fn subscribed(old: &EventBus, new: &EventBus, topic: Topic, sub: &Subscription) -> bool {
    &&& new.wf()
    &&& sub.id == old.next_id
    &&& sub.topic == topic
    &&& new.next_id == old.next_id + 1
    &&& new.subs@ == old.subs@.push(Sub { id: sub.id, topic })
}

/// The effect of unsubscribing `id` from `topic` on `old`.
pub open spec fn unsubscribed(old: &EventBus, new: &EventBus, topic: Topic, id: usize) -> bool {
    &&& new.wf()
    &&& new.next_id == old.next_id
    &&& new.subs@ == without(old.subs@, topic, id)
}

fn subscribe_to(bus: &mut EventBus, topic: Topic) -> (s: Subscription)
    requires
        old(bus).wf(),
        old(bus).next_id < usize::MAX,
    ensures
        subscribed(old(bus), final(bus), topic, &s),
{
    let id = bus.subscribe(topic);
    Subscription::new(id, topic)
}

pub fn subscribe_to_process_events(bus: &mut EventBus) -> (s: Subscription)
    requires
        old(bus).wf(),
        old(bus).next_id < usize::MAX,
    ensures
        subscribed(old(bus), final(bus), Topic::Process, &s),
{
    subscribe_to(bus, Topic::Process)
}

pub fn unsubscribe_from_process_events(bus: &mut EventBus, id: usize)
    requires
        old(bus).wf(),
    ensures
        unsubscribed(old(bus), final(bus), Topic::Process, id),
{
    bus.unsubscribe(Topic::Process, id);
}

pub fn subscribe_to_cpu_events(bus: &mut EventBus) -> (s: Subscription)
    requires
        old(bus).wf(),
        old(bus).next_id < usize::MAX,
    ensures
        subscribed(old(bus), final(bus), Topic::Cpu, &s),
{
    subscribe_to(bus, Topic::Cpu)
}

pub fn unsubscribe_from_cpu_events(bus: &mut EventBus, id: usize)
    requires
        old(bus).wf(),
    ensures
        unsubscribed(old(bus), final(bus), Topic::Cpu, id),
{
    bus.unsubscribe(Topic::Cpu, id);
}

pub fn subscribe_to_memory_events(bus: &mut EventBus) -> (s: Subscription)
    requires
        old(bus).wf(),
        old(bus).next_id < usize::MAX,
    ensures
        subscribed(old(bus), final(bus), Topic::Memory, &s),
{
    subscribe_to(bus, Topic::Memory)
}

pub fn unsubscribe_from_memory_events(bus: &mut EventBus, id: usize)
    requires
        old(bus).wf(),
    ensures
        unsubscribed(old(bus), final(bus), Topic::Memory, id),
{
    bus.unsubscribe(Topic::Memory, id);
}

pub fn subscribe_to_security_events(bus: &mut EventBus) -> (s: Subscription)
    requires
        old(bus).wf(),
        old(bus).next_id < usize::MAX,
    ensures
        subscribed(old(bus), final(bus), Topic::Security, &s),
{
    subscribe_to(bus, Topic::Security)
}

pub fn unsubscribe_from_security_events(bus: &mut EventBus, id: usize)
    requires
        old(bus).wf(),
    ensures
        unsubscribed(old(bus), final(bus), Topic::Security, id),
{
    bus.unsubscribe(Topic::Security, id);
}

pub fn subscribe_to_rules_findings(bus: &mut EventBus) -> (s: Subscription)
    requires
        old(bus).wf(),
        old(bus).next_id < usize::MAX,
    ensures
        subscribed(old(bus), final(bus), Topic::Finding, &s),
{
    subscribe_to(bus, Topic::Finding)
}

pub fn unsubscribe_from_rules_findings(bus: &mut EventBus, id: usize)
    requires
        old(bus).wf(),
    ensures
        unsubscribed(old(bus), final(bus), Topic::Finding, id),
{
    bus.unsubscribe(Topic::Finding, id);
}

/// A message for display surfaces, such as the output of a console command.
pub struct UiMessage {
    pub topic: String,
    pub body: String,
}

pub fn subscribe_to_ui_messages(bus: &mut EventBus) -> (s: Subscription)
    requires
        old(bus).wf(),
        old(bus).next_id < usize::MAX,
    ensures
        subscribed(old(bus), final(bus), Topic::Ui, &s),
{
    subscribe_to(bus, Topic::Ui)
}

pub fn unsubscribe_from_ui_messages(bus: &mut EventBus, id: usize)
    requires
        old(bus).wf(),
    ensures
        unsubscribed(old(bus), final(bus), Topic::Ui, id),
{
    bus.unsubscribe(Topic::Ui, id);
}

/// Release a subscription: what dropping it does.
pub fn release(bus: &mut EventBus, sub: Subscription)
    requires
        old(bus).wf(),
    ensures
        unsubscribed(old(bus), final(bus), sub.topic, sub.id),
{
    bus.unsubscribe_by_typeid(sub.topic, sub.id);
}

/// Shared runtime state: the latest process snapshot and whether the interactive UI runs.
pub struct RuntimeState {
    pub latest: Option<ProcessState>,
    pub ui_active: bool,
}

impl RuntimeState {
    pub fn new() -> (r: Self)
        ensures
            r.latest is None,
            !r.ui_active,
    {
        RuntimeState { latest: None, ui_active: false }
    }
}

/// Replace the latest snapshot with `s`.
pub fn set_latest_state(rt: &mut RuntimeState, s: ProcessState)
    ensures
        final(rt).latest == Some(s),
        final(rt).ui_active == old(rt).ui_active,
{
    rt.latest = Some(s);
}

/// `r` is a copy of the latest snapshot of `rt`: same processes, families and lineage.
pub open spec fn copies_latest(rt: &RuntimeState, r: Option<ProcessState>) -> bool {
    &&& r is Some <==> rt.latest is Some
    &&& r is Some ==> {
        let (a, b) = (r->0, rt.latest->0);
        &&& a.procs() == b.procs()
        &&& a.fams() == b.fams()
        &&& a.lineage.parent@ == b.lineage.parent@
        &&& a.lineage.children@ == b.lineage.children@
        &&& a.lineage.ancestors@ == b.lineage.ancestors@
        &&& b.wf() ==> a.wf()
    }
}

/// A copy of the latest snapshot, if one was set.
pub fn get_latest_state(rt: &RuntimeState) -> (r: Option<ProcessState>)
    ensures
        copies_latest(rt, r),
{
    match &rt.latest {
        Some(s) => Some(s.clone()),
        None => None,
    }
}

pub fn set_ui_active(rt: &mut RuntimeState, v: bool)
    ensures
        final(rt).ui_active == v,
        final(rt).latest == old(rt).latest,
{
    rt.ui_active = v;
}

pub fn is_ui_active(rt: &RuntimeState) -> (b: bool)
    ensures
        b == rt.ui_active,
{
    rt.ui_active
}

/// Law: reading the latest snapshot after setting it to `s` gives back a snapshot with the
/// processes, families and lineage of `s`, well formed when `s` is.
pub proof fn law_get_after_set(rt: &RuntimeState, s: ProcessState, r: Option<ProcessState>)
    requires
        rt.latest == Some(s),
        copies_latest(rt, r),
    ensures
        r is Some,
        r->0.procs() == s.procs(),
        r->0.fams() == s.fams(),
        r->0.lineage.parent@ == s.lineage.parent@,
        r->0.lineage.children@ == s.lineage.children@,
        r->0.lineage.ancestors@ == s.lineage.ancestors@,
        s.wf() ==> r->0.wf(),
{
}

/// The registry after releasing the held subscriptions, last first: each is unsubscribed
/// from `topic` and then released from its own topic.
pub open spec fn released_all(subs: Seq<Sub>, held: Seq<Subscription>, topic: Topic) -> Seq<Sub>
    decreases held.len(),
{
    if held.len() == 0 {
        subs
    } else {
        let h = held.last();
        released_all(without(without(subs, topic, h.id), h.topic, h.id), held.drop_last(), topic)
    }
}

/// Release every held subscription, last first, unsubscribing each from `topic` before it is
/// released (what popping and dropping a list of subscriptions does).
pub fn release_all(bus: &mut EventBus, held: &mut Vec<Subscription>, topic: Topic)
    requires
        old(bus).wf(),
    ensures
        final(bus).wf(),
        final(bus).next_id == old(bus).next_id,
        final(bus).subs@ == released_all(old(bus).subs@, old(held)@, topic),
        final(held)@.len() == 0,
{
    let ghost h0 = held@;
    while held.len() > 0
        invariant
            bus.wf(),
            bus.next_id == old(bus).next_id,
            h0.len() >= held@.len(),
            held@ == h0.take(held@.len() as int),
            released_all(old(bus).subs@, h0, topic) == released_all(bus.subs@, held@, topic),
        decreases held@.len(),
    {
        let ghost before = held@;
        let sub = held.pop().unwrap();
        proof {
            assert(before.drop_last() =~= held@);
            assert(held@ =~= h0.take(held@.len() as int));
        }
        bus.unsubscribe(topic, sub.id);
        release(bus, sub);
    }
}

/// Subscribe to `topic` and keep the subscription in `held`.
pub fn hold(bus: &mut EventBus, held: &mut Vec<Subscription>, topic: Topic)
    requires
        old(bus).wf(),
        old(bus).next_id < usize::MAX,
    ensures
        final(bus).wf(),
        final(bus).next_id == old(bus).next_id + 1,
        final(bus).subs@ == old(bus).subs@.push(Sub { id: old(bus).next_id, topic }),
        final(held)@ == old(held)@.push(Subscription { id: old(bus).next_id, topic }),
{
    let s = subscribe_to(bus, topic);
    held.push(s);
}

} // verus!
