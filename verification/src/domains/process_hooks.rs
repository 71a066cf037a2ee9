use crate::event_bus::{EventBus, Sub, Topic};
use crate::process_events::{store_event, EventStore, ProcessEvent};
use crate::runtime::{hold, release_all, released_all, Subscription};
use vstd::prelude::*;

verus! {

/// Subscribe the event store to process events; the subscription is kept in `held`.
pub fn register_persistence(bus: &mut EventBus, held: &mut Vec<Subscription>)
    requires
        old(bus).wf(),
        old(bus).next_id < usize::MAX,
    ensures
        final(bus).wf(),
        final(bus).next_id == old(bus).next_id + 1,
        final(bus).subs@ == old(bus).subs@.push(Sub { id: old(bus).next_id, topic: Topic::Process }),
        final(held)@ == old(held)@.push(Subscription { id: old(bus).next_id, topic: Topic::Process }),
{
    hold(bus, held, Topic::Process);
}

/// What the persistence subscriber does with a process event: store it.
pub fn on_event(store: &mut EventStore, ev: &ProcessEvent)
    ensures
        final(store).view_events().len() == old(store).view_events().len() + 1,
        final(store).view_events().drop_last() == old(store).view_events(),
        final(store).view_events().last().1 == ev@,
{
    store_event(store, ev);
}

/// Unsubscribe every held process-event subscription.
pub fn unregister_all(bus: &mut EventBus, held: &mut Vec<Subscription>)
    requires
        old(bus).wf(),
    ensures
        final(bus).wf(),
        final(bus).subs@ == released_all(old(bus).subs@, old(held)@, Topic::Process),
        final(held)@.len() == 0,
{
    release_all(bus, held, Topic::Process);
}

} // verus!
