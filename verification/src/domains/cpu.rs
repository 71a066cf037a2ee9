use crate::event_bus::{EventBus, Sub, Topic};
use crate::runtime::{hold, Subscription};
use vstd::prelude::*;

verus! {

/// Subscribe the system CPU engine to CPU events; the subscription is kept in `held` for the
/// engine's lifetime, so raw samples reach the engine.
pub fn register(bus: &mut EventBus, held: &mut Vec<Subscription>)
    requires
        old(bus).wf(),
        old(bus).next_id < usize::MAX,
    ensures
        final(bus).wf(),
        final(bus).next_id == old(bus).next_id + 1,
        final(bus).subs@ == old(bus).subs@.push(Sub { id: old(bus).next_id, topic: Topic::Cpu }),
        final(held)@ == old(held)@.push(Subscription { id: old(bus).next_id, topic: Topic::Cpu }),
{
    hold(bus, held, Topic::Cpu);
}

} // verus!
