use crate::event_bus::{EventBus, Sub, Topic};
use crate::runtime::{hold, release_all, released_all, Subscription};
use vstd::prelude::*;

verus! {

/// The subscriptions of the overview, one list per topic.
pub struct OverviewSubs {
    pub cpu: Vec<Subscription>,
    pub mem: Vec<Subscription>,
    pub procs: Vec<Subscription>,
    pub sec: Vec<Subscription>,
    pub ui: Vec<Subscription>,
}

impl OverviewSubs {
    pub fn new() -> (s: Self)
        ensures
            s.cpu@.len() == 0,
            s.mem@.len() == 0,
            s.procs@.len() == 0,
            s.sec@.len() == 0,
            s.ui@.len() == 0,
    {
        OverviewSubs { cpu: Vec::new(), mem: Vec::new(), procs: Vec::new(), sec: Vec::new(), ui: Vec::new() }
    }
}

/// Subscribe the overview to CPU, memory, process and security events and to UI messages, in
/// that order, each subscription kept in the list of its topic.
pub fn register(bus: &mut EventBus, subs: &mut OverviewSubs)
    requires
        old(bus).wf(),
        old(bus).next_id < usize::MAX - 4,
    ensures
        final(bus).wf(),
        final(bus).next_id == old(bus).next_id + 5,
        final(bus).subs@ == old(bus).subs@.push(Sub { id: old(bus).next_id, topic: Topic::Cpu }).push(
            Sub { id: (old(bus).next_id + 1) as usize, topic: Topic::Memory },
        ).push(Sub { id: (old(bus).next_id + 2) as usize, topic: Topic::Process }).push(
            Sub { id: (old(bus).next_id + 3) as usize, topic: Topic::Security },
        ).push(Sub { id: (old(bus).next_id + 4) as usize, topic: Topic::Ui }),
        final(subs).cpu@ == old(subs).cpu@.push(Subscription { id: old(bus).next_id, topic: Topic::Cpu }),
        final(subs).mem@ == old(subs).mem@.push(Subscription { id: (old(bus).next_id + 1) as usize, topic: Topic::Memory }),
        final(subs).procs@ == old(subs).procs@.push(
            Subscription { id: (old(bus).next_id + 2) as usize, topic: Topic::Process },
        ),
        final(subs).sec@ == old(subs).sec@.push(
            Subscription { id: (old(bus).next_id + 3) as usize, topic: Topic::Security },
        ),
        final(subs).ui@ == old(subs).ui@.push(Subscription { id: (old(bus).next_id + 4) as usize, topic: Topic::Ui }),
{
    hold(bus, &mut subs.cpu, Topic::Cpu);
    hold(bus, &mut subs.mem, Topic::Memory);
    hold(bus, &mut subs.procs, Topic::Process);
    hold(bus, &mut subs.sec, Topic::Security);
    hold(bus, &mut subs.ui, Topic::Ui);
}

/// Release the subscriptions of each topic in turn: CPU, memory, process, security, UI.
pub fn unregister(bus: &mut EventBus, subs: &mut OverviewSubs)
    requires
        old(bus).wf(),
    ensures
        final(bus).wf(),
        final(bus).subs@ == released_all(
            released_all(
                released_all(
                    released_all(released_all(old(bus).subs@, old(subs).cpu@, Topic::Cpu), old(subs).mem@, Topic::Memory),
                    old(subs).procs@,
                    Topic::Process,
                ),
                old(subs).sec@,
                Topic::Security,
            ),
            old(subs).ui@,
            Topic::Ui,
        ),
        final(subs).cpu@.len() == 0,
        final(subs).mem@.len() == 0,
        final(subs).procs@.len() == 0,
        final(subs).sec@.len() == 0,
        final(subs).ui@.len() == 0,
{
    release_all(bus, &mut subs.cpu, Topic::Cpu);
    release_all(bus, &mut subs.mem, Topic::Memory);
    release_all(bus, &mut subs.procs, Topic::Process);
    release_all(bus, &mut subs.sec, Topic::Security);
    release_all(bus, &mut subs.ui, Topic::Ui);
}

} // verus!
