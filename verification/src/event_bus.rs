use vstd::prelude::*;

verus! {

broadcast use {vstd::seq_lib::group_seq_properties, vstd::seq::group_seq_axioms};

/// The kind of event a subscriber listens to. Each event type of the system has its own topic.
#[derive(Debug, Clone, Copy, PartialEq, Eq, Structural)]
pub enum Topic {
    Process,
    Cpu,
    Memory,
    Security,
    Finding,
    Ui,
}

/// One registered subscription: its id and the topic it listens to.
#[derive(Debug, Clone, Copy, PartialEq, Eq, Structural)]
pub struct Sub {
    pub id: usize,
    pub topic: Topic,
}

/// The registry of subscriptions. Handlers themselves live with the caller, keyed by the id
/// that `subscribe` hands out; `publish` says which of them to run, in order.
pub struct EventBus {
    pub subs: Vec<Sub>,
    pub next_id: usize,
}

/// Whether a subscription listens to `topic`.
pub open spec fn on_topic(topic: Topic) -> spec_fn(Sub) -> bool {
    |s: Sub| s.topic == topic
}

/// Whether a subscription is other than the subscription `id` to `topic`.
pub open spec fn other_than(topic: Topic, id: usize) -> spec_fn(Sub) -> bool {
    |s: Sub| !(s.topic == topic && s.id == id)
}

/// The ids of the subscriptions to `topic`, in subscription order.
pub open spec fn delivered(subs: Seq<Sub>, topic: Topic) -> Seq<usize> {
    subs.filter(on_topic(topic)).map_values(|s: Sub| s.id)
}

/// The registry without the subscription `id` to `topic`.
pub open spec fn without(subs: Seq<Sub>, topic: Topic, id: usize) -> Seq<Sub> {
    subs.filter(other_than(topic, id))
}

/// Ids are handed out in increasing order, all of them below the next one.
pub open spec fn ids_increasing(subs: Seq<Sub>, next_id: usize) -> bool {
    &&& forall|i: int, j: int| 0 <= i < j < subs.len() ==> subs[i].id < subs[j].id
    &&& forall|i: int| 0 <= i < subs.len() ==> 1 <= #[trigger] subs[i].id < next_id
}

impl EventBus {
    pub open spec fn wf(&self) -> bool {
        &&& self.next_id >= 1
        &&& ids_increasing(self.subs@, self.next_id)
    }

    /// An empty registry whose first id is 1.
    pub fn new() -> (b: Self)
        ensures
            b.wf(),
            b.subs@ == Seq::<Sub>::empty(),
            b.next_id == 1,
    {
        EventBus { subs: Vec::new(), next_id: 1 }
    }

    /// Subscribe to `topic`. Returns a subscription id which can be used to unsubscribe.
    pub fn subscribe(&mut self, topic: Topic) -> (id: usize)
        requires
            old(self).wf(),
            old(self).next_id < usize::MAX,
        ensures
            final(self).wf(),
            id == old(self).next_id,
            final(self).next_id == old(self).next_id + 1,
            final(self).subs@ == old(self).subs@.push(Sub { id, topic }),
    {
        let id = self.next_id;
        self.subs.push(Sub { id, topic });
        self.next_id = self.next_id + 1;
        id
    }

    /// Remove the subscription `id` to `topic`, if there is one.
    pub fn unsubscribe(&mut self, topic: Topic, id: usize)
        requires
            old(self).wf(),
        ensures
            final(self).wf(),
            final(self).next_id == old(self).next_id,
            final(self).subs@ == without(old(self).subs@, topic, id),
    {
        let ghost pred = other_than(topic, id);
        let mut kept: Vec<Sub> = Vec::new();
        let n = self.subs.len();
        for i in 0..n
            invariant
                n == self.subs@.len(),
                pred == other_than(topic, id),
                kept@ == self.subs@.take(i as int).filter(pred),
        {
            let s = self.subs[i];
            proof {
                self.subs@.take(i as int).lemma_filter_push(s, pred);
                assert(self.subs@.take(i + 1) =~= self.subs@.take(i as int).push(s));
                assert(pred(s) == !(s.topic == topic && s.id == id));
            }
            if !(s.topic == topic && s.id == id) {
                kept.push(s);
            }
        }
        proof {
            assert(self.subs@.take(n as int) =~= self.subs@);
            lemma_filter_keeps_increasing(self.subs@, pred, self.next_id);
        }
        self.subs = kept;
    }

    /// Remove the subscription `id` to `topic` (for callers that hold the topic as a value).
    pub fn unsubscribe_by_typeid(&mut self, topic: Topic, id: usize)
        requires
            old(self).wf(),
        ensures
            final(self).wf(),
            final(self).next_id == old(self).next_id,
            final(self).subs@ == without(old(self).subs@, topic, id),
    {
        self.unsubscribe(topic, id);
    }

    /// Publish an event of `topic`: the ids of the subscriptions to run, in subscription order.
    pub fn publish(&self, topic: Topic) -> (ids: Vec<usize>)
        ensures
            ids@ == delivered(self.subs@, topic),
    {
        let ghost pred = on_topic(topic);
        let mut out: Vec<usize> = Vec::new();
        let n = self.subs.len();
        for i in 0..n
            invariant
                n == self.subs@.len(),
                pred == on_topic(topic),
                out@ == self.subs@.take(i as int).filter(pred).map_values(|s: Sub| s.id),
        {
            let s = self.subs[i];
            proof {
                self.subs@.take(i as int).lemma_filter_push(s, pred);
                assert(self.subs@.take(i + 1) =~= self.subs@.take(i as int).push(s));
                assert(pred(s) == (s.topic == topic));
            }
            if s.topic == topic {
                let ghost before = self.subs@.take(i as int).filter(pred);
                out.push(s.id);
                proof {
                    assert(before.push(s).map_values(|s: Sub| s.id) =~= before.map_values(|s: Sub| s.id).push(s.id));
                }
            }
        }
        proof {
            assert(self.subs@.take(n as int) =~= self.subs@);
        }
        out
    }
}

/// Filtering keeps ids increasing and below the next id.
proof fn lemma_filter_keeps_increasing(subs: Seq<Sub>, pred: spec_fn(Sub) -> bool, next_id: usize)
    requires
        ids_increasing(subs, next_id),
    ensures
        ids_increasing(subs.filter(pred), next_id),
    decreases subs.len(),
{
    reveal(Seq::filter);
    if subs.len() > 0 {
        let rest = subs.drop_last();
        assert(ids_increasing(rest, next_id));
        lemma_filter_keeps_increasing(rest, pred, next_id);
        let fr = rest.filter(pred);
        if pred(subs.last()) {
            assert forall|i: int| 0 <= i < fr.len() implies fr[i].id < subs.last().id by {
                assert(fr.contains(fr[i]));
                rest.lemma_filter_contains_rev(pred, fr[i]);
                let k = choose|k: int| 0 <= k < rest.len() && rest[k] == fr[i];
                assert(subs[k] == rest[k]);
            }
            assert forall|i: int| 0 <= i < fr.len() implies 1 <= #[trigger] fr[i].id < next_id by {
                assert(fr.contains(fr[i]));
                rest.lemma_filter_contains_rev(pred, fr[i]);
                let k = choose|k: int| 0 <= k < rest.len() && rest[k] == fr[i];
                assert(subs[k] == rest[k]);
            }
        } else {
            assert forall|i: int| 0 <= i < fr.len() implies 1 <= #[trigger] fr[i].id < next_id by {
                assert(fr.contains(fr[i]));
                rest.lemma_filter_contains_rev(pred, fr[i]);
                let k = choose|k: int| 0 <= k < rest.len() && rest[k] == fr[i];
                assert(subs[k] == rest[k]);
            }
        }
    }
}

/// Appending a subscription appends its id to what its own topic delivers.
pub proof fn lemma_delivered_push(subs: Seq<Sub>, x: Sub, t: Topic)
    ensures
        delivered(subs.push(x), t) == (if x.topic == t {
            delivered(subs, t).push(x.id)
        } else {
            delivered(subs, t)
        }),
{
    subs.lemma_filter_push(x, on_topic(t));
    let f = subs.filter(on_topic(t));
    assert(f.push(x).map_values(|s: Sub| s.id) =~= f.map_values(|s: Sub| s.id).push(x.id));
}

/// Law: a new subscription to `topic` is delivered after all earlier ones, and changes
/// nothing that other topics deliver.
pub proof fn law_subscribe_then_publish(subs: Seq<Sub>, id: usize, topic: Topic, other: Topic)
    ensures
        delivered(subs.push(Sub { id, topic }), topic) == delivered(subs, topic).push(id),
        other != topic ==> delivered(subs.push(Sub { id, topic }), other) == delivered(subs, other),
{
    lemma_delivered_push(subs, Sub { id, topic }, topic);
    lemma_delivered_push(subs, Sub { id, topic }, other);
}

/// Law: after unsubscribing `id` from `topic`, publishing `topic` no longer delivers `id`
/// and still delivers every other subscriber in the same order; other topics are unaffected.
pub proof fn law_unsubscribe_then_publish(subs: Seq<Sub>, topic: Topic, id: usize, other: Topic)
    ensures
        delivered(without(subs, topic, id), topic) == delivered(subs, topic).filter(|x: usize| x != id),
        other != topic ==> delivered(without(subs, topic, id), other) == delivered(subs, other),
    decreases subs.len(),
{
    let ne = |x: usize| x != id;
    if subs.len() == 0 {
        assert(without(subs, topic, id) =~= subs);
        assert(delivered(subs, topic) =~= Seq::<usize>::empty());
        assert(Seq::<usize>::empty().filter(ne) =~= Seq::<usize>::empty());
    } else {
        let rest = subs.drop_last();
        let x = subs.last();
        assert(subs =~= rest.push(x));
        law_unsubscribe_then_publish(rest, topic, id, other);
        rest.lemma_filter_push(x, other_than(topic, id));
        lemma_delivered_push(rest, x, topic);
        lemma_delivered_push(rest, x, other);
        let kept = without(rest, topic, id);
        lemma_delivered_push(kept, x, topic);
        lemma_delivered_push(kept, x, other);
        if x.topic == topic {
            delivered(rest, topic).lemma_filter_push(x.id, ne);
        }
    }
}

/// Law: subscribing and then unsubscribing the id that was handed out leaves the registry
/// as it was.
pub proof fn law_subscribe_then_unsubscribe(bus: &EventBus, topic: Topic)
    requires
        bus.wf(),
    ensures
        without(bus.subs@.push(Sub { id: bus.next_id, topic }), topic, bus.next_id) == bus.subs@,
{
    let subs = bus.subs@;
    let x = Sub { id: bus.next_id, topic };
    subs.lemma_filter_push(x, other_than(topic, bus.next_id));
    lemma_filter_keeps_all(subs, topic, bus.next_id);
}

/// No registered subscription carries an id at or above the next one, so filtering that id
/// out keeps everything.
proof fn lemma_filter_keeps_all(subs: Seq<Sub>, topic: Topic, next_id: usize)
    requires
        forall|i: int| 0 <= i < subs.len() ==> #[trigger] subs[i].id < next_id,
    ensures
        subs.filter(other_than(topic, next_id)) == subs,
    decreases subs.len(),
{
    if subs.len() > 0 {
        let rest = subs.drop_last();
        assert(subs =~= rest.push(subs.last()));
        assert forall|i: int| 0 <= i < rest.len() implies #[trigger] rest[i].id < next_id by {
            assert(rest[i] == subs[i]);
        }
        lemma_filter_keeps_all(rest, topic, next_id);
        rest.lemma_filter_push(subs.last(), other_than(topic, next_id));
    } else {
        assert(subs.filter(other_than(topic, next_id)) =~= subs);
    }
}

} // verus!
