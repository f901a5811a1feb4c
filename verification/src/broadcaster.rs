//! The fan-out hub: registered subscribers, each with a bounded queue of
//! pending wire messages.
//!
//! `send` offers every event to every registered subscriber and never blocks:
//! a subscriber whose queue is full at that moment drops that one message
//! (the drop-message policy; the subscriber itself stays registered and its
//! other messages are untouched), so a slow or dead subscriber cannot stall
//! delivery to any other. A new subscriber's queue is seeded with one initial
//! snapshot message per topic currently present in the cache, in the fixed
//! topic order, so a late joiner converges to the same view as long-lived
//! subscribers without waiting for the next change.

use vstd::prelude::*;

use crate::cache::SnapshotCache;
use crate::message::{event_wire, Event, EventV, WsMessage};
use crate::topic::{all_topics, lemma_topic_order_bijective, topic_at, Topic, TOPIC_COUNT};

verus! {

/// Bound on each subscriber's queue of pending messages.
pub const CHANNEL_CAPACITY: usize = 100;

/// The wire text that delivering an event enqueues.
pub open spec fn wire_of(e: EventV) -> Seq<char> {
    event_wire(e.topic, e.value)
}

/// The mathematical value of one subscription.
pub struct SubscriberV {
    /// Handle under which the session receives and unsubscribes.
    pub id: u64,
    /// Wire messages enqueued but not yet received, oldest first.
    pub queued: Seq<Seq<char>>,
    /// Every event ever enqueued for this subscriber: the initial snapshot
    /// first, then the published events it received.
    pub delivered: Seq<EventV>,
    /// How many entries of `delivered` form the initial snapshot.
    pub snapshot_len: nat,
    /// Length of the hub's publish history when this subscriber joined.
    pub joined_at: nat,
    /// How many published events this subscriber's full queue dropped.
    pub dropped: nat,
}

struct Subscriber {
    id: u64,
    pending: Vec<String>,
    delivered: Ghost<Seq<EventV>>,
    snapshot_len: Ghost<nat>,
    joined_at: Ghost<nat>,
    dropped: Ghost<nat>,
    /// For each post-snapshot delivered event, its index in the publish
    /// history; the witness that delivery preserves publish order.
    marks: Ghost<Seq<int>>,
}

impl View for Subscriber {
    type V = SubscriberV;

    closed spec fn view(&self) -> SubscriberV {
        SubscriberV {
            id: self.id,
            queued: self.pending.deep_view(),
            delivered: self.delivered@,
            snapshot_len: self.snapshot_len@,
            joined_at: self.joined_at@,
            dropped: self.dropped@,
        }
    }
}

impl DeepView for Subscriber {
    type V = SubscriberV;

    closed spec fn deep_view(&self) -> SubscriberV {
        self.view()
    }
}

/// Internal well-formedness of one subscription against the publish history.
spec fn sub_inv(s: Subscriber, log: Seq<EventV>) -> bool {
    let v = s@;
    &&& v.snapshot_len <= v.delivered.len()
    &&& v.queued.len() <= v.delivered.len()
    &&& v.queued.len() <= CHANNEL_CAPACITY
    &&& forall|j: int|
        0 <= j < v.queued.len() ==> v.queued[j] == wire_of(
            v.delivered[v.delivered.len() - v.queued.len() + j],
        )
    &&& v.joined_at <= log.len()
    &&& s.marks@.len() == v.delivered.len() - v.snapshot_len
    &&& s.marks@.len() + v.dropped == log.len() - v.joined_at
    &&& forall|j: int| 0 <= j < s.marks@.len() ==> v.joined_at <= #[trigger] s.marks@[j] < log.len()
    &&& forall|j1: int, j2: int|
        0 <= j1 < j2 < s.marks@.len() ==> s.marks@[j1] < s.marks@[j2]
    &&& forall|j: int|
        0 <= j < s.marks@.len() ==> log[#[trigger] s.marks@[j]] == v.delivered[v.snapshot_len + j]
    &&& (v.dropped == 0 ==> v.delivered.skip(v.snapshot_len as int) == log.skip(
        v.joined_at as int,
    ))
}

/// The initial snapshot for a subscriber joining with the given cache
/// contents: one event per topic present in the cache, for topics at
/// positions `i` and beyond of the fixed order.
pub open spec fn snapshot_events(cache: Seq<Option<Seq<char>>>, i: int) -> Seq<EventV>
    decreases TOPIC_COUNT - i,
{
    if i < 0 || i >= TOPIC_COUNT {
        Seq::empty()
    } else {
        let rest = snapshot_events(cache, i + 1);
        match cache[i] {
            Option::Some(v) => seq![EventV { topic: topic_at(i), value: v }] + rest,
            Option::None => rest,
        }
    }
}

/// The fan-out hub. Holds the registry of currently subscribed output
/// queues; created once at startup and shared by the poller and every
/// connection session.
pub struct Broadcaster {
    subscribers: Vec<Subscriber>,
    next_id: u64,
    log: Ghost<Seq<EventV>>,
}

impl Broadcaster {
    /// The currently registered subscriptions, in registration order.
    pub closed spec fn subs(self) -> Seq<SubscriberV> {
        self.subscribers.deep_view()
    }

    /// Every event ever published, oldest first.
    pub closed spec fn published(self) -> Seq<EventV> {
        self.log@
    }

    /// Whether a fresh subscriber handle can still be handed out.
    pub closed spec fn id_space_left(self) -> bool {
        self.next_id < u64::MAX
    }

    /// Hub invariant: every subscription is well-formed against the publish
    /// history and handles are distinct.
    pub closed spec fn wf(self) -> bool {
        &&& forall|i: int|
            0 <= i < self.subscribers@.len() ==> sub_inv(
                #[trigger] self.subscribers@[i],
                self.log@,
            )
        &&& forall|i: int|
            0 <= i < self.subscribers@.len() ==> (#[trigger] self.subscribers@[i]).id < self.next_id
        &&& forall|i: int, j: int|
            #![trigger self.subscribers@[i].id, self.subscribers@[j].id]
            0 <= i < j < self.subscribers@.len() ==> self.subscribers@[i].id
                != self.subscribers@[j].id
    }

    /// A hub with no subscribers and an empty publish history.
    pub fn new() -> (b: Broadcaster)
        ensures
            b.wf(),
            b.id_space_left(),
            b.subs() == Seq::<SubscriberV>::empty(),
            b.published() == Seq::<EventV>::empty(),
    {
        let b = Broadcaster { subscribers: Vec::new(), next_id: 0, log: Ghost(Seq::empty()) };
        proof {
            assert(b.subs() =~= Seq::<SubscriberV>::empty());
        }
        b
    }

    /// Whether a fresh subscriber handle can still be handed out.
    pub fn has_id_space(&self) -> (b: bool)
        ensures
            b == self.id_space_left(),
    {
        self.next_id < u64::MAX
    }

    /// Number of currently registered subscribers.
    pub fn subscriber_count(&self) -> (n: usize)
        ensures
            n == self.subs().len(),
    {
        proof {
            assert(self.subs().len() == self.subscribers@.len());
        }
        self.subscribers.len()
    }

    /// Register a new subscription and seed its queue with the initial
    /// snapshot: exactly one message per topic currently present in the
    /// cache, in the fixed topic order, ahead of any event published later.
    /// Returns the handle for receiving and unsubscribing.
    pub fn subscribe(&mut self, cache: &SnapshotCache) -> (id: u64)
        requires
            old(self).wf(),
            old(self).id_space_left(),
            cache.wf(),
        ensures
            final(self).wf(),
            final(self).published() == old(self).published(),
            final(self).subs().len() == old(self).subs().len() + 1,
            forall|i: int|
                0 <= i < old(self).subs().len() ==> final(self).subs()[i] == old(self).subs()[i],
            forall|i: int| 0 <= i < old(self).subs().len() ==> old(self).subs()[i].id != id,
            ({
                let s = final(self).subs().last();
                &&& s.id == id
                &&& s.delivered == snapshot_events(cache@, 0)
                &&& s.snapshot_len == s.delivered.len()
                &&& s.queued.len() == s.delivered.len()
                &&& forall|j: int|
                    0 <= j < s.queued.len() ==> s.queued[j] == wire_of(s.delivered[j])
                &&& s.joined_at == old(self).published().len()
                &&& s.dropped == 0
            }),
    {
        let id = self.next_id;
        self.next_id = self.next_id + 1;
        let topics = all_topics();
        let mut pending: Vec<String> = Vec::new();
        let ghost mut delivered: Seq<EventV> = Seq::empty();
        let mut i: usize = 0;
        while i < TOPIC_COUNT
            invariant
                i <= TOPIC_COUNT,
                cache.wf(),
                topics@ == crate::topic::all_topics_spec(),
                snapshot_events(cache@, 0) == delivered + snapshot_events(cache@, i as int),
                pending.deep_view().len() == delivered.len(),
                delivered.len() <= i,
                forall|j: int|
                    0 <= j < delivered.len() ==> pending.deep_view()[j] == wire_of(delivered[j]),
            decreases TOPIC_COUNT - i,
        {
            let t = topics[i];
            proof {
                lemma_topic_order_bijective();
                assert(t == topic_at(i as int));
                assert(t.index_spec() == i as int);
            }
            let ghost pending_before: Seq<Seq<char>> = pending.deep_view();
            let ghost delivered_before: Seq<EventV> = delivered;
            match cache.get(t) {
                Some(v) => {
                    let msg = WsMessage::from_event(Event { topic: t, value: v.clone() });
                    let wire = msg.encode();
                    proof {
                        assert(wire@ == event_wire(t, v@));
                        assert(cache@[i as int] == Some(v@));
                    }
                    pending.push(wire);
                    proof {
                        let e = EventV { topic: t, value: v@ };
                        delivered = delivered + seq![e];
                        assert(pending.deep_view() =~= pending_before + seq![wire_of(e)]);
                        assert(snapshot_events(cache@, i as int) == seq![e] + snapshot_events(
                            cache@,
                            i + 1,
                        ));
                        assert(delivered + snapshot_events(cache@, i + 1) =~= delivered_before
                            + snapshot_events(cache@, i as int));
                    }
                },
                None => {
                    proof {
                        assert(cache@[i as int] is None);
                        assert(snapshot_events(cache@, i as int) == snapshot_events(cache@, i + 1));
                    }
                },
            }
            i = i + 1;
        }
        proof {
            assert(snapshot_events(cache@, TOPIC_COUNT as int) == Seq::<EventV>::empty());
            assert(delivered + Seq::<EventV>::empty() =~= delivered);
        }
        let ghost n: nat = delivered.len();
        let sub = Subscriber {
            id,
            pending,
            delivered: Ghost(delivered),
            snapshot_len: Ghost(n),
            joined_at: Ghost(self.log@.len()),
            dropped: Ghost(0),
            marks: Ghost(Seq::empty()),
        };
        proof {
            assert(sub@.delivered.skip(n as int) =~= Seq::<EventV>::empty());
            assert(self.log@.skip(self.log@.len() as int) =~= Seq::<EventV>::empty());
            assert(sub_inv(sub, self.log@));
        }
        let ghost subs_before: Seq<Subscriber> = self.subscribers@;
        self.subscribers.push(sub);
        proof {
            assert(self.subscribers.deep_view() =~= subs_before.map(
                |j: int, s: Subscriber| s.deep_view(),
            ) + seq![sub@]);
            assert(subs_before.map(|j: int, s: Subscriber| s.deep_view()) =~= old(
                self,
            ).subscribers.deep_view());
        }
        id
    }

    /// Serialize the event to its wire form and offer it to every registered
    /// subscriber. Never blocks: a subscriber whose queue is full drops this
    /// one message and is counted in its `dropped`; every subscriber with
    /// room receives it, whatever any other subscriber's state.
    pub fn send(&mut self, event: Event)
        requires
            old(self).wf(),
        ensures
            final(self).wf(),
            final(self).published() == old(self).published().push(event@),
            final(self).subs().len() == old(self).subs().len(),
            forall|i: int|
                0 <= i < old(self).subs().len() ==> delivered_step(
                    old(self).subs()[i],
                    #[trigger] final(self).subs()[i],
                    event@,
                ),
    {
        let ghost e: EventV = event@;
        let ghost log0: Seq<EventV> = self.log@;
        let ghost subs0: Seq<Subscriber> = self.subscribers@;
        let msg = WsMessage::from_event(event);
        let wire = msg.encode();
        proof {
            assert(wire@ == wire_of(e));
        }
        let n = self.subscribers.len();
        let mut k: usize = 0;
        while k < n
            invariant
                k <= n,
                n == subs0.len(),
                self.subscribers@.len() == n,
                wire@ == wire_of(e),
                self.log@ == log0,
                self.next_id == old(self).next_id,
                subs0 == old(self).subscribers@,
                forall|j: int| k <= j < n ==> self.subscribers@[j] == subs0[j],
                forall|j: int|
                    0 <= j < k ==> delivered_step(
                        subs0[j]@,
                        (#[trigger] self.subscribers@[j])@,
                        e,
                    ),
                forall|j: int|
                    0 <= j < k ==> sub_inv(#[trigger] self.subscribers@[j], log0.push(e)),
                forall|j: int| 0 <= j < n ==> (#[trigger] self.subscribers@[j]).id == subs0[j].id,
                forall|j: int| 0 <= j < n ==> sub_inv(#[trigger] subs0[j], log0),
            decreases n - k,
        {
            let ghost before: Seq<Subscriber> = self.subscribers@;
            let mut s = self.subscribers.remove(k);
            let ghost s0: Subscriber = s;
            if s.pending.len() < CHANNEL_CAPACITY {
                s.pending.push(wire.clone());
                s.delivered = Ghost(s.delivered@.push(e));
                s.marks = Ghost(s.marks@.push(log0.len() as int));
                proof {
                    assert(s.pending.deep_view() =~= s0.pending.deep_view().push(wire@));
                    lemma_offer_received(s0, s, log0, e);
                }
            } else {
                s.dropped = Ghost((s.dropped@ + 1) as nat);
                proof {
                    lemma_offer_dropped(s0, s, log0, e);
                }
            }
            self.subscribers.insert(k, s);
            proof {
                assert(self.subscribers@ =~= before.update(k as int, s));
            }
            k = k + 1;
        }
        self.log = Ghost(self.log@.push(e));
        proof {
            assert forall|i: int| 0 <= i < subs0.len() implies delivered_step(
                old(self).subs()[i],
                #[trigger] final(self).subs()[i],
                e,
            ) by {
                assert(old(self).subs()[i] == subs0[i]@);
                assert(final(self).subs()[i] == self.subscribers@[i]@);
            }
        }
    }
}

impl Broadcaster {
    /// Take the oldest pending message of the subscription with the given
    /// handle, if it has one. The session's forward loop drains its queue
    /// through this; messages come out in exactly the order they were
    /// enqueued.
    pub fn try_recv(&mut self, id: u64) -> (r: Option<String>)
        requires
            old(self).wf(),
        ensures
            final(self).wf(),
            final(self).published() == old(self).published(),
            final(self).subs().len() == old(self).subs().len(),
            forall|i: int|
                0 <= i < old(self).subs().len() && old(self).subs()[i].id != id
                    ==> final(self).subs()[i] == old(self).subs()[i],
            forall|i: int|
                0 <= i < old(self).subs().len() && old(self).subs()[i].id == id ==> receive_step(
                    old(self).subs()[i],
                    #[trigger] final(self).subs()[i],
                    r,
                ),
            (forall|i: int|
                0 <= i < old(self).subs().len() ==> (#[trigger] old(self).subs()[i]).id != id)
                ==> r is None && final(self).subs() == old(self).subs(),
    {
        let ghost subs0: Seq<Subscriber> = self.subscribers@;
        let n = self.subscribers.len();
        let mut k: usize = 0;
        while k < n
            invariant
                k <= n,
                n == subs0.len(),
                self.subscribers@ == subs0,
                self.log@ == old(self).log@,
                self.next_id == old(self).next_id,
                subs0 == old(self).subscribers@,
                old(self).wf(),
                forall|j: int| 0 <= j < k ==> (#[trigger] subs0[j]).id != id,
            decreases n - k,
        {
            if self.subscribers[k].id == id {
                let ghost before: Seq<Subscriber> = self.subscribers@;
                let mut s = self.subscribers.remove(k);
                let ghost s0: Subscriber = s;
                proof {
                    assert(s0 == old(self).subscribers@[k as int]);
                    assert(sub_inv(old(self).subscribers@[k as int], old(self).log@));
                }
                let r: Option<String> = if s.pending.len() > 0 {
                    Some(s.pending.remove(0))
                } else {
                    None
                };
                proof {
                    if s0@.queued.len() > 0 {
                        assert(s.pending.deep_view() =~= s0.pending.deep_view().skip(1));
                        lemma_receive(s0, s, old(self).log@);
                    }
                }
                self.subscribers.insert(k, s);
                proof {
                    assert(self.subscribers@ =~= before.update(k as int, s));
                    assert forall|i: int|
                        0 <= i < subs0.len() && i != k as int implies subs0[i].id != subs0[k as int].id by {
                        if i < k as int {
                            assert(old(self).subscribers@[i].id != old(
                                self,
                            ).subscribers@[k as int].id);
                        } else {
                            assert(old(self).subscribers@[k as int].id != old(
                                self,
                            ).subscribers@[i].id);
                        }
                    }
                    assert(receive_step(subs0[k as int]@, self.subscribers@[k as int]@, r));
                    assert(old(self).subs()[k as int] == old(self).subscribers@[k as int]@);
                    assert(old(self).subs()[k as int].id == id);
                    assert forall|i: int|
                        0 <= i < subs0.len() && subs0[i]@.id != id implies #[trigger] self.subscribers@[i]@
                        == subs0[i]@ by {}
                }
                return r;
            }
            k = k + 1;
        }
        proof {
            assert(self.subscribers.deep_view() =~= old(self).subscribers.deep_view());
        }
        None
    }

    /// Remove the subscription with the given handle from the registry; a
    /// handle that is not registered is ignored. Every other subscription is
    /// left exactly as it was, so closing one session cannot affect delivery
    /// to any other. Idempotent: a second call with the same handle finds
    /// nothing and changes nothing.
    pub fn unsubscribe(&mut self, id: u64)
        requires
            old(self).wf(),
        ensures
            final(self).wf(),
            final(self).published() == old(self).published(),
            forall|i: int|
                0 <= i < old(self).subs().len() && (#[trigger] old(self).subs()[i]).id == id
                    ==> final(self).subs() == old(self).subs().remove(i),
            (forall|i: int|
                0 <= i < old(self).subs().len() ==> (#[trigger] old(self).subs()[i]).id != id)
                ==> final(self).subs() == old(self).subs(),
    {
        let ghost subs0: Seq<Subscriber> = self.subscribers@;
        let n = self.subscribers.len();
        let mut k: usize = 0;
        while k < n
            invariant
                k <= n,
                n == subs0.len(),
                self.subscribers@ == subs0,
                self.log@ == old(self).log@,
                self.next_id == old(self).next_id,
                subs0 == old(self).subscribers@,
                old(self).wf(),
                forall|j: int| 0 <= j < k ==> (#[trigger] subs0[j]).id != id,
            decreases n - k,
        {
            if self.subscribers[k].id == id {
                self.subscribers.remove(k);
                proof {
                    assert forall|i: int|
                        0 <= i < subs0.len() && i != k as int implies subs0[i].id != subs0[k as int].id by {
                        if i < k as int {
                            assert(old(self).subscribers@[i].id != old(
                                self,
                            ).subscribers@[k as int].id);
                        } else {
                            assert(old(self).subscribers@[k as int].id != old(
                                self,
                            ).subscribers@[i].id);
                        }
                    }
                    assert(self.subscribers.deep_view() =~= old(
                        self,
                    ).subscribers.deep_view().remove(k as int));
                    assert forall|i: int|
                        0 <= i < self.subscribers@.len() implies sub_inv(
                        #[trigger] self.subscribers@[i],
                        self.log@,
                    ) && self.subscribers@[i].id < self.next_id by {
                        let i0 = if i < k as int { i } else { i + 1 };
                        assert(self.subscribers@[i] == subs0[i0]);
                        assert(sub_inv(old(self).subscribers@[i0], old(self).log@));
                        assert(old(self).subscribers@[i0].id < old(self).next_id);
                    }
                    assert forall|i: int, j: int|
                        0 <= i < j < self.subscribers@.len() implies self.subscribers@[i].id
                        != self.subscribers@[j].id by {
                        let i0 = if i < k as int { i } else { i + 1 };
                        let j0 = if j < k as int { j } else { j + 1 };
                        assert(self.subscribers@[i] == subs0[i0]);
                        assert(self.subscribers@[j] == subs0[j0]);
                        assert(old(self).subscribers@[i0].id != old(self).subscribers@[j0].id);
                    }
                    assert(old(self).subs()[k as int] == old(self).subscribers@[k as int]@);
                    assert(old(self).subs()[k as int].id == id);
                }
                return ;
            }
            k = k + 1;
        }
        proof {
            assert(self.subscribers.deep_view() =~= old(self).subscribers.deep_view());
        }
    }
}

/// How one `try_recv` affects the subscriber it addresses: the oldest pending
/// message (if any) is handed out and leaves the queue; the delivery log and
/// everything else stay as they were.
pub open spec fn receive_step(s0: SubscriberV, s1: SubscriberV, r: Option<String>) -> bool {
    &&& s1.id == s0.id
    &&& s1.delivered == s0.delivered
    &&& s1.snapshot_len == s0.snapshot_len
    &&& s1.joined_at == s0.joined_at
    &&& s1.dropped == s0.dropped
    &&& if s0.queued.len() > 0 {
        &&& r matches Some(m) && m@ == s0.queued[0]
        &&& s1.queued == s0.queued.skip(1)
    } else {
        &&& r is None
        &&& s1.queued == s0.queued
    }
}

/// Taking the oldest pending message keeps a subscription well-formed.
proof fn lemma_receive(s0: Subscriber, s1: Subscriber, log: Seq<EventV>)
    requires
        sub_inv(s0, log),
        s0@.queued.len() > 0,
        s1@.id == s0@.id,
        s1@.queued == s0@.queued.skip(1),
        s1@.delivered == s0@.delivered,
        s1.marks@ == s0.marks@,
        s1@.snapshot_len == s0@.snapshot_len,
        s1@.joined_at == s0@.joined_at,
        s1@.dropped == s0@.dropped,
    ensures
        sub_inv(s1, log),
{
    let v0 = s0@;
    let v1 = s1@;
    assert forall|j: int| 0 <= j < v1.queued.len() implies v1.queued[j] == wire_of(
        v1.delivered[v1.delivered.len() - v1.queued.len() + j],
    ) by {
        assert(v1.queued[j] == v0.queued[j + 1]);
    }
}

/// How one `send` affects one subscriber: a subscriber with room receives the
/// event (its queue and delivery log grow by exactly that message), one whose
/// queue is full drops exactly that message; nothing else about it changes.
pub open spec fn delivered_step(s0: SubscriberV, s1: SubscriberV, e: EventV) -> bool {
    &&& s1.id == s0.id
    &&& s1.joined_at == s0.joined_at
    &&& s1.snapshot_len == s0.snapshot_len
    &&& if s0.queued.len() < CHANNEL_CAPACITY {
        &&& s1.delivered == s0.delivered.push(e)
        &&& s1.queued == s0.queued.push(wire_of(e))
        &&& s1.dropped == s0.dropped
    } else {
        &&& s1.delivered == s0.delivered
        &&& s1.queued == s0.queued
        &&& s1.dropped == s0.dropped + 1
    }
}

/// A subscriber with room that enqueues the published event stays
/// well-formed against the grown publish history.
proof fn lemma_offer_received(s0: Subscriber, s1: Subscriber, log: Seq<EventV>, e: EventV)
    requires
        sub_inv(s0, log),
        s0@.queued.len() < CHANNEL_CAPACITY,
        s1@.id == s0@.id,
        s1@.queued == s0@.queued.push(wire_of(e)),
        s1@.delivered == s0@.delivered.push(e),
        s1.marks@ == s0.marks@.push(log.len() as int),
        s1@.snapshot_len == s0@.snapshot_len,
        s1@.joined_at == s0@.joined_at,
        s1@.dropped == s0@.dropped,
    ensures
        sub_inv(s1, log.push(e)),
        delivered_step(s0@, s1@, e),
{
    let v0 = s0@;
    let v1 = s1@;
    let log1 = log.push(e);
    assert forall|j: int| 0 <= j < v1.queued.len() implies v1.queued[j] == wire_of(
        v1.delivered[v1.delivered.len() - v1.queued.len() + j],
    ) by {
        if j < v0.queued.len() {
            assert(v1.queued[j] == v0.queued[j]);
            assert(v1.delivered[v0.delivered.len() - v0.queued.len() + j] == v0.delivered[v0.delivered.len()
                - v0.queued.len() + j]);
        } else {
            assert(v1.queued[j] == wire_of(e));
            assert(v1.delivered[v1.delivered.len() - 1] == e);
        }
    }
    assert forall|j: int| 0 <= j < s1.marks@.len() implies log1[#[trigger] s1.marks@[j]]
        == v1.delivered[v1.snapshot_len + j] by {
        if j < s0.marks@.len() {
            assert(s1.marks@[j] == s0.marks@[j]);
            assert(log1[s0.marks@[j]] == log[s0.marks@[j]]);
        } else {
            assert(s1.marks@[j] == log.len());
            assert(log1[log.len() as int] == e);
        }
    }
    if v0.dropped == 0 {
        assert(v1.delivered.skip(v1.snapshot_len as int) =~= v0.delivered.skip(
            v0.snapshot_len as int,
        ).push(e));
        assert(log1.skip(v1.joined_at as int) =~= log.skip(v0.joined_at as int).push(e));
    }
}

/// A subscriber whose queue is full drops the published event and stays
/// well-formed against the grown publish history.
proof fn lemma_offer_dropped(s0: Subscriber, s1: Subscriber, log: Seq<EventV>, e: EventV)
    requires
        sub_inv(s0, log),
        s0@.queued.len() >= CHANNEL_CAPACITY,
        s1@.id == s0@.id,
        s1@.queued == s0@.queued,
        s1@.delivered == s0@.delivered,
        s1.marks@ == s0.marks@,
        s1@.snapshot_len == s0@.snapshot_len,
        s1@.joined_at == s0@.joined_at,
        s1@.dropped == s0@.dropped + 1,
    ensures
        sub_inv(s1, log.push(e)),
        delivered_step(s0@, s1@, e),
{
    let log1 = log.push(e);
    assert forall|j: int| 0 <= j < s1.marks@.len() implies log1[#[trigger] s1.marks@[j]]
        == s1@.delivered[s1@.snapshot_len + j] by {
        assert(log1[s0.marks@[j]] == log[s0.marks@[j]]);
    }
}

/// `xs` appears inside `ys` in order: some strictly increasing choice of
/// positions of `ys` yields exactly `xs`.
pub open spec fn is_subsequence_of<T>(xs: Seq<T>, ys: Seq<T>) -> bool {
    exists|f: Seq<int>|
        {
            &&& f.len() == xs.len()
            &&& (forall|j1: int, j2: int| 0 <= j1 < j2 < f.len() ==> f[j1] < f[j2])
            &&& (forall|j: int|
                0 <= j < f.len() ==> 0 <= #[trigger] f[j] < ys.len() && ys[f[j]] == xs[j])
        }
}

/// Delivery preserves publish order. For any subscriber, the events
/// delivered after its initial snapshot form a subsequence of the events
/// published since it joined: nothing is reordered and nothing is duplicated.
/// A subscriber that never dropped a message received exactly the events
/// published since it joined.
pub proof fn lemma_delivery_order(b: Broadcaster, i: int)
    requires
        b.wf(),
        0 <= i < b.subs().len(),
    ensures
        is_subsequence_of(
            b.subs()[i].delivered.skip(b.subs()[i].snapshot_len as int),
            b.published().skip(b.subs()[i].joined_at as int),
        ),
        b.subs()[i].dropped == 0 ==> b.subs()[i].delivered.skip(b.subs()[i].snapshot_len as int)
            == b.published().skip(b.subs()[i].joined_at as int),
{
    let s = b.subscribers@[i];
    assert(b.subs()[i] == s@);
    assert(sub_inv(s, b.log@));
    let v = s@;
    let log = b.log@;
    let xs = v.delivered.skip(v.snapshot_len as int);
    let ys = log.skip(v.joined_at as int);
    let f = Seq::new(s.marks@.len(), |j: int| s.marks@[j] - v.joined_at);
    assert(f.len() == xs.len());
    assert forall|j: int| 0 <= j < f.len() implies 0 <= #[trigger] f[j] < ys.len() && ys[f[j]]
        == xs[j] by {
        assert(v.joined_at <= s.marks@[j] < log.len());
        assert(ys[f[j]] == log[s.marks@[j]]);
        assert(xs[j] == v.delivered[v.snapshot_len + j]);
    }
    assert forall|j1: int, j2: int| 0 <= j1 < j2 < f.len() implies f[j1] < f[j2] by {
        assert(s.marks@[j1] < s.marks@[j2]);
    }
    assert(is_subsequence_of(xs, ys));
}

/// For a subscriber that never dropped a message, the values delivered for
/// any one topic after its initial snapshot are exactly the values published
/// for that topic since it joined, in publish order.
pub proof fn lemma_no_drop_per_topic(b: Broadcaster, i: int, t: Topic)
    requires
        b.wf(),
        0 <= i < b.subs().len(),
        b.subs()[i].dropped == 0,
    ensures
        b.subs()[i].delivered.skip(b.subs()[i].snapshot_len as int).filter(
            |e: EventV| e.topic == t,
        ) == b.published().skip(b.subs()[i].joined_at as int).filter(|e: EventV| e.topic == t),
{
    lemma_delivery_order(b, i);
}

/// The initial snapshot holds, for any one topic, exactly its cached value
/// where the cache has one and nothing where it does not: one message per
/// topic present in the cache at subscribe time, no duplicates, none
/// missing.
pub proof fn lemma_snapshot_per_topic(cache: Seq<Option<Seq<char>>>, t: Topic)
    ensures
        crate::poller::events_for(snapshot_events(cache, 0), t) == (match cache[t.index_spec()] {
            Option::Some(v) => seq![v],
            Option::None => Seq::<Seq<char>>::empty(),
        }),
{
    lemma_topic_order_bijective();
    lemma_snapshot_per_topic_from(cache, t, 0);
}

/// The per-topic projection of the snapshot for topics at positions `i` and
/// beyond: the topic's own cached value if its position is still to come,
/// nothing otherwise.
proof fn lemma_snapshot_per_topic_from(cache: Seq<Option<Seq<char>>>, t: Topic, i: int)
    requires
        0 <= i,
        forall|j: int|
            0 <= j < TOPIC_COUNT ==> (#[trigger] topic_at(j) == t <==> j == t.index_spec()),
    ensures
        crate::poller::events_for(snapshot_events(cache, i), t) == (if i <= t.index_spec()
            < TOPIC_COUNT && cache[t.index_spec()] is Some {
            seq![cache[t.index_spec()]->Some_0]
        } else {
            Seq::<Seq<char>>::empty()
        }),
    decreases TOPIC_COUNT - i,
{
    let idx = t.index_spec();
    if i >= TOPIC_COUNT {
        assert(snapshot_events(cache, i) == Seq::<EventV>::empty());
        assert(crate::poller::events_for(Seq::<EventV>::empty(), t) == Seq::<Seq<char>>::empty());
    } else {
        lemma_snapshot_per_topic_from(cache, t, i + 1);
        let rest = snapshot_events(cache, i + 1);
        assert(topic_at(i) == t <==> i == idx);
        match cache[i] {
            Option::Some(v) => {
                let e = EventV { topic: topic_at(i), value: v };
                assert(snapshot_events(cache, i) == seq![e] + rest);
                crate::poller::lemma_events_for_add(seq![e], rest, t);
                assert(seq![e][0] == e);
                assert(seq![e].skip(1) =~= Seq::<EventV>::empty());
                assert(crate::poller::events_for(Seq::<EventV>::empty(), t) == Seq::<
                    Seq<char>,
                >::empty());
                assert(crate::poller::events_for(seq![e].skip(1), t) == Seq::<Seq<char>>::empty());
                if i == idx {
                    assert(crate::poller::events_for(seq![e], t) =~= seq![v]);
                    assert(crate::poller::events_for(rest, t) == Seq::<Seq<char>>::empty());
                    assert(crate::poller::events_for(snapshot_events(cache, i), t) =~= seq![v]);
                } else {
                    assert(crate::poller::events_for(seq![e], t) =~= Seq::<Seq<char>>::empty());
                    assert(crate::poller::events_for(snapshot_events(cache, i), t)
                        =~= crate::poller::events_for(rest, t));
                }
            },
            Option::None => {
                assert(snapshot_events(cache, i) == rest);
                if i == idx {
                    assert(crate::poller::events_for(rest, t) == Seq::<Seq<char>>::empty());
                }
            },
        }
    }
}

} // verus!
