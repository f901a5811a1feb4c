//! One tick of the poller: apply every topic's fetch outcome in the fixed
//! topic order and collect the events to broadcast.
//!
//! Each topic is processed independently: a fetch failure on one topic never
//! delays, skips or corrupts another topic in the same tick, and never ends
//! the loop that drives the ticks (that loop lives outside the library and
//! only hands the per-topic outcomes in).

use vstd::prelude::*;

use crate::broadcaster::{Broadcaster, SubscriberV};
use crate::cache::{emits, step_value, SnapshotCache};
use crate::message::{Event, EventV};
use crate::topic::{all_topics, lemma_topic_order_bijective, topic_at, Topic, TOPIC_COUNT};

verus! {

/// The events one tick emits for topics at positions `i` and beyond, given
/// the cache entries before the tick and the per-topic fetch outcomes: one
/// event per successfully fetched topic whose value differs from its cached
/// entry, in the fixed topic order.
pub open spec fn tick_events(
    prev: Seq<Option<Seq<char>>>,
    fetched: Seq<Option<Seq<char>>>,
    i: int,
) -> Seq<EventV>
    decreases TOPIC_COUNT - i,
{
    if i < 0 || i >= TOPIC_COUNT {
        Seq::empty()
    } else {
        let rest = tick_events(prev, fetched, i + 1);
        if emits(prev[i], fetched[i]) {
            seq![EventV { topic: topic_at(i), value: fetched[i]->Some_0 }] + rest
        } else {
            rest
        }
    }
}

/// Run one poll tick over the cache: `fetched[i]` is the outcome of this
/// tick's fetch for the topic at position `i` of the fixed order (`None` for
/// a fetch failure). Returns the events to broadcast, in the fixed order.
pub fn run_tick(cache: &mut SnapshotCache, fetched: &Vec<Option<String>>) -> (events: Vec<Event>)
    requires
        old(cache).wf(),
        fetched@.len() == TOPIC_COUNT,
    ensures
        final(cache).wf(),
        forall|t: crate::topic::Topic| #[trigger]
            final(cache).entry(t) == step_value(
                old(cache).entry(t),
                fetched.deep_view()[t.index_spec()],
            ),
        final(cache)@ == tick_cache(old(cache)@, fetched.deep_view()),
        events.deep_view() == tick_events(old(cache)@, fetched.deep_view(), 0),
{
    let ghost prev: Seq<Option<Seq<char>>> = cache@;
    let ghost f: Seq<Option<Seq<char>>> = fetched.deep_view();
    let topics = all_topics();
    let mut events: Vec<Event> = Vec::new();
    let mut i: usize = 0;
    while i < TOPIC_COUNT
        invariant
            i <= TOPIC_COUNT,
            cache.wf(),
            fetched@.len() == TOPIC_COUNT,
            f == fetched.deep_view(),
            prev.len() == TOPIC_COUNT,
            topics@ == crate::topic::all_topics_spec(),
            forall|j: int| i <= j < TOPIC_COUNT ==> cache@[j] == prev[j],
            forall|j: int| 0 <= j < i ==> cache@[j] == step_value(prev[j], f[j]),
            tick_events(prev, f, 0) == events.deep_view() + tick_events(prev, f, i as int),
        decreases TOPIC_COUNT - i,
    {
        let t = topics[i];
        proof {
            lemma_topic_order_bijective();
            assert(t == topic_at(i as int));
            assert(t.index_spec() == i as int);
            assert(cache.entry(t) == prev[i as int]);
        }
        let ghost events_before: Seq<EventV> = events.deep_view();
        let ghost cache_before: Seq<Option<Seq<char>>> = cache@;
        let outcome = fetched[i].as_ref();
        proof {
            assert(outcome.deep_view() == f[i as int]);
        }
        let changed = cache.apply_fetch(t, outcome);
        proof {
            assert forall|j: int| 0 <= j < TOPIC_COUNT && j != i as int implies cache@[j]
                == cache_before[j] by {
                let u = topic_at(j);
                assert(u.index_spec() == j);
                assert(u != t);
                assert(cache.entry(u) == cache@[j]);
            };
            assert(cache@[i as int] == step_value(prev[i as int], f[i as int]));
            assert forall|j: int| 0 <= j < i as int + 1 implies cache@[j] == step_value(
                prev[j],
                f[j],
            ) by {
                if j != i as int {
                    assert(cache@[j] == cache_before[j]);
                    assert(cache_before[j] == step_value(prev[j], f[j]));
                }
            };
        }
        match changed {
            Some(e) => {
                proof {
                    assert(e@ == EventV { topic: topic_at(i as int), value: f[i as int]->Some_0 });
                }
                events.push(e);
                proof {
                    assert(events.deep_view() =~= events_before + seq![e@]);
                    assert(events.deep_view() + tick_events(prev, f, i + 1) =~= events_before
                        + tick_events(prev, f, i as int));
                }
            },
            None => {
                proof {
                    assert(tick_events(prev, f, i as int) == tick_events(prev, f, i + 1));
                }
            },
        }
        i = i + 1;
    }
    proof {
        assert(tick_events(prev, f, TOPIC_COUNT as int) == Seq::<EventV>::empty());
        assert(events.deep_view() + Seq::<EventV>::empty() =~= events.deep_view());
        lemma_topic_order_bijective();
        assert(forall|t: crate::topic::Topic| #[trigger]
            cache.entry(t) == step_value(old(cache).entry(t), f[t.index_spec()])) by {
            assert(forall|t: crate::topic::Topic| 0 <= #[trigger] t.index_spec() < TOPIC_COUNT);
        }
        assert(cache@ =~= tick_cache(prev, f));
    }
    events
}

/// How one tick's publishes affect one subscriber: its identity, join point
/// and snapshot are untouched; if it dropped nothing during the tick, it
/// received exactly the tick's events, in order.
pub open spec fn tick_delivery(s0: SubscriberV, s1: SubscriberV, evs: Seq<EventV>) -> bool {
    &&& s1.id == s0.id
    &&& s1.joined_at == s0.joined_at
    &&& s1.snapshot_len == s0.snapshot_len
    &&& s1.dropped >= s0.dropped
    &&& (s1.dropped == s0.dropped ==> s1.delivered == s0.delivered + evs)
}

/// Run one full poll tick: apply every topic's fetch outcome to the cache in
/// the fixed topic order and publish each event a change produced to every
/// subscriber. The publish history grows by exactly this tick's events; no
/// subscriber set changes, and any subscriber with room for all of them
/// receives all of them, whatever any other subscriber's state.
pub fn broadcast_tick(
    cache: &mut SnapshotCache,
    hub: &mut Broadcaster,
    fetched: &Vec<Option<String>>,
) -> (count: usize)
    requires
        old(cache).wf(),
        old(hub).wf(),
        fetched@.len() == TOPIC_COUNT,
    ensures
        final(cache).wf(),
        final(hub).wf(),
        forall|t: crate::topic::Topic| #[trigger]
            final(cache).entry(t) == step_value(
                old(cache).entry(t),
                fetched.deep_view()[t.index_spec()],
            ),
        final(cache)@ == tick_cache(old(cache)@, fetched.deep_view()),
        final(hub).published() == old(hub).published() + tick_events(
            old(cache)@,
            fetched.deep_view(),
            0,
        ),
        final(hub).subs().len() == old(hub).subs().len(),
        forall|i: int|
            0 <= i < old(hub).subs().len() ==> tick_delivery(
                old(hub).subs()[i],
                #[trigger] final(hub).subs()[i],
                tick_events(old(cache)@, fetched.deep_view(), 0),
            ),
        count == tick_events(old(cache)@, fetched.deep_view(), 0).len(),
{
    let mut events = run_tick(cache, fetched);
    let count = events.len();
    let ghost evs: Seq<EventV> = tick_events(old(cache)@, fetched.deep_view(), 0);
    let ghost pub0: Seq<EventV> = old(hub).published();
    let ghost subs0: Seq<SubscriberV> = old(hub).subs();
    let ghost mut k: int = 0;
    proof {
        assert(evs.take(0) =~= Seq::<EventV>::empty());
        assert(pub0 + evs.take(0) =~= pub0);
        assert(forall|i: int|
            0 <= i < subs0.len() ==> #[trigger] subs0[i].delivered + evs.take(0)
                =~= subs0[i].delivered);
    }
    while events.len() > 0
        invariant
            hub.wf(),
            0 <= k <= evs.len(),
            events.deep_view() == evs.skip(k),
            hub.published() == pub0 + evs.take(k),
            hub.subs().len() == subs0.len(),
            forall|i: int|
                0 <= i < subs0.len() ==> tick_delivery(
                    subs0[i],
                    #[trigger] hub.subs()[i],
                    evs.take(k),
                ),
        decreases events@.len(),
    {
        let ghost dv_before: Seq<EventV> = events.deep_view();
        let ghost subs_before: Seq<SubscriberV> = hub.subs();
        let ev = events.remove(0);
        proof {
            assert(dv_before.len() == evs.len() - k);
            assert(dv_before.len() > 0);
            assert(k < evs.len());
            assert(ev@ == dv_before[0]);
            assert(dv_before[0] == evs.skip(k)[0]);
            assert(ev@ == evs[k]);
            assert(events.deep_view() =~= dv_before.skip(1));
            assert(dv_before.skip(1) =~= evs.skip(k + 1));
        }
        hub.send(ev);
        proof {
            assert(hub.published() =~= pub0 + evs.take(k + 1));
            assert forall|i: int| 0 <= i < subs0.len() implies tick_delivery(
                subs0[i],
                #[trigger] hub.subs()[i],
                evs.take(k + 1),
            ) by {
                let sp = subs_before[i];
                let s1 = hub.subs()[i];
                let s0 = subs0[i];
                assert(crate::broadcaster::delivered_step(sp, s1, evs[k]));
                if s1.dropped == s0.dropped {
                    assert(sp.dropped == s0.dropped);
                    assert(sp.queued.len() < crate::broadcaster::CHANNEL_CAPACITY);
                    assert(s1.delivered =~= s0.delivered + evs.take(k + 1)) by {
                        assert(sp.delivered == s0.delivered + evs.take(k));
                        assert(s1.delivered == sp.delivered.push(evs[k]));
                    }
                }
            }
            k = k + 1;
        }
    }
    proof {
        assert(evs.skip(k).len() == 0);
        assert(k == evs.len());
        assert(evs.take(k) =~= evs);
    }
    count
}

/// The values carried by the events for one topic, in order.
pub open spec fn events_for(evs: Seq<EventV>, t: Topic) -> Seq<Seq<char>>
    decreases evs.len(),
{
    if evs.len() == 0 {
        Seq::empty()
    } else if evs[0].topic == t {
        seq![evs[0].value] + events_for(evs.skip(1), t)
    } else {
        events_for(evs.skip(1), t)
    }
}

/// Projecting a concatenation on one topic concatenates the projections.
pub proof fn lemma_events_for_add(a: Seq<EventV>, b: Seq<EventV>, t: Topic)
    ensures
        events_for(a + b, t) == events_for(a, t) + events_for(b, t),
    decreases a.len(),
{
    if a.len() == 0 {
        assert(a + b =~= b);
        assert(events_for(a, t) + events_for(b, t) =~= events_for(b, t));
    } else {
        lemma_events_for_add(a.skip(1), b, t);
        assert((a + b).skip(1) =~= a.skip(1) + b);
        assert((a + b)[0] == a[0]);
        if a[0].topic == t {
            assert(seq![a[0].value] + (events_for(a.skip(1), t) + events_for(b, t)) =~= (seq![
                a[0].value,
            ] + events_for(a.skip(1), t)) + events_for(b, t));
        }
    }
}

/// One tick publishes for any one topic exactly its changed successful-fetch
/// value: one event carrying the freshly fetched value where a successful
/// fetch differs from the cached entry, and nothing otherwise. Fetch
/// failures and unchanged values publish nothing for the topic, and no other
/// topic's outcome can contribute to it.
pub proof fn lemma_tick_events_per_topic(
    prev: Seq<Option<Seq<char>>>,
    fetched: Seq<Option<Seq<char>>>,
    t: Topic,
)
    ensures
        events_for(tick_events(prev, fetched, 0), t) == (if emits(
            prev[t.index_spec()],
            fetched[t.index_spec()],
        ) {
            seq![fetched[t.index_spec()]->Some_0]
        } else {
            Seq::<Seq<char>>::empty()
        }),
{
    lemma_topic_order_bijective();
    lemma_tick_events_per_topic_from(prev, fetched, t, 0);
}

/// The per-topic projection of the events for topics at positions `i` and
/// beyond: the topic's own changed value if its position is still to come,
/// nothing otherwise.
proof fn lemma_tick_events_per_topic_from(
    prev: Seq<Option<Seq<char>>>,
    fetched: Seq<Option<Seq<char>>>,
    t: Topic,
    i: int,
)
    requires
        0 <= i,
        forall|j: int|
            0 <= j < TOPIC_COUNT ==> (#[trigger] topic_at(j) == t <==> j == t.index_spec()),
    ensures
        events_for(tick_events(prev, fetched, i), t) == (if i <= t.index_spec() < TOPIC_COUNT
            && emits(prev[t.index_spec()], fetched[t.index_spec()]) {
            seq![fetched[t.index_spec()]->Some_0]
        } else {
            Seq::<Seq<char>>::empty()
        }),
    decreases TOPIC_COUNT - i,
{
    let idx = t.index_spec();
    if i < 0 || i >= TOPIC_COUNT {
        assert(tick_events(prev, fetched, i) == Seq::<EventV>::empty());
        assert(events_for(Seq::<EventV>::empty(), t) == Seq::<Seq<char>>::empty());
    } else {
        lemma_tick_events_per_topic_from(prev, fetched, t, i + 1);
        let rest = tick_events(prev, fetched, i + 1);
        assert(topic_at(i) == t <==> i == idx);
        if emits(prev[i], fetched[i]) {
            let e = EventV { topic: topic_at(i), value: fetched[i]->Some_0 };
            assert(tick_events(prev, fetched, i) == seq![e] + rest);
            lemma_events_for_add(seq![e], rest, t);
            assert(seq![e][0] == e);
            assert(seq![e].skip(1) =~= Seq::<EventV>::empty());
            assert(events_for(Seq::<EventV>::empty(), t) == Seq::<Seq<char>>::empty());
            assert(events_for(seq![e].skip(1), t) == Seq::<Seq<char>>::empty());
            if i == idx {
                assert(e.topic == t);
                assert(events_for(seq![e], t) =~= seq![e.value]);
                assert(events_for(rest, t) == Seq::<Seq<char>>::empty());
                assert(events_for(tick_events(prev, fetched, i), t) =~= seq![
                    fetched[idx]->Some_0,
                ]);
            } else {
                assert(e.topic != t);
                assert(events_for(seq![e], t) =~= Seq::<Seq<char>>::empty());
                assert(events_for(tick_events(prev, fetched, i), t) =~= events_for(rest, t));
            }
        } else {
            assert(tick_events(prev, fetched, i) == rest);
            if i == idx {
                assert(events_for(rest, t) == Seq::<Seq<char>>::empty());
            }
        }
    }
}

/// The cache after one tick: every entry stepped by its own fetch outcome.
pub open spec fn tick_cache(
    prev: Seq<Option<Seq<char>>>,
    fetched: Seq<Option<Seq<char>>>,
) -> Seq<Option<Seq<char>>> {
    Seq::new(TOPIC_COUNT as nat, |i: int| step_value(prev[i], fetched[i]))
}

/// The cache after a run of ticks, oldest first.
pub open spec fn cache_after_ticks(
    prev: Seq<Option<Seq<char>>>,
    history: Seq<Seq<Option<Seq<char>>>>,
) -> Seq<Option<Seq<char>>>
    decreases history.len(),
{
    if history.len() == 0 {
        prev
    } else {
        cache_after_ticks(tick_cache(prev, history[0]), history.skip(1))
    }
}

/// Everything a run of ticks publishes, oldest first.
pub open spec fn published_over(
    prev: Seq<Option<Seq<char>>>,
    history: Seq<Seq<Option<Seq<char>>>>,
) -> Seq<EventV>
    decreases history.len(),
{
    if history.len() == 0 {
        Seq::empty()
    } else {
        tick_events(prev, history[0], 0) + published_over(
            tick_cache(prev, history[0]),
            history.skip(1),
        )
    }
}

/// One topic's column of a run of ticks: its own fetch outcome in each tick.
pub open spec fn topic_outcomes(history: Seq<Seq<Option<Seq<char>>>>, i: int) -> Seq<
    Option<Seq<char>>,
>
    decreases history.len(),
{
    if history.len() == 0 {
        Seq::empty()
    } else {
        seq![history[0][i]] + topic_outcomes(history.skip(1), i)
    }
}

/// The values a topic's run of fetch outcomes makes the poller publish,
/// starting from a cached entry: each successful fetch whose value differs
/// from the running last-known value, in order; failures and repeats of the
/// last-known value contribute nothing.
pub open spec fn changed_values(
    prev: Option<Seq<char>>,
    outcomes: Seq<Option<Seq<char>>>,
) -> Seq<Seq<char>>
    decreases outcomes.len(),
{
    if outcomes.len() == 0 {
        Seq::empty()
    } else {
        let head = if emits(prev, outcomes[0]) {
            seq![outcomes[0]->Some_0]
        } else {
            Seq::<Seq<char>>::empty()
        };
        head + changed_values(step_value(prev, outcomes[0]), outcomes.skip(1))
    }
}

/// Across any run of ticks, the values published for one topic are exactly
/// that topic's changed successful-fetch values, in fetch order: no
/// reordering, no duplication, and nothing of any other topic. Together with
/// the hub's delivery-order laws this carries end to end: a subscriber that
/// dropped nothing receives for each topic exactly these values from its
/// subscription onward, after its initial snapshot.
pub proof fn lemma_published_per_topic(
    prev: Seq<Option<Seq<char>>>,
    history: Seq<Seq<Option<Seq<char>>>>,
    t: Topic,
)
    ensures
        events_for(published_over(prev, history), t) == changed_values(
            prev[t.index_spec()],
            topic_outcomes(history, t.index_spec()),
        ),
    decreases history.len(),
{
    let idx = t.index_spec();
    if history.len() == 0 {
        assert(events_for(Seq::<EventV>::empty(), t) == Seq::<Seq<char>>::empty());
    } else {
        let first = history[0];
        let stepped = tick_cache(prev, first);
        lemma_published_per_topic(stepped, history.skip(1), t);
        lemma_events_for_add(
            tick_events(prev, first, 0),
            published_over(stepped, history.skip(1)),
            t,
        );
        lemma_tick_events_per_topic(prev, first, t);
        lemma_topic_order_bijective();
        assert(0 <= idx < TOPIC_COUNT);
        assert(stepped[idx] == step_value(prev[idx], first[idx]));
        let outs = topic_outcomes(history, idx);
        assert(outs == seq![first[idx]] + topic_outcomes(history.skip(1), idx));
        assert(outs[0] == first[idx]);
        assert(outs.skip(1) =~= topic_outcomes(history.skip(1), idx));
        assert(outs.len() > 0);
        if emits(prev[idx], first[idx]) {
            assert(events_for(published_over(prev, history), t) =~= seq![first[idx]->Some_0]
                + changed_values(stepped[idx], topic_outcomes(history.skip(1), idx)));
            assert(changed_values(prev[idx], outs) =~= seq![first[idx]->Some_0] + changed_values(
                step_value(prev[idx], outs[0]),
                outs.skip(1),
            ));
        } else {
            assert(events_for(published_over(prev, history), t) =~= changed_values(
                stepped[idx],
                topic_outcomes(history.skip(1), idx),
            ));
            assert(changed_values(prev[idx], outs) =~= Seq::<Seq<char>>::empty() + changed_values(
                step_value(prev[idx], outs[0]),
                outs.skip(1),
            ));
            assert(Seq::<Seq<char>>::empty() + changed_values(
                step_value(prev[idx], outs[0]),
                outs.skip(1),
            ) =~= changed_values(step_value(prev[idx], outs[0]), outs.skip(1)));
        }
    }
}

} // verus!
