//! The topic snapshot cache and the pure change-detection step.
//!
//! The cache holds the last successfully fetched value per topic and exists
//! purely for change detection. It starts empty; a topic's entry is written
//! only after a successful fetch, so a transient fetch failure leaves the
//! previous value in place (stale but valid) rather than looking like a
//! removed value. Comparison is structural equality of the stored JSON text;
//! an absent entry counts as unequal, so the first successful fetch of a
//! topic always emits.

use vstd::prelude::*;

use crate::message::Event;
use crate::topic::{Topic, TOPIC_COUNT};

verus! {

/// The cache entry for a topic after one fetch outcome is applied: a failed
/// fetch (`None`) leaves the entry alone, a successful one overwrites it.
pub open spec fn step_value(prev: Option<Seq<char>>, fetched: Option<Seq<char>>) -> Option<
    Seq<char>,
> {
    match fetched {
        Option::None => prev,
        Option::Some(v) => Some(v),
    }
}

/// Whether one fetch outcome emits an event: only a successful fetch whose
/// value differs from the cached entry does, and an absent entry differs from
/// every value.
pub open spec fn emits(prev: Option<Seq<char>>, fetched: Option<Seq<char>>) -> bool {
    match fetched {
        Option::None => false,
        Option::Some(v) => prev != Some(v),
    }
}

/// Last-known value per topic, used purely for change detection. Owned by the
/// poller together with the broadcaster; no other component writes it.
pub struct SnapshotCache {
    entries: Vec<Option<String>>,
}

impl View for SnapshotCache {
    type V = Seq<Option<Seq<char>>>;

    closed spec fn view(&self) -> Seq<Option<Seq<char>>> {
        self.entries.deep_view()
    }
}

impl SnapshotCache {
    /// One slot per topic, in the fixed topic order.
    pub open spec fn wf(self) -> bool {
        self@.len() == TOPIC_COUNT
    }

    /// The cached value for a topic, or `None` if it was never successfully
    /// fetched.
    pub open spec fn entry(self, t: Topic) -> Option<Seq<char>> {
        self@[t.index_spec()]
    }

    /// An empty cache: no topic was ever fetched.
    pub fn new() -> (c: Self)
        ensures
            c.wf(),
            forall|t: Topic| c.entry(t) is None,
            forall|i: int| 0 <= i < TOPIC_COUNT ==> c@[i] is None,
    {
        let mut entries: Vec<Option<String>> = Vec::new();
        let mut i: usize = 0;
        while i < TOPIC_COUNT
            invariant
                i <= TOPIC_COUNT,
                entries@.len() == i,
                forall|j: int| 0 <= j < i ==> entries@[j] is None,
            decreases TOPIC_COUNT - i,
        {
            entries.push(None);
            i = i + 1;
        }
        let c = SnapshotCache { entries };
        proof {
            assert(forall|t: Topic| 0 <= #[trigger] t.index_spec() < TOPIC_COUNT);
            assert(forall|t: Topic| #[trigger] c.entry(t) == c.entries@[t.index_spec()].deep_view());
        }
        c
    }

    /// Read a topic's cached value.
    pub fn get(&self, t: Topic) -> (r: Option<&String>)
        requires
            self.wf(),
        ensures
            match r {
                Some(v) => self.entry(t) == Some(v@),
                None => self.entry(t) is None,
            },
    {
        let i = t.index();
        proof {
            assert(self.entry(t) == self.entries.deep_view()[t.index_spec()]);
        }
        self.entries[i].as_ref()
    }

    /// Apply one topic's fetch outcome: compare the freshly fetched value (or
    /// fetch failure, `None`) to the cached entry, update the entry on a
    /// change, and return the event to broadcast, if any. Every other topic's
    /// entry is untouched, so one topic's failure cannot corrupt another.
    pub fn apply_fetch(&mut self, topic: Topic, fetched: Option<&String>) -> (changed: Option<
        Event,
    >)
        requires
            old(self).wf(),
        ensures
            final(self).wf(),
            final(self).entry(topic) == step_value(old(self).entry(topic), fetched.deep_view()),
            forall|u: Topic| u != topic ==> final(self).entry(u) == old(self).entry(u),
            changed is Some <==> emits(old(self).entry(topic), fetched.deep_view()),
            changed matches Some(e) ==> e.topic == topic && Some(e.value@) == fetched.deep_view(),
    {
        match fetched {
            None => None,
            Some(v) => {
                let i = topic.index();
                let same: bool = match &self.entries[i] {
                    Some(prev) => *prev == *v,
                    None => false,
                };
                proof {
                    assert(old(self).entry(topic) == self.entries.deep_view()[i as int]);
                    assert(same <==> old(self).entry(topic) == Some(v@));
                }
                if same {
                    None
                } else {
                    let stored = v.clone();
                    let emitted = v.clone();
                    self.entries.set(i, Some(stored));
                    proof {
                        crate::topic::lemma_topic_order_bijective();
                        assert(forall|u: Topic|
                            #[trigger] u.index_spec() == topic.index_spec() ==> u == topic);
                        assert(self.entry(topic) == self.entries.deep_view()[i as int]);
                    }
                    Some(Event { topic, value: emitted })
                }
            },
        }
    }
}

} // verus!
