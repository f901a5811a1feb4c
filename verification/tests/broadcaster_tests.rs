use backend_frontend::broadcaster::{Broadcaster, CHANNEL_CAPACITY};
use backend_frontend::cache::SnapshotCache;
use backend_frontend::message::{Event, WsMessage};
use backend_frontend::poller::broadcast_tick;
use backend_frontend::topic::{Topic, TOPIC_COUNT};

fn event(topic: Topic, value: &str) -> Event {
    Event { topic, value: String::from(value) }
}

fn no_fetches() -> Vec<Option<String>> {
    let mut v: Vec<Option<String>> = Vec::new();
    for _ in 0..TOPIC_COUNT {
        v.push(None);
    }
    v
}

#[test]
fn new_subscriber_gets_one_snapshot_message_per_cached_topic() {
    // Cache holds A:5 and B:7; nothing else.
    let mut cache = SnapshotCache::new();
    let five = String::from("5");
    let seven = String::from("7");
    cache.apply_fetch(Topic::Metrics, Some(&five));
    cache.apply_fetch(Topic::Players, Some(&seven));

    let mut hub = Broadcaster::new();
    let id = hub.subscribe(&cache);

    // Exactly two initial messages, in the fixed topic order, no duplicates.
    assert_eq!(
        hub.try_recv(id).as_deref(),
        Some("{\"type\":\"metrics\",\"data\":5}")
    );
    assert_eq!(
        hub.try_recv(id).as_deref(),
        Some("{\"type\":\"players\",\"data\":7}")
    );
    assert_eq!(hub.try_recv(id), None);

    // Then any live updates.
    hub.send(event(Topic::Players, "8"));
    assert_eq!(
        hub.try_recv(id).as_deref(),
        Some("{\"type\":\"players\",\"data\":8}")
    );
}

#[test]
fn snapshot_precedes_later_publishes() {
    let mut cache = SnapshotCache::new();
    let v = String::from("1");
    cache.apply_fetch(Topic::Console, Some(&v));
    let mut hub = Broadcaster::new();
    let id = hub.subscribe(&cache);
    hub.send(event(Topic::Console, "2"));
    assert_eq!(
        hub.try_recv(id).as_deref(),
        Some("{\"type\":\"console\",\"data\":1}")
    );
    assert_eq!(
        hub.try_recv(id).as_deref(),
        Some("{\"type\":\"console\",\"data\":2}")
    );
}

#[test]
fn empty_cache_means_empty_snapshot() {
    let cache = SnapshotCache::new();
    let mut hub = Broadcaster::new();
    let id = hub.subscribe(&cache);
    assert_eq!(hub.try_recv(id), None);
}

#[test]
fn messages_arrive_in_publish_order() {
    let cache = SnapshotCache::new();
    let mut hub = Broadcaster::new();
    let id = hub.subscribe(&cache);
    hub.send(event(Topic::Logs, "1"));
    hub.send(event(Topic::Logs, "2"));
    hub.send(event(Topic::Logs, "3"));
    assert_eq!(hub.try_recv(id).as_deref(), Some("{\"type\":\"logs\",\"data\":1}"));
    assert_eq!(hub.try_recv(id).as_deref(), Some("{\"type\":\"logs\",\"data\":2}"));
    assert_eq!(hub.try_recv(id).as_deref(), Some("{\"type\":\"logs\",\"data\":3}"));
    assert_eq!(hub.try_recv(id), None);
}

#[test]
fn closing_one_session_leaves_every_other_untouched() {
    let cache = SnapshotCache::new();
    let mut hub = Broadcaster::new();
    let first = hub.subscribe(&cache);
    let second = hub.subscribe(&cache);
    let third = hub.subscribe(&cache);
    hub.send(event(Topic::Chat, "1"));
    assert_eq!(hub.subscriber_count(), 3);

    hub.unsubscribe(second);
    assert_eq!(hub.subscriber_count(), 2);

    // The survivors still hold their pending message and keep receiving.
    hub.send(event(Topic::Chat, "2"));
    for id in [first, third] {
        assert_eq!(hub.try_recv(id).as_deref(), Some("{\"type\":\"chat\",\"data\":1}"));
        assert_eq!(hub.try_recv(id).as_deref(), Some("{\"type\":\"chat\",\"data\":2}"));
        assert_eq!(hub.try_recv(id), None);
    }

    // The closed session is gone: nothing to receive, and closing it again
    // is harmless.
    assert_eq!(hub.try_recv(second), None);
    hub.unsubscribe(second);
    assert_eq!(hub.subscriber_count(), 2);
}

#[test]
fn one_blocked_subscriber_cannot_stall_the_other_forty_nine() {
    let cache = SnapshotCache::new();
    let mut hub = Broadcaster::new();
    let mut ids = Vec::new();
    for _ in 0..50 {
        ids.push(hub.subscribe(&cache));
    }
    let blocked = ids[0];

    // The blocked subscriber never drains its queue; everyone else does.
    for i in 0..CHANNEL_CAPACITY {
        hub.send(event(Topic::Metrics, &format!("{}", i)));
        for id in &ids[1..] {
            assert!(hub.try_recv(*id).is_some());
        }
    }

    // The blocked queue is now full: the next publish must still be observed
    // by the other 49 and is dropped only for the blocked one.
    hub.send(event(Topic::Metrics, "fresh"));
    for id in &ids[1..] {
        assert_eq!(
            hub.try_recv(*id).as_deref(),
            Some("{\"type\":\"metrics\",\"data\":fresh}")
        );
    }
    for i in 0..CHANNEL_CAPACITY {
        assert_eq!(
            hub.try_recv(blocked).as_deref(),
            Some(format!("{{\"type\":\"metrics\",\"data\":{}}}", i).as_str())
        );
    }
    assert_eq!(hub.try_recv(blocked), None);
}

#[test]
fn unknown_handles_receive_nothing() {
    let cache = SnapshotCache::new();
    let mut hub = Broadcaster::new();
    let id = hub.subscribe(&cache);
    hub.send(event(Topic::Metrics, "1"));
    assert_eq!(hub.try_recv(id + 1), None);
    hub.unsubscribe(id + 1);
    assert_eq!(hub.subscriber_count(), 1);
}

#[test]
fn broadcast_tick_publishes_only_changes() {
    let mut cache = SnapshotCache::new();
    let mut hub = Broadcaster::new();
    let id = hub.subscribe(&cache);

    let mut tick = no_fetches();
    tick[Topic::Metrics.index()] = Some(String::from("1"));
    let count = broadcast_tick(&mut cache, &mut hub, &tick);
    assert_eq!(count, 1);
    let count = broadcast_tick(&mut cache, &mut hub, &tick);
    assert_eq!(count, 0);

    assert_eq!(
        hub.try_recv(id).as_deref(),
        Some("{\"type\":\"metrics\",\"data\":1}")
    );
    assert_eq!(hub.try_recv(id), None);

    // A message constructed by hand encodes to the same wire text the hub
    // delivered.
    let wire = WsMessage::from_event(event(Topic::Metrics, "1")).encode();
    assert_eq!(wire, "{\"type\":\"metrics\",\"data\":1}");
}
