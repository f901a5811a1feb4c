use backend_frontend::cache::SnapshotCache;
use backend_frontend::poller::run_tick;
use backend_frontend::topic::{Topic, TOPIC_COUNT};

fn no_fetches() -> Vec<Option<String>> {
    let mut v: Vec<Option<String>> = Vec::new();
    for _ in 0..TOPIC_COUNT {
        v.push(None);
    }
    v
}

#[test]
fn first_successful_fetch_emits() {
    let mut cache = SnapshotCache::new();
    let value = String::from("{\"online\":3}");
    let ev = cache.apply_fetch(Topic::Players, Some(&value));
    let ev = ev.expect("first fetch of a topic must emit");
    assert_eq!(ev.topic, Topic::Players);
    assert_eq!(ev.value, "{\"online\":3}");
    assert_eq!(cache.get(Topic::Players), Some(&value));
}

#[test]
fn equal_consecutive_polls_emit_nothing() {
    let mut cache = SnapshotCache::new();
    let value = String::from("{\"online\":3}");
    assert!(cache.apply_fetch(Topic::Players, Some(&value)).is_some());
    let second = cache.apply_fetch(Topic::Players, Some(&value));
    assert!(second.is_none());
    assert_eq!(cache.get(Topic::Players), Some(&value));
}

#[test]
fn failed_poll_leaves_cache_untouched_and_emits_nothing() {
    let mut cache = SnapshotCache::new();
    let value = String::from("{\"online\":3}");
    assert!(cache.apply_fetch(Topic::Players, Some(&value)).is_some());
    let after_failure = cache.apply_fetch(Topic::Players, None);
    assert!(after_failure.is_none());
    assert_eq!(cache.get(Topic::Players), Some(&value));
}

#[test]
fn one_topics_outcome_never_touches_another() {
    let mut cache = SnapshotCache::new();
    let a = String::from("1");
    let b = String::from("2");
    assert!(cache.apply_fetch(Topic::Metrics, Some(&a)).is_some());
    assert!(cache.apply_fetch(Topic::Players, Some(&b)).is_some());
    assert!(cache.apply_fetch(Topic::Metrics, None).is_none());
    assert_eq!(cache.get(Topic::Players), Some(&b));
    assert_eq!(cache.get(Topic::Metrics), Some(&a));
    assert_eq!(cache.get(Topic::Console), None);
}

#[test]
fn three_topic_scenario_across_three_ticks() {
    // Topics A, B, C with initial fetch values 1, 1, 1.
    let a = Topic::Metrics;
    let b = Topic::Players;
    let c = Topic::ServerInfo;
    let mut cache = SnapshotCache::new();

    let mut tick1 = no_fetches();
    tick1[a.index()] = Some(String::from("1"));
    tick1[b.index()] = Some(String::from("1"));
    tick1[c.index()] = Some(String::from("1"));
    let events = run_tick(&mut cache, &tick1);
    assert_eq!(events.len(), 3);

    // Tick 2: only B changed to 2.
    let mut tick2 = no_fetches();
    tick2[a.index()] = Some(String::from("1"));
    tick2[b.index()] = Some(String::from("2"));
    tick2[c.index()] = Some(String::from("1"));
    let events = run_tick(&mut cache, &tick2);
    assert_eq!(events.len(), 1);
    assert_eq!(events[0].topic, b);
    assert_eq!(events[0].value, "2");

    // Tick 3: C's fetch fails; its cached value stays 1 and nothing is
    // emitted for it.
    let mut tick3 = no_fetches();
    tick3[a.index()] = Some(String::from("1"));
    tick3[b.index()] = Some(String::from("2"));
    let events = run_tick(&mut cache, &tick3);
    assert_eq!(events.len(), 0);
    assert_eq!(cache.get(c), Some(&String::from("1")));
}

#[test]
fn tick_events_come_in_the_fixed_topic_order() {
    let mut cache = SnapshotCache::new();
    let mut tick = no_fetches();
    tick[Topic::Ops.index()] = Some(String::from("[]"));
    tick[Topic::Metrics.index()] = Some(String::from("{}"));
    tick[Topic::Chat.index()] = Some(String::from("[]"));
    let events = run_tick(&mut cache, &tick);
    assert_eq!(events.len(), 3);
    assert_eq!(events[0].topic, Topic::Metrics);
    assert_eq!(events[1].topic, Topic::Chat);
    assert_eq!(events[2].topic, Topic::Ops);
}
