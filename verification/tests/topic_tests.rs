use backend_frontend::topic::{all_topics, Topic, TOPIC_COUNT};

#[test]
fn topic_tags_match_wire_contract() {
    assert_eq!(Topic::Metrics.tag(), "metrics");
    assert_eq!(Topic::Players.tag(), "players");
    assert_eq!(Topic::ServerInfo.tag(), "server_info");
    assert_eq!(Topic::Plugins.tag(), "plugins");
    assert_eq!(Topic::Console.tag(), "console");
    assert_eq!(Topic::Chat.tag(), "chat");
    assert_eq!(Topic::Logs.tag(), "logs");
    assert_eq!(Topic::Whitelist.tag(), "whitelist");
    assert_eq!(Topic::Blacklist.tag(), "blacklist");
    assert_eq!(Topic::Ops.tag(), "ops");
}

#[test]
fn topic_order_is_fixed_and_complete() {
    let topics = all_topics();
    assert_eq!(topics.len(), TOPIC_COUNT);
    assert_eq!(topics.len(), 10);
    for (i, t) in topics.iter().enumerate() {
        assert_eq!(t.index(), i);
    }
    assert_eq!(topics[0], Topic::Metrics);
    assert_eq!(topics[1], Topic::Players);
    assert_eq!(topics[2], Topic::ServerInfo);
    assert_eq!(topics[3], Topic::Plugins);
    assert_eq!(topics[4], Topic::Console);
    assert_eq!(topics[5], Topic::Chat);
    assert_eq!(topics[6], Topic::Logs);
    assert_eq!(topics[7], Topic::Whitelist);
    assert_eq!(topics[8], Topic::Blacklist);
    assert_eq!(topics[9], Topic::Ops);
}
