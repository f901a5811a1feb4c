//! The closed set of topics mirrored from the upstream source.

use vstd::prelude::*;

verus! {

/// Number of topics in the closed set.
pub const TOPIC_COUNT: usize = 10;

/// A category of state mirrored from the upstream source. The set is closed
/// and known at compile time; adding a topic is a source change.
#[derive(Clone, Copy, PartialEq, Eq, Structural, Debug)]
pub enum Topic {
    Metrics,
    Players,
    ServerInfo,
    Plugins,
    Console,
    Chat,
    Logs,
    Whitelist,
    Blacklist,
    Ops,
}

impl Topic {
    /// Position of the topic in the fixed processing order.
    pub open spec fn index_spec(self) -> int {
        match self {
            Topic::Metrics => 0,
            Topic::Players => 1,
            Topic::ServerInfo => 2,
            Topic::Plugins => 3,
            Topic::Console => 4,
            Topic::Chat => 5,
            Topic::Logs => 6,
            Topic::Whitelist => 7,
            Topic::Blacklist => 8,
            Topic::Ops => 9,
        }
    }

    /// The wire tag naming the topic; an interface contract with the client.
    pub open spec fn tag_spec(self) -> Seq<char> {
        match self {
            Topic::Metrics => "metrics"@,
            Topic::Players => "players"@,
            Topic::ServerInfo => "server_info"@,
            Topic::Plugins => "plugins"@,
            Topic::Console => "console"@,
            Topic::Chat => "chat"@,
            Topic::Logs => "logs"@,
            Topic::Whitelist => "whitelist"@,
            Topic::Blacklist => "blacklist"@,
            Topic::Ops => "ops"@,
        }
    }

    /// Position of the topic in the fixed processing order.
    pub fn index(&self) -> (i: usize)
        ensures
            i == self.index_spec(),
            i < TOPIC_COUNT,
    {
        match self {
            Topic::Metrics => 0,
            Topic::Players => 1,
            Topic::ServerInfo => 2,
            Topic::Plugins => 3,
            Topic::Console => 4,
            Topic::Chat => 5,
            Topic::Logs => 6,
            Topic::Whitelist => 7,
            Topic::Blacklist => 8,
            Topic::Ops => 9,
        }
    }

    /// The wire tag naming the topic.
    pub fn tag(&self) -> (t: &'static str)
        ensures
            t@ == self.tag_spec(),
    {
        match self {
            Topic::Metrics => "metrics",
            Topic::Players => "players",
            Topic::ServerInfo => "server_info",
            Topic::Plugins => "plugins",
            Topic::Console => "console",
            Topic::Chat => "chat",
            Topic::Logs => "logs",
            Topic::Whitelist => "whitelist",
            Topic::Blacklist => "blacklist",
            Topic::Ops => "ops",
        }
    }
}

/// The topic at a given position of the fixed processing order.
pub open spec fn topic_at(i: int) -> Topic {
    if i == 0 {
        Topic::Metrics
    } else if i == 1 {
        Topic::Players
    } else if i == 2 {
        Topic::ServerInfo
    } else if i == 3 {
        Topic::Plugins
    } else if i == 4 {
        Topic::Console
    } else if i == 5 {
        Topic::Chat
    } else if i == 6 {
        Topic::Logs
    } else if i == 7 {
        Topic::Whitelist
    } else if i == 8 {
        Topic::Blacklist
    } else {
        Topic::Ops
    }
}

/// All topics, in the fixed order in which each poll tick processes them.
pub open spec fn all_topics_spec() -> Seq<Topic> {
    Seq::new(TOPIC_COUNT as nat, |i: int| topic_at(i))
}

/// `index_spec` and `topic_at` are inverse to each other, so the fixed
/// processing order visits every topic exactly once.
pub proof fn lemma_topic_order_bijective()
    ensures
        forall|t: Topic| topic_at(t.index_spec()) == t,
        forall|i: int| 0 <= i < TOPIC_COUNT ==> #[trigger] topic_at(i).index_spec() == i,
{
}

/// All topics, in the fixed order in which each poll tick processes them.
pub fn all_topics() -> (v: Vec<Topic>)
    ensures
        v@ == all_topics_spec(),
{
    let mut v: Vec<Topic> = Vec::new();
    v.push(Topic::Metrics);
    v.push(Topic::Players);
    v.push(Topic::ServerInfo);
    v.push(Topic::Plugins);
    v.push(Topic::Console);
    v.push(Topic::Chat);
    v.push(Topic::Logs);
    v.push(Topic::Whitelist);
    v.push(Topic::Blacklist);
    v.push(Topic::Ops);
    proof {
        assert(v@ =~= all_topics_spec());
    }
    v
}

} // verus!
