//! Events and their outbound wire form.
//!
//! A topic value is carried as its JSON text, an opaque payload compared only
//! for structural (textual) equality. The outbound wire message is a tagged
//! JSON object `{"type": "<topic>", "data": <value>}`, framed here by plain
//! concatenation so that the exact wire text is part of the contract; the two
//! control variants `ping` and `pong` have no payload.

use vstd::prelude::*;

use crate::topic::Topic;

verus! {

/// A detected change: topic `topic` now has value `value` (as JSON text).
/// Produced only by the poller.
pub struct Event {
    pub topic: Topic,
    pub value: String,
}

/// The mathematical value of an [`Event`].
pub struct EventV {
    pub topic: Topic,
    pub value: Seq<char>,
}

impl View for Event {
    type V = EventV;

    open spec fn view(&self) -> EventV {
        EventV { topic: self.topic, value: self.value@ }
    }
}

impl DeepView for Event {
    type V = EventV;

    open spec fn deep_view(&self) -> EventV {
        self.view()
    }
}

/// The wire text of a data message for topic `topic` carrying `value`.
pub open spec fn event_wire(topic: Topic, value: Seq<char>) -> Seq<char> {
    "{\"type\":\""@ + topic.tag_spec() + "\",\"data\":"@ + value + "}"@
}

/// A message sent to a connected client: one data variant per topic, plus the
/// two control variants.
pub enum WsMessage {
    Metrics { data: String },
    Players { data: String },
    ServerInfo { data: String },
    Plugins { data: String },
    Console { data: String },
    Chat { data: String },
    Logs { data: String },
    Whitelist { data: String },
    Blacklist { data: String },
    Ops { data: String },
    Ping,
    Pong,
}

impl WsMessage {
    /// The topic a data message belongs to; control messages have none.
    pub open spec fn topic_of(self) -> Option<Topic> {
        match self {
            WsMessage::Metrics { .. } => Some(Topic::Metrics),
            WsMessage::Players { .. } => Some(Topic::Players),
            WsMessage::ServerInfo { .. } => Some(Topic::ServerInfo),
            WsMessage::Plugins { .. } => Some(Topic::Plugins),
            WsMessage::Console { .. } => Some(Topic::Console),
            WsMessage::Chat { .. } => Some(Topic::Chat),
            WsMessage::Logs { .. } => Some(Topic::Logs),
            WsMessage::Whitelist { .. } => Some(Topic::Whitelist),
            WsMessage::Blacklist { .. } => Some(Topic::Blacklist),
            WsMessage::Ops { .. } => Some(Topic::Ops),
            WsMessage::Ping => None,
            WsMessage::Pong => None,
        }
    }

    /// The payload of a data message; control messages have none.
    pub open spec fn payload(self) -> Option<Seq<char>> {
        match self {
            WsMessage::Metrics { data } => Some(data@),
            WsMessage::Players { data } => Some(data@),
            WsMessage::ServerInfo { data } => Some(data@),
            WsMessage::Plugins { data } => Some(data@),
            WsMessage::Console { data } => Some(data@),
            WsMessage::Chat { data } => Some(data@),
            WsMessage::Logs { data } => Some(data@),
            WsMessage::Whitelist { data } => Some(data@),
            WsMessage::Blacklist { data } => Some(data@),
            WsMessage::Ops { data } => Some(data@),
            WsMessage::Ping => None,
            WsMessage::Pong => None,
        }
    }

    /// The exact wire text of the message.
    pub open spec fn wire_spec(self) -> Seq<char> {
        match self.topic_of() {
            Some(t) => event_wire(t, self.payload()->Some_0),
            None => if self is Ping {
                "{\"type\":\"ping\"}"@
            } else {
                "{\"type\":\"pong\"}"@
            },
        }
    }

    /// The data message carrying `event`'s value under its topic's tag.
    pub fn from_event(event: Event) -> (m: WsMessage)
        ensures
            m.topic_of() == Some(event.topic),
            m.payload() == Some(event.value@),
    {
        let Event { topic, value } = event;
        match topic {
            Topic::Metrics => WsMessage::Metrics { data: value },
            Topic::Players => WsMessage::Players { data: value },
            Topic::ServerInfo => WsMessage::ServerInfo { data: value },
            Topic::Plugins => WsMessage::Plugins { data: value },
            Topic::Console => WsMessage::Console { data: value },
            Topic::Chat => WsMessage::Chat { data: value },
            Topic::Logs => WsMessage::Logs { data: value },
            Topic::Whitelist => WsMessage::Whitelist { data: value },
            Topic::Blacklist => WsMessage::Blacklist { data: value },
            Topic::Ops => WsMessage::Ops { data: value },
        }
    }

    /// Serialize the message to its wire text.
    pub fn encode(&self) -> (s: String)
        ensures
            s@ == self.wire_spec(),
    {
        match self {
            WsMessage::Ping => String::from_str("{\"type\":\"ping\"}"),
            WsMessage::Pong => String::from_str("{\"type\":\"pong\"}"),
            WsMessage::Metrics { data } => encode_data("metrics", data),
            WsMessage::Players { data } => encode_data("players", data),
            WsMessage::ServerInfo { data } => encode_data("server_info", data),
            WsMessage::Plugins { data } => encode_data("plugins", data),
            WsMessage::Console { data } => encode_data("console", data),
            WsMessage::Chat { data } => encode_data("chat", data),
            WsMessage::Logs { data } => encode_data("logs", data),
            WsMessage::Whitelist { data } => encode_data("whitelist", data),
            WsMessage::Blacklist { data } => encode_data("blacklist", data),
            WsMessage::Ops { data } => encode_data("ops", data),
        }
    }
}

/// Frame a tagged data object from a topic tag and the payload's JSON text.
fn encode_data(tag: &str, data: &String) -> (s: String)
    ensures
        s@ == "{\"type\":\""@ + tag@ + "\",\"data\":"@ + data@ + "}"@,
{
    let mut s = String::from_str("{\"type\":\"");
    s.append(tag);
    s.append("\",\"data\":");
    s.append(data.as_str());
    s.append("}");
    proof {
        assert(s@ =~= "{\"type\":\""@ + tag@ + "\",\"data\":"@ + data@ + "}"@);
    }
    s
}

} // verus!
