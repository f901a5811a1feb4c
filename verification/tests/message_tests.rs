use backend_frontend::message::{Event, WsMessage};
use backend_frontend::topic::Topic;

#[test]
fn encode_frames_a_tagged_data_object() {
    let msg = WsMessage::from_event(Event {
        topic: Topic::Metrics,
        value: String::from("{\"tps\":20}"),
    });
    assert_eq!(msg.encode(), "{\"type\":\"metrics\",\"data\":{\"tps\":20}}");
}

#[test]
fn encode_uses_each_topics_tag() {
    let msg = WsMessage::from_event(Event {
        topic: Topic::ServerInfo,
        value: String::from("{\"ip\":\"localhost\"}"),
    });
    assert_eq!(
        msg.encode(),
        "{\"type\":\"server_info\",\"data\":{\"ip\":\"localhost\"}}"
    );
    let msg = WsMessage::from_event(Event {
        topic: Topic::Ops,
        value: String::from("[]"),
    });
    assert_eq!(msg.encode(), "{\"type\":\"ops\",\"data\":[]}");
}

#[test]
fn encode_control_messages() {
    assert_eq!(WsMessage::Ping.encode(), "{\"type\":\"ping\"}");
    assert_eq!(WsMessage::Pong.encode(), "{\"type\":\"pong\"}");
}

#[test]
fn from_event_picks_the_topics_variant() {
    let msg = WsMessage::from_event(Event {
        topic: Topic::Chat,
        value: String::from("[\"hi\"]"),
    });
    assert!(matches!(msg, WsMessage::Chat { ref data } if data == "[\"hi\"]"));
}
