use backend_frontend::session::{is_keep_alive, session_step, SessionAction, SessionEvent, SessionState};

#[test]
fn handshake_activates_and_sends_the_snapshot() {
    let (state, action) = session_step(SessionState::Connecting, SessionEvent::HandshakeComplete);
    assert_eq!(state, SessionState::Active);
    assert!(matches!(action, SessionAction::SubscribeAndSendSnapshot));
}

#[test]
fn active_session_forwards_broadcast_messages() {
    let (state, action) = session_step(
        SessionState::Active,
        SessionEvent::MessageReady(String::from("{\"type\":\"ping\"}")),
    );
    assert_eq!(state, SessionState::Active);
    assert!(matches!(action, SessionAction::Forward(m) if m == "{\"type\":\"ping\"}"));
}

#[test]
fn whichever_loop_fails_first_cancels_the_other() {
    for failure in [
        SessionEvent::WriteFailed,
        SessionEvent::ReadError,
        SessionEvent::CloseFrame,
    ] {
        let (state, action) = session_step(SessionState::Active, failure);
        assert_eq!(state, SessionState::Closing);
        assert!(matches!(action, SessionAction::CancelLoops));
    }
}

#[test]
fn client_frames_are_consumed_and_ignored() {
    let (state, action) = session_step(
        SessionState::Active,
        SessionEvent::TextFrame(String::from("ping")),
    );
    assert_eq!(state, SessionState::Active);
    assert!(matches!(action, SessionAction::Ignore));
    let (state, action) = session_step(
        SessionState::Active,
        SessionEvent::TextFrame(String::from("anything else")),
    );
    assert_eq!(state, SessionState::Active);
    assert!(matches!(action, SessionAction::Ignore));
}

#[test]
fn cleanup_closes_and_is_idempotent() {
    let (state, action) = session_step(SessionState::Closing, SessionEvent::Cleanup);
    assert_eq!(state, SessionState::Closed);
    assert!(matches!(action, SessionAction::ReleaseResources));
    let (state, action) = session_step(state, SessionEvent::Cleanup);
    assert_eq!(state, SessionState::Closed);
    assert!(matches!(action, SessionAction::Ignore));
}

#[test]
fn closed_is_terminal() {
    for ev in [
        SessionEvent::HandshakeComplete,
        SessionEvent::MessageReady(String::from("m")),
        SessionEvent::WriteFailed,
        SessionEvent::TextFrame(String::from("ping")),
        SessionEvent::CloseFrame,
        SessionEvent::ReadError,
        SessionEvent::Cleanup,
    ] {
        let (state, action) = session_step(SessionState::Closed, ev);
        assert_eq!(state, SessionState::Closed);
        assert!(matches!(action, SessionAction::Ignore));
    }
}

#[test]
fn failed_handshake_never_activates() {
    let (state, action) = session_step(SessionState::Connecting, SessionEvent::WriteFailed);
    assert_eq!(state, SessionState::Closing);
    assert!(matches!(action, SessionAction::CancelLoops));
}

#[test]
fn only_the_literal_ping_is_the_keep_alive() {
    assert!(is_keep_alive("ping"));
    assert!(!is_keep_alive("Ping"));
    assert!(!is_keep_alive("pong"));
    assert!(!is_keep_alive(""));
    assert!(!is_keep_alive("ping "));
    assert!(!is_keep_alive("pinG"));
    assert!(!is_keep_alive("p\u{00ef}ng"));
}
