//! The connection session lifecycle: one state machine per connected client.
//!
//! A session moves Connecting → Active → Closing → Closed. While Active, two
//! concurrent loops run on its behalf outside the library: a forward loop
//! that writes each received broadcast message to the transport, and a
//! receive loop that reads client frames. Whichever loop fails first moves
//! the session to Closing and the surviving loop is cancelled; releasing the
//! resources then closes it. Closed is terminal: a reconnecting client gets a
//! brand-new session. The transition function is pure, so the tasks driving a
//! real transport only perform the actions it returns.

use vstd::prelude::*;

verus! {

/// Lifecycle state of one connection session.
#[derive(Clone, Copy, PartialEq, Eq, Structural, Debug)]
pub enum SessionState {
    Connecting,
    Active,
    Closing,
    Closed,
}

/// An observation one of the session's tasks makes.
pub enum SessionEvent {
    /// The transport handshake completed.
    HandshakeComplete,
    /// The subscription handed the forward loop a wire message to deliver.
    MessageReady(String),
    /// A transport write failed.
    WriteFailed,
    /// A text frame arrived from the client.
    TextFrame(String),
    /// The client sent a close frame.
    CloseFrame,
    /// Reading from the transport failed.
    ReadError,
    /// Both loops are cancelled; resources can be released.
    Cleanup,
}

/// What the task that observed the event must do next.
pub enum SessionAction {
    /// Subscribe to the broadcaster and send one initial snapshot message per
    /// topic currently present in the cache.
    SubscribeAndSendSnapshot,
    /// Write this wire message to the transport.
    Forward(String),
    /// Consume the event and do nothing.
    Ignore,
    /// Cancel whichever of the two loops is still running.
    CancelLoops,
    /// Drop the subscription and close the transport.
    ReleaseResources,
}

/// The transition relation of the session lifecycle.
pub open spec fn spec_step(state: SessionState, event: SessionEvent) -> (
    SessionState,
    SessionAction,
) {
    match state {
        SessionState::Connecting => match event {
            SessionEvent::HandshakeComplete => (
                SessionState::Active,
                SessionAction::SubscribeAndSendSnapshot,
            ),
            SessionEvent::WriteFailed => (SessionState::Closing, SessionAction::CancelLoops),
            SessionEvent::CloseFrame => (SessionState::Closing, SessionAction::CancelLoops),
            SessionEvent::ReadError => (SessionState::Closing, SessionAction::CancelLoops),
            SessionEvent::Cleanup => (SessionState::Closed, SessionAction::ReleaseResources),
            _ => (SessionState::Connecting, SessionAction::Ignore),
        },
        SessionState::Active => match event {
            SessionEvent::MessageReady(m) => (SessionState::Active, SessionAction::Forward(m)),
            SessionEvent::WriteFailed => (SessionState::Closing, SessionAction::CancelLoops),
            SessionEvent::CloseFrame => (SessionState::Closing, SessionAction::CancelLoops),
            SessionEvent::ReadError => (SessionState::Closing, SessionAction::CancelLoops),
            SessionEvent::Cleanup => (SessionState::Closed, SessionAction::ReleaseResources),
            _ => (SessionState::Active, SessionAction::Ignore),
        },
        SessionState::Closing => match event {
            SessionEvent::Cleanup => (SessionState::Closed, SessionAction::ReleaseResources),
            _ => (SessionState::Closing, SessionAction::Ignore),
        },
        SessionState::Closed => (SessionState::Closed, SessionAction::Ignore),
    }
}

/// Take one step of the session lifecycle: from the current state and an
/// observation, the next state and the action the observing task must
/// perform.
pub fn session_step(state: SessionState, event: SessionEvent) -> (r: (SessionState, SessionAction))
    ensures
        r == spec_step(state, event),
{
    match state {
        SessionState::Connecting => match event {
            SessionEvent::HandshakeComplete => (
                SessionState::Active,
                SessionAction::SubscribeAndSendSnapshot,
            ),
            SessionEvent::WriteFailed => (SessionState::Closing, SessionAction::CancelLoops),
            SessionEvent::CloseFrame => (SessionState::Closing, SessionAction::CancelLoops),
            SessionEvent::ReadError => (SessionState::Closing, SessionAction::CancelLoops),
            SessionEvent::Cleanup => (SessionState::Closed, SessionAction::ReleaseResources),
            _ => (SessionState::Connecting, SessionAction::Ignore),
        },
        SessionState::Active => match event {
            SessionEvent::MessageReady(m) => (SessionState::Active, SessionAction::Forward(m)),
            SessionEvent::WriteFailed => (SessionState::Closing, SessionAction::CancelLoops),
            SessionEvent::CloseFrame => (SessionState::Closing, SessionAction::CancelLoops),
            SessionEvent::ReadError => (SessionState::Closing, SessionAction::CancelLoops),
            SessionEvent::Cleanup => (SessionState::Closed, SessionAction::ReleaseResources),
            _ => (SessionState::Active, SessionAction::Ignore),
        },
        SessionState::Closing => match event {
            SessionEvent::Cleanup => (SessionState::Closed, SessionAction::ReleaseResources),
            _ => (SessionState::Closing, SessionAction::Ignore),
        },
        SessionState::Closed => (SessionState::Closed, SessionAction::Ignore),
    }
}

/// Closed is terminal: no event leaves it and no event makes a closed
/// session act again. A reconnecting client gets a brand-new session.
pub proof fn lemma_closed_is_terminal(event: SessionEvent)
    ensures
        spec_step(SessionState::Closed, event).0 == SessionState::Closed,
        spec_step(SessionState::Closed, event).1 == SessionAction::Ignore,
{
}

/// Whichever of the two loops fails first moves an active session to Closing
/// and cancels the survivor; a client close frame does the same.
pub proof fn lemma_active_failure_closes()
    ensures
        spec_step(SessionState::Active, SessionEvent::WriteFailed) == (
            SessionState::Closing,
            SessionAction::CancelLoops,
        ),
        spec_step(SessionState::Active, SessionEvent::ReadError) == (
            SessionState::Closing,
            SessionAction::CancelLoops,
        ),
        spec_step(SessionState::Active, SessionEvent::CloseFrame) == (
            SessionState::Closing,
            SessionAction::CancelLoops,
        ),
{
}

/// Closing a session is idempotent: the first cleanup releases the resources
/// and closes it; repeating the cleanup is safe and does nothing.
pub proof fn lemma_cleanup_idempotent()
    ensures
        spec_step(SessionState::Closing, SessionEvent::Cleanup) == (
            SessionState::Closed,
            SessionAction::ReleaseResources,
        ),
        spec_step(
            spec_step(SessionState::Closing, SessionEvent::Cleanup).0,
            SessionEvent::Cleanup,
        ) == (SessionState::Closed, SessionAction::Ignore),
{
}

/// Only completing the handshake subscribes: once a session is past Active
/// it can never subscribe again (no resurrection).
pub proof fn lemma_no_resurrection(state: SessionState, event: SessionEvent)
    requires
        state == SessionState::Closing || state == SessionState::Closed,
    ensures
        !(spec_step(state, event).1 is SubscribeAndSendSnapshot),
        spec_step(state, event).0 == state || spec_step(state, event).0 == SessionState::Closed,
{
}

/// Whether an inbound text frame is the keep-alive the protocol recognizes:
/// exactly the literal text `ping`. It is consumed and has no effect; no
/// reply is sent. Every other text frame is ignored too.
pub fn is_keep_alive(text: &str) -> (b: bool)
    ensures
        b <==> text@ == "ping"@,
{
    proof {
        reveal_strlit("ping");
    }
    let n = text.unicode_len();
    if n != 4 {
        proof {
            assert(text@ != "ping"@);
        }
        return false;
    }
    let b = text.get_char(0) == 'p' && text.get_char(1) == 'i' && text.get_char(2) == 'n'
        && text.get_char(3) == 'g';
    proof {
        if b {
            assert(text@ =~= "ping"@);
        }
    }
    b
}

} // verus!
