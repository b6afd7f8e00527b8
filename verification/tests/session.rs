use webhook_capture::session::{
    initial_state, step, CloseReason, SessionAction, SessionEvent, SessionState,
};

#[test]
fn backlog_outcome_picks_the_initial_state() {
    assert_eq!(initial_state(true), SessionState::Streaming);
    assert_eq!(
        initial_state(false),
        SessionState::Closed(CloseReason::TransportSendFailure)
    );
}

#[test]
fn missed_pong_deadline_closes_the_session() {
    let (state, action) = step(SessionState::Streaming, SessionEvent::PingTick);
    assert_eq!(state, SessionState::Streaming);
    assert_eq!(action, SessionAction::SendPing);
    let (state, _) = step(state, SessionEvent::PingSendOk);
    assert_eq!(state, SessionState::AwaitingPong);
    let (state, _) = step(state, SessionEvent::PongDeadline);
    assert_eq!(state, SessionState::Closed(CloseReason::PongTimeout));
}

#[test]
fn answered_pings_keep_the_session_open_through_many_cycles() {
    let mut state = SessionState::Streaming;
    for _ in 0..100 {
        let (s, action) = step(state, SessionEvent::PingTick);
        assert_eq!(action, SessionAction::SendPing);
        let (s, _) = step(s, SessionEvent::PingSendOk);
        assert_eq!(s, SessionState::AwaitingPong);
        let (s, _) = step(s, SessionEvent::PongFrame);
        assert_eq!(s, SessionState::Streaming);
        state = s;
    }
    assert_eq!(state, SessionState::Streaming);
}

#[test]
fn unsolicited_pong_is_a_protocol_violation() {
    let (state, _) = step(SessionState::Streaming, SessionEvent::PongFrame);
    assert_eq!(state, SessionState::Closed(CloseReason::ProtocolViolation));
}

#[test]
fn live_entries_are_forwarded_in_both_open_states() {
    let (state, action) = step(SessionState::Streaming, SessionEvent::LiveEntry);
    assert_eq!(state, SessionState::Streaming);
    assert_eq!(action, SessionAction::ForwardEntry);
    let (state, action) = step(SessionState::AwaitingPong, SessionEvent::LiveEntry);
    assert_eq!(state, SessionState::AwaitingPong);
    assert_eq!(action, SessionAction::ForwardEntry);
    let (state, _) = step(state, SessionEvent::EntrySendOk);
    assert_eq!(state, SessionState::AwaitingPong);
}

#[test]
fn each_fatal_event_closes_with_its_reason() {
    let cases = [
        (SessionEvent::LiveLagged, CloseReason::SubscriberLag),
        (SessionEvent::LiveFeedEnded, CloseReason::FeedEnded),
        (SessionEvent::SendFailed, CloseReason::TransportSendFailure),
        (SessionEvent::EncodeFailed, CloseReason::EncodingFailure),
        (SessionEvent::PeerClosed, CloseReason::PeerClosed),
        (
            SessionEvent::ReceiveFailed,
            CloseReason::TransportReceiveFailure,
        ),
    ];
    for (event, reason) in cases {
        let (state, action) = step(SessionState::Streaming, event);
        assert_eq!(state, SessionState::Closed(reason));
        assert_eq!(action, SessionAction::Continue);
        let (state, _) = step(SessionState::AwaitingPong, event);
        assert_eq!(state, SessionState::Closed(reason));
    }
}

#[test]
fn other_frames_are_ignored() {
    let (state, action) = step(SessionState::Streaming, SessionEvent::OtherFrame);
    assert_eq!(state, SessionState::Streaming);
    assert_eq!(action, SessionAction::Continue);
    let (state, _) = step(SessionState::AwaitingPong, SessionEvent::OtherFrame);
    assert_eq!(state, SessionState::AwaitingPong);
}

#[test]
fn deadline_without_outstanding_ping_changes_nothing() {
    let (state, action) = step(SessionState::Streaming, SessionEvent::PongDeadline);
    assert_eq!(state, SessionState::Streaming);
    assert_eq!(action, SessionAction::Continue);
}

#[test]
fn closed_is_terminal_and_absorbs_every_event() {
    let closed = SessionState::Closed(CloseReason::PongTimeout);
    let events = [
        SessionEvent::LiveEntry,
        SessionEvent::PongFrame,
        SessionEvent::PingTick,
        SessionEvent::PongDeadline,
        SessionEvent::SendFailed,
    ];
    for event in events {
        let (state, action) = step(closed, event);
        assert_eq!(state, closed);
        assert_eq!(action, SessionAction::Continue);
        assert!(state.is_closed());
    }
    assert!(!SessionState::Streaming.is_closed());
    assert!(!SessionState::AwaitingPong.is_closed());
}
