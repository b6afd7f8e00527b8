use vstd::prelude::*;

verus! {

/// Why a subscription session reached its terminal state.
#[derive(Clone, Copy, Debug, PartialEq, Eq, Structural)]
pub enum CloseReason {
    /// A send to the peer failed: a backlog entry, a live entry, or a ping.
    TransportSendFailure,
    /// A receive from the peer failed.
    TransportReceiveFailure,
    /// The peer sent a pong while no ping was outstanding. Strict policy:
    /// an unsolicited pong closes the session.
    ProtocolViolation,
    /// The live feed reported that entries were dropped before delivery;
    /// silent loss is not acceptable, so the session ends.
    SubscriberLag,
    /// An entry could not be serialized for the peer.
    EncodingFailure,
    /// The peer sent a close frame or disconnected.
    PeerClosed,
    /// No pong arrived within the pong deadline.
    PongTimeout,
    /// The live feed ended before the session did.
    FeedEnded,
}

/// The keepalive state of one subscription session. `Closed` is terminal:
/// the session releases its subscriber registration and stops.
#[derive(Clone, Copy, Debug, PartialEq, Eq, Structural)]
pub enum SessionState {
    /// Normal operation, no ping outstanding.
    Streaming,
    /// A ping has been sent; its pong deadline is pending.
    AwaitingPong,
    /// Terminal, with the reason the session ended.
    Closed(CloseReason),
}

/// One observation made by the session's event loop, which waits on its
/// live feed, its peer, the ping timer and the pong deadline, first ready
/// first — together with the outcome of each send the loop performed.
#[derive(Clone, Copy, Debug, PartialEq, Eq, Structural)]
pub enum SessionEvent {
    /// A new entry arrived on the live feed.
    LiveEntry,
    /// The live feed reported lag: entries were lost before delivery.
    LiveLagged,
    /// The live feed ended.
    LiveFeedEnded,
    /// A live entry was serialized and sent to the peer successfully.
    EntrySendOk,
    /// A ping frame was sent successfully.
    PingSendOk,
    /// A send to the peer failed.
    SendFailed,
    /// An entry could not be serialized.
    EncodeFailed,
    /// A pong frame arrived from the peer.
    PongFrame,
    /// The peer sent a close frame or disconnected.
    PeerClosed,
    /// Any other frame arrived from the peer; it is ignored.
    OtherFrame,
    /// A receive from the peer failed.
    ReceiveFailed,
    /// The ping interval ticked.
    PingTick,
    /// The pong deadline elapsed.
    PongDeadline,
}

/// What the session loop must do after a step.
#[derive(Clone, Copy, Debug, PartialEq, Eq, Structural)]
pub enum SessionAction {
    /// Nothing beyond acting on the new state.
    Continue,
    /// Serialize the entry just received and send it to the peer, then
    /// report `EntrySendOk`, `SendFailed` or `EncodeFailed`.
    ForwardEntry,
    /// Send a ping frame to the peer, then report `PingSendOk` or
    /// `SendFailed`; on `PingSendOk` the pong deadline is (re)armed.
    SendPing,
}

/// The transition relation of the keepalive state machine, one event at a
/// time. `Closed` absorbs every event.
pub open spec fn step_spec(state: SessionState, event: SessionEvent) -> (
    SessionState,
    SessionAction,
) {
    match state {
        SessionState::Closed(_) => (state, SessionAction::Continue),
        _ => match event {
            SessionEvent::LiveEntry => (state, SessionAction::ForwardEntry),
            SessionEvent::LiveLagged => (
                SessionState::Closed(CloseReason::SubscriberLag),
                SessionAction::Continue,
            ),
            SessionEvent::LiveFeedEnded => (
                SessionState::Closed(CloseReason::FeedEnded),
                SessionAction::Continue,
            ),
            SessionEvent::EntrySendOk => (state, SessionAction::Continue),
            SessionEvent::PingSendOk => (SessionState::AwaitingPong, SessionAction::Continue),
            SessionEvent::SendFailed => (
                SessionState::Closed(CloseReason::TransportSendFailure),
                SessionAction::Continue,
            ),
            SessionEvent::EncodeFailed => (
                SessionState::Closed(CloseReason::EncodingFailure),
                SessionAction::Continue,
            ),
            SessionEvent::PongFrame => if state == SessionState::AwaitingPong {
                (SessionState::Streaming, SessionAction::Continue)
            } else {
                (SessionState::Closed(CloseReason::ProtocolViolation), SessionAction::Continue)
            },
            SessionEvent::PeerClosed => (
                SessionState::Closed(CloseReason::PeerClosed),
                SessionAction::Continue,
            ),
            SessionEvent::OtherFrame => (state, SessionAction::Continue),
            SessionEvent::ReceiveFailed => (
                SessionState::Closed(CloseReason::TransportReceiveFailure),
                SessionAction::Continue,
            ),
            SessionEvent::PingTick => (state, SessionAction::SendPing),
            SessionEvent::PongDeadline => if state == SessionState::AwaitingPong {
                (SessionState::Closed(CloseReason::PongTimeout), SessionAction::Continue)
            } else {
                (state, SessionAction::Continue)
            },
        },
    }
}

/// The state a session starts in once the backlog has been handled:
/// streaming when every backlog send succeeded, otherwise closed before the
/// keepalive loop ever starts.
pub open spec fn initial_spec(backlog_ok: bool) -> SessionState {
    if backlog_ok {
        SessionState::Streaming
    } else {
        SessionState::Closed(CloseReason::TransportSendFailure)
    }
}

impl SessionState {
    /// Whether the session has reached its terminal state.
    pub open spec fn spec_is_closed(self) -> bool {
        match self {
            SessionState::Closed(_) => true,
            _ => false,
        }
    }

    /// Whether the session has reached its terminal state.
    pub fn is_closed(&self) -> (b: bool)
        ensures
            b == self.spec_is_closed(),
    {
        match self {
            SessionState::Closed(_) => true,
            _ => false,
        }
    }
}

/// Enters the keepalive loop, or closes at once when a backlog send failed.
pub fn initial_state(backlog_ok: bool) -> (s: SessionState)
    ensures
        s == initial_spec(backlog_ok),
{
    if backlog_ok {
        SessionState::Streaming
    } else {
        SessionState::Closed(CloseReason::TransportSendFailure)
    }
}

/// Advances the keepalive state machine by one observed event, returning
/// the next state and what the loop must do.
pub fn step(state: SessionState, event: SessionEvent) -> (r: (SessionState, SessionAction))
    ensures
        r == step_spec(state, event),
{
    match state {
        SessionState::Closed(_) => (state, SessionAction::Continue),
        _ => match event {
            SessionEvent::LiveEntry => (state, SessionAction::ForwardEntry),
            SessionEvent::LiveLagged => (
                SessionState::Closed(CloseReason::SubscriberLag),
                SessionAction::Continue,
            ),
            SessionEvent::LiveFeedEnded => (
                SessionState::Closed(CloseReason::FeedEnded),
                SessionAction::Continue,
            ),
            SessionEvent::EntrySendOk => (state, SessionAction::Continue),
            SessionEvent::PingSendOk => (SessionState::AwaitingPong, SessionAction::Continue),
            SessionEvent::SendFailed => (
                SessionState::Closed(CloseReason::TransportSendFailure),
                SessionAction::Continue,
            ),
            SessionEvent::EncodeFailed => (
                SessionState::Closed(CloseReason::EncodingFailure),
                SessionAction::Continue,
            ),
            SessionEvent::PongFrame => match state {
                SessionState::AwaitingPong => (
                    SessionState::Streaming,
                    SessionAction::Continue,
                ),
                _ => (
                    SessionState::Closed(CloseReason::ProtocolViolation),
                    SessionAction::Continue,
                ),
            },
            SessionEvent::PeerClosed => (
                SessionState::Closed(CloseReason::PeerClosed),
                SessionAction::Continue,
            ),
            SessionEvent::OtherFrame => (state, SessionAction::Continue),
            SessionEvent::ReceiveFailed => (
                SessionState::Closed(CloseReason::TransportReceiveFailure),
                SessionAction::Continue,
            ),
            SessionEvent::PingTick => (state, SessionAction::SendPing),
            SessionEvent::PongDeadline => match state {
                SessionState::AwaitingPong => (
                    SessionState::Closed(CloseReason::PongTimeout),
                    SessionAction::Continue,
                ),
                _ => (state, SessionAction::Continue),
            },
        },
    }
}

/// The state a session is in after a whole sequence of observed events.
pub open spec fn run_events(state: SessionState, events: Seq<SessionEvent>) -> SessionState
    decreases events.len(),
{
    if events.len() == 0 {
        state
    } else {
        run_events(step_spec(state, events.first()).0, events.drop_first())
    }
}

/// One full keepalive exchange: the ping timer fires, the ping is sent, and
/// the pong arrives before the deadline.
pub open spec fn ping_pong_cycle() -> Seq<SessionEvent> {
    seq![SessionEvent::PingTick, SessionEvent::PingSendOk, SessionEvent::PongFrame]
}

/// `n` keepalive exchanges in a row.
pub open spec fn ping_pong_cycles(n: nat) -> Seq<SessionEvent>
    decreases n,
{
    if n == 0 {
        Seq::empty()
    } else {
        ping_pong_cycle() + ping_pong_cycles((n - 1) as nat)
    }
}

/// Running a session over concatenated event runs is running them in turn.
pub proof fn lemma_run_events_concat(
    state: SessionState,
    a: Seq<SessionEvent>,
    b: Seq<SessionEvent>,
)
    ensures
        run_events(state, a + b) == run_events(run_events(state, a), b),
    decreases a.len(),
{
    if a.len() == 0 {
        assert(a + b =~= b);
    } else {
        assert((a + b).len() > 0);
        assert((a + b).first() == a.first());
        assert((a + b).drop_first() =~= a.drop_first() + b);
        lemma_run_events_concat(step_spec(state, a.first()).0, a.drop_first(), b);
    }
}

/// Law of the keepalive exchange: one completed ping/pong cycle returns a
/// streaming session to streaming.
pub proof fn lemma_one_ping_pong_cycle()
    ensures
        run_events(SessionState::Streaming, ping_pong_cycle()) == SessionState::Streaming,
{
    reveal_with_fuel(run_events, 5);
    let c = ping_pong_cycle();
    let c1 = c.drop_first();
    let c2 = c1.drop_first();
    let c3 = c2.drop_first();
    assert(c.first() == SessionEvent::PingTick);
    assert(c1.first() == SessionEvent::PingSendOk);
    assert(c2.first() == SessionEvent::PongFrame);
    assert(c3.len() == 0);
    assert(run_events(SessionState::AwaitingPong, c2) == SessionState::Streaming);
    assert(run_events(SessionState::Streaming, c1) == SessionState::Streaming);
}

/// Law of keepalive liveness: a session whose peer answers every ping with
/// a pong before the deadline stays open through arbitrarily many further
/// ping/pong cycles.
pub proof fn lemma_keepalive_cycles(n: nat)
    ensures
        run_events(SessionState::Streaming, ping_pong_cycles(n)) == SessionState::Streaming,
    decreases n,
{
    if n != 0 {
        lemma_one_ping_pong_cycle();
        lemma_run_events_concat(
            SessionState::Streaming,
            ping_pong_cycle(),
            ping_pong_cycles((n - 1) as nat),
        );
        lemma_keepalive_cycles((n - 1) as nat);
    }
}

/// Law of the keepalive timeout: with a ping outstanding and no pong by the
/// deadline, the session closes.
pub proof fn lemma_pong_deadline_closes()
    ensures
        step_spec(SessionState::AwaitingPong, SessionEvent::PongDeadline) == (
            SessionState::Closed(CloseReason::PongTimeout),
            SessionAction::Continue,
        ),
{
}

} // verus!
