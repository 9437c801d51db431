use vstd::prelude::*;

use crate::feed_ingest::config::ReconnectConfig;
use crate::feed_ingest::error::FeedError;
use crate::float_bits::{F64Bits, TWO};
use crate::float_math;

verus! {

/// Where the reconnect loop stands.
#[derive(Debug, Clone, Copy, PartialEq, Eq, Structural)]
pub enum Phase {
    /// A connection attempt is under way.
    Connecting,
    /// The consumer is being told that a connection is up.
    Announcing,
    /// A session runs.
    InSession,
    /// The consumer is being told that the connection is gone.
    Closing,
    /// The backoff delay runs.
    Waiting,
    /// The loop has ended.
    Stopped,
}

/// What just happened to the link.
#[derive(Debug, Clone, Copy, PartialEq, Eq, Structural)]
pub enum LinkEvent {
    Connected,
    ConnectFailed,
    /// The consumer took the announcement.
    Delivered,
    /// The consumer takes nothing any more.
    ConsumerGone,
    /// The session ended, cleanly or not.
    SessionOver,
    /// The delay is over.
    Woke,
}

/// What to do next.
#[derive(Debug, Clone, Copy, PartialEq, Eq, Structural)]
pub enum LinkAction {
    Connect,
    AnnounceConnected,
    RunSession,
    AnnounceDisconnected,
    Sleep { delay_ms: u64 },
    Stop,
}

/// The reconnect loop: phase and current backoff delay.
#[derive(Debug, Clone, Copy, PartialEq, Eq, Structural)]
pub struct Reconnect {
    pub phase: Phase,
    pub delay_ms: u64,
}

/// Whether an event can happen in a phase.
pub open spec fn fits(phase: Phase, event: LinkEvent) -> bool {
    match phase {
        Phase::Connecting => event is Connected || event is ConnectFailed,
        Phase::Announcing => event is Delivered || event is ConsumerGone,
        Phase::InSession => event is SessionOver,
        Phase::Closing => event is Delivered || event is ConsumerGone,
        Phase::Waiting => event is Woke,
        Phase::Stopped => false,
    }
}

/// The delay after one that is over: times the multiplier, in whole
/// milliseconds, up to the maximum.
pub open spec fn next_delay(delay_ms: u64, cfg: ReconnectConfig) -> u64 {
    let scaled = float_math::product(float_math::of_integer(delay_ms as int), cfg.backoff_multiplier);
    let ms = float_math::saturated(scaled, float_math::truncation(scaled), 0, u64::MAX as int);
    if ms <= cfg.max_delay_ms {
        ms as u64
    } else {
        cfg.max_delay_ms
    }
}

/// The next state and action. A connection that comes up resets the delay; a
/// delay that is over gives way to the next one.
pub open spec fn next_link(state: Reconnect, event: LinkEvent, cfg: ReconnectConfig) -> (Reconnect, LinkAction) {
    match (state.phase, event) {
        (Phase::Connecting, LinkEvent::Connected) => (
            Reconnect { phase: Phase::Announcing, delay_ms: cfg.initial_delay_ms },
            LinkAction::AnnounceConnected,
        ),
        (Phase::Connecting, _) => (
            Reconnect { phase: Phase::Waiting, ..state },
            LinkAction::Sleep { delay_ms: state.delay_ms },
        ),
        (Phase::Announcing, LinkEvent::Delivered) => (
            Reconnect { phase: Phase::InSession, ..state },
            LinkAction::RunSession,
        ),
        (Phase::InSession, _) => (
            Reconnect { phase: Phase::Closing, ..state },
            LinkAction::AnnounceDisconnected,
        ),
        (Phase::Closing, LinkEvent::Delivered) => (
            Reconnect { phase: Phase::Waiting, ..state },
            LinkAction::Sleep { delay_ms: state.delay_ms },
        ),
        (Phase::Waiting, LinkEvent::Woke) => (
            Reconnect { phase: Phase::Connecting, delay_ms: next_delay(state.delay_ms, cfg) },
            LinkAction::Connect,
        ),
        _ => (Reconnect { phase: Phase::Stopped, ..state }, LinkAction::Stop),
    }
}

impl Reconnect {
    /// A loop about to make its first attempt.
    pub fn start(cfg: &ReconnectConfig) -> (r: Self)
        ensures
            r == (Reconnect { phase: Phase::Connecting, delay_ms: cfg.initial_delay_ms }),
    {
        Reconnect { phase: Phase::Connecting, delay_ms: cfg.initial_delay_ms }
    }

    /// Takes an event and says what to do next.
    pub fn on_event(&mut self, event: LinkEvent, cfg: &ReconnectConfig) -> (r: LinkAction)
        requires
            fits(old(self).phase, event),
        ensures
            (*final(self), r) == next_link(*old(self), event, *cfg),
    {
        match self.phase {
            Phase::Connecting => match event {
                LinkEvent::Connected => {
                    self.phase = Phase::Announcing;
                    self.delay_ms = cfg.initial_delay_ms;
                    LinkAction::AnnounceConnected
                },
                _ => {
                    self.phase = Phase::Waiting;
                    LinkAction::Sleep { delay_ms: self.delay_ms }
                },
            },
            Phase::Announcing => match event {
                LinkEvent::Delivered => {
                    self.phase = Phase::InSession;
                    LinkAction::RunSession
                },
                _ => {
                    self.phase = Phase::Stopped;
                    LinkAction::Stop
                },
            },
            Phase::InSession => {
                self.phase = Phase::Closing;
                LinkAction::AnnounceDisconnected
            },
            Phase::Closing => match event {
                LinkEvent::Delivered => {
                    self.phase = Phase::Waiting;
                    LinkAction::Sleep { delay_ms: self.delay_ms }
                },
                _ => {
                    self.phase = Phase::Stopped;
                    LinkAction::Stop
                },
            },
            Phase::Waiting => match event {
                LinkEvent::Woke => {
                    self.phase = Phase::Connecting;
                    let scaled: F64Bits = F64Bits::of(self.delay_ms as i128).times(
                        cfg.backoff_multiplier,
                    );
                    let ms: u64 = scaled.to_long_count();
                    self.delay_ms = if ms <= cfg.max_delay_ms {
                        ms
                    } else {
                        cfg.max_delay_ms
                    };
                    LinkAction::Connect
                },
                _ => {
                    self.phase = Phase::Stopped;
                    LinkAction::Stop
                },
            },
            Phase::Stopped => LinkAction::Stop,
        }
    }
}

/// A multiplier of two doubles the delay, up to the maximum.
pub proof fn law_backoff_doubles(delay_ms: u64, cfg: ReconnectConfig)
    requires
        cfg.backoff_multiplier == F64Bits(TWO),
        delay_ms < 0x10_0000_0000_0000,
    ensures
        next_delay(delay_ms, cfg) == (if 2 * delay_ms <= cfg.max_delay_ms {
            2 * delay_ms
        } else {
            cfg.max_delay_ms as int
        }),
{
    float_math::lemma_two();
    float_math::law_small_products_are_exact(delay_ms as int, 2);
    float_math::law_small_integers_are_exact(delay_ms * 2);
    float_math::lemma_of_integer(delay_ms * 2);
}

/// The loop never sleeps longer than the larger of its first and its greatest
/// delay.
pub proof fn law_delay_stays_bounded(state: Reconnect, event: LinkEvent, cfg: ReconnectConfig)
    requires
        fits(state.phase, event),
        state.delay_ms <= cfg.initial_delay_ms || state.delay_ms <= cfg.max_delay_ms,
    ensures
        ({
            let (next, action) = next_link(state, event, cfg);
            &&& next.delay_ms <= cfg.initial_delay_ms || next.delay_ms <= cfg.max_delay_ms
            &&& action matches LinkAction::Sleep { delay_ms } ==> delay_ms == next.delay_ms
        }),
{
}

/// The loop ends only when its consumer is gone: a failed attempt, a lost
/// session and an elapsed delay all lead back to an attempt.
pub proof fn law_only_a_lost_consumer_stops_the_loop(
    state: Reconnect,
    event: LinkEvent,
    cfg: ReconnectConfig,
)
    requires
        fits(state.phase, event),
    ensures
        next_link(state, event, cfg).1 is Stop <==> event is ConsumerGone,
        next_link(state, event, cfg).0.phase is Stopped <==> event is ConsumerGone,
{
}

/// A frame from the peer.
#[derive(Debug, Clone)]
pub enum Frame {
    Text(String),
    Ping(Vec<u8>),
    Pong,
    Close,
    /// Binary and raw frames, which this protocol does not use.
    Other,
}

/// What a running session is told.
#[derive(Debug, Clone)]
pub enum SessionEvent {
    Frame(Frame),
    /// Reading or writing failed.
    TransportFailed,
    /// The peer's stream is over.
    StreamEnded,
    /// A ping is due, so long after the last pong.
    PingDue { since_pong_ns: u128 },
    /// The caller wants this text sent.
    Outbound(String),
    /// The caller closed the session.
    WriterClosed,
    /// The consumer did not take a forwarded text.
    ForwardFailed,
}

/// What the session does.
#[derive(Debug, Clone)]
pub enum SessionAction {
    /// Hand a text to the consumer.
    Forward(String),
    /// Answer the peer's ping with its own data.
    ReplyPong(Vec<u8>),
    /// Remember that a pong came now.
    NotePong,
    SendPing,
    SendText(String),
    Ignore,
    /// The session ended as the caller asked.
    EndClean,
    /// The session ended on an error.
    EndWith(FeedError),
}

/// The session rule: what to do about an event.
pub open spec fn session_action(event: SessionEvent, pong_timeout_ns: u128) -> SessionAction {
    match event {
        SessionEvent::Frame(frame) => match frame {
            Frame::Text(s) => SessionAction::Forward(s),
            Frame::Ping(data) => SessionAction::ReplyPong(data),
            Frame::Pong => SessionAction::NotePong,
            Frame::Close => SessionAction::EndWith(FeedError::WsClosed),
            Frame::Other => SessionAction::Ignore,
        },
        SessionEvent::TransportFailed => SessionAction::EndWith(FeedError::Transport),
        SessionEvent::StreamEnded => SessionAction::EndWith(FeedError::WsClosed),
        SessionEvent::PingDue { since_pong_ns } => if since_pong_ns > pong_timeout_ns {
            SessionAction::EndWith(FeedError::PongTimeout)
        } else {
            SessionAction::SendPing
        },
        SessionEvent::Outbound(s) => SessionAction::SendText(s),
        SessionEvent::WriterClosed => SessionAction::EndClean,
        SessionEvent::ForwardFailed => SessionAction::EndWith(FeedError::BusSend),
    }
}

fn on_message(frame: Frame) -> (r: SessionAction)
    ensures
        forall|timeout: u128| r == #[trigger] session_action(SessionEvent::Frame(frame), timeout),
{
    match frame {
        Frame::Text(s) => SessionAction::Forward(s),
        Frame::Ping(data) => SessionAction::ReplyPong(data),
        Frame::Pong => SessionAction::NotePong,
        Frame::Close => SessionAction::EndWith(FeedError::WsClosed),
        Frame::Other => SessionAction::Ignore,
    }
}

/// Decides what a running session does about an event.
pub fn on_session_event(event: SessionEvent, pong_timeout_ns: u128) -> (r: SessionAction)
    ensures
        r == session_action(event, pong_timeout_ns),
{
    match event {
        SessionEvent::Frame(frame) => on_message(frame),
        SessionEvent::TransportFailed => SessionAction::EndWith(FeedError::Transport),
        SessionEvent::StreamEnded => SessionAction::EndWith(FeedError::WsClosed),
        SessionEvent::PingDue { since_pong_ns } => if since_pong_ns > pong_timeout_ns {
            SessionAction::EndWith(FeedError::PongTimeout)
        } else {
            SessionAction::SendPing
        },
        SessionEvent::Outbound(s) => SessionAction::SendText(s),
        SessionEvent::WriterClosed => SessionAction::EndClean,
        SessionEvent::ForwardFailed => SessionAction::EndWith(FeedError::BusSend),
    }
}

} // verus!
