//! What an exchange adapter decides: how a decoded frame becomes a snapshot,
//! and how a session moves between connecting, subscribing, reading frames
//! and reconnecting.

use vstd::prelude::*;
use crate::book::{BookUpdate, ExchangeLevel, NUM_LEVELS, same_code};
use crate::decimal::{Decimal, decimal_text};

verus! {

/// Code of the Binance exchange.
pub const BINANCE_CODE: &'static str = "binance";

/// Code of the Bitstamp exchange.
pub const BITSTAMP_CODE: &'static str = "bitstamp";

/// Delay before a session connects again, in milliseconds.
pub const SLEEP_BEFORE_RECONNECT_MS: u64 = 200;

/// What an exchange frame means once decoded.
#[derive(PartialEq, Debug)]
pub enum ExchangeProtocol<T> {
    /// A snapshot or other data.
    Data(T),
    /// The exchange asks the client to connect again.
    ReconnectionRequest,
}

/// The exchange level that a `(price, amount)` pair of texts stands for.
pub open spec fn level_of_pair(code: &'static str, p: (String, String)) -> ExchangeLevel {
    ExchangeLevel {
        exchange_code: code,
        price: Decimal::from_parts(decimal_text(p.0@)->Some_0),
        amount: Decimal::from_parts(decimal_text(p.1@)->Some_0),
    }
}

/// Both texts of each of the first `n` pairs are decimal numbers.
pub open spec fn pairs_parse(pairs: Seq<(String, String)>, n: int) -> bool {
    forall|k: int|
        0 <= k < n ==> #[trigger] decimal_text(pairs[k].0@) is Some && decimal_text(pairs[k].1@) is Some
}

/// The smaller of two integers.
pub open spec fn min(a: int, b: int) -> int {
    if a <= b {
        a
    } else {
        b
    }
}

/// The exchange levels of the first `max_levels` pairs, or `None` where one
/// of their texts is not a decimal number.
pub fn levels_from_pairs(code: &'static str, pairs: &Vec<(String, String)>, max_levels: usize) -> (r:
    Option<Vec<ExchangeLevel>>)
    ensures
        r is Some <==> pairs_parse(pairs@, min(pairs@.len() as int, max_levels as int)),
        r matches Some(v) ==> {
            &&& v@.len() == min(pairs@.len() as int, max_levels as int)
            &&& forall|k: int| 0 <= k < v@.len() ==> #[trigger] v@[k] == level_of_pair(code, pairs@[k])
            &&& forall|k: int| 0 <= k < v@.len() ==> #[trigger] v@[k].wf()
        },
{
    let n = if pairs.len() <= max_levels {
        pairs.len()
    } else {
        max_levels
    };
    let mut v: Vec<ExchangeLevel> = Vec::new();
    let mut i: usize = 0;
    while i < n
        invariant
            n == min(pairs@.len() as int, max_levels as int),
            0 <= i <= n,
            v@.len() == i,
            pairs_parse(pairs@, i as int),
            forall|k: int| 0 <= k < i ==> #[trigger] v@[k] == level_of_pair(code, pairs@[k]),
            forall|k: int| 0 <= k < i ==> #[trigger] v@[k].wf(),
        decreases n - i,
    {
        let pair = &pairs[i];
        match ExchangeLevel::try_from_strs(code, pair.0.as_str(), pair.1.as_str()) {
            Some(l) => {
                v.push(l);
            },
            None => {
                return None;
            },
        }
        i = i + 1;
    }
    Some(v)
}

impl BookUpdate {
    /// The snapshot of exchange `code` from its `(price, amount)` texts, each
    /// side cut to the depth of the consolidated book; `None` where a text
    /// in that depth is not a decimal number.
    pub fn from_pairs(code: &'static str, bids: &Vec<(String, String)>, asks: &Vec<(String, String)>) -> (r:
        Option<BookUpdate>)
        ensures
            r is Some <==> (pairs_parse(bids@, min(bids@.len() as int, NUM_LEVELS as int))
                && pairs_parse(asks@, min(asks@.len() as int, NUM_LEVELS as int))),
            r matches Some(u) ==> {
                &&& u.exchange_code == code
                &&& u.bids@.len() == min(bids@.len() as int, NUM_LEVELS as int)
                &&& u.asks@.len() == min(asks@.len() as int, NUM_LEVELS as int)
                &&& forall|k: int| 0 <= k < u.bids@.len() ==> #[trigger] u.bids@[k] == level_of_pair(code, bids@[k])
                &&& forall|k: int| 0 <= k < u.asks@.len() ==> #[trigger] u.asks@[k] == level_of_pair(code, asks@[k])
            },
    {
        let b = levels_from_pairs(code, bids, NUM_LEVELS);
        let a = levels_from_pairs(code, asks, NUM_LEVELS);
        match (b, a) {
            (Some(bids), Some(asks)) => Some(BookUpdate { exchange_code: code, bids, asks }),
            _ => None,
        }
    }
}

/// The meaning of a Bitstamp service event: a request to reconnect, or nothing.
pub fn bitstamp_event(event: &str) -> (r: Option<ExchangeProtocol<BookUpdate>>)
    ensures
        r is Some <==> event@ == "bts:request_reconnect"@,
        r matches Some(p) ==> p is ReconnectionRequest,
{
    if same_code(event, "bts:request_reconnect") {
        Some(ExchangeProtocol::ReconnectionRequest)
    } else {
        None
    }
}

// ---------------------------------------------------------------------------
// Sessions

/// Where an exchange session stands.
#[derive(PartialEq, Eq, Structural, Debug, Clone, Copy)]
pub enum SessionState {
    /// Opening the streaming connection.
    Connecting,
    /// Sending the subscription message.
    Subscribing,
    /// Reading frames.
    Live,
    /// Waiting before connecting again.
    Reconnecting,
    /// Closed on request; the session is over.
    Closed,
}

/// What happened since the last decision of a session.
#[derive(PartialEq, Eq, Structural, Debug, Clone, Copy)]
pub enum SessionEvent {
    /// The connection is open.
    Connected,
    /// The connection could not be opened.
    ConnectFailed,
    /// The subscription message was sent.
    Subscribed,
    /// The subscription message could not be sent.
    SubscribeFailed,
    /// A close command came on the control channel.
    CloseRequested,
    /// A text frame decoded to data.
    DataFrame,
    /// A text frame decoded to a reconnection request.
    ReconnectFrame,
    /// A text frame that the decoder did not recognise.
    UnknownFrame,
    /// A liveness ping.
    Ping,
    /// The answer to a ping could not be sent.
    PongFailed,
    /// The connection was closed, or reading from it failed.
    TransportClosed,
    /// Any other frame.
    OtherFrame,
    /// The delay before reconnecting is over.
    DelayElapsed,
}

/// What a session does next.
#[derive(PartialEq, Eq, Structural, Debug, Clone, Copy)]
pub enum SessionAction {
    /// Open the streaming connection.
    Connect,
    /// Send the subscription message.
    Subscribe,
    /// Read the next frame.
    ReadFrame,
    /// Send the decoded data downstream, then read the next frame.
    Forward,
    /// Answer the ping with a pong carrying the same payload.
    SendPong,
    /// Close the connection and wait before connecting again.
    CloseAndWait,
    /// Wait before connecting again.
    Wait,
    /// Send a close frame and end the session.
    CloseAndStop,
    /// Nothing more to do.
    Stop,
}

/// The decision of a session in `state` on `event`.
pub open spec fn session_transition(state: SessionState, event: SessionEvent) -> (SessionState, SessionAction) {
    match state {
        SessionState::Closed => (SessionState::Closed, SessionAction::Stop),
        SessionState::Connecting => match event {
            SessionEvent::Connected => (SessionState::Subscribing, SessionAction::Subscribe),
            SessionEvent::CloseRequested => (SessionState::Closed, SessionAction::Stop),
            _ => (SessionState::Reconnecting, SessionAction::Wait),
        },
        SessionState::Subscribing => match event {
            SessionEvent::Subscribed => (SessionState::Live, SessionAction::ReadFrame),
            SessionEvent::CloseRequested => (SessionState::Closed, SessionAction::CloseAndStop),
            _ => (SessionState::Reconnecting, SessionAction::CloseAndWait),
        },
        SessionState::Live => match event {
            SessionEvent::CloseRequested => (SessionState::Closed, SessionAction::CloseAndStop),
            SessionEvent::DataFrame => (SessionState::Live, SessionAction::Forward),
            SessionEvent::ReconnectFrame => (SessionState::Reconnecting, SessionAction::CloseAndWait),
            SessionEvent::Ping => (SessionState::Live, SessionAction::SendPong),
            SessionEvent::PongFailed => (SessionState::Reconnecting, SessionAction::CloseAndWait),
            SessionEvent::TransportClosed => (SessionState::Reconnecting, SessionAction::Wait),
            _ => (SessionState::Live, SessionAction::ReadFrame),
        },
        SessionState::Reconnecting => match event {
            SessionEvent::CloseRequested => (SessionState::Closed, SessionAction::Stop),
            SessionEvent::DelayElapsed => (SessionState::Connecting, SessionAction::Connect),
            _ => (SessionState::Reconnecting, SessionAction::Wait),
        },
    }
}

/// Decides what a session does on `event`: transport failures and
/// reconnection requests lead back to connecting after a delay, a close
/// command ends the session, data frames are forwarded.
pub fn session_step(state: SessionState, event: SessionEvent) -> (r: (SessionState, SessionAction))
    ensures
        r == session_transition(state, event),
{
    match state {
        SessionState::Closed => (SessionState::Closed, SessionAction::Stop),
        SessionState::Connecting => match event {
            SessionEvent::Connected => (SessionState::Subscribing, SessionAction::Subscribe),
            SessionEvent::CloseRequested => (SessionState::Closed, SessionAction::Stop),
            _ => (SessionState::Reconnecting, SessionAction::Wait),
        },
        SessionState::Subscribing => match event {
            SessionEvent::Subscribed => (SessionState::Live, SessionAction::ReadFrame),
            SessionEvent::CloseRequested => (SessionState::Closed, SessionAction::CloseAndStop),
            _ => (SessionState::Reconnecting, SessionAction::CloseAndWait),
        },
        SessionState::Live => match event {
            SessionEvent::CloseRequested => (SessionState::Closed, SessionAction::CloseAndStop),
            SessionEvent::DataFrame => (SessionState::Live, SessionAction::Forward),
            SessionEvent::ReconnectFrame => (SessionState::Reconnecting, SessionAction::CloseAndWait),
            SessionEvent::Ping => (SessionState::Live, SessionAction::SendPong),
            SessionEvent::PongFailed => (SessionState::Reconnecting, SessionAction::CloseAndWait),
            SessionEvent::TransportClosed => (SessionState::Reconnecting, SessionAction::Wait),
            _ => (SessionState::Live, SessionAction::ReadFrame),
        },
        SessionState::Reconnecting => match event {
            SessionEvent::CloseRequested => (SessionState::Closed, SessionAction::Stop),
            SessionEvent::DelayElapsed => (SessionState::Connecting, SessionAction::Connect),
            _ => (SessionState::Reconnecting, SessionAction::Wait),
        },
    }
}

/// A close command ends every session that is not over yet, and an ended
/// session stays ended; no other event ends a session, so failures lead back
/// to connecting.
pub proof fn lemma_only_close_ends_session(state: SessionState, event: SessionEvent)
    ensures
        event == SessionEvent::CloseRequested ==> session_transition(state, event).0 == SessionState::Closed,
        state != SessionState::Closed && event != SessionEvent::CloseRequested
            ==> session_transition(state, event).0 != SessionState::Closed,
        state == SessionState::Closed ==> session_transition(state, event).0 == SessionState::Closed,
        session_transition(state, event).1 == SessionAction::Forward ==> state == SessionState::Live,
{
}

} // verus!
