use orderbook_aggregator::book::{BookUpdate, ExchangeLevel, NUM_LEVELS};
use orderbook_aggregator::exchange::{
    bitstamp_event, levels_from_pairs, session_step, ExchangeProtocol, SessionAction, SessionEvent,
    SessionState, BINANCE_CODE, BITSTAMP_CODE,
};

fn pairs(items: &[(&str, &str)]) -> Vec<(String, String)> {
    items.iter().map(|(p, a)| (p.to_string(), a.to_string())).collect()
}

#[test]
fn test_convert_binance_book_update() {
    let bids = pairs(&[("0.123", "123.1"), ("0.321", "321.3")]);
    let asks = pairs(&[("3.213", "321.3"), ("1.231", "122.1")]);
    let exp_book_update = BookUpdate {
        exchange_code: BINANCE_CODE,
        bids: vec![
            ExchangeLevel::from_strs(BINANCE_CODE, "0.123", "123.1"),
            ExchangeLevel::from_strs(BINANCE_CODE, "0.321", "321.3"),
        ],
        asks: vec![
            ExchangeLevel::from_strs(BINANCE_CODE, "3.213", "321.3"),
            ExchangeLevel::from_strs(BINANCE_CODE, "1.231", "122.1"),
        ],
    };
    let book_update = BookUpdate::from_pairs(BINANCE_CODE, &bids, &asks).unwrap();
    assert_eq!(book_update, exp_book_update);
}

#[test]
fn test_convert_bitstamp_book_update() {
    let bids = pairs(&[("0.123", "123.1"), ("0.321", "321.3")]);
    let asks = pairs(&[("3.213", "321.3"), ("1.231", "122.1")]);
    let exp_book_update = BookUpdate {
        exchange_code: BITSTAMP_CODE,
        bids: vec![
            ExchangeLevel::from_strs(BITSTAMP_CODE, "0.123", "123.1"),
            ExchangeLevel::from_strs(BITSTAMP_CODE, "0.321", "321.3"),
        ],
        asks: vec![
            ExchangeLevel::from_strs(BITSTAMP_CODE, "3.213", "321.3"),
            ExchangeLevel::from_strs(BITSTAMP_CODE, "1.231", "122.1"),
        ],
    };
    let book_update = BookUpdate::from_pairs(BITSTAMP_CODE, &bids, &asks).unwrap();
    assert_eq!(book_update, exp_book_update);
}

#[test]
fn convert_rejects_text_that_is_not_a_number() {
    let bids = pairs(&[("0.00001049", "9383.30000000"), ("__INCORRECT__", "1")]);
    let asks = pairs(&[("0.00001050", "133639.50000000")]);
    assert_eq!(BookUpdate::from_pairs(BINANCE_CODE, &bids, &asks), None);
}

#[test]
fn convert_cuts_each_side_to_the_book_depth() {
    let many: Vec<(String, String)> = (0..15).map(|i| (format!("{}.5", 100 + i), "1".to_string())).collect();
    let update = BookUpdate::from_pairs(BITSTAMP_CODE, &many, &many).unwrap();
    assert_eq!(update.bids.len(), NUM_LEVELS);
    assert_eq!(update.asks.len(), NUM_LEVELS);
    assert_eq!(update.bids[9], ExchangeLevel::from_strs(BITSTAMP_CODE, "109.5", "1"));
    let cut = levels_from_pairs(BINANCE_CODE, &many, 3).unwrap();
    assert_eq!(cut.len(), 3);
    assert_eq!(cut[2], ExchangeLevel::from_strs(BINANCE_CODE, "102.5", "1"));
}

#[test]
fn bitstamp_reconnect_event_is_recognised() {
    assert_eq!(bitstamp_event("bts:request_reconnect"), Some(ExchangeProtocol::ReconnectionRequest));
    assert_eq!(bitstamp_event("bts:subscription_succeeded"), None);
    assert_eq!(bitstamp_event(""), None);
}

#[test]
fn session_connects_subscribes_and_forwards() {
    assert_eq!(
        session_step(SessionState::Connecting, SessionEvent::Connected),
        (SessionState::Subscribing, SessionAction::Subscribe)
    );
    assert_eq!(
        session_step(SessionState::Subscribing, SessionEvent::Subscribed),
        (SessionState::Live, SessionAction::ReadFrame)
    );
    assert_eq!(
        session_step(SessionState::Live, SessionEvent::DataFrame),
        (SessionState::Live, SessionAction::Forward)
    );
    assert_eq!(
        session_step(SessionState::Live, SessionEvent::Ping),
        (SessionState::Live, SessionAction::SendPong)
    );
    assert_eq!(
        session_step(SessionState::Live, SessionEvent::UnknownFrame),
        (SessionState::Live, SessionAction::ReadFrame)
    );
}

#[test]
fn session_reconnects_after_failures() {
    assert_eq!(
        session_step(SessionState::Connecting, SessionEvent::ConnectFailed),
        (SessionState::Reconnecting, SessionAction::Wait)
    );
    assert_eq!(
        session_step(SessionState::Subscribing, SessionEvent::SubscribeFailed),
        (SessionState::Reconnecting, SessionAction::CloseAndWait)
    );
    assert_eq!(
        session_step(SessionState::Live, SessionEvent::ReconnectFrame),
        (SessionState::Reconnecting, SessionAction::CloseAndWait)
    );
    assert_eq!(
        session_step(SessionState::Live, SessionEvent::TransportClosed),
        (SessionState::Reconnecting, SessionAction::Wait)
    );
    assert_eq!(
        session_step(SessionState::Live, SessionEvent::PongFailed),
        (SessionState::Reconnecting, SessionAction::CloseAndWait)
    );
    assert_eq!(
        session_step(SessionState::Reconnecting, SessionEvent::DelayElapsed),
        (SessionState::Connecting, SessionAction::Connect)
    );
}

#[test]
fn session_closes_on_command() {
    assert_eq!(
        session_step(SessionState::Live, SessionEvent::CloseRequested),
        (SessionState::Closed, SessionAction::CloseAndStop)
    );
    assert_eq!(
        session_step(SessionState::Reconnecting, SessionEvent::CloseRequested),
        (SessionState::Closed, SessionAction::Stop)
    );
    assert_eq!(
        session_step(SessionState::Closed, SessionEvent::Connected),
        (SessionState::Closed, SessionAction::Stop)
    );
}
