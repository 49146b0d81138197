use backpack_grid::api::signing::{secret_from_base64, signature_of};
use backpack_grid::api::websocket::{
    route_message, ConnectionState, Frame, FrameAction, MessageError, StreamKind, WebSocketClient,
};
use backpack_grid::config::Config;

const SECRET: &str = "TM0Imyj/ltqdtsNG7BFOD1uKMZ81q6Yk2oz27U+4pvs=";

fn config() -> Config {
    Config {
        api_key: "key-1".to_string(),
        api_secret: SECRET.to_string(),
        base_url: "https://api.backpack.exchange".to_string(),
        ws_url: "wss://ws.backpack.exchange".to_string(),
        symbol: "SOL_USDC".to_string(),
        grid_upper_bound: 100_000,
        grid_lower_bound: -100_000,
        grid_levels: 5,
        active_orders: 6,
        price_precision: 2,
        quantity_precision: 2,
        min_quantity: 1_000_000,
    }
}

#[test]
fn message_routing() {
    assert_eq!(route_message(Some("bookTicker.SOL_USDC"), true), Ok(StreamKind::BookTicker));
    assert_eq!(route_message(Some("depth.SOL_USDC"), true), Ok(StreamKind::Depth));
    assert_eq!(route_message(Some("trade.SOL_USDC"), true), Ok(StreamKind::Trade));
    assert_eq!(route_message(Some("account.orderUpdate"), true), Ok(StreamKind::OrderUpdate));
    assert_eq!(route_message(Some("account.orderUpdate.SOL_USDC"), true), Err(MessageError::UnknownEvent));
    assert_eq!(route_message(Some("kline.1m.SOL_USDC"), true), Err(MessageError::UnknownEvent));
    assert_eq!(route_message(Some("trade.SOL_USDC"), false), Err(MessageError::NoData));
    assert_eq!(route_message(None, true), Err(MessageError::UnknownEvent));
}

#[test]
fn subscriptions() {
    let c = WebSocketClient::new(&config());
    assert_eq!(c.subscription_streams(), vec!["bookTicker.SOL_USDC", "depth.SOL_USDC", "trade.SOL_USDC"]);
    let p = c.private_subscription(1700000000000);
    assert_eq!(p.api_key, "key-1");
    assert_eq!(p.timestamp, "1700000000000");
    assert_eq!(p.window, "5000");
    let secret = secret_from_base64(SECRET).unwrap();
    assert_eq!(p.signature, signature_of(&secret, "instruction=subscribe&timestamp=1700000000000&window=5000"));
    let mut bad = config();
    bad.api_secret = "???".to_string();
    assert!(WebSocketClient::try_new(&bad).is_none());
}

#[test]
fn backoff_doubles_up_to_thirty_seconds() {
    let mut s = ConnectionState::new();
    let mut waits = Vec::new();
    for _ in 0..12 {
        waits.push(s.backoff());
    }
    assert_eq!(
        waits,
        vec![100, 200, 400, 800, 1600, 3200, 6400, 12800, 25600, 30000, 30000, 30000]
    );
    s.on_connected(7);
    assert_eq!(s.retry_delay(), 100);
    assert_eq!(s.backoff(), 100);
    assert_eq!(s.retry_delay(), 200);
}

#[test]
fn frames_and_silence() {
    let second = 1_000_000_000u64;
    let mut s = ConnectionState::new();
    s.on_connected(0);
    assert_eq!(s.on_frame(Frame::Text, 1), FrameAction::Deliver);
    assert_eq!(s.on_frame(Frame::Other, 1), FrameAction::Continue);
    assert_eq!(s.on_frame(Frame::Close, 1), FrameAction::Reconnect);
    assert_eq!(s.on_frame(Frame::Error, 1), FrameAction::Reconnect);
    assert_eq!(s.on_frame(Frame::Ended, 1), FrameAction::Reconnect);
    assert!(!s.silent_too_long(90 * second));
    assert!(s.silent_too_long(90 * second + 1));
    assert_eq!(s.on_frame(Frame::Ping, 60 * second), FrameAction::ReplyPong);
    assert!(!s.silent_too_long(100 * second));
    assert_eq!(s.on_frame(Frame::Pong, 120 * second), FrameAction::Continue);
    assert!(!s.silent_too_long(200 * second));
    assert!(s.silent_too_long(211 * second));
}
