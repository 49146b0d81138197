//! Websocket session with the Backpack exchange: the events it delivers and
//! the decisions that keep it alive.
//!
//! Fields that the exchange sends as arbitrary JSON values are held as their
//! JSON text.
use vstd::prelude::*;
use vstd::string::*;
use crate::api::signing::{secret_from_base64, secret_key_of, signature_of, signature_text};
use crate::config::Config;
use crate::decimal::{format_u64, nat_digits};
use crate::text::{has_prefix, starts_with, text_eq};

verus! {

/// Signature window, in milliseconds, of the private subscription.
pub const SUBSCRIBE_WINDOW: u64 = 5000;

/// Which stream a message belongs to.
#[derive(Clone, Copy, Debug, PartialEq, Eq, Structural)]
pub enum StreamKind {
    BookTicker,
    Depth,
    Trade,
    OrderUpdate,
}

/// Why a websocket message gives no market event.
#[derive(Clone, Copy, Debug, PartialEq, Eq, Structural)]
pub enum MessageError {
    /// The message names a stream but carries no "data" field.
    NoData,
    /// The message names no stream, or one the bot did not subscribe to.
    UnknownEvent,
}

/// The stream kind of a message whose "stream" field is `stream` (if it has
/// one) and which has a "data" field when `has_data`.
pub open spec fn route(stream: Option<Seq<char>>, has_data: bool) -> Result<StreamKind, MessageError> {
    match stream {
        None => Err(MessageError::UnknownEvent),
        Some(s) => if !has_data {
            Err(MessageError::NoData)
        } else if has_prefix(s, "bookTicker."@) {
            Ok(StreamKind::BookTicker)
        } else if has_prefix(s, "depth."@) {
            Ok(StreamKind::Depth)
        } else if has_prefix(s, "trade."@) {
            Ok(StreamKind::Trade)
        } else if s == "account.orderUpdate"@ {
            Ok(StreamKind::OrderUpdate)
        } else {
            Err(MessageError::UnknownEvent)
        },
    }
}

/// Decides which event a websocket message carries (see `route`).
pub fn route_message(stream: Option<&str>, has_data: bool) -> (r: Result<StreamKind, MessageError>)
    ensures
        r == route(
            match stream {
                Some(s) => Some(s@),
                None => None,
            },
            has_data,
        ),
{
    match stream {
        None => Err(MessageError::UnknownEvent),
        Some(s) => {
            if !has_data {
                Err(MessageError::NoData)
            } else if starts_with(s, "bookTicker.") {
                Ok(StreamKind::BookTicker)
            } else if starts_with(s, "depth.") {
                Ok(StreamKind::Depth)
            } else if starts_with(s, "trade.") {
                Ok(StreamKind::Trade)
            } else if text_eq(s, "account.orderUpdate") {
                Ok(StreamKind::OrderUpdate)
            } else {
                Err(MessageError::UnknownEvent)
            }
        },
    }
}

/// The signed private subscription to the account's order updates.
pub struct PrivateSubscription {
    pub api_key: String,
    pub signature: String,
    pub timestamp: String,
    pub window: String,
}

/// Client of the exchange's websocket interface: the configuration and the
/// 32-byte ed25519 secret that signs the private subscription.
pub struct WebSocketClient {
    config: Config,
    secret: [u8; 32],
}

impl WebSocketClient {
    pub closed spec fn config_view(&self) -> Config {
        self.config
    }

    /// The 32-byte ed25519 secret.
    pub closed spec fn secret_view(&self) -> Seq<u8> {
        self.secret@
    }

    /// A client for `config`, whose `api_secret` must be the base64 text of a
    /// 32-byte ed25519 secret.
    pub fn new(config: &Config) -> (r: Self)
        requires
            secret_key_of(config.api_secret@) is Some,
        ensures
            r.config_view() == *config,
            Some(r.secret_view()) == secret_key_of(config.api_secret@),
    {
        let secret = secret_from_base64(config.api_secret.as_str());
        match secret {
            Some(secret) => WebSocketClient { config: config.clone(), secret },
            None => {
                proof {
                    assert(false);
                }
                WebSocketClient { config: config.clone(), secret: [0u8; 32] }
            },
        }
    }

    /// A client for `config`, or `None` when its `api_secret` is not the
    /// base64 text of a 32-byte secret.
    pub fn try_new(config: &Config) -> (r: Option<Self>)
        ensures
            r is Some <==> secret_key_of(config.api_secret@) is Some,
            r matches Some(c) ==> c.config_view() == *config && Some(c.secret_view()) == secret_key_of(
                config.api_secret@,
            ),
    {
        match secret_from_base64(config.api_secret.as_str()) {
            Some(_) => Some(WebSocketClient::new(config)),
            None => None,
        }
    }

    /// The public streams of the configured symbol, in subscription order:
    /// "bookTicker.S", "depth.S", "trade.S".
    pub fn subscription_streams(&self) -> (r: Vec<String>)
        ensures
            r@.len() == 3,
            r@[0]@ == "bookTicker."@ + self.config_view().symbol@,
            r@[1]@ == "depth."@ + self.config_view().symbol@,
            r@[2]@ == "trade."@ + self.config_view().symbol@,
    {
        let mut v: Vec<String> = Vec::new();
        let mut a = "bookTicker.".to_owned();
        a.append(self.config.symbol.as_str());
        v.push(a);
        let mut b = "depth.".to_owned();
        b.append(self.config.symbol.as_str());
        v.push(b);
        let mut c = "trade.".to_owned();
        c.append(self.config.symbol.as_str());
        v.push(c);
        v
    }

    /// The private subscription at `timestamp` (milliseconds): the API key
    /// and the signature of "instruction=subscribe&timestamp=T&window=W".
    pub fn private_subscription(&self, timestamp: u64) -> (r: PrivateSubscription)
        ensures
            r.api_key@ == self.config_view().api_key@,
            r.timestamp@ == nat_digits(timestamp as nat),
            r.window@ == nat_digits(SUBSCRIBE_WINDOW as nat),
            r.signature@ == signature_text(
                self.secret_view(),
                "instruction=subscribe&timestamp="@ + nat_digits(timestamp as nat) + "&window="@ + nat_digits(
                    SUBSCRIBE_WINDOW as nat,
                ),
            ),
    {
        let ts = format_u64(timestamp);
        let w = format_u64(SUBSCRIBE_WINDOW);
        let mut message = "instruction=subscribe&timestamp=".to_owned();
        message.append(ts.as_str());
        message.append("&window=");
        message.append(w.as_str());
        let signature = signature_of(&self.secret, message.as_str());
        PrivateSubscription { api_key: self.config.api_key.clone(), signature, timestamp: ts, window: w }
    }
}

/// An event of one of the subscribed streams.
#[derive(Clone, Debug)]
pub enum MarketEvent {
    BookTicker(BookTicker),
    Depth(Depth),
    Trade(Trade),
    OrderUpdate(OrderUpdate),
}

/// Best bid and ask of a symbol.
#[derive(Clone, Debug)]
pub struct BookTicker {
    pub event_type: String,
    pub event_time: u64,
    pub symbol: String,
    pub inside_ask_price: String,
    pub inside_ask_quantity: String,
    pub inside_bid_price: String,
    pub inside_bid_quantity: String,
    /// JSON text of the update id.
    pub update_id: String,
    pub engine_timestamp: u64,
}

/// Order book changes of a symbol.
#[derive(Clone, Debug)]
pub struct Depth {
    pub event_type: String,
    pub event_time: u64,
    pub symbol: String,
    pub asks: Vec<Vec<String>>,
    pub bids: Vec<Vec<String>>,
    pub first_update_id: u64,
    pub last_update_id: u64,
    pub engine_timestamp: u64,
}

/// A trade of a symbol.
#[derive(Clone, Debug)]
pub struct Trade {
    pub event_type: String,
    pub event_time: u64,
    pub symbol: String,
    pub price: String,
    pub quantity: String,
    /// JSON text of the buyer's order id.
    pub buyer_order_id: String,
    /// JSON text of the seller's order id.
    pub seller_order_id: String,
    pub trade_id: u64,
    pub engine_timestamp: u64,
    pub is_buyer_maker: bool,
}

/// A change of one of the account's orders.
#[derive(Clone, Debug)]
pub struct OrderUpdate {
    pub event_type: String,
    pub event_time: u64,
    pub symbol: String,
    /// JSON text of the client order id.
    pub client_order_id: Option<String>,
    pub side: String,
    pub order_type: String,
    pub time_in_force: String,
    pub quantity: Option<String>,
    pub quote_quantity: Option<String>,
    pub price: Option<String>,
    pub trigger_price: Option<String>,
    pub trigger_by: Option<String>,
    pub take_profit_price: Option<String>,
    pub stop_loss_price: Option<String>,
    pub take_profit_trigger_by: Option<String>,
    pub stop_loss_trigger_by: Option<String>,
    pub trigger_quantity: Option<String>,
    pub order_state: String,
    pub order_expiry_reason: Option<String>,
    pub order_id: String,
    pub trade_id: Option<u64>,
    pub fill_quantity: Option<String>,
    pub executed_quantity: Option<String>,
    pub executed_quote_quantity: Option<String>,
    pub last_filled_price: Option<String>,
    pub is_maker: Option<bool>,
    pub fee: Option<String>,
    pub fee_symbol: Option<String>,
    pub self_trade_prevention: Option<String>,
    pub engine_timestamp: u64,
    pub origin: Option<String>,
    pub related_order_id: Option<String>,
}

/// First wait, in milliseconds, before reconnecting.
pub const INITIAL_RECONNECT_DELAY_MS: u64 = 100;

/// Longest wait, in milliseconds, before reconnecting.
pub const MAX_RECONNECT_DELAY_MS: u64 = 30_000;

/// Longest silence, in nanoseconds, before the session counts as lost: the
/// server pings every 60 s and drops a client silent for 120 s.
pub const MAX_NO_PONG_NS: u64 = 90_000_000_000;

/// How often, in milliseconds, the session checks for silence.
pub const SILENCE_CHECK_INTERVAL_MS: u64 = 10_000;

/// What arrived on the websocket.
#[derive(Clone, Copy, Debug, PartialEq, Eq, Structural)]
pub enum Frame {
    Text,
    Ping,
    Pong,
    Close,
    Error,
    Ended,
    Other,
}

/// What the session does with a frame.
#[derive(Clone, Copy, Debug, PartialEq, Eq, Structural)]
pub enum FrameAction {
    /// Parse the text and pass the event on.
    Deliver,
    /// Answer the ping with a pong carrying its data.
    ReplyPong,
    /// Keep reading.
    Continue,
    /// Drop the connection and connect again.
    Reconnect,
}

/// The action for a frame.
pub open spec fn frame_action(f: Frame) -> FrameAction {
    match f {
        Frame::Text => FrameAction::Deliver,
        Frame::Ping => FrameAction::ReplyPong,
        Frame::Pong => FrameAction::Continue,
        Frame::Other => FrameAction::Continue,
        Frame::Close => FrameAction::Reconnect,
        Frame::Error => FrameAction::Reconnect,
        Frame::Ended => FrameAction::Reconnect,
    }
}

/// The wait after `d` milliseconds: twice as long, at most `MAX_RECONNECT_DELAY_MS`.
pub open spec fn next_delay(d: u64) -> u64 {
    if 2 * d <= MAX_RECONNECT_DELAY_MS {
        (2 * d) as u64
    } else {
        MAX_RECONNECT_DELAY_MS
    }
}

/// The decisions of a websocket session that reconnects with exponential
/// backoff and watches for silence.
pub struct ConnectionState {
    reconnect_delay: u64,
    last_pong: u64,
}

impl ConnectionState {
    /// The wait, in milliseconds, before the next reconnection.
    pub closed spec fn delay(&self) -> u64 {
        self.reconnect_delay
    }

    /// When the last ping or pong arrived, in nanoseconds of the caller's clock.
    pub closed spec fn last_heard(&self) -> u64 {
        self.last_pong
    }

    /// The wait stays within `INITIAL_RECONNECT_DELAY_MS ..= MAX_RECONNECT_DELAY_MS`.
    pub open spec fn wf(&self) -> bool {
        INITIAL_RECONNECT_DELAY_MS <= self.delay() <= MAX_RECONNECT_DELAY_MS
    }

    pub fn new() -> (r: Self)
        ensures
            r.wf(),
            r.delay() == INITIAL_RECONNECT_DELAY_MS,
            r.last_heard() == 0,
    {
        ConnectionState { reconnect_delay: INITIAL_RECONNECT_DELAY_MS, last_pong: 0 }
    }

    /// A connection succeeded at `now`: the wait starts over and the silence
    /// clock starts.
    pub fn on_connected(&mut self, now: u64)
        ensures
            final(self).wf(),
            final(self).delay() == INITIAL_RECONNECT_DELAY_MS,
            final(self).last_heard() == now,
    {
        self.reconnect_delay = INITIAL_RECONNECT_DELAY_MS;
        self.last_pong = now;
    }

    /// Handles a frame that arrived at `now`: a ping or pong restarts the
    /// silence clock.
    pub fn on_frame(&mut self, frame: Frame, now: u64) -> (r: FrameAction)
        requires
            old(self).wf(),
        ensures
            final(self).wf(),
            r == frame_action(frame),
            final(self).delay() == old(self).delay(),
            final(self).last_heard() == if frame == Frame::Ping || frame == Frame::Pong {
                now
            } else {
                old(self).last_heard()
            },
    {
        match frame {
            Frame::Text => FrameAction::Deliver,
            Frame::Ping => {
                self.last_pong = now;
                FrameAction::ReplyPong
            },
            Frame::Pong => {
                self.last_pong = now;
                FrameAction::Continue
            },
            Frame::Other => FrameAction::Continue,
            Frame::Close => FrameAction::Reconnect,
            Frame::Error => FrameAction::Reconnect,
            Frame::Ended => FrameAction::Reconnect,
        }
    }

    /// Whether the server has been silent for more than `MAX_NO_PONG_NS` at `now`.
    pub fn silent_too_long(&self, now: u64) -> (r: bool)
        ensures
            r == (now > self.last_heard() && now - self.last_heard() > MAX_NO_PONG_NS),
    {
        now > self.last_pong && now - self.last_pong > MAX_NO_PONG_NS
    }

    /// The wait before retrying after a failed subscription; the wait itself
    /// does not grow.
    pub fn retry_delay(&self) -> (r: u64)
        ensures
            r == self.delay(),
    {
        self.reconnect_delay
    }

    /// The wait before the next connection attempt; the one after it is
    /// twice as long, up to `MAX_RECONNECT_DELAY_MS`.
    pub fn backoff(&mut self) -> (r: u64)
        requires
            old(self).wf(),
        ensures
            final(self).wf(),
            r == old(self).delay(),
            final(self).delay() == next_delay(old(self).delay()),
            final(self).last_heard() == old(self).last_heard(),
    {
        let d = self.reconnect_delay;
        self.reconnect_delay = if 2 * d <= MAX_RECONNECT_DELAY_MS {
            2 * d
        } else {
            MAX_RECONNECT_DELAY_MS
        };
        d
    }
}

/// The wait after `k` failed attempts in a row, starting from the first wait.
pub open spec fn delay_after(k: nat) -> u64
    decreases k,
{
    if k == 0 {
        INITIAL_RECONNECT_DELAY_MS
    } else {
        next_delay(delay_after((k - 1) as nat))
    }
}

pub open spec fn pow2(k: nat) -> nat
    decreases k,
{
    if k == 0 {
        1
    } else {
        2 * pow2((k - 1) as nat)
    }
}

/// Law: after `k` failed attempts in a row the wait is
/// `min(100 ms * 2^k, 30 s)`.
pub proof fn backoff_doubles_to_cap(k: nat)
    ensures
        delay_after(k) == if INITIAL_RECONNECT_DELAY_MS * pow2(k) <= MAX_RECONNECT_DELAY_MS {
            INITIAL_RECONNECT_DELAY_MS * pow2(k)
        } else {
            MAX_RECONNECT_DELAY_MS as int
        },
    decreases k,
{
    if k > 0 {
        backoff_doubles_to_cap((k - 1) as nat);
        assert(pow2(k) == 2 * pow2((k - 1) as nat));
        lemma_pow2_positive((k - 1) as nat);
    }
}

proof fn lemma_pow2_positive(k: nat)
    ensures
        pow2(k) >= 1,
    decreases k,
{
    if k > 0 {
        lemma_pow2_positive((k - 1) as nat);
    }
}

} // verus!
