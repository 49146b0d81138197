//! Bookkeeping of the bot's open orders and of the last prices seen.
use vstd::prelude::*;
use vstd::hash_map::StringHashMap;
use crate::api::rest::{CancelOrderRequest, Order, PlaceOrderRequest, RestClient};
use crate::api::websocket::{BookTicker, OrderUpdate};
use crate::decimal::{
    fixed_text, format_fixed, parse_amount, parse_quantity, parsed_amount, parsed_quantity, MAX_AMOUNT,
};
use crate::text::{contains, contains_text, text_eq};
use rand::Rng;

verus! {

/// No two orders of `s` share an id.
pub open spec fn unique_ids(s: Seq<Order>) -> bool {
    forall|i: int, j: int| 0 <= i < s.len() && 0 <= j < s.len() && i != j ==> s[i].id@ != s[j].id@
}

/// Position of the order with id `id` in `s`, if there is one.
pub open spec fn position_of(s: Seq<Order>, id: Seq<char>) -> Option<int> {
    if exists|i: int| 0 <= i < s.len() && s[i].id@ == id {
        Some(choose|i: int| 0 <= i < s.len() && s[i].id@ == id)
    } else {
        None
    }
}

/// `s` with the order of id `id` taken out.
pub open spec fn without_id(s: Seq<Order>, id: Seq<char>) -> Seq<Order> {
    match position_of(s, id) {
        Some(i) => s.remove(i),
        None => s,
    }
}

/// `s` with `o` stored under its id: replacing the order of that id, or added at the end.
pub open spec fn with_order(s: Seq<Order>, o: Order) -> Seq<Order> {
    match position_of(s, o.id@) {
        Some(i) => s.update(i, o),
        None => s.push(o),
    }
}

/// Keeps an order when it is of `symbol` and, where a side is given, of that side.
pub open spec fn order_filter(symbol: Seq<char>, side: Option<Seq<char>>) -> spec_fn(Order) -> Option<Order> {
    |o: Order|
        if o.symbol@ == symbol && (match side {
            Some(sd) => o.side@ == sd,
            None => true,
        }) {
            Some(o)
        } else {
            None
        }
}

/// The orders of `s` of `symbol` (and of `side`, where given), in order.
pub open spec fn orders_matching(s: Seq<Order>, symbol: Seq<char>, side: Option<Seq<char>>) -> Seq<Order> {
    s.filter_map(order_filter(symbol, side))
}

/// The orders a vector of references points at.
pub open spec fn deref_all(v: Seq<&Order>) -> Seq<Order> {
    v.map_values(|o: &Order| *o)
}

/// The view of an optional text.
pub open spec fn opt_view(o: Option<&str>) -> Option<Seq<char>> {
    match o {
        Some(s) => Some(s@),
        None => None,
    }
}

/// Prices below and above a last price: 0.1% either side, rounded down.
pub open spec fn spread_around(p: u64) -> (u64, u64) {
    ((p * 999 / 1000) as u64, (p * 1001 / 1000) as u64)
}

/// Last prices after a book ticker: its symbol's price becomes the middle of
/// the ticker's best bid and ask (a price that reads as no amount counts as zero).
pub open spec fn prices_after_ticker(prices: Map<Seq<char>, u64>, ticker: BookTicker) -> Map<Seq<char>, u64> {
    prices.insert(
        ticker.symbol@,
        ((amount_or_zero(ticker.inside_bid_price@) + amount_or_zero(ticker.inside_ask_price@)) / 2) as u64,
    )
}

/// Open orders and last prices after an order update: a fill takes the order
/// out and, when its fill price reads as an amount, makes that the symbol's
/// last price; other updates change nothing.
pub open spec fn after_order_update(active: Seq<Order>, prices: Map<Seq<char>, u64>, u: OrderUpdate) -> (
    Seq<Order>,
    Map<Seq<char>, u64>,
) {
    if u.event_type@ == "orderFill"@ {
        (
            without_id(active, u.order_id@),
            match u.last_filled_price {
                Some(ps) => match parsed_amount(ps@) {
                    Some(p) => prices.insert(u.symbol@, p),
                    None => prices,
                },
                None => prices,
            },
        )
    } else {
        (active, prices)
    }
}

/// The amount a text writes, or zero when it writes none.
pub open spec fn amount_or_zero(s: Seq<char>) -> u64 {
    match parsed_amount(s) {
        Some(v) => v,
        None => 0,
    }
}

/// The amount a text writes, or zero when it writes none.
pub fn parse_amount_or_zero(s: &str) -> (r: u64)
    ensures
        r == amount_or_zero(s@),
        r <= MAX_AMOUNT,
{
    match parse_amount(s) {
        Some(v) => v,
        None => 0,
    }
}

/// The quantity a text writes, or zero when it writes none or more than a
/// `u64` holds.
pub open spec fn quantity_or_zero(s: Seq<char>) -> u64 {
    match parsed_quantity(s) {
        Some(v) => v,
        None => 0,
    }
}

/// The quantity a text writes, or zero when it writes none.
pub fn parse_quantity_or_zero(s: &str) -> (r: u64)
    ensures
        r == quantity_or_zero(s@),
{
    match parse_quantity(s) {
        Some(v) => v,
        None => 0,
    }
}

/// `r` is the limit order, good till cancelled and borrowing as needed, of
/// `quantity` units of `symbol` at `price` units on `side`, with client id
/// `client_id`; price and quantity are written with two decimal places.
pub open spec fn is_order_request(
    r: PlaceOrderRequest,
    symbol: Seq<char>,
    side: Seq<char>,
    price: u64,
    quantity: u64,
    client_id: u32,
) -> bool {
    &&& r.symbol@ == symbol
    &&& r.side@ == side
    &&& r.order_type@ == "Limit"@
    &&& r.time_in_force@ == "GTC"@
    &&& r.price matches Some(p) && p@ == fixed_text(price as nat, 2)
    &&& r.quantity@ == fixed_text(quantity as nat, 2)
    &&& r.client_id == Some(client_id)
    &&& r.auto_borrow == Some(true)
    &&& r.auto_borrow_repay == Some(true)
}

/// The order placement request for the given order and client id.
pub fn build_order_request(symbol: &str, side: &str, price: u64, quantity: u64, client_id: u32) -> (r: PlaceOrderRequest)
    ensures
        is_order_request(r, symbol@, side@, price, quantity, client_id),
{
    PlaceOrderRequest {
        symbol: symbol.to_owned(),
        side: side.to_owned(),
        order_type: "Limit".to_owned(),
        time_in_force: "GTC".to_owned(),
        price: Some(format_fixed(price, 2)),
        quantity: format_fixed(quantity, 2),
        client_id: Some(client_id),
        auto_borrow: Some(true),
        auto_borrow_repay: Some(true),
    }
}

/// A fresh client id for an order.
///
/// Trusted: calls `rand::Rng::gen::<u32>` on `rand::thread_rng()`; any `u32`
/// may come back, so nothing is stated of it.
#[verifier::external_body]
fn random_client_id() -> u32 {
    rand::thread_rng().gen::<u32>()
}

/// How a cancellation settled.
#[derive(Clone, Copy, Debug, PartialEq, Eq, Structural)]
pub enum CancelSettlement {
    /// The exchange cancelled the order.
    Cancelled,
    /// The exchange no longer knew the order; it is dropped from the open orders.
    AlreadyGone,
}

/// The replacement of an open order: cancel it, then place a new order on
/// the same side.
pub struct OrderReplacement {
    pub cancel: CancelOrderRequest,
    pub side: String,
    /// Price of the new order, in units.
    pub price: u64,
    /// Quantity of the new order, in units.
    pub quantity: u64,
}

/// Why an order could not be dealt with.
#[derive(Debug, PartialEq, Eq, Structural)]
pub enum OrderError {
    /// No open order has the given id.
    NotFound,
}

pub struct OrderManager {
    pub rest_client: RestClient,
    active_orders: Vec<Order>,
    last_prices: StringHashMap<u64>,
}

impl OrderManager {
    pub closed spec fn client(&self) -> RestClient {
        self.rest_client
    }

    /// The open orders, in the order they were recorded.
    pub closed spec fn active(&self) -> Seq<Order> {
        self.active_orders@
    }

    /// The last price of each symbol, in units.
    pub closed spec fn last_prices(&self) -> Map<Seq<char>, u64> {
        self.last_prices@
    }

    /// Ids of open orders are unique and last prices stay within `MAX_AMOUNT`.
    pub open spec fn wf(&self) -> bool {
        &&& unique_ids(self.active())
        &&& forall|k: Seq<char>| #[trigger] self.last_prices().contains_key(k) ==> self.last_prices()[k] <= MAX_AMOUNT
    }

    pub fn new(rest_client: RestClient) -> (r: Self)
        ensures
            r.wf(),
            r.client() == rest_client,
            r.active() == Seq::<Order>::empty(),
            r.last_prices() == Map::<Seq<char>, u64>::empty(),
    {
        OrderManager { rest_client, active_orders: Vec::new(), last_prices: StringHashMap::new() }
    }

    /// The client whose requests place and cancel the orders.
    pub fn rest_client(&self) -> (r: &RestClient)
        ensures
            *r == self.client(),
    {
        &self.rest_client
    }

    fn find(&self, id: &str) -> (r: Option<usize>)
        requires
            self.wf(),
        ensures
            match r {
                Some(i) => position_of(self.active(), id@) == Some(i as int) && i < self.active().len(),
                None => position_of(self.active(), id@) is None,
            },
    {
        let mut i: usize = 0;
        while i < self.active_orders.len()
            invariant
                self.wf(),
                i <= self.active_orders.len(),
                forall|j: int| 0 <= j < i ==> self.active_orders@[j].id@ != id@,
            decreases self.active_orders.len() - i,
        {
            if text_eq(self.active_orders[i].id.as_str(), id) {
                proof {
                    let s = self.active();
                    let k = choose|k: int| 0 <= k < s.len() && s[k].id@ == id@;
                    assert(k == i);
                }
                return Some(i);
            }
            i = i + 1;
        }
        None
    }

    /// Stores an order the exchange accepted, under its id.
    pub fn record_placed_order(&mut self, order: Order)
        requires
            old(self).wf(),
        ensures
            final(self).wf(),
            final(self).active() == with_order(old(self).active(), order),
            final(self).last_prices() == old(self).last_prices(),
            final(self).client() == old(self).client(),
    {
        let found = self.find(order.id.as_str());
        match found {
            Some(i) => {
                proof {
                    let s = self.active();
                    let k = choose|k: int| 0 <= k < s.len() && s[k].id@ == order.id@;
                    assert(k == i);
                    assert(s[i as int].id@ == order.id@);
                }
                self.active_orders.set(i, order);
                proof {
                    let s = old(self).active();
                    let t = self.active();
                    assert forall|a: int, b: int|
                        0 <= a < t.len() && 0 <= b < t.len() && a != b implies t[a].id@ != t[b].id@ by {
                        if a != i {
                            assert(t[a] == s[a]);
                        }
                        if b != i {
                            assert(t[b] == s[b]);
                        }
                    }
                    assert(unique_ids(t));
                    assert(self.last_prices() == old(self).last_prices());
                    assert(self.wf());
                }
            },
            None => {
                let ghost id = order.id@;
                self.active_orders.push(order);
                proof {
                    let s = old(self).active();
                    let t = self.active();
                    assert forall|a: int, b: int|
                        0 <= a < t.len() && 0 <= b < t.len() && a != b implies t[a].id@ != t[b].id@ by {
                        if a < s.len() {
                            assert(t[a] == s[a]);
                        }
                        if b < s.len() {
                            assert(t[b] == s[b]);
                        }
                        if a == s.len() {
                            assert(t[a].id@ == id);
                            assert(s[b].id@ != id);
                        }
                        if b == s.len() {
                            assert(t[b].id@ == id);
                            assert(s[a].id@ != id);
                        }
                    }
                    assert(unique_ids(t));
                    assert(self.last_prices() == old(self).last_prices());
                    assert(self.wf());
                }
            },
        }
    }

    /// Takes the order of id `id` out of the open orders, if it is there.
    fn forget(&mut self, id: &str)
        requires
            old(self).wf(),
        ensures
            final(self).wf(),
            final(self).active() == without_id(old(self).active(), id@),
            final(self).last_prices() == old(self).last_prices(),
            final(self).client() == old(self).client(),
    {
        let found = self.find(id);
        if let Some(i) = found {
            self.active_orders.remove(i);
            proof {
                let s = old(self).active();
                assert forall|a: int, b: int|
                    0 <= a < s.len() - 1 && 0 <= b < s.len() - 1 && a != b implies
                    s.remove(i as int)[a].id@ != s.remove(i as int)[b].id@ by {
                    let a2 = if a < i { a } else { a + 1 };
                    let b2 = if b < i { b } else { b + 1 };
                    assert(s.remove(i as int)[a] == s[a2]);
                    assert(s.remove(i as int)[b] == s[b2]);
                }
                assert(unique_ids(s.remove(i as int)));
                assert(self.active() =~= s.remove(i as int));
                assert(self.last_prices() == old(self).last_prices());
            }
        }
    }

    /// Settles the outcome of cancelling order `order_id` at the exchange: the
    /// order leaves the open orders when the cancellation succeeded, or when
    /// the exchange's error says "Order not found"; any other error is handed
    /// back and the order stays.
    pub fn finish_cancel(&mut self, order_id: &str, outcome: Result<(), String>) -> (r: Result<CancelSettlement, String>)
        requires
            old(self).wf(),
        ensures
            final(self).wf(),
            final(self).last_prices() == old(self).last_prices(),
            final(self).client() == old(self).client(),
            match outcome {
                Ok(()) => r == Ok::<CancelSettlement, String>(CancelSettlement::Cancelled) && final(self).active()
                    == without_id(old(self).active(), order_id@),
                Err(e) => if contains_text(e@, "Order not found"@) {
                    r == Ok::<CancelSettlement, String>(CancelSettlement::AlreadyGone) && final(self).active()
                        == without_id(old(self).active(), order_id@)
                } else {
                    r == Err::<CancelSettlement, String>(e) && final(self).active() == old(self).active()
                },
            },
    {
        match outcome {
            Ok(()) => {
                self.forget(order_id);
                Ok(CancelSettlement::Cancelled)
            },
            Err(e) => {
                if contains(e.as_str(), "Order not found") {
                    self.forget(order_id);
                    Ok(CancelSettlement::AlreadyGone)
                } else {
                    Err(e)
                }
            },
        }
    }

    /// Plans the replacement (cancel, then place again) of open order
    /// `order_id` of `symbol` by one at `new_price` for `new_quantity`, on the
    /// side of the order being replaced; `NotFound` when no open order has
    /// that id, in which case nothing is to be cancelled.
    pub fn update_order(&self, symbol: &str, order_id: &str, new_price: u64, new_quantity: u64) -> (r: Result<
        OrderReplacement,
        OrderError,
    >)
        requires
            self.wf(),
        ensures
            match position_of(self.active(), order_id@) {
                Some(i) => r matches Ok(plan) && {
                    &&& plan.cancel.symbol@ == symbol@
                    &&& plan.cancel.order_id@ == order_id@
                    &&& plan.side@ == self.active()[i].side@
                    &&& plan.price == new_price
                    &&& plan.quantity == new_quantity
                },
                None => r == Err::<OrderReplacement, OrderError>(OrderError::NotFound),
            },
    {
        match self.find(order_id) {
            Some(i) => Ok(
                OrderReplacement {
                    cancel: CancelOrderRequest { symbol: symbol.to_owned(), order_id: order_id.to_owned() },
                    side: self.active_orders[i].side.clone(),
                    price: new_price,
                    quantity: new_quantity,
                },
            ),
            None => Err(OrderError::NotFound),
        }
    }

    /// Handles an update of one of the account's orders: a fill takes the
    /// order out of the open orders and, when the fill price reads as an
    /// amount, records it as the symbol's last price; other updates change
    /// nothing.
    pub fn handle_order_fill(&mut self, order_update: &OrderUpdate)
        requires
            old(self).wf(),
        ensures
            final(self).wf(),
            final(self).client() == old(self).client(),
            (final(self).active(), final(self).last_prices()) == after_order_update(
                old(self).active(),
                old(self).last_prices(),
                *order_update,
            ),
    {
        if text_eq(order_update.event_type.as_str(), "orderFill") {
            self.forget(order_update.order_id.as_str());
            if let Some(price_str) = &order_update.last_filled_price {
                if let Some(price) = parse_amount(price_str.as_str()) {
                    let ghost before = self.last_prices();
                    self.last_prices.insert(order_update.symbol.clone(), price);
                    proof {
                        let m = self.last_prices();
                        assert forall|k: Seq<char>| #[trigger] m.contains_key(k) implies m[k] <= MAX_AMOUNT by {
                            if k != order_update.symbol@ {
                                assert(before.contains_key(k));
                            }
                        }
                    }
                }
            }
        }
    }

    /// The best bid and ask to assume for `symbol`: 0.1% below and above its
    /// last price, when one is known.
    pub fn get_best_prices(&self, symbol: &str) -> (r: Option<(u64, u64)>)
        requires
            self.wf(),
        ensures
            r == (if self.last_prices().contains_key(symbol@) {
                Some(spread_around(self.last_prices()[symbol@]))
            } else {
                None
            }),
    {
        match self.last_prices.get(symbol) {
            Some(p) => {
                let p = *p;
                let bid = ((p as u128) * 999 / 1000) as u64;
                let ask = ((p as u128) * 1001 / 1000) as u64;
                Some((bid, ask))
            },
            None => None,
        }
    }

    /// The last price of `symbol`, when one is known.
    pub fn last_price(&self, symbol: &str) -> (r: Option<u64>)
        requires
            self.wf(),
        ensures
            r == (if self.last_prices().contains_key(symbol@) {
                Some(self.last_prices()[symbol@])
            } else {
                None
            }),
            r matches Some(p) ==> p <= MAX_AMOUNT,
    {
        match self.last_prices.get(symbol) {
            Some(p) => {
                assert(self.last_prices().contains_key(symbol@));
                Some(*p)
            },
            None => None,
        }
    }

    /// Records the middle of a book ticker's best bid and ask as the symbol's
    /// last price; a price that does not read as an amount counts as zero.
    pub fn update_best_prices(&mut self, ticker: &BookTicker)
        requires
            old(self).wf(),
        ensures
            final(self).wf(),
            final(self).client() == old(self).client(),
            final(self).active() == old(self).active(),
            final(self).last_prices() == prices_after_ticker(old(self).last_prices(), *ticker),
    {
        let bid = parse_amount_or_zero(ticker.inside_bid_price.as_str());
        let ask = parse_amount_or_zero(ticker.inside_ask_price.as_str());
        let mid = (bid + ask) / 2;
        self.last_prices.insert(ticker.symbol.clone(), mid);
        proof {
            let m = self.last_prices();
            assert forall|k: Seq<char>| #[trigger] m.contains_key(k) implies m[k] <= MAX_AMOUNT by {
                if k != ticker.symbol@ {
                    assert(old(self).last_prices().contains_key(k));
                }
            }
        }
    }

    fn collect_matching(&self, symbol: &str, side: Option<&str>) -> (r: Vec<&Order>)
        ensures
            deref_all(r@) == orders_matching(self.active(), symbol@, opt_view(side)),
    {
        let ghost f = order_filter(symbol@, opt_view(side));
        let mut r: Vec<&Order> = Vec::new();
        let mut i: usize = 0;
        while i < self.active_orders.len()
            invariant
                i <= self.active_orders.len(),
                f == order_filter(symbol@, opt_view(side)),
                deref_all(r@) == self.active().take(i as int).filter_map(f),
            decreases self.active_orders.len() - i,
        {
            let o = &self.active_orders[i];
            let keep = text_eq(o.symbol.as_str(), symbol) && match side {
                Some(sd) => text_eq(o.side.as_str(), sd),
                None => true,
            };
            proof {
                let t = self.active().take(i as int + 1);
                assert(t.drop_last() =~= self.active().take(i as int));
                assert(t.last() == *o);
            }
            if keep {
                let ghost before = r@;
                r.push(o);
                proof {
                    assert(deref_all(r@) =~= deref_all(before).push(*o));
                }
            }
            i = i + 1;
        }
        proof {
            assert(self.active().take(self.active().len() as int) =~= self.active());
        }
        r
    }

    /// Number of open orders of `symbol`, and of `side` where one is given.
    pub fn get_active_orders_count(&self, symbol: &str, side: Option<&str>) -> (r: usize)
        ensures
            r == orders_matching(self.active(), symbol@, opt_view(side)).len(),
    {
        let v = self.collect_matching(symbol, side);
        assert(deref_all(v@).len() == v@.len());
        v.len()
    }

    /// The open orders of `symbol`, in the order they were recorded.
    pub fn get_active_orders(&self, symbol: &str) -> (r: Vec<&Order>)
        ensures
            deref_all(r@) == orders_matching(self.active(), symbol@, None),
    {
        self.collect_matching(symbol, None)
    }

    /// The open orders of `symbol` on `side`, in the order they were recorded.
    pub fn get_active_orders_by_side(&self, symbol: &str, side: &str) -> (r: Vec<&Order>)
        ensures
            deref_all(r@) == orders_matching(self.active(), symbol@, Some(side@)),
    {
        self.collect_matching(symbol, Some(side))
    }

    /// The request that places a limit order of `quantity` units of `symbol`
    /// at `price` units on `side`, with a random client id.
    pub fn place_order_request(&self, symbol: &str, side: &str, price: u64, quantity: u64) -> (r: PlaceOrderRequest)
        ensures
            r.client_id is Some,
            is_order_request(r, symbol@, side@, price, quantity, r.client_id->0),
    {
        let client_id = random_client_id();
        build_order_request(symbol, side, price, quantity, client_id)
    }
}

/// Law: after a book ticker, its symbol's best prices are 0.1% around the
/// middle of the ticker's best bid and ask (a price that reads as no amount
/// counting as zero), and every other symbol keeps its last price, or its
/// lack of one.
pub proof fn ticker_sets_best_prices(prices: Map<Seq<char>, u64>, ticker: BookTicker, other: Seq<char>)
    ensures
        prices_after_ticker(prices, ticker).contains_key(ticker.symbol@),
        spread_around(prices_after_ticker(prices, ticker)[ticker.symbol@]) == spread_around(
            ((amount_or_zero(ticker.inside_bid_price@) + amount_or_zero(ticker.inside_ask_price@)) / 2) as u64,
        ),
        other != ticker.symbol@ ==> prices_after_ticker(prices, ticker).contains_key(other)
            == prices.contains_key(other),
        other != ticker.symbol@ && prices.contains_key(other) ==> prices_after_ticker(prices, ticker)[other]
            == prices[other],
{
}

/// A kept element's image is in the `filter_map` of a sequence.
pub proof fn lemma_filter_map_keeps<A, B>(s: Seq<A>, f: spec_fn(A) -> Option<B>, x: A, y: B)
    requires
        s.contains(x),
        f(x) == Some(y),
    ensures
        s.filter_map(f).contains(y),
    decreases s.len(),
{
    let rest = s.drop_last();
    let fr = rest.filter_map(f);
    if s.last() == x {
        assert(s.filter_map(f) == fr + seq![y]);
        assert((fr + seq![y])[fr.len() as int] == y);
    } else {
        let i = choose|i: int| 0 <= i < s.len() && s[i] == x;
        assert(i < s.len() - 1);
        assert(rest[i] == x);
        lemma_filter_map_keeps(rest, f, x, y);
        let k = choose|k: int| 0 <= k < fr.len() && fr[k] == y;
        match f(s.last()) {
            Some(z) => {
                assert(s.filter_map(f) == fr + seq![z]);
                assert((fr + seq![z])[k] == y);
            },
            None => {
                assert(s.filter_map(f) == fr);
            },
        }
    }
}

/// Law: the orders listed for a symbol (and, where given, a side) are
/// exactly the open orders of that symbol and side.
pub proof fn matching_orders_are_of_symbol_and_side(
    s: Seq<Order>,
    symbol: Seq<char>,
    side: Option<Seq<char>>,
    o: Order,
)
    ensures
        orders_matching(s, symbol, side).contains(o) <==> (s.contains(o) && o.symbol@ == symbol && (
        side matches Some(sd) ==> o.side@ == sd)),
{
    let f = order_filter(symbol, side);
    if orders_matching(s, symbol, side).contains(o) {
        s.lemma_filter_map_contains(f, o);
        let t = choose|t: Order| #[trigger] s.contains(t) && f(t) == Some(o);
        assert(t == o);
    }
    if s.contains(o) && o.symbol@ == symbol && (side matches Some(sd) ==> o.side@ == sd) {
        assert(f(o) == Some(o));
        lemma_filter_map_keeps(s, f, o, o);
    }
}

/// Law: after a fill of order `X`, an order is open exactly when it was open
/// before and its id is not `X`, and a fill price that reads as an amount
/// becomes the symbol's last price; any other update changes nothing.
pub proof fn fill_takes_out_only_the_filled_order(
    active: Seq<Order>,
    prices: Map<Seq<char>, u64>,
    u: OrderUpdate,
    p: Order,
)
    requires
        unique_ids(active),
    ensures
        u.event_type@ == "orderFill"@ ==> (after_order_update(active, prices, u).0.contains(p) <==> (
        active.contains(p) && p.id@ != u.order_id@)),
        u.event_type@ == "orderFill"@ && (u.last_filled_price matches Some(ps) && parsed_amount(ps@) is Some)
            ==> after_order_update(active, prices, u).1.contains_key(u.symbol@)
            && after_order_update(active, prices, u).1[u.symbol@] == parsed_amount(
            u.last_filled_price->0@,
        )->0,
        u.event_type@ != "orderFill"@ ==> after_order_update(active, prices, u) == (active, prices),
{
    removed_order_is_gone(active, u.order_id@);
}

/// Law: an order recorded under its id is then found under that id, as
/// recorded, and the other open orders stay as they were.
pub proof fn recorded_order_is_found(s: Seq<Order>, o: Order)
    requires
        unique_ids(s),
    ensures
        unique_ids(with_order(s, o)),
        position_of(with_order(s, o), o.id@) matches Some(i) && with_order(s, o)[i] == o,
        forall|p: Order| p.id@ != o.id@ ==> (#[trigger] with_order(s, o).contains(p) <==> s.contains(p)),
{
    let t = with_order(s, o);
    match position_of(s, o.id@) {
        Some(i) => {
            assert(s[i].id@ == o.id@);
            assert(t[i] == o);
            assert forall|a: int, b: int| 0 <= a < t.len() && 0 <= b < t.len() && a != b implies t[a].id@ != t[b].id@ by {
                if a != i {
                    assert(t[a] == s[a]);
                }
                if b != i {
                    assert(t[b] == s[b]);
                }
            }
            let k = choose|k: int| 0 <= k < t.len() && t[k].id@ == o.id@;
            assert(k == i);
            assert forall|p: Order| p.id@ != o.id@ implies (#[trigger] t.contains(p) <==> s.contains(p)) by {
                if t.contains(p) {
                    let k = choose|k: int| 0 <= k < t.len() && t[k] == p;
                    assert(k != i);
                    assert(s[k] == p);
                }
                if s.contains(p) {
                    let k = choose|k: int| 0 <= k < s.len() && s[k] == p;
                    assert(k != i);
                    assert(t[k] == p);
                }
            }
        },
        None => {
            let n = s.len() as int;
            assert(t[n] == o);
            assert forall|a: int, b: int| 0 <= a < t.len() && 0 <= b < t.len() && a != b implies t[a].id@ != t[b].id@ by {
                if a < n {
                    assert(t[a] == s[a]);
                }
                if b < n {
                    assert(t[b] == s[b]);
                }
            }
            let k = choose|k: int| 0 <= k < t.len() && t[k].id@ == o.id@;
            assert(k == n);
            assert forall|p: Order| p.id@ != o.id@ implies (#[trigger] t.contains(p) <==> s.contains(p)) by {
                if t.contains(p) {
                    let k = choose|k: int| 0 <= k < t.len() && t[k] == p;
                    assert(k != n);
                    assert(s[k] == p);
                }
                if s.contains(p) {
                    let k = choose|k: int| 0 <= k < s.len() && s[k] == p;
                    assert(t[k] == p);
                }
            }
        },
    }
}

/// Law: once an order is taken out (by a fill or a cancellation) no open
/// order has its id, so a later replacement of it finds nothing; every other
/// open order stays.
pub proof fn removed_order_is_gone(s: Seq<Order>, id: Seq<char>)
    requires
        unique_ids(s),
    ensures
        unique_ids(without_id(s, id)),
        position_of(without_id(s, id), id) is None,
        forall|p: Order| #[trigger] without_id(s, id).contains(p) <==> (s.contains(p) && p.id@ != id),
{
    let t = without_id(s, id);
    match position_of(s, id) {
        Some(i) => {
            assert(s[i].id@ == id);
            assert forall|a: int| 0 <= a < t.len() implies #[trigger] t[a] == if a < i { s[a] } else { s[a + 1] } by {}
            assert forall|a: int, b: int| 0 <= a < t.len() && 0 <= b < t.len() && a != b implies t[a].id@ != t[b].id@ by {
                let a2 = if a < i { a } else { a + 1 };
                let b2 = if b < i { b } else { b + 1 };
                assert(t[a] == s[a2] && t[b] == s[b2]);
            }
            assert forall|k: int| 0 <= k < t.len() implies t[k].id@ != id by {
                let k2 = if k < i { k } else { k + 1 };
                assert(t[k] == s[k2]);
            }
            assert forall|p: Order| #[trigger] t.contains(p) <==> (s.contains(p) && p.id@ != id) by {
                if t.contains(p) {
                    let k = choose|k: int| 0 <= k < t.len() && t[k] == p;
                    let k2 = if k < i { k } else { k + 1 };
                    assert(s[k2] == p);
                }
                if s.contains(p) && p.id@ != id {
                    let k = choose|k: int| 0 <= k < s.len() && s[k] == p;
                    assert(k != i);
                    let k2 = if k < i { k } else { k - 1 };
                    assert(t[k2] == p);
                }
            }
        },
        None => {
            assert forall|p: Order| #[trigger] t.contains(p) <==> (s.contains(p) && p.id@ != id) by {
                if s.contains(p) {
                    let k = choose|k: int| 0 <= k < s.len() && s[k] == p;
                    assert(s[k].id@ != id);
                }
            }
        },
    }
}

} // verus!
