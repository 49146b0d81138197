//! REST requests of the Backpack exchange: their data, their signing and
//! the requests the bot sends.
use vstd::prelude::*;
use vstd::string::*;
use crate::api::signing::{secret_from_base64, secret_key_of, signature_of, signature_text};
use crate::config::Config;
use crate::decimal::{format_u64, nat_digits};
use crate::text::{clone_opt_text, lemma_text_lt_total, text_eq, text_less, text_lt};

verus! {

/// A signing parameter, as key and value texts.
pub open spec fn param_view(p: (String, String)) -> (Seq<char>, Seq<char>) {
    (p.0@, p.1@)
}

pub open spec fn param_views(v: Seq<(String, String)>) -> Seq<(Seq<char>, Seq<char>)> {
    v.map_values(|p: (String, String)| param_view(p))
}

/// `s` with `p` put in key order: in place of the entry with the same key,
/// or before the first entry whose key comes after `p`'s, or at the end.
pub open spec fn insert_param(s: Seq<(Seq<char>, Seq<char>)>, p: (Seq<char>, Seq<char>)) -> Seq<
    (Seq<char>, Seq<char>),
>
    decreases s.len(),
{
    if s.len() == 0 {
        seq![p]
    } else if s[0].0 == p.0 {
        seq![p] + s.drop_first()
    } else if text_lt(p.0, s[0].0) {
        seq![p] + s
    } else {
        seq![s[0]] + insert_param(s.drop_first(), p)
    }
}

/// The parameters in key order, a later entry replacing an earlier one of
/// the same key (as when they are gathered in a `BTreeMap`).
pub open spec fn sorted_params(ps: Seq<(Seq<char>, Seq<char>)>) -> Seq<(Seq<char>, Seq<char>)>
    decreases ps.len(),
{
    if ps.len() == 0 {
        Seq::empty()
    } else {
        insert_param(sorted_params(ps.drop_last()), ps.last())
    }
}

/// "&key=value" for each parameter, in order.
pub open spec fn params_text(ps: Seq<(Seq<char>, Seq<char>)>) -> Seq<char>
    decreases ps.len(),
{
    if ps.len() == 0 {
        Seq::empty()
    } else {
        params_text(ps.drop_last()) + "&"@ + ps.last().0 + "="@ + ps.last().1
    }
}

/// The text a request's signature covers:
/// "instruction=I&k1=v1&...&timestamp=T&window=W", parameters in key order.
pub open spec fn signing_text(
    instruction: Seq<char>,
    params: Option<Seq<(Seq<char>, Seq<char>)>>,
    timestamp: u64,
    window: u64,
) -> Seq<char> {
    "instruction="@ + instruction + match params {
        Some(ps) => params_text(sorted_params(ps)),
        None => Seq::empty(),
    } + "&timestamp="@ + nat_digits(timestamp as nat) + "&window="@ + nat_digits(window as nat)
}

/// The exchange's instruction name for an endpoint and method.
pub open spec fn instruction_for(endpoint: Seq<char>, method: Seq<char>) -> Seq<char> {
    if endpoint == "/api/v1/account"@ && method == "GET"@ {
        "accountQuery"@
    } else if endpoint == "/api/v1/account/limits/order"@ && method == "GET"@ {
        "maxOrderQuantity"@
    } else if endpoint == "/api/v1/order"@ && method == "POST"@ {
        "orderExecute"@
    } else if endpoint == "/api/v1/order"@ && method == "DELETE"@ {
        "orderCancel"@
    } else {
        "unknown"@
    }
}

pub open spec fn bool_text(b: bool) -> Seq<char> {
    if b {
        "true"@
    } else {
        "false"@
    }
}

/// JSON text of an optional boolean: "true", "false" or "null".
pub open spec fn opt_bool_text(o: Option<bool>) -> Seq<char> {
    match o {
        Some(b) => bool_text(b),
        None => "null"@,
    }
}

/// Text of an optional string field: the string, or "null".
pub open spec fn opt_text(o: Option<String>) -> Seq<char> {
    match o {
        Some(s) => s@,
        None => "null"@,
    }
}

/// Text of an optional number: its digits, or "null".
pub open spec fn opt_u32_text(o: Option<u32>) -> Seq<char> {
    match o {
        Some(v) => nat_digits(v as nat),
        None => "null"@,
    }
}

/// The signing parameters of an order placement: each field under its JSON
/// name, with its value as text.
pub open spec fn order_params(o: PlaceOrderRequest) -> Seq<(Seq<char>, Seq<char>)> {
    seq![
        ("autoBorrow"@, opt_bool_text(o.auto_borrow)),
        ("autoBorrowRepay"@, opt_bool_text(o.auto_borrow_repay)),
        ("symbol"@, o.symbol@),
        ("side"@, o.side@),
        ("orderType"@, o.order_type@),
        ("timeInForce"@, o.time_in_force@),
        ("price"@, opt_text(o.price)),
        ("quantity"@, o.quantity@),
        ("clientId"@, opt_u32_text(o.client_id)),
    ]
}

/// The signing parameters (and query) of a maximum order quantity request.
pub open spec fn max_quantity_params(symbol: Seq<char>, side: Seq<char>) -> Seq<(Seq<char>, Seq<char>)> {
    seq![
        ("autoBorrow"@, "true"@),
        ("autoBorrowRepay"@, "true"@),
        ("autoLendRedeem"@, "true"@),
        ("side"@, side),
        ("symbol"@, symbol),
    ]
}

/// Signature window, in milliseconds, of every signed request.
pub const SIGNING_WINDOW: u64 = 5000;

proof fn lemma_insert_param_at(s: Seq<(Seq<char>, Seq<char>)>, p: (Seq<char>, Seq<char>), i: int)
    requires
        0 <= i <= s.len(),
        forall|j: int| 0 <= j < i ==> s[j].0 != p.0 && !text_lt(p.0, s[j].0),
        i < s.len() ==> (s[i].0 == p.0 || text_lt(p.0, s[i].0)),
    ensures
        insert_param(s, p) == if i == s.len() {
            s.push(p)
        } else if s[i].0 == p.0 {
            s.update(i, p)
        } else {
            s.insert(i, p)
        },
    decreases i,
{
    if s.len() == 0 {
        assert(seq![p] =~= s.push(p));
    } else if i == 0 {
        if s[0].0 == p.0 {
            assert(seq![p] + s.drop_first() =~= s.update(0, p));
        } else {
            assert(seq![p] + s =~= s.insert(0, p));
        }
    } else {
        let t = s.drop_first();
        assert forall|j: int| 0 <= j < i - 1 implies t[j].0 != p.0 && !text_lt(p.0, t[j].0) by {
            assert(t[j] == s[j + 1]);
        }
        lemma_insert_param_at(t, p, i - 1);
        if i == s.len() {
            assert(seq![s[0]] + t.push(p) =~= s.push(p));
        } else if s[i].0 == p.0 {
            assert(seq![s[0]] + t.update(i - 1, p) =~= s.update(i, p));
        } else {
            assert(seq![s[0]] + t.insert(i - 1, p) =~= s.insert(i, p));
        }
    }
}

fn clone_param(p: &(String, String)) -> (r: (String, String))
    ensures
        param_view(r) == param_view(*p),
{
    (p.0.clone(), p.1.clone())
}

/// Puts `p` into the key-ordered `out` (see `insert_param`).
fn insert_param_exec(out: &mut Vec<(String, String)>, p: (String, String))
    ensures
        param_views(final(out)@) == insert_param(param_views(old(out)@), param_view(p)),
{
    let ghost pv = param_view(p);
    let ghost s = param_views(out@);
    let mut j: usize = 0;
    while j < out.len()
        invariant
            s == param_views(out@),
            s == param_views(old(out)@),
            pv == param_view(p),
            j <= out@.len(),
            forall|k: int| 0 <= k < j ==> s[k].0 != pv.0 && !text_lt(pv.0, s[k].0),
        decreases out@.len() - j,
    {
        let same = text_eq(out[j].0.as_str(), p.0.as_str());
        let before = text_less(p.0.as_str(), out[j].0.as_str());
        if same || before {
            proof {
                lemma_insert_param_at(s, pv, j as int);
            }
            if same {
                out.set(j, p);
                proof {
                    assert(param_views(out@) =~= s.update(j as int, pv));
                }
            } else {
                out.insert(j, p);
                proof {
                    assert(param_views(out@) =~= s.insert(j as int, pv));
                }
            }
            return;
        }
        j = j + 1;
    }
    proof {
        lemma_insert_param_at(s, pv, j as int);
    }
    out.push(p);
    proof {
        assert(param_views(out@) =~= s.push(pv));
    }
}

/// The parameters in key order (see `sorted_params`).
pub fn sort_params(params: &Vec<(String, String)>) -> (r: Vec<(String, String)>)
    ensures
        param_views(r@) == sorted_params(param_views(params@)),
{
    let mut out: Vec<(String, String)> = Vec::new();
    let mut i: usize = 0;
    while i < params.len()
        invariant
            i <= params@.len(),
            param_views(out@) == sorted_params(param_views(params@).take(i as int)),
        decreases params@.len() - i,
    {
        let p = clone_param(&params[i]);
        proof {
            let t = param_views(params@).take(i as int + 1);
            assert(t.drop_last() =~= param_views(params@).take(i as int));
            assert(t.last() == param_view(params@[i as int]));
        }
        insert_param_exec(&mut out, p);
        i = i + 1;
    }
    proof {
        assert(param_views(params@).take(params@.len() as int) =~= param_views(params@));
    }
    out
}

/// Appends "&key=value" for each parameter to `s`.
fn push_params_text(s: &mut String, params: &Vec<(String, String)>)
    ensures
        final(s)@ == old(s)@ + params_text(param_views(params@)),
{
    let ghost start = old(s)@;
    let mut i: usize = 0;
    while i < params.len()
        invariant
            i <= params@.len(),
            s@ == start + params_text(param_views(params@).take(i as int)),
        decreases params@.len() - i,
    {
        proof {
            let t = param_views(params@).take(i as int + 1);
            assert(t.drop_last() =~= param_views(params@).take(i as int));
            assert(t.last() == param_view(params@[i as int]));
        }
        s.append("&");
        s.append(params[i].0.as_str());
        s.append("=");
        s.append(params[i].1.as_str());
        i = i + 1;
    }
    proof {
        assert(param_views(params@).take(params@.len() as int) =~= param_views(params@));
    }
}

pub open spec fn opt_param_views(params: Option<Vec<(String, String)>>) -> Option<Seq<(Seq<char>, Seq<char>)>> {
    match params {
        Some(v) => Some(param_views(v@)),
        None => None,
    }
}

/// The text a request's signature covers (see `signing_text`).
pub fn signing_payload(instruction: &str, params: &Option<Vec<(String, String)>>, timestamp: u64, window: u64) -> (r: String)
    ensures
        r@ == signing_text(instruction@, opt_param_views(*params), timestamp, window),
{
    let mut s = "instruction=".to_owned();
    s.append(instruction);
    if let Some(ps) = params {
        let sorted = sort_params(ps);
        push_params_text(&mut s, &sorted);
    }
    s.append("&timestamp=");
    let ts = format_u64(timestamp);
    s.append(ts.as_str());
    s.append("&window=");
    let w = format_u64(window);
    s.append(w.as_str());
    proof {
        let ptext = match opt_param_views(*params) {
            Some(ps) => params_text(sorted_params(ps)),
            None => Seq::<char>::empty(),
        };
        assert(s@ =~= "instruction="@ + instruction@ + ptext + "&timestamp="@ + nat_digits(timestamp as nat)
            + "&window="@ + nat_digits(window as nat));
    }
    s
}

/// Client of the exchange's REST interface: the configuration and the
/// 32-byte ed25519 secret that signs the requests.
pub struct RestClient {
    config: Config,
    secret: [u8; 32],
}

impl Clone for RestClient {
    fn clone(&self) -> (r: Self)
        ensures
            r == *self,
    {
        RestClient { config: self.config.clone(), secret: self.secret }
    }
}

/// HTTP method of a request.
#[derive(Clone, Copy, Debug, PartialEq, Eq, Structural)]
pub enum HttpMethod {
    Get,
    Post,
    Delete,
}

/// A signed request to the REST interface, ready to be sent: its headers
/// are X-API-KEY, X-TIMESTAMP, X-WINDOW and X-SIGNATURE.
pub struct ApiRequest {
    pub method: HttpMethod,
    pub url: String,
    pub query: Vec<(String, String)>,
    pub api_key: String,
    pub timestamp: String,
    pub window: String,
    pub signature: String,
}

fn text_pair(k: &str, v: &str) -> (r: (String, String))
    ensures
        param_view(r) == (k@, v@),
{
    (k.to_owned(), v.to_owned())
}

fn opt_bool_string(o: Option<bool>) -> (r: String)
    ensures
        r@ == opt_bool_text(o),
{
    match o {
        Some(true) => "true".to_owned(),
        Some(false) => "false".to_owned(),
        None => "null".to_owned(),
    }
}

/// The signing parameters of an order placement (see `order_params`).
pub fn place_order_params(o: &PlaceOrderRequest) -> (r: Vec<(String, String)>)
    ensures
        param_views(r@) == order_params(*o),
{
    let mut v: Vec<(String, String)> = Vec::new();
    v.push(("autoBorrow".to_owned(), opt_bool_string(o.auto_borrow)));
    v.push(("autoBorrowRepay".to_owned(), opt_bool_string(o.auto_borrow_repay)));
    v.push(("symbol".to_owned(), o.symbol.clone()));
    v.push(("side".to_owned(), o.side.clone()));
    v.push(("orderType".to_owned(), o.order_type.clone()));
    v.push(("timeInForce".to_owned(), o.time_in_force.clone()));
    let price = match &o.price {
        Some(p) => p.clone(),
        None => "null".to_owned(),
    };
    v.push(("price".to_owned(), price));
    v.push(("quantity".to_owned(), o.quantity.clone()));
    let client_id = match o.client_id {
        Some(c) => format_u64(c as u64),
        None => "null".to_owned(),
    };
    v.push(("clientId".to_owned(), client_id));
    assert(param_views(v@) =~= order_params(*o));
    v
}

impl RestClient {
    pub closed spec fn config_view(&self) -> Config {
        self.config
    }

    /// The 32-byte ed25519 secret.
    pub closed spec fn secret_view(&self) -> Seq<u8> {
        self.secret@
    }

    /// A client for `config`, whose `api_secret` must be the base64 text of a
    /// 32-byte ed25519 secret.
    pub fn new(config: &Config) -> (r: Self)
        requires
            secret_key_of(config.api_secret@) is Some,
        ensures
            r.config_view() == *config,
            Some(r.secret_view()) == secret_key_of(config.api_secret@),
    {
        let secret = secret_from_base64(config.api_secret.as_str());
        match secret {
            Some(secret) => RestClient { config: config.clone(), secret },
            None => {
                proof {
                    assert(false);
                }
                RestClient { config: config.clone(), secret: [0u8; 32] }
            },
        }
    }

    /// A client for `config`, or `None` when its `api_secret` is not the
    /// base64 text of a 32-byte secret.
    pub fn try_new(config: &Config) -> (r: Option<Self>)
        ensures
            r is Some <==> secret_key_of(config.api_secret@) is Some,
            r matches Some(c) ==> c.config_view() == *config && Some(c.secret_view()) == secret_key_of(
                config.api_secret@,
            ),
    {
        match secret_from_base64(config.api_secret.as_str()) {
            Some(_) => Some(RestClient::new(config)),
            None => None,
        }
    }

    /// The exchange's instruction name for an endpoint and method.
    pub fn get_instruction_type(&self, endpoint: &str, method: &str) -> (r: String)
        ensures
            r@ == instruction_for(endpoint@, method@),
    {
        if text_eq(endpoint, "/api/v1/account") && text_eq(method, "GET") {
            "accountQuery".to_owned()
        } else if text_eq(endpoint, "/api/v1/account/limits/order") && text_eq(method, "GET") {
            "maxOrderQuantity".to_owned()
        } else if text_eq(endpoint, "/api/v1/order") && text_eq(method, "POST") {
            "orderExecute".to_owned()
        } else if text_eq(endpoint, "/api/v1/order") && text_eq(method, "DELETE") {
            "orderCancel".to_owned()
        } else {
            "unknown".to_owned()
        }
    }

    /// Signs a request at `timestamp` (milliseconds): gives back the
    /// timestamp, the window and the base64 signature of `signing_text`.
    pub fn sign(&self, endpoint: &str, method: &str, params: &Option<Vec<(String, String)>>, timestamp: u64) -> (r: (
        String,
        String,
        String,
    ))
        ensures
            r.0@ == nat_digits(timestamp as nat),
            r.1@ == nat_digits(SIGNING_WINDOW as nat),
            r.2@ == signature_text(
                self.secret_view(),
                signing_text(instruction_for(endpoint@, method@), opt_param_views(*params), timestamp, SIGNING_WINDOW),
            ),
    {
        let instruction = self.get_instruction_type(endpoint, method);
        let payload = signing_payload(instruction.as_str(), params, timestamp, SIGNING_WINDOW);
        let signature = signature_of(&self.secret, payload.as_str());
        (format_u64(timestamp), format_u64(SIGNING_WINDOW), signature)
    }

    /// `r` is the request `method_text` on `endpoint`, with `query`, signed
    /// at `timestamp` over `params`.
    pub open spec fn is_signed_request(
        &self,
        r: ApiRequest,
        endpoint: Seq<char>,
        method_text: Seq<char>,
        method: HttpMethod,
        params: Option<Seq<(Seq<char>, Seq<char>)>>,
        query: Seq<(Seq<char>, Seq<char>)>,
        timestamp: u64,
    ) -> bool {
        &&& r.method == method
        &&& r.url@ == self.config_view().base_url@ + endpoint
        &&& param_views(r.query@) == query
        &&& r.api_key@ == self.config_view().api_key@
        &&& r.timestamp@ == nat_digits(timestamp as nat)
        &&& r.window@ == nat_digits(SIGNING_WINDOW as nat)
        &&& r.signature@ == signature_text(
            self.secret_view(),
            signing_text(instruction_for(endpoint, method_text), params, timestamp, SIGNING_WINDOW),
        )
    }

    fn signed_request(
        &self,
        endpoint: &str,
        method_text: &str,
        method: HttpMethod,
        params: Option<Vec<(String, String)>>,
        query: Vec<(String, String)>,
        timestamp: u64,
    ) -> (r: ApiRequest)
        ensures
            self.is_signed_request(r, endpoint@, method_text@, method, opt_param_views(params), param_views(query@), timestamp),
    {
        let (ts, window, signature) = self.sign(endpoint, method_text, &params, timestamp);
        let mut url = self.config.base_url.clone();
        url.append(endpoint);
        ApiRequest { method, url, query, api_key: self.config.api_key.clone(), timestamp: ts, window, signature }
    }

    /// The signed request for the account's settings.
    pub fn account_request(&self, timestamp: u64) -> (r: ApiRequest)
        ensures
            self.is_signed_request(r, "/api/v1/account"@, "GET"@, HttpMethod::Get, None, Seq::empty(), timestamp),
    {
        let r = self.signed_request("/api/v1/account", "GET", HttpMethod::Get, None, Vec::new(), timestamp);
        assert(param_views(Seq::<(String, String)>::empty()) =~= Seq::empty());
        r
    }

    /// The signed request for the largest order of `symbol` on `side` the
    /// account allows (the price is not part of it).
    pub fn max_order_quantity_request(&self, symbol: &str, side: &str, price: &str, timestamp: u64) -> (r: ApiRequest)
        ensures
            self.is_signed_request(
                r,
                "/api/v1/account/limits/order"@,
                "GET"@,
                HttpMethod::Get,
                Some(max_quantity_params(symbol@, side@)),
                max_quantity_params(symbol@, side@),
                timestamp,
            ),
    {
        let mut params: Vec<(String, String)> = Vec::new();
        params.push(text_pair("autoBorrow", "true"));
        params.push(text_pair("autoBorrowRepay", "true"));
        params.push(text_pair("autoLendRedeem", "true"));
        params.push(text_pair("side", side));
        params.push(text_pair("symbol", symbol));
        assert(param_views(params@) =~= max_quantity_params(symbol@, side@));
        let mut query: Vec<(String, String)> = Vec::new();
        query.push(text_pair("autoBorrow", "true"));
        query.push(text_pair("autoBorrowRepay", "true"));
        query.push(text_pair("autoLendRedeem", "true"));
        query.push(text_pair("side", side));
        query.push(text_pair("symbol", symbol));
        assert(param_views(query@) =~= max_quantity_params(symbol@, side@));
        self.signed_request("/api/v1/account/limits/order", "GET", HttpMethod::Get, Some(params), query, timestamp)
    }

    /// The signed request that places `order`; its body is the order's JSON.
    pub fn place_order_request(&self, order: &PlaceOrderRequest, timestamp: u64) -> (r: ApiRequest)
        ensures
            self.is_signed_request(
                r,
                "/api/v1/order"@,
                "POST"@,
                HttpMethod::Post,
                Some(order_params(*order)),
                Seq::empty(),
                timestamp,
            ),
    {
        let params = place_order_params(order);
        let r = self.signed_request("/api/v1/order", "POST", HttpMethod::Post, Some(params), Vec::new(), timestamp);
        assert(param_views(Seq::<(String, String)>::empty()) =~= Seq::empty());
        r
    }

    /// The body and the signed request that cancel order `order_id` of `symbol`.
    pub fn cancel_order_request(&self, symbol: &str, order_id: &str, timestamp: u64) -> (r: (CancelOrderRequest, ApiRequest))
        ensures
            r.0.symbol@ == symbol@,
            r.0.order_id@ == order_id@,
            self.is_signed_request(
                r.1,
                "/api/v1/order"@,
                "DELETE"@,
                HttpMethod::Delete,
                Some(seq![("symbol"@, symbol@), ("orderId"@, order_id@)]),
                Seq::empty(),
                timestamp,
            ),
    {
        let body = CancelOrderRequest { symbol: symbol.to_owned(), order_id: order_id.to_owned() };
        let mut params: Vec<(String, String)> = Vec::new();
        params.push(text_pair("symbol", symbol));
        params.push(text_pair("orderId", order_id));
        assert(param_views(params@) =~= seq![("symbol"@, symbol@), ("orderId"@, order_id@)]);
        let r = self.signed_request("/api/v1/order", "DELETE", HttpMethod::Delete, Some(params), Vec::new(), timestamp);
        assert(param_views(Seq::<(String, String)>::empty()) =~= Seq::empty());
        (body, r)
    }
}

/// Body of an order placement.
pub struct PlaceOrderRequest {
    pub auto_borrow: Option<bool>,
    pub auto_borrow_repay: Option<bool>,
    pub symbol: String,
    pub side: String,
    pub order_type: String,
    pub time_in_force: String,
    pub price: Option<String>,
    pub quantity: String,
    pub client_id: Option<u32>,
}

/// Body of an order cancellation.
pub struct CancelOrderRequest {
    pub symbol: String,
    pub order_id: String,
}

/// Account settings as the exchange reports them.
pub struct Account {
    pub auto_borrow_settlements: bool,
    pub auto_lend: bool,
    pub auto_realize_pnl: bool,
    pub auto_repay_borrows: bool,
    pub borrow_limit: String,
    pub futures_maker_fee: String,
    pub futures_taker_fee: String,
    pub leverage_limit: String,
    pub limit_orders: u32,
    pub liquidating: bool,
    pub position_limit: String,
    pub spot_maker_fee: String,
    pub spot_taker_fee: String,
    pub trigger_orders: u32,
}

/// The largest order quantity the account allows, as a decimal text.
pub struct MaxOrderQuantity {
    pub max_order_quantity: String,
}

/// An order as the exchange reports it.
pub struct Order {
    pub id: String,
    pub client_id: Option<u32>,
    pub order_type: String,
    pub side: String,
    pub status: String,
    pub symbol: String,
    pub price: Option<String>,
    pub quantity: String,
    pub executed_quantity: String,
    pub quote_quantity: Option<String>,
    pub executed_quote_quantity: Option<String>,
    pub time_in_force: String,
    pub created_at: u64,
}

impl Clone for Order {
    fn clone(&self) -> (r: Self)
        ensures
            r == *self,
    {
        Order {
            id: self.id.clone(),
            client_id: self.client_id,
            order_type: self.order_type.clone(),
            side: self.side.clone(),
            status: self.status.clone(),
            symbol: self.symbol.clone(),
            price: clone_opt_text(&self.price),
            quantity: self.quantity.clone(),
            executed_quantity: self.executed_quantity.clone(),
            quote_quantity: clone_opt_text(&self.quote_quantity),
            executed_quote_quantity: clone_opt_text(&self.executed_quote_quantity),
            time_in_force: self.time_in_force.clone(),
            created_at: self.created_at,
        }
    }
}

/// An order request of the REST interface whose answer is checked.
#[derive(Clone, Copy, Debug, PartialEq, Eq, Structural)]
pub enum OrderAction {
    Place,
    Cancel,
}

/// The message that starts the error of a refused order request.
pub open spec fn refusal_prefix(action: OrderAction) -> Seq<char> {
    match action {
        OrderAction::Place => "Error placing order: "@,
        OrderAction::Cancel => "Error cancelling order: "@,
    }
}

/// Checks the HTTP status of the answer to an order request: 200 means the
/// body holds the order; any other status is an error whose message is the
/// refusal prefix followed by the body.
pub fn check_order_response(action: OrderAction, status: u16, body: &str) -> (r: Result<(), String>)
    ensures
        r is Ok <==> status == 200,
        r matches Err(m) ==> m@ == refusal_prefix(action) + body@,
{
    if status == 200 {
        Ok(())
    } else {
        let mut m = match action {
            OrderAction::Place => "Error placing order: ".to_owned(),
            OrderAction::Cancel => "Error cancelling order: ".to_owned(),
        };
        m.append(body);
        Err(m)
    }
}

/// Each key comes before the next one.
pub open spec fn keys_ascending(s: Seq<(Seq<char>, Seq<char>)>) -> bool {
    forall|i: int| 0 <= i < s.len() - 1 ==> text_lt(#[trigger] s[i].0, s[i + 1].0)
}

/// The value given last to key `k` in `ps`, if any.
pub open spec fn last_value_of(ps: Seq<(Seq<char>, Seq<char>)>, k: Seq<char>) -> Option<Seq<char>>
    decreases ps.len(),
{
    if ps.len() == 0 {
        None
    } else if ps.last().0 == k {
        Some(ps.last().1)
    } else {
        last_value_of(ps.drop_last(), k)
    }
}

proof fn lemma_ascending_keys_distinct(s: Seq<(Seq<char>, Seq<char>)>, i: int, j: int)
    requires
        keys_ascending(s),
        0 <= i < j < s.len(),
    ensures
        text_lt(s[i].0, s[j].0),
        s[i].0 != s[j].0,
    decreases j - i,
{
    if j == i + 1 {
        lemma_text_lt_total(s[i].0, s[j].0);
    } else {
        lemma_ascending_keys_distinct(s, i, j - 1);
        lemma_text_lt_transitive(s[i].0, s[j - 1].0, s[j].0);
        lemma_text_lt_total(s[i].0, s[j].0);
    }
}

proof fn lemma_text_lt_transitive(a: Seq<char>, b: Seq<char>, c: Seq<char>)
    requires
        text_lt(a, b),
        text_lt(b, c),
    ensures
        text_lt(a, c),
    decreases a.len(),
{
    if a.len() > 0 && b.len() > 0 && c.len() > 0 {
        if a[0] == b[0] && b[0] == c[0] {
            lemma_text_lt_transitive(a.drop_first(), b.drop_first(), c.drop_first());
        }
    }
}

proof fn lemma_insert_param(s: Seq<(Seq<char>, Seq<char>)>, p: (Seq<char>, Seq<char>))
    requires
        keys_ascending(s),
    ensures
        keys_ascending(insert_param(s, p)),
        insert_param(s, p).len() >= 1,
        insert_param(s, p)[0] == p || (s.len() > 0 && insert_param(s, p)[0] == s[0]),
        forall|q: (Seq<char>, Seq<char>)|
            #[trigger] insert_param(s, p).contains(q) <==> (q == p || (s.contains(q) && q.0 != p.0)),
    decreases s.len(),
{
    let r = insert_param(s, p);
    if s.len() == 0 {
        assert(r =~= seq![p]);
        assert forall|q: (Seq<char>, Seq<char>)| r.contains(q) <==> (q == p || (s.contains(q) && q.0 != p.0)) by {
            if r.contains(q) {
                assert(r[0] == q);
            }
            if q == p {
                assert(r[0] == q);
            }
        }
    } else if s[0].0 == p.0 {
        let t = s.drop_first();
        assert(r =~= seq![p] + t);
        assert forall|i: int| 0 <= i < r.len() - 1 implies text_lt(#[trigger] r[i].0, r[i + 1].0) by {
            if i == 0 {
                if s.len() > 1 {
                    assert(text_lt(s[0].0, s[1].0));
                }
            } else {
                assert(r[i] == s[i] && r[i + 1] == s[i + 1]);
            }
        }
        assert forall|q: (Seq<char>, Seq<char>)| r.contains(q) <==> (q == p || (s.contains(q) && q.0 != p.0)) by {
            if r.contains(q) && q != p {
                let k = choose|k: int| 0 <= k < r.len() && r[k] == q;
                assert(k > 0);
                assert(s[k] == q);
                lemma_ascending_keys_distinct(s, 0, k);
            }
            if q == p {
                assert(r[0] == q);
            }
            if s.contains(q) && q.0 != p.0 {
                let k = choose|k: int| 0 <= k < s.len() && s[k] == q;
                assert(k > 0);
                assert(r[k] == q);
            }
        }
    } else if text_lt(p.0, s[0].0) {
        assert(r =~= seq![p] + s);
        assert forall|i: int| 0 <= i < r.len() - 1 implies text_lt(#[trigger] r[i].0, r[i + 1].0) by {
            if i > 0 {
                assert(r[i] == s[i - 1] && r[i + 1] == s[i]);
            }
        }
        assert forall|q: (Seq<char>, Seq<char>)| r.contains(q) <==> (q == p || (s.contains(q) && q.0 != p.0)) by {
            if r.contains(q) && q != p {
                let k = choose|k: int| 0 <= k < r.len() && r[k] == q;
                assert(k > 0);
                assert(s[k - 1] == q);
                if k - 1 > 0 {
                    lemma_ascending_keys_distinct(s, 0, k - 1);
                    lemma_text_lt_transitive(p.0, s[0].0, q.0);
                }
                lemma_text_lt_total(p.0, q.0);
            }
            if q == p {
                assert(r[0] == q);
            }
            if s.contains(q) && q.0 != p.0 {
                let k = choose|k: int| 0 <= k < s.len() && s[k] == q;
                assert(r[k + 1] == q);
            }
        }
    } else {
        let t = s.drop_first();
        assert(keys_ascending(t)) by {
            assert forall|i: int| 0 <= i < t.len() - 1 implies text_lt(#[trigger] t[i].0, t[i + 1].0) by {
                assert(t[i] == s[i + 1] && t[i + 1] == s[i + 2]);
            }
        }
        lemma_insert_param(t, p);
        let it = insert_param(t, p);
        assert(r =~= seq![s[0]] + it);
        lemma_text_lt_total(p.0, s[0].0);
        assert(text_lt(s[0].0, p.0));
        assert forall|i: int| 0 <= i < r.len() - 1 implies text_lt(#[trigger] r[i].0, r[i + 1].0) by {
            if i == 0 {
                if it[0] != p {
                    assert(t.len() > 0 && it[0] == t[0]);
                    assert(t[0] == s[1]);
                }
            } else {
                assert(r[i] == it[i - 1] && r[i + 1] == it[i]);
            }
        }
        assert forall|q: (Seq<char>, Seq<char>)| r.contains(q) <==> (q == p || (s.contains(q) && q.0 != p.0)) by {
            if r.contains(q) {
                let k = choose|k: int| 0 <= k < r.len() && r[k] == q;
                if k > 0 {
                    assert(it[k - 1] == q);
                    assert(it.contains(q));
                    if q != p {
                        let k2 = choose|k2: int| 0 <= k2 < t.len() && t[k2] == q;
                        assert(s[k2 + 1] == q);
                    }
                } else {
                    assert(q == s[0]);
                }
            }
            if q == p {
                assert(it.contains(p));
                let k = choose|k: int| 0 <= k < it.len() && it[k] == p;
                assert(r[k + 1] == p);
            }
            if s.contains(q) && q.0 != p.0 {
                let k = choose|k: int| 0 <= k < s.len() && s[k] == q;
                if k == 0 {
                    assert(r[0] == q);
                } else {
                    assert(t[k - 1] == q);
                    assert(t.contains(q));
                    assert(it.contains(q));
                    let k2 = choose|k2: int| 0 <= k2 < it.len() && it[k2] == q;
                    assert(r[k2 + 1] == q);
                }
            }
        }
    }
}

/// Law: a request's signing parameters come out in ascending key order, and
/// each key that the parameters give appears exactly once, with the value
/// given to it last.
pub proof fn signing_params_ordered(ps: Seq<(Seq<char>, Seq<char>)>)
    ensures
        keys_ascending(sorted_params(ps)),
        forall|q: (Seq<char>, Seq<char>)|
            #[trigger] sorted_params(ps).contains(q) <==> last_value_of(ps, q.0) == Some(q.1),
    decreases ps.len(),
{
    if ps.len() > 0 {
        signing_params_ordered(ps.drop_last());
        lemma_insert_param(sorted_params(ps.drop_last()), ps.last());
    }
}

} // verus!
