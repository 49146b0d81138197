//! Grid trading: a ladder of prices around a reference price, with a few
//! resting orders on each side of the market.
use vstd::prelude::*;
use crate::config::{Config, MAX_GRID_LEVELS};
use crate::decimal::{pow10, pow10_u64, lemma_pow10_monotone, lemma_pow10_values, MAX_AMOUNT};
use crate::api::rest::{CancelOrderRequest, MaxOrderQuantity, Order};
use crate::api::websocket::{MarketEvent, OrderUpdate};
use crate::decimal::{fixed_text, format_fixed, parse_amount, parsed_amount};
use crate::order_manager::{
    after_order_update, amount_or_zero, deref_all, lemma_filter_map_keeps, matching_orders_are_of_symbol_and_side,
    orders_matching, parse_amount_or_zero, parse_quantity_or_zero, prices_after_ticker, quantity_or_zero,
    OrderManager,
};
use crate::text::text_eq;

verus! {

/// The grid prices are in non-decreasing order.
pub open spec fn sorted(g: Seq<u64>) -> bool {
    forall|i: int, j: int| 0 <= i <= j < g.len() ==> g[i] <= g[j]
}

/// Number of grid prices below `p` (for a sorted grid, the first index whose
/// price is at least `p`).
pub open spec fn lower_bound(g: Seq<u64>, p: u64) -> int
    decreases g.len(),
{
    if g.len() == 0 {
        0
    } else if g.last() < p {
        g.len() as int
    } else {
        lower_bound(g.drop_last(), p)
    }
}

/// Index of the grid price closest to `p`: the first price equal to `p` if
/// there is one; otherwise the nearer of the two neighbours of `p`, the upper
/// one on a tie; the first or last index beyond the grid's ends; 0 for an
/// empty grid.
pub open spec fn closest_index(g: Seq<u64>, p: u64) -> int {
    let n = g.len() as int;
    let lb = lower_bound(g, p);
    if n == 0 {
        0
    } else if lb < n && g[lb] == p {
        lb
    } else if lb == 0 {
        0
    } else if lb >= n {
        n - 1
    } else if p - g[lb - 1] < g[lb] - p {
        lb - 1
    } else {
        lb
    }
}

/// Size, in units, of one step of `precision` decimal places.
pub open spec fn tick(precision: nat) -> nat {
    pow10((8 - precision) as nat)
}

/// `a / b` rounded to the nearest integer, halves rounded up.
pub open spec fn round_div(a: nat, b: nat) -> nat {
    ((2 * a + b) / (2 * b)) as nat
}

/// Numerator of grid level `i`'s exact price, over `1_000_000 * (levels - 1)`:
/// the lower bound plus `i` equal steps up to the upper bound.
pub open spec fn level_numerator(reference: nat, lower: int, upper: int, levels: nat, i: nat) -> nat {
    (reference * ((1_000_000 + lower) * (levels - 1) + i * (upper - lower))) as nat
}

/// Price of grid level `i`: the exact price rounded to `precision` decimal places.
pub open spec fn grid_price(reference: nat, lower: int, upper: int, levels: nat, precision: nat, i: nat) -> nat {
    round_div(
        level_numerator(reference, lower, upper, levels, i),
        (1_000_000 * (levels - 1) * tick(precision)) as nat,
    ) * tick(precision)
}

/// The grid that `initialize_grid` lays out around `reference` for `config`.
pub open spec fn grid_for(reference: u64, config: Config) -> Seq<u64> {
    Seq::new(
        config.grid_levels as nat,
        |i: int|
            grid_price(
                reference as nat,
                config.grid_lower_bound as int,
                config.grid_upper_bound as int,
                config.grid_levels as nat,
                config.price_precision as nat,
                i as nat,
            ) as u64,
    )
}

/// Quantity of each grid order: 90% of the funds spread over the levels, at
/// least `min_quantity`, rounded to `precision` decimal places.
pub open spec fn per_grid_quantity_for(total_funds: nat, levels: nat, min_quantity: nat, precision: nat) -> nat {
    if 9 * total_funds >= 10 * levels * min_quantity {
        round_div(9 * total_funds, (10 * levels * tick(precision)) as nat) * tick(precision)
    } else {
        round_div(min_quantity, tick(precision)) * tick(precision)
    }
}

pub proof fn lemma_lower_bound_partition(g: Seq<u64>, p: u64, k: int)
    requires
        0 <= k <= g.len(),
        forall|i: int| 0 <= i < k ==> g[i] < p,
        forall|i: int| k <= i < g.len() ==> g[i] >= p,
    ensures
        lower_bound(g, p) == k,
    decreases g.len(),
{
    if g.len() > 0 {
        if g.last() < p {
            assert(k == g.len());
        } else {
            assert(k < g.len());
            lemma_lower_bound_partition(g.drop_last(), p, k);
        }
    }
}

/// Index of the first grid price that is at least `p`.
fn search_lower_bound(g: &Vec<u64>, p: u64) -> (r: usize)
    requires
        sorted(g@),
    ensures
        r == lower_bound(g@, p),
        r <= g@.len(),
        forall|i: int| 0 <= i < r ==> g@[i] < p,
        forall|i: int| r <= i < g@.len() ==> g@[i] >= p,
{
    let mut lo: usize = 0;
    let mut hi: usize = g.len();
    while lo < hi
        invariant
            lo <= hi <= g@.len(),
            sorted(g@),
            forall|i: int| 0 <= i < lo ==> g@[i] < p,
            forall|i: int| hi <= i < g@.len() ==> g@[i] >= p,
        decreases hi - lo,
    {
        let mid = lo + (hi - lo) / 2;
        if g[mid] < p {
            lo = mid + 1;
        } else {
            hi = mid;
        }
    }
    proof {
        lemma_lower_bound_partition(g@, p, lo as int);
    }
    lo
}

/// The parameters under which `grid_price` is computed exactly in machine integers.
pub open spec fn grid_params_ok(reference: nat, lower: int, upper: int, levels: nat, precision: nat) -> bool {
    &&& reference <= MAX_AMOUNT
    &&& -1_000_000 <= lower <= upper <= 10_000_000
    &&& 2 <= levels <= MAX_GRID_LEVELS
    &&& precision <= 8
}

proof fn lemma_tick(precision: nat)
    requires
        precision <= 8,
    ensures
        1 <= tick(precision) <= 100_000_000,
{
    lemma_pow10_monotone((8 - precision) as nat, 8);
    lemma_pow10_values();
    crate::decimal::lemma_pow10_monotone(0, (8 - precision) as nat);
    assert(pow10(0) == 1);
}

proof fn lemma_level_numerator_bound(reference: nat, lower: int, upper: int, levels: nat, i: nat)
    requires
        -1_000_000 <= lower <= upper <= 10_000_000,
        levels >= 2,
        i < levels,
    ensures
        (1_000_000 + lower) * (levels - 1) + i * (upper - lower) >= 0,
        (1_000_000 + lower) * (levels - 1) + i * (upper - lower) <= 11_000_000 * (levels - 1),
        level_numerator(reference, lower, upper, levels, i)
            == reference * ((1_000_000 + lower) * (levels - 1) + i * (upper - lower)),
{
    let m = levels - 1;
    assert(i * (upper - lower) <= m * (upper - lower)) by (nonlinear_arith)
        requires i <= m, upper - lower >= 0;
    assert(i * (upper - lower) >= 0) by (nonlinear_arith)
        requires i >= 0, upper - lower >= 0;
    assert((1_000_000 + lower) * m >= 0) by (nonlinear_arith)
        requires 1_000_000 + lower >= 0, m >= 0;
    assert((1_000_000 + lower) * m + m * (upper - lower) == (1_000_000 + upper) * m) by (nonlinear_arith);
    assert((1_000_000 + upper) * m <= 11_000_000 * m) by (nonlinear_arith)
        requires 1_000_000 + upper <= 11_000_000, m >= 0;
    assert(reference * ((1_000_000 + lower) * m + i * (upper - lower)) >= 0) by (nonlinear_arith)
        requires reference >= 0, (1_000_000 + lower) * m + i * (upper - lower) >= 0;
}

/// Every grid price is at most eleven times the reference price plus one tick.
pub proof fn lemma_grid_price_bound(reference: nat, lower: int, upper: int, levels: nat, precision: nat, i: nat)
    requires
        grid_params_ok(reference, lower, upper, levels, precision),
        i < levels,
    ensures
        grid_price(reference, lower, upper, levels, precision, i) <= 11 * reference + tick(precision),
{
    lemma_tick(precision);
    lemma_level_numerator_bound(reference, lower, upper, levels, i);
    let t = tick(precision);
    let m = (levels - 1) as nat;
    let x = (1_000_000 + lower) * m + i * (upper - lower);
    let num = level_numerator(reference, lower, upper, levels, i);
    let den = (1_000_000 * m * t) as nat;
    assert(den > 0) by (nonlinear_arith)
        requires m >= 1, t >= 1, den == 1_000_000 * m * t;
    let r = round_div(num, den);
    assert(r * (2 * den) <= 2 * num + den) by (nonlinear_arith)
        requires r == (2 * num + den) / (2 * den), den > 0;
    assert(num <= reference * (11_000_000 * m)) by (nonlinear_arith)
        requires num == reference * x, x <= 11_000_000 * m, reference >= 0;
    assert(r * t <= 11 * reference + t) by (nonlinear_arith)
        requires
            r * (2 * den) <= 2 * num + den,
            num <= reference * (11_000_000 * m),
            den == 1_000_000 * m * t,
            m >= 1,
            t >= 1,
            r >= 0,
            reference >= 0;
}

/// Price of grid level `i`, in units.
fn level_price(reference: u64, lower: i64, upper: i64, levels: usize, precision: usize, i: usize) -> (r: u64)
    requires
        grid_params_ok(reference as nat, lower as int, upper as int, levels as nat, precision as nat),
        i < levels,
    ensures
        r == grid_price(reference as nat, lower as int, upper as int, levels as nat, precision as nat, i as nat),
{
    proof {
        lemma_tick(precision as nat);
        lemma_level_numerator_bound(reference as nat, lower as int, upper as int, levels as nat, i as nat);
        lemma_grid_price_bound(reference as nat, lower as int, upper as int, levels as nat, precision as nat, i as nat);
    }
    let t = pow10_u64((8 - precision) as u32) as u128;
    let m = (levels - 1) as u128;
    let base = (1_000_000 + lower) as u128;
    let span = (upper - lower) as u128;
    assert(base * m <= 11_000_000 * 4_294_967_295) by (nonlinear_arith)
        requires base <= 11_000_000, m <= 4_294_967_295;
    assert((i as u128) * span <= 4_294_967_295 * 11_000_000) by (nonlinear_arith)
        requires i <= 4_294_967_295, span <= 11_000_000;
    let x = base * m + (i as u128) * span;
    assert((reference as u128) * x <= 1_000_000_000_000_000_000 * 94_489_280_490_000_000) by (nonlinear_arith)
        requires reference <= 1_000_000_000_000_000_000u64, x <= 94_489_280_490_000_000u128;
    let num = (reference as u128) * x;
    assert(1_000_000 * m * t <= 1_000_000 * 4_294_967_295 * 100_000_000) by (nonlinear_arith)
        requires m <= 4_294_967_295, t <= 100_000_000;
    let den = 1_000_000 * m * t;
    assert(den > 0) by (nonlinear_arith)
        requires m >= 1, t >= 1, den == 1_000_000 * m * t;
    let rounded = (2 * num + den) / (2 * den);
    proof {
        lemma_tick(precision as nat);
        assert(rounded * t <= 11 * 1_000_000_000_000_000_000 + 100_000_000);
    }
    (rounded * t) as u64
}

proof fn lemma_grid_price_monotone(reference: nat, lower: int, upper: int, levels: nat, precision: nat, i: nat, j: nat)
    requires
        grid_params_ok(reference, lower, upper, levels, precision),
        i <= j < levels,
    ensures
        grid_price(reference, lower, upper, levels, precision, i)
            <= grid_price(reference, lower, upper, levels, precision, j),
{
    lemma_tick(precision);
    lemma_level_numerator_bound(reference, lower, upper, levels, i);
    lemma_level_numerator_bound(reference, lower, upper, levels, j);
    let t = tick(precision);
    let m = (levels - 1) as nat;
    let a = level_numerator(reference, lower, upper, levels, i);
    let b = level_numerator(reference, lower, upper, levels, j);
    assert(a <= b) by (nonlinear_arith)
        requires
            a == reference * ((1_000_000 + lower) * m + i * (upper - lower)),
            b == reference * ((1_000_000 + lower) * m + j * (upper - lower)),
            i <= j,
            upper - lower >= 0,
            reference >= 0;
    let den = (1_000_000 * m * t) as nat;
    assert(den > 0) by (nonlinear_arith)
        requires m >= 1, t >= 1, den == 1_000_000 * m * t;
    vstd::arithmetic::div_mod::lemma_div_is_ordered((2 * a + den) as int, (2 * b + den) as int, (2 * den) as int);
    let ra = round_div(a, den);
    let rb = round_div(b, den);
    assert(ra * t <= rb * t) by (nonlinear_arith)
        requires ra <= rb, t >= 0;
}

/// Law: for a well-formed configuration the grid has one price per level, in
/// non-decreasing order.
pub proof fn grid_is_sorted(reference: u64, config: Config)
    requires
        reference <= MAX_AMOUNT,
        config.well_formed(),
    ensures
        grid_for(reference, config).len() == config.grid_levels,
        sorted(grid_for(reference, config)),
{
    let g = grid_for(reference, config);
    assert forall|i: int, j: int| 0 <= i <= j < g.len() implies g[i] <= g[j] by {
        let r = reference as nat;
        let lo = config.grid_lower_bound as int;
        let up = config.grid_upper_bound as int;
        let n = config.grid_levels as nat;
        let pp = config.price_precision as nat;
        lemma_grid_price_monotone(r, lo, up, n, pp, i as nat, j as nat);
        lemma_grid_price_bound(r, lo, up, n, pp, j as nat);
        lemma_tick(pp);
    }
}

/// Law: the grid runs from the lower bound to the upper bound around the
/// reference price, each rounded to the price precision: its first price is
/// `reference * (1 + lower)` and its last `reference * (1 + upper)`.
pub proof fn grid_spans_bounds(reference: u64, config: Config)
    requires
        reference <= MAX_AMOUNT,
        config.well_formed(),
    ensures
        grid_for(reference, config)[0] == round_div(
            (reference * (1_000_000 + config.grid_lower_bound)) as nat,
            (1_000_000 * tick(config.price_precision as nat)) as nat,
        ) * tick(config.price_precision as nat),
        grid_for(reference, config)[config.grid_levels - 1] == round_div(
            (reference * (1_000_000 + config.grid_upper_bound)) as nat,
            (1_000_000 * tick(config.price_precision as nat)) as nat,
        ) * tick(config.price_precision as nat),
{
    let r = reference as nat;
    let lo = config.grid_lower_bound as int;
    let up = config.grid_upper_bound as int;
    let n = config.grid_levels as nat;
    let pp = config.price_precision as nat;
    let t = tick(pp);
    let m = (n - 1) as nat;
    lemma_tick(pp);
    lemma_grid_price_bound(r, lo, up, n, pp, 0);
    lemma_grid_price_bound(r, lo, up, n, pp, m);
    lemma_level_numerator_bound(r, lo, up, n, 0);
    lemma_level_numerator_bound(r, lo, up, n, m);
    let d1 = (1_000_000 * t) as nat;
    let dm = (1_000_000 * m * t) as nat;
    let a0 = (r * (1_000_000 + lo)) as nat;
    let am = (r * (1_000_000 + up)) as nat;
    assert(level_numerator(r, lo, up, n, 0) == a0 * m) by (nonlinear_arith)
        requires level_numerator(r, lo, up, n, 0) == r * ((1_000_000 + lo) * m + 0 * (up - lo)), a0 == r * (1_000_000 + lo);
    assert(level_numerator(r, lo, up, n, m) == am * m) by (nonlinear_arith)
        requires level_numerator(r, lo, up, n, m) == r * ((1_000_000 + lo) * m + m * (up - lo)), am == r * (1_000_000 + up);
    lemma_round_div_scale(a0, d1, m);
    lemma_round_div_scale(am, d1, m);
    assert(dm == d1 * m) by (nonlinear_arith) requires dm == 1_000_000 * m * t, d1 == 1_000_000 * t;
    assert(a0 * m == m * a0);
    assert(am * m == m * am);
}

/// Rounding is unchanged when both numerator and denominator are scaled.
proof fn lemma_round_div_scale(a: nat, d: nat, m: nat)
    requires
        d > 0,
        m > 0,
    ensures
        round_div(a * m, (d * m) as nat) == round_div(a, d),
{
    assert(2 * (a * m) + d * m == (2 * a + d) * m) by (nonlinear_arith);
    assert(2 * (d * m) == (2 * d) * m) by (nonlinear_arith);
    lemma_div_cancel(2 * a + d, 2 * d, m);
}

proof fn lemma_div_cancel(x: nat, y: nat, m: nat)
    requires
        y > 0,
        m > 0,
    ensures
        (x * m) / (y * m) == x / y,
{
    vstd::arithmetic::div_mod::lemma_div_denominator((x * m) as int, m as int, y as int);
    vstd::arithmetic::div_mod::lemma_div_multiples_vanish(x as int, m as int);
    assert(x * m == m * x) by (nonlinear_arith);
    assert(m * y == y * m) by (nonlinear_arith);
}

/// Distance between two amounts.
pub open spec fn distance(a: u64, b: u64) -> int {
    if a >= b {
        a - b
    } else {
        b - a
    }
}

proof fn lemma_lower_bound_sorted(g: Seq<u64>, p: u64)
    requires
        sorted(g),
    ensures
        0 <= lower_bound(g, p) <= g.len(),
        forall|i: int| 0 <= i < lower_bound(g, p) ==> g[i] < p,
        forall|i: int| lower_bound(g, p) <= i < g.len() ==> g[i] >= p,
    decreases g.len(),
{
    if g.len() > 0 {
        let d = g.drop_last();
        if g.last() >= p {
            assert(sorted(d));
            lemma_lower_bound_sorted(d, p);
            assert forall|i: int| 0 <= i < lower_bound(g, p) implies g[i] < p by {
                assert(d[i] == g[i]);
            }
            assert forall|i: int| lower_bound(g, p) <= i < g.len() implies g[i] >= p by {
                if i < d.len() {
                    assert(d[i] == g[i]);
                }
            }
        } else {
            assert forall|i: int| 0 <= i < lower_bound(g, p) implies g[i] < p by {
                assert(g[i] <= g[g.len() - 1]);
            }
        }
    }
}

/// Law: on a sorted, non-empty grid, the closest index is a valid index and
/// no grid price is nearer to `p` than the price at it.
pub proof fn closest_is_nearest(g: Seq<u64>, p: u64, j: int)
    requires
        sorted(g),
        0 <= j < g.len(),
    ensures
        0 <= closest_index(g, p) < g.len(),
        distance(g[closest_index(g, p)], p) <= distance(g[j], p),
{
    lemma_lower_bound_sorted(g, p);
    let lb = lower_bound(g, p);
    if lb > 0 {
        assert(g[j] <= g[lb - 1] || j >= lb);
    }
    if lb < g.len() {
        assert(g[lb] <= g[j] || j < lb);
    }
}

/// Index of the grid price closest to `p` (see `closest_index`).
pub fn closest_grid_index(g: &Vec<u64>, p: u64) -> (r: usize)
    requires
        sorted(g@),
    ensures
        r == closest_index(g@, p),
        g@.len() > 0 ==> r < g@.len(),
{
    let n = g.len();
    if n == 0 {
        return 0;
    }
    let lb = search_lower_bound(g, p);
    if lb < n && g[lb] == p {
        lb
    } else if lb == 0 {
        0
    } else if lb >= n {
        n - 1
    } else {
        let prev_diff = p - g[lb - 1];
        let next_diff = g[lb] - p;
        if prev_diff < next_diff {
            lb - 1
        } else {
            lb
        }
    }
}

/// Side of an order.
#[derive(Clone, Copy, Debug, PartialEq, Eq, Structural)]
pub enum Side {
    Bid,
    Ask,
}

/// The text by which the exchange names a side.
pub open spec fn side_text(s: Side) -> Seq<char> {
    match s {
        Side::Bid => "Bid"@,
        Side::Ask => "Ask"@,
    }
}

impl Side {
    /// The text by which the exchange names the side: "Bid" or "Ask".
    pub fn as_str(&self) -> (r: &'static str)
        ensures
            r@ == side_text(*self),
    {
        match self {
            Side::Bid => "Bid",
            Side::Ask => "Ask",
        }
    }
}

/// An order the strategy wants placed.
#[derive(Clone, Copy, Debug, PartialEq, Eq, Structural)]
pub struct OrderIntent {
    pub side: Side,
    /// Price, in units.
    pub price: u64,
    /// Quantity, in units.
    pub quantity: u64,
}

/// `x` scaled by `num / 100`, rounded down.
pub open spec fn percent_of(x: u64, num: nat) -> u64 {
    (x * num / 100) as u64
}

/// The exact middle of `x` scaled by `low / d` and by `high / d`.
pub open spec fn middle_of_spread(x: u64, low: nat, high: nat, d: nat) -> nat {
    ((x as nat * low + x as nat * high) / (2 * d)) as nat
}

/// The market price the strategy works with: the middle of the best bid and
/// ask the order manager assumes for `symbol` (0.1% below and above its last
/// price), or, when it knows no price, the middle of 1% below and 1% above
/// the reference price.
pub open spec fn market_price(prices: Map<Seq<char>, u64>, symbol: Seq<char>, reference: u64) -> u64 {
    if prices.contains_key(symbol) {
        middle_of_spread(prices[symbol], 999, 1001, 1000) as u64
    } else {
        middle_of_spread(reference, 99, 101, 100) as u64
    }
}

/// Law: the middle of a symmetric spread around a price is that price, so
/// the market price is the last price, or else the reference price.
pub proof fn market_price_is_last_or_reference(prices: Map<Seq<char>, u64>, symbol: Seq<char>, reference: u64)
    ensures
        market_price(prices, symbol, reference) == if prices.contains_key(symbol) {
            prices[symbol]
        } else {
            reference
        },
{
    if prices.contains_key(symbol) {
        let p = prices[symbol];
        assert(p as nat * 999 + p as nat * 1001 == p as nat * 2000) by (nonlinear_arith);
        assert((p as nat * 2000) / 2000 == p) by (nonlinear_arith);
    } else {
        assert(reference as nat * 99 + reference as nat * 101 == reference as nat * 200) by (nonlinear_arith);
        assert((reference as nat * 200) / 200 == reference) by (nonlinear_arith);
    }
}

/// The order that answers a fill at price `filled` on side `filled_side`,
/// with the market at `market`: after a bid fill, an ask one grid level above
/// the fill if that is above the market, else one level above the market's
/// level, else 1% above the market (or above the fill when the fill is at
/// the grid's top); after any other fill, the mirror image with a bid.
pub open spec fn fill_response(g: Seq<u64>, filled_side: Seq<char>, filled: u64, market: u64) -> (Side, u64) {
    let ci = closest_index(g, filled);
    if filled_side == "Bid"@ {
        if ci + 1 < g.len() {
            if g[ci + 1] > market {
                (Side::Ask, g[ci + 1])
            } else {
                let mi = closest_index(g, market);
                if mi + 1 < g.len() {
                    (Side::Ask, g[mi + 1])
                } else {
                    (Side::Ask, percent_of(market, 101))
                }
            }
        } else {
            (Side::Ask, percent_of(filled, 101))
        }
    } else {
        if ci > 0 {
            if g[ci - 1] < market {
                (Side::Bid, g[ci - 1])
            } else {
                let mi = closest_index(g, market);
                if mi > 0 {
                    (Side::Bid, g[mi - 1])
                } else {
                    (Side::Bid, percent_of(market, 99))
                }
            }
        } else {
            (Side::Bid, percent_of(filled, 99))
        }
    }
}

/// The price at which a fill happened: the update's last fill price when it
/// reads as an amount, else the reference price.
pub open spec fn fill_price(u: OrderUpdate, reference: u64) -> u64 {
    match u.last_filled_price {
        Some(ps) => match parsed_amount(ps@) {
            Some(p) => p,
            None => reference,
        },
        None => reference,
    }
}

fn percent(x: u64, num: u64) -> (r: u64)
    requires
        x <= 2 * MAX_AMOUNT,
        num <= 101,
    ensures
        r == percent_of(x, num as nat),
        r <= x * 2,
{
    assert((x as u128) * (num as u128) <= 2_000_000_000_000_000_000u128 * 101) by (nonlinear_arith)
        requires x <= 2_000_000_000_000_000_000u64, num <= 101u64;
    let v = (x as u128) * (num as u128) / 100;
    assert(v <= 2 * (x as u128)) by (nonlinear_arith)
        requires v == (x as u128) * (num as u128) / 100, num <= 101;
    v as u64
}

/// Whether grid level `i`, with the market at `market` and at level `ci`,
/// gets an initial order: a bid when it is below the market and at most
/// three levels below `ci`, an ask when it is above the market and at most
/// three levels above `ci`.
pub open spec fn initial_intent(g: Seq<u64>, market: u64, ci: int, quantity: u64, i: int) -> Option<OrderIntent> {
    if g[i] < market && i < ci && ci - i <= 3 {
        Some(OrderIntent { side: Side::Bid, price: g[i], quantity })
    } else if g[i] > market && i > ci && i - ci <= 3 {
        Some(OrderIntent { side: Side::Ask, price: g[i], quantity })
    } else {
        None
    }
}

/// The initial grid orders, in grid order.
pub open spec fn initial_orders(g: Seq<u64>, market: u64, quantity: u64) -> Seq<OrderIntent> {
    let ci = closest_index(g, market);
    Seq::new(g.len(), |i: int| i).filter_map(|i: int| initial_intent(g, market, ci, quantity, i))
}

pub open spec fn min_int(a: int, b: int) -> int {
    if a <= b {
        a
    } else {
        b
    }
}

/// The prices of up to three grid levels below level `ci`, nearest first.
pub open spec fn bid_targets(g: Seq<u64>, ci: int) -> Seq<u64> {
    Seq::new(min_int(ci, 3) as nat, |k: int| g[ci - 1 - k])
}

/// The prices of up to three grid levels above level `ci`, nearest first.
pub open spec fn ask_targets(g: Seq<u64>, ci: int) -> Seq<u64> {
    let c = if ci + 1 <= g.len() {
        min_int(3, g.len() - 1 - ci)
    } else {
        0
    };
    Seq::new(c as nat, |k: int| g[ci + 1 + k])
}

/// Order `o` rests at price `t`: its price, read as an amount (zero when it
/// reads as none), is within 0.0001 of `t`.
pub open spec fn rests_at(o: Order, t: u64) -> bool {
    o.price matches Some(ps) && distance(amount_or_zero(ps@), t) < 10_000
}

/// Some order of `orders` rests at price `t`.
pub open spec fn covered(orders: Seq<Order>, t: u64) -> bool {
    exists|j: int| 0 <= j < orders.len() && rests_at(orders[j], t)
}

/// A new order on `side` at target price `t` when none of `orders` rests there.
pub open spec fn missing_order(orders: Seq<Order>, side: Side, quantity: u64) -> spec_fn(u64) -> Option<OrderIntent> {
    |t: u64|
        if covered(orders, t) {
            None
        } else {
            Some(OrderIntent { side, price: t, quantity })
        }
}

/// The cancellation of order `o` when its price reads as an amount whose
/// closest grid level is not one of the targets of its side: for a bid, the
/// three levels below `ci`; for an ask, the three levels above it.
pub open spec fn stale_order(g: Seq<u64>, ci: int, side: Side) -> spec_fn(Order) -> Option<CancelOrderRequest> {
    |o: Order|
        match o.price {
            Some(ps) => match parsed_amount(ps@) {
                Some(p) => {
                    let oi = closest_index(g, p);
                    let target = match side {
                        Side::Bid => oi < ci && ci - oi <= 3,
                        Side::Ask => oi > ci && oi - ci <= 3 && oi < g.len(),
                    };
                    if target {
                        None
                    } else {
                        Some(CancelOrderRequest { symbol: o.symbol, order_id: o.id })
                    }
                },
                None => None,
            },
            None => None,
        }
}

/// The orders to place and to cancel so that, with the market at `market`,
/// the three grid levels on each side of the market's level carry an order
/// and no order rests elsewhere.
pub open spec fn update_plan(g: Seq<u64>, market: u64, bids: Seq<Order>, asks: Seq<Order>, quantity: u64) -> (
    Seq<OrderIntent>,
    Seq<CancelOrderRequest>,
) {
    let ci = closest_index(g, market);
    (
        bid_targets(g, ci).filter_map(missing_order(bids, Side::Bid, quantity)) + ask_targets(g, ci).filter_map(
            missing_order(asks, Side::Ask, quantity),
        ),
        bids.filter_map(stale_order(g, ci, Side::Bid)) + asks.filter_map(stale_order(g, ci, Side::Ask)),
    )
}

/// `r` is what the strategy does first with `grid`, for `symbol` around
/// `reference`, with orders of `quantity`: when no order of `symbol` rests
/// on either side, place `initial_orders`; otherwise carry out `update_plan`.
pub open spec fn is_initial_plan(
    r: InitialOrders,
    grid: Seq<u64>,
    symbol: Seq<char>,
    reference: u64,
    quantity: u64,
    om: &OrderManager,
) -> bool {
    let market = market_price(om.last_prices(), symbol, reference);
    let bids = orders_matching(om.active(), symbol, Some("Bid"@));
    let asks = orders_matching(om.active(), symbol, Some("Ask"@));
    if bids.len() == 0 && asks.len() == 0 {
        r matches InitialOrders::Place(v) && v@ == initial_orders(grid, market, quantity)
    } else {
        r matches InitialOrders::Update(plan) && (plan.to_place@, plan.to_cancel@) == update_plan(
            grid,
            market,
            bids,
            asks,
            quantity,
        )
    }
}

/// What the run loop received.
pub enum RunInput {
    /// A market event arrived.
    Event,
    /// The channel dropped this many messages.
    Lagged(u64),
    /// The channel closed.
    Closed,
    /// The update timer ticked, at this time in nanoseconds.
    Tick(u64),
}

/// What the run loop does next.
pub enum RunAction {
    /// Hand the event to `process_market_event`, then go on receiving.
    ProcessEvent,
    /// Go on receiving.
    Continue,
    /// Update the orders (`update_orders`), then record the time of the update.
    UpdateOrders,
    /// End the run, with this outcome.
    Finish(Result<(), String>),
}

/// Whether orders last updated at `last` are due an update at `now`: more
/// than a second has passed.
pub open spec fn update_is_due(last: u64, now: u64) -> bool {
    now > last && now - last > 1_000_000_000
}

/// The next step of the strategy's start.
pub enum StartupStep {
    /// No reference price yet: handle market events until one arrives.
    AwaitMarketData,
    /// Ask the exchange for the largest bid and ask quantities, quoting this price.
    FetchFunds(String),
}

/// Orders to place and to cancel.
pub struct UpdatePlan {
    pub to_place: Vec<OrderIntent>,
    pub to_cancel: Vec<CancelOrderRequest>,
}

/// What the strategy does first: place the initial orders when none rests,
/// or else update the resting ones.
pub enum InitialOrders {
    Place(Vec<OrderIntent>),
    Update(UpdatePlan),
}

fn rests_at_exec(o: &Order, t: u64) -> (r: bool)
    ensures
        r == rests_at(*o, t),
{
    match &o.price {
        Some(ps) => {
            let p = parse_amount_or_zero(ps.as_str());
            let d = if p >= t { p - t } else { t - p };
            d < 10_000
        },
        None => false,
    }
}

fn is_covered(orders: &Vec<&Order>, t: u64) -> (r: bool)
    ensures
        r == covered(deref_all(orders@), t),
{
    let ghost s = deref_all(orders@);
    let mut j: usize = 0;
    while j < orders.len()
        invariant
            s == deref_all(orders@),
            j <= orders@.len(),
            forall|k: int| 0 <= k < j ==> !rests_at(s[k], t),
        decreases orders@.len() - j,
    {
        if rests_at_exec(orders[j], t) {
            assert(rests_at(s[j as int], t));
            return true;
        }
        j = j + 1;
    }
    false
}

/// Appends to `out` a new order on `side` for each of `targets` at which none
/// of `orders` rests.
fn push_missing(targets: &Vec<u64>, orders: &Vec<&Order>, side: Side, quantity: u64, out: &mut Vec<OrderIntent>)
    ensures
        final(out)@ == old(out)@ + targets@.filter_map(missing_order(deref_all(orders@), side, quantity)),
{
    let ghost f = missing_order(deref_all(orders@), side, quantity);
    let ghost start = out@;
    let mut k: usize = 0;
    while k < targets.len()
        invariant
            f == missing_order(deref_all(orders@), side, quantity),
            k <= targets@.len(),
            out@ == start + targets@.take(k as int).filter_map(f),
        decreases targets@.len() - k,
    {
        let t = targets[k];
        proof {
            assert(targets@.take(k as int + 1).drop_last() =~= targets@.take(k as int));
        }
        if !is_covered(orders, t) {
            let ghost before = out@;
            out.push(OrderIntent { side, price: t, quantity });
            proof {
                assert(out@ =~= start + targets@.take(k as int + 1).filter_map(f));
            }
        } else {
            proof {
                assert(out@ =~= start + targets@.take(k as int + 1).filter_map(f));
            }
        }
        k = k + 1;
    }
    proof {
        assert(targets@.take(targets@.len() as int) =~= targets@);
    }
}

/// The state of the grid strategy.
pub struct GridStrategy {
    config: Config,
    grid_prices: Vec<u64>,
    reference_price: u64,
    last_update: u64,
    total_funds: u64,
    per_grid_quantity: u64,
    last_price_cache: u64,
    last_index_cache: usize,
}

impl GridStrategy {
    pub closed spec fn config(&self) -> Config {
        self.config
    }

    /// The grid prices, in units.
    pub closed spec fn grid(&self) -> Seq<u64> {
        self.grid_prices@
    }

    /// The reference price, in units; zero until the first market data.
    pub closed spec fn reference(&self) -> u64 {
        self.reference_price
    }

    /// The funds available to the grid, in quantity units.
    pub closed spec fn funds(&self) -> u64 {
        self.total_funds
    }

    /// The quantity of each grid order, in units.
    pub closed spec fn quantity(&self) -> u64 {
        self.per_grid_quantity
    }

    /// Time of the last order update, in nanoseconds of the caller's clock.
    pub closed spec fn last_update_time(&self) -> u64 {
        self.last_update
    }

    /// The strategy's invariant: a valid configuration, a reference price
    /// within `MAX_AMOUNT`, a sorted grid of at most `MAX_GRID_LEVELS` prices, and a
    /// closest-index cache that agrees with the grid.
    pub closed spec fn wf(&self) -> bool {
        &&& self.config.well_formed()
        &&& self.reference_price <= MAX_AMOUNT
        &&& sorted(self.grid_prices@)
        &&& self.grid_prices@.len() <= MAX_GRID_LEVELS
        &&& self.last_index_cache == closest_index(self.grid_prices@, self.last_price_cache)
    }

    /// Same strategy, apart from the closest-index cache.
    pub open spec fn same_state(&self, other: &Self) -> bool {
        &&& self.config() == other.config()
        &&& self.grid() == other.grid()
        &&& self.reference() == other.reference()
        &&& self.funds() == other.funds()
        &&& self.quantity() == other.quantity()
        &&& self.last_update_time() == other.last_update_time()
    }

    /// A strategy with no grid and no market data yet; `now` is the time, in
    /// nanoseconds of the caller's clock, it starts at.
    pub fn new(config: &Config, now: u64) -> (r: Self)
        requires
            config.well_formed(),
        ensures
            r.wf(),
            r.config() == *config,
            r.grid() == Seq::<u64>::empty(),
            r.reference() == 0,
            r.funds() == 0,
            r.quantity() == 0,
            r.last_update_time() == now,
    {
        GridStrategy {
            config: config.clone(),
            grid_prices: Vec::new(),
            reference_price: 0,
            last_update: now,
            total_funds: 0,
            per_grid_quantity: 0,
            last_price_cache: 0,
            last_index_cache: 0,
        }
    }

    /// Whether market data has set a reference price.
    pub fn is_ready(&self) -> (r: bool)
        ensures
            r == (self.reference() != 0),
    {
        self.reference_price != 0
    }

    /// How often, in nanoseconds, the caller checks whether orders are due
    /// an update.
    pub fn update_interval(&self) -> (r: u64)
        ensures
            r == 100_000_000,
    {
        100_000_000
    }

    /// Whether more than a second has passed since the last order update.
    pub fn update_due(&self, now: u64) -> (r: bool)
        ensures
            r == update_is_due(self.last_update_time(), now),
    {
        now > self.last_update && now - self.last_update > 1_000_000_000
    }

    /// Records that the orders were updated at `now`.
    pub fn mark_updated(&mut self, now: u64)
        requires
            old(self).wf(),
        ensures
            final(self).wf(),
            final(self).last_update_time() == now,
            final(self).config() == old(self).config(),
            final(self).grid() == old(self).grid(),
            final(self).reference() == old(self).reference(),
            final(self).funds() == old(self).funds(),
            final(self).quantity() == old(self).quantity(),
    {
        self.last_update = now;
    }

    /// Index of the grid price closest to `price`; a repeated question is
    /// answered from a one-entry cache.
    pub fn find_closest_grid_index(&mut self, price: u64) -> (r: usize)
        requires
            old(self).wf(),
        ensures
            final(self).wf(),
            final(self).same_state(&*old(self)),
            r == closest_index(old(self).grid(), price),
            old(self).grid().len() > 0 ==> r < old(self).grid().len(),
    {
        if self.last_price_cache == price {
            proof {
                if self.grid_prices@.len() > 0 {
                    closest_is_nearest(self.grid_prices@, price, 0);
                }
            }
            return self.last_index_cache;
        }
        let result = closest_grid_index(&self.grid_prices, price);
        self.last_price_cache = price;
        self.last_index_cache = result;
        result
    }

    /// Lays out the grid around the reference price (see `grid_for`) and
    /// clears the closest-index cache.
    pub fn initialize_grid(&mut self)
        requires
            old(self).wf(),
        ensures
            final(self).wf(),
            final(self).grid() == grid_for(old(self).reference(), old(self).config()),
            final(self).config() == old(self).config(),
            final(self).reference() == old(self).reference(),
            final(self).funds() == old(self).funds(),
            final(self).quantity() == old(self).quantity(),
            final(self).last_update_time() == old(self).last_update_time(),
    {
        let n = self.config.grid_levels;
        let ghost target = grid_for(self.reference_price, self.config);
        let mut prices: Vec<u64> = Vec::new();
        let mut i: usize = 0;
        while i < n
            invariant
                self.wf(),
                n == self.config.grid_levels,
                target == grid_for(self.reference_price, self.config),
                i <= n,
                prices@.len() == i,
                forall|j: int| 0 <= j < i ==> prices@[j] == target[j],
            decreases n - i,
        {
            let p = level_price(
                self.reference_price,
                self.config.grid_lower_bound,
                self.config.grid_upper_bound,
                n,
                self.config.price_precision,
                i,
            );
            prices.push(p);
            i = i + 1;
        }
        proof {
            grid_is_sorted(self.reference_price, self.config);
            assert(prices@ =~= target);
            lemma_closest_of_zero(prices@);
        }
        self.grid_prices = prices;
        self.last_price_cache = 0;
        self.last_index_cache = 0;
    }

    /// Sets the funds to the smaller of the largest bid and ask quantities the
    /// account allows; a quantity that does not read as an amount counts as zero.
    pub fn calculate_total_funds(&mut self, max_bid: &MaxOrderQuantity, max_ask: &MaxOrderQuantity)
        requires
            old(self).wf(),
        ensures
            final(self).wf(),
            final(self).funds() == if quantity_or_zero(max_bid.max_order_quantity@) <= quantity_or_zero(
                max_ask.max_order_quantity@,
            ) {
                quantity_or_zero(max_bid.max_order_quantity@)
            } else {
                quantity_or_zero(max_ask.max_order_quantity@)
            },
            final(self).config() == old(self).config(),
            final(self).grid() == old(self).grid(),
            final(self).reference() == old(self).reference(),
            final(self).quantity() == old(self).quantity(),
            final(self).last_update_time() == old(self).last_update_time(),
    {
        let bid_qty = parse_quantity_or_zero(max_bid.max_order_quantity.as_str());
        let ask_qty = parse_quantity_or_zero(max_ask.max_order_quantity.as_str());
        self.total_funds = if bid_qty <= ask_qty { bid_qty } else { ask_qty };
    }

    /// Sets the quantity of each grid order (see `per_grid_quantity_for`).
    pub fn calculate_per_grid_quantity(&mut self)
        requires
            old(self).wf(),
        ensures
            final(self).wf(),
            final(self).quantity() == per_grid_quantity_for(
                old(self).funds() as nat,
                old(self).config().grid_levels as nat,
                old(self).config().min_quantity as nat,
                old(self).config().quantity_precision as nat,
            ),
            final(self).config() == old(self).config(),
            final(self).grid() == old(self).grid(),
            final(self).reference() == old(self).reference(),
            final(self).funds() == old(self).funds(),
            final(self).last_update_time() == old(self).last_update_time(),
    {
        let levels = self.config.grid_levels as u128;
        let total = self.total_funds as u128;
        let min_q = self.config.min_quantity as u128;
        proof {
            lemma_tick(self.config.quantity_precision as nat);
        }
        let t = pow10_u64((8 - self.config.quantity_precision) as u32) as u128;
        assert(10 * levels * min_q <= 10 * 4_294_967_295 * 1_000_000_000_000_000_000) by (nonlinear_arith)
            requires levels <= 4_294_967_295, min_q <= 1_000_000_000_000_000_000u128;
        assert(10 * levels * t <= 10 * 4_294_967_295 * 100_000_000) by (nonlinear_arith)
            requires levels <= 4_294_967_295, t <= 100_000_000;
        let q = if 9 * total >= 10 * levels * min_q {
            let d = 10 * levels * t;
            assert(d > 0) by (nonlinear_arith) requires levels >= 2, t >= 1, d == 10 * levels * t;
            let r = (2 * (9 * total) + d) / (2 * d);
            assert(r * (2 * d) <= 2 * (9 * total) + d) by (nonlinear_arith)
                requires r == (2 * (9 * total) + d) / (2 * d), d > 0;
            let ghost x = r * t;
            assert(x * (20 * levels) <= 18 * total + 10 * levels * t) by (nonlinear_arith)
                requires
                    r * (2 * d) <= 2 * (9 * total) + d,
                    d == 10 * levels * t,
                    x == r * t;
            assert(40 * x <= 18 * total + 20 * t) by (nonlinear_arith)
                requires
                    x * (20 * levels) <= 18 * total + 10 * levels * t,
                    levels >= 2,
                    x >= 0,
                    t >= 0;
            assert(r * t <= u64::MAX);
            r * t
        } else {
            let r = (2 * min_q + t) / (2 * t);
            assert(r * t <= 2 * 1_000_000_000_000_000_000) by (nonlinear_arith)
                requires
                    r == (2 * min_q + t) / (2 * t),
                    t >= 1,
                    t <= 100_000_000,
                    min_q <= 1_000_000_000_000_000_000u128;
            r * t
        };
        self.per_grid_quantity = q as u64;
    }

    /// The market price for the configured symbol (see `market_price`).
    pub fn market_price(&self, om: &OrderManager) -> (r: u64)
        requires
            self.wf(),
            om.wf(),
        ensures
            r == market_price(om.last_prices(), self.config().symbol@, self.reference()),
            r <= 2 * MAX_AMOUNT,
    {
        proof {
            market_price_is_last_or_reference(om.last_prices(), self.config().symbol@, self.reference());
        }
        let (x, low, high, d) = match om.last_price(self.config.symbol.as_str()) {
            Some(p) => (p as u128, 999u128, 1001u128, 1000u128),
            None => (self.reference_price as u128, 99u128, 101u128, 100u128),
        };
        assert(x * low + x * high <= 1_000_000_000_000_000_000u128 * 2000) by (nonlinear_arith)
            requires x <= 1_000_000_000_000_000_000u128, low + high <= 2000;
        let m = (x * low + x * high) / (2 * d);
        m as u64
    }

    /// The order that answers a fill (see `fill_response`), of the grid
    /// quantity; the market price is taken from the order manager.
    pub fn handle_fill(&mut self, om: &OrderManager, order_update: &OrderUpdate) -> (r: OrderIntent)
        requires
            old(self).wf(),
            om.wf(),
        ensures
            final(self).wf(),
            final(self).same_state(&*old(self)),
            (r.side, r.price) == fill_response(
                old(self).grid(),
                order_update.side@,
                fill_price(*order_update, old(self).reference()),
                market_price(om.last_prices(), old(self).config().symbol@, old(self).reference()),
            ),
            r.quantity == old(self).quantity(),
    {
        let filled_price = match &order_update.last_filled_price {
            Some(ps) => match parse_amount(ps.as_str()) {
                Some(p) => p,
                None => self.reference_price,
            },
            None => self.reference_price,
        };
        let market = self.market_price(om);
        let ci = self.find_closest_grid_index(filled_price);
        let n = self.grid_prices.len();
        let (side, price) = if text_eq(order_update.side.as_str(), "Bid") {
            if ci + 1 < n {
                let cp = self.grid_prices[ci + 1];
                if cp > market {
                    (Side::Ask, cp)
                } else {
                    let mi = self.find_closest_grid_index(market);
                    if mi + 1 < n {
                        (Side::Ask, self.grid_prices[mi + 1])
                    } else {
                        (Side::Ask, percent(market, 101))
                    }
                }
            } else {
                (Side::Ask, percent(filled_price, 101))
            }
        } else {
            if ci > 0 {
                let cp = self.grid_prices[ci - 1];
                if cp < market {
                    (Side::Bid, cp)
                } else {
                    let mi = self.find_closest_grid_index(market);
                    if mi > 0 {
                        (Side::Bid, self.grid_prices[mi - 1])
                    } else {
                        (Side::Bid, percent(market, 99))
                    }
                }
            } else {
                (Side::Bid, percent(filled_price, 99))
            }
        };
        OrderIntent { side, price, quantity: self.per_grid_quantity }
    }

    /// The target prices on each side of grid level `ci`.
    fn targets(&self, ci: usize) -> (r: (Vec<u64>, Vec<u64>))
        requires
            self.wf(),
            self.grid().len() > 0 ==> ci < self.grid().len(),
            self.grid().len() == 0 ==> ci == 0,
        ensures
            r.0@ == bid_targets(self.grid(), ci as int),
            r.1@ == ask_targets(self.grid(), ci as int),
    {
        let n = self.grid_prices.len();
        let mut bids: Vec<u64> = Vec::new();
        let mut k: usize = 1;
        while k <= 3
            invariant
                1 <= k <= 4,
                n == self.grid().len(),
                self.grid().len() > 0 ==> ci < n,
                self.grid().len() == 0 ==> ci == 0,
                bids@ =~= Seq::new(min_int(ci as int, (k - 1) as int) as nat, |j: int| self.grid()[ci - 1 - j]),
            decreases 4 - k,
        {
            if ci >= k {
                bids.push(self.grid_prices[ci - k]);
            }
            k = k + 1;
        }
        let mut asks: Vec<u64> = Vec::new();
        let mut k: usize = 1;
        while k <= 3
            invariant
                1 <= k <= 4,
                n == self.grid().len(),
                self.grid().len() > 0 ==> ci < n,
                self.grid().len() == 0 ==> ci == 0,
                n <= MAX_GRID_LEVELS,
                asks@ =~= Seq::new(
                    (if ci + 1 <= n { min_int((k - 1) as int, n - 1 - ci) } else { 0 }) as nat,
                    |j: int| self.grid()[ci + 1 + j],
                ),
            decreases 4 - k,
        {
            if k < n - ci {
                asks.push(self.grid_prices[ci + k]);
            }
            k = k + 1;
        }
        (bids, asks)
    }

    /// Cancellations of those of `orders` that rest away from the target
    /// levels of `side` around level `ci`.
    fn collect_stale(&mut self, orders: &Vec<&Order>, ci: usize, side: Side, out: &mut Vec<CancelOrderRequest>)
        requires
            old(self).wf(),
        ensures
            final(self).wf(),
            final(self).same_state(&*old(self)),
            final(out)@ == old(out)@ + deref_all(orders@).filter_map(stale_order(old(self).grid(), ci as int, side)),
    {
        let ghost g = self.grid();
        let ghost f = stale_order(g, ci as int, side);
        let ghost s = deref_all(orders@);
        let ghost start = out@;
        let ghost st = *self;
        let mut i: usize = 0;
        while i < orders.len()
            invariant
                self.wf(),
                self.same_state(&st),
                g == st.grid(),
                f == stale_order(g, ci as int, side),
                s == deref_all(orders@),
                i <= orders@.len(),
                out@ == start + s.take(i as int).filter_map(f),
            decreases orders@.len() - i,
        {
            let o = orders[i];
            proof {
                assert(s.take(i as int + 1).drop_last() =~= s.take(i as int));
                assert(s[i as int] == *o);
            }
            if let Some(ps) = &o.price {
                if let Some(p) = parse_amount(ps.as_str()) {
                    let oi = self.find_closest_grid_index(p);
                    let n = self.grid_prices.len();
                    let target = match side {
                        Side::Bid => oi < ci && ci - oi <= 3,
                        Side::Ask => oi > ci && oi - ci <= 3 && oi < n,
                    };
                    if !target {
                        out.push(CancelOrderRequest { symbol: o.symbol.clone(), order_id: o.id.clone() });
                    }
                }
            }
            proof {
                assert(out@ =~= start + s.take(i as int + 1).filter_map(f));
            }
            i = i + 1;
        }
        proof {
            assert(s.take(s.len() as int) =~= s);
        }
    }

    /// The orders to place and cancel so that the three grid levels on each
    /// side of the market's level carry an order and no order of the
    /// configured symbol rests elsewhere (see `update_plan`).
    pub fn update_orders(&mut self, om: &OrderManager) -> (r: UpdatePlan)
        requires
            old(self).wf(),
            om.wf(),
        ensures
            final(self).wf(),
            final(self).same_state(&*old(self)),
            (r.to_place@, r.to_cancel@) == update_plan(
                old(self).grid(),
                market_price(om.last_prices(), old(self).config().symbol@, old(self).reference()),
                orders_matching(om.active(), old(self).config().symbol@, Some("Bid"@)),
                orders_matching(om.active(), old(self).config().symbol@, Some("Ask"@)),
                old(self).quantity(),
            ),
    {
        let market = self.market_price(om);
        let bids = om.get_active_orders_by_side(self.config.symbol.as_str(), "Bid");
        let asks = om.get_active_orders_by_side(self.config.symbol.as_str(), "Ask");
        let ci = self.find_closest_grid_index(market);
        proof {
            lemma_closest_of_empty(self.grid(), market);
        }
        let (bid_targets_v, ask_targets_v) = self.targets(ci);
        let mut to_place: Vec<OrderIntent> = Vec::new();
        push_missing(&bid_targets_v, &bids, Side::Bid, self.per_grid_quantity, &mut to_place);
        push_missing(&ask_targets_v, &asks, Side::Ask, self.per_grid_quantity, &mut to_place);
        let mut to_cancel: Vec<CancelOrderRequest> = Vec::new();
        self.collect_stale(&bids, ci, Side::Bid, &mut to_cancel);
        self.collect_stale(&asks, ci, Side::Ask, &mut to_cancel);
        proof {
            assert(Seq::<OrderIntent>::empty() + bid_targets(self.grid(), ci as int).filter_map(
                missing_order(deref_all(bids@), Side::Bid, self.quantity()),
            ) =~= bid_targets(self.grid(), ci as int).filter_map(
                missing_order(deref_all(bids@), Side::Bid, self.quantity()),
            ));
            assert(Seq::<CancelOrderRequest>::empty() + deref_all(bids@).filter_map(
                stale_order(self.grid(), ci as int, Side::Bid),
            ) =~= deref_all(bids@).filter_map(stale_order(self.grid(), ci as int, Side::Bid)));
        }
        UpdatePlan { to_place, to_cancel }
    }

    /// The first orders of the grid: when no order of the configured symbol
    /// rests on either side, those of `initial_orders`; otherwise the update
    /// of `update_orders`.
    pub fn place_initial_orders(&mut self, om: &OrderManager) -> (r: InitialOrders)
        requires
            old(self).wf(),
            om.wf(),
        ensures
            final(self).wf(),
            final(self).same_state(&*old(self)),
            is_initial_plan(r, old(self).grid(), old(self).config().symbol@, old(self).reference(), old(self).quantity(), om),
    {
        let market = self.market_price(om);
        let ci = self.find_closest_grid_index(market);
        let bid_count = om.get_active_orders_count(self.config.symbol.as_str(), Some("Bid"));
        let ask_count = om.get_active_orders_count(self.config.symbol.as_str(), Some("Ask"));
        if bid_count == 0 && ask_count == 0 {
            let ghost g = self.grid();
            let ghost f = |i: int| initial_intent(g, market, ci as int, self.quantity(), i);
            let n = self.grid_prices.len();
            let mut out: Vec<OrderIntent> = Vec::new();
            let mut i: usize = 0;
            while i < n
                invariant
                    n == g.len(),
                    g == self.grid(),
                    f == (|i: int| initial_intent(g, market, ci as int, self.quantity(), i)),
                    i <= n,
                    out@ == Seq::new(i as nat, |k: int| k).filter_map(f),
                decreases n - i,
            {
                let p = self.grid_prices[i];
                proof {
                    assert(Seq::new((i + 1) as nat, |k: int| k).drop_last() =~= Seq::new(i as nat, |k: int| k));
                }
                if p < market && i < ci && ci - i <= 3 {
                    out.push(OrderIntent { side: Side::Bid, price: p, quantity: self.per_grid_quantity });
                } else if p > market && i > ci && i - ci <= 3 {
                    out.push(OrderIntent { side: Side::Ask, price: p, quantity: self.per_grid_quantity });
                }
                i = i + 1;
            }
            InitialOrders::Place(out)
        } else {
            let plan = self.update_orders(om);
            InitialOrders::Update(plan)
        }
    }

    /// Handles a market event. A book ticker updates the order manager's
    /// last price and, while there is no reference price yet, sets it to the
    /// middle of the best bid and ask. A trade more than 2% away from the
    /// reference price becomes the reference price and the grid is laid out
    /// again around it. A fill updates the order manager and gives back the
    /// order that answers it (see `handle_fill`). Nothing else changes anything.
    pub fn process_market_event(&mut self, om: &mut OrderManager, event: &MarketEvent) -> (r: Option<OrderIntent>)
        requires
            old(self).wf(),
            old(om).wf(),
        ensures
            final(self).wf(),
            final(om).wf(),
            final(om).client() == old(om).client(),
            final(self).config() == old(self).config(),
            final(self).funds() == old(self).funds(),
            final(self).quantity() == old(self).quantity(),
            final(self).last_update_time() == old(self).last_update_time(),
            match *event {
                MarketEvent::BookTicker(t) => {
                    &&& r is None
                    &&& final(om).active() == old(om).active()
                    &&& final(om).last_prices() == prices_after_ticker(old(om).last_prices(), t)
                    &&& final(self).grid() == old(self).grid()
                    &&& final(self).reference() == if old(self).reference() == 0 {
                        ((amount_or_zero(t.inside_bid_price@) + amount_or_zero(t.inside_ask_price@)) / 2) as u64
                    } else {
                        old(self).reference()
                    }
                },
                MarketEvent::Trade(t) => {
                    let p = amount_or_zero(t.price@);
                    &&& r is None
                    &&& final(om).active() == old(om).active()
                    &&& final(om).last_prices() == old(om).last_prices()
                    &&& if 50 * distance(p, old(self).reference()) > old(self).reference() {
                        &&& final(self).reference() == p
                        &&& final(self).grid() == grid_for(p, old(self).config())
                    } else {
                        &&& final(self).reference() == old(self).reference()
                        &&& final(self).grid() == old(self).grid()
                    }
                },
                MarketEvent::OrderUpdate(u) => {
                    &&& (final(om).active(), final(om).last_prices()) == after_order_update(
                        old(om).active(),
                        old(om).last_prices(),
                        u,
                    )
                    &&& final(self).grid() == old(self).grid()
                    &&& final(self).reference() == old(self).reference()
                    &&& if u.event_type@ == "orderFill"@ {
                        r matches Some(intent) && (intent.side, intent.price) == fill_response(
                            old(self).grid(),
                            u.side@,
                            fill_price(u, old(self).reference()),
                            market_price(final(om).last_prices(), old(self).config().symbol@, old(self).reference()),
                        ) && intent.quantity == old(self).quantity()
                    } else {
                        r is None
                    }
                },
                MarketEvent::Depth(_) => {
                    &&& r is None
                    &&& final(om).active() == old(om).active()
                    &&& final(om).last_prices() == old(om).last_prices()
                    &&& final(self).grid() == old(self).grid()
                    &&& final(self).reference() == old(self).reference()
                },
            },
    {
        match event {
            MarketEvent::BookTicker(ticker) => {
                om.update_best_prices(ticker);
                if self.reference_price == 0 {
                    let bid = parse_amount_or_zero(ticker.inside_bid_price.as_str());
                    let ask = parse_amount_or_zero(ticker.inside_ask_price.as_str());
                    self.reference_price = (bid + ask) / 2;
                }
                None
            },
            MarketEvent::Trade(trade) => {
                let price = parse_amount_or_zero(trade.price.as_str());
                let diff = if price >= self.reference_price {
                    price - self.reference_price
                } else {
                    self.reference_price - price
                };
                if 50 * (diff as u128) > self.reference_price as u128 {
                    self.reference_price = price;
                    self.initialize_grid();
                }
                None
            },
            MarketEvent::OrderUpdate(order_update) => {
                if text_eq(order_update.event_type.as_str(), "orderFill") {
                    om.handle_order_fill(order_update);
                    let intent = self.handle_fill(om, order_update);
                    Some(intent)
                } else {
                    None
                }
            },
            MarketEvent::Depth(_) => None,
        }
    }

    /// The reference price with two decimal places, as the maximum order
    /// quantity requests quote it.
    pub fn max_quantity_price(&self) -> (r: String)
        ensures
            r@ == fixed_text(self.reference() as nat, 2),
    {
        format_fixed(self.reference_price, 2)
    }

    /// The reference price, in units.
    pub fn reference_price(&self) -> (r: u64)
        ensures
            r == self.reference(),
    {
        self.reference_price
    }

    /// The funds available to the grid, in units.
    pub fn total_funds(&self) -> (r: u64)
        ensures
            r == self.funds(),
    {
        self.total_funds
    }

    /// The quantity of each grid order, in units.
    pub fn per_grid_quantity(&self) -> (r: u64)
        ensures
            r == self.quantity(),
    {
        self.per_grid_quantity
    }

    /// The grid prices, in units.
    pub fn grid_prices(&self) -> (r: &Vec<u64>)
        ensures
            r@ == self.grid(),
    {
        &self.grid_prices
    }

    /// The run loop's decision on what it received, before the grid is
    /// started (`started` false: only events and the channel's state arrive)
    /// or after: an event is handled, dropped messages are passed over, a
    /// closed channel ends the run (with success once started, else with the
    /// error "Channel closed"), and a tick updates the orders when an update
    /// is due.
    pub fn next_action(&self, started: bool, input: &RunInput) -> (r: RunAction)
        ensures
            match *input {
                RunInput::Event => r is ProcessEvent,
                RunInput::Lagged(_) => r is Continue,
                RunInput::Closed => if started {
                    r matches RunAction::Finish(Ok(()))
                } else {
                    r matches RunAction::Finish(Err(e)) && e@ == "Channel closed"@
                },
                RunInput::Tick(now) => if started && update_is_due(self.last_update_time(), now) {
                    r is UpdateOrders
                } else {
                    r is Continue
                },
            },
    {
        match input {
            RunInput::Event => RunAction::ProcessEvent,
            RunInput::Lagged(_) => RunAction::Continue,
            RunInput::Closed => {
                if started {
                    RunAction::Finish(Ok(()))
                } else {
                    RunAction::Finish(Err("Channel closed".to_owned()))
                }
            },
            RunInput::Tick(now) => {
                if started && self.update_due(*now) {
                    RunAction::UpdateOrders
                } else {
                    RunAction::Continue
                }
            },
        }
    }

    /// The next step of the start: wait for market data until there is a
    /// reference price, then ask for the funds at that price (two decimal
    /// places).
    pub fn startup_step(&self) -> (r: StartupStep)
        ensures
            self.reference() == 0 ==> r is AwaitMarketData,
            self.reference() != 0 ==> (r matches StartupStep::FetchFunds(p) && p@ == fixed_text(
                self.reference() as nat,
                2,
            )),
    {
        if self.reference_price == 0 {
            StartupStep::AwaitMarketData
        } else {
            StartupStep::FetchFunds(self.max_quantity_price())
        }
    }

    /// Starts the grid once the funds are known: sets the funds, lays out
    /// the grid around the reference price, sets the quantity of each grid
    /// order, and gives the first orders (see `is_initial_plan`).
    pub fn start(&mut self, om: &OrderManager, max_bid: &MaxOrderQuantity, max_ask: &MaxOrderQuantity) -> (r:
        InitialOrders)
        requires
            old(self).wf(),
            om.wf(),
        ensures
            final(self).wf(),
            final(self).config() == old(self).config(),
            final(self).reference() == old(self).reference(),
            final(self).last_update_time() == old(self).last_update_time(),
            final(self).funds() == if quantity_or_zero(max_bid.max_order_quantity@) <= quantity_or_zero(
                max_ask.max_order_quantity@,
            ) {
                quantity_or_zero(max_bid.max_order_quantity@)
            } else {
                quantity_or_zero(max_ask.max_order_quantity@)
            },
            final(self).grid() == grid_for(old(self).reference(), old(self).config()),
            final(self).quantity() == per_grid_quantity_for(
                final(self).funds() as nat,
                old(self).config().grid_levels as nat,
                old(self).config().min_quantity as nat,
                old(self).config().quantity_precision as nat,
            ),
            is_initial_plan(r, final(self).grid(), old(self).config().symbol@, old(self).reference(), final(self).quantity(), om),
    {
        self.calculate_total_funds(max_bid, max_ask);
        self.initialize_grid();
        self.calculate_per_grid_quantity();
        self.place_initial_orders(om)
    }
}

proof fn lemma_closest_of_empty(g: Seq<u64>, p: u64)
    ensures
        g.len() == 0 ==> closest_index(g, p) == 0,
{
}

proof fn lemma_closest_of_zero(g: Seq<u64>)
    ensures
        closest_index(g, 0) == 0,
{
    lemma_lower_bound_partition(g, 0, 0);
}

/// Law: a bid fill is answered with an ask, any other fill with a bid.
pub proof fn fill_answered_on_other_side(g: Seq<u64>, filled_side: Seq<char>, filled: u64, market: u64)
    ensures
        fill_response(g, filled_side, filled, market).0 == if filled_side == "Bid"@ {
            Side::Ask
        } else {
            Side::Bid
        },
{
}

/// Law: each initial order is a grid price within three levels of the
/// market's level, a bid below the market or an ask above it.
pub proof fn initial_orders_flank_market(g: Seq<u64>, market: u64, quantity: u64, o: OrderIntent)
    requires
        initial_orders(g, market, quantity).contains(o),
    ensures
        o.quantity == quantity,
        o.side == Side::Bid ==> o.price < market,
        o.side == Side::Ask ==> o.price > market,
        exists|i: int| {
            let ci = closest_index(g, market);
            &&& 0 <= i < g.len()
            &&& #[trigger] g[i] == o.price
            &&& i != ci
            &&& ci - 3 <= i <= ci + 3
        },
{
    let ci = closest_index(g, market);
    let idx = Seq::new(g.len(), |i: int| i);
    let f = |i: int| initial_intent(g, market, ci, quantity, i);
    idx.lemma_filter_map_contains(f, o);
    let i = choose|i: int| #[trigger] idx.contains(i) && f(i) == Some(o);
    let k = choose|k: int| 0 <= k < idx.len() && idx[k] == i;
    assert(0 <= i < g.len());
    assert(g[i] == o.price);
}

/// Law: every order an update places is on its side at one of the three grid
/// levels next to the market's level, where no order of that side rests.
pub proof fn update_places_at_targets(
    g: Seq<u64>,
    market: u64,
    bids: Seq<Order>,
    asks: Seq<Order>,
    quantity: u64,
    o: OrderIntent,
)
    requires
        update_plan(g, market, bids, asks, quantity).0.contains(o),
    ensures
        o.quantity == quantity,
        o.side == Side::Bid ==> bid_targets(g, closest_index(g, market)).contains(o.price) && !covered(bids, o.price),
        o.side == Side::Ask ==> ask_targets(g, closest_index(g, market)).contains(o.price) && !covered(asks, o.price),
{
    let ci = closest_index(g, market);
    let bt = bid_targets(g, ci);
    let at = ask_targets(g, ci);
    let fb = missing_order(bids, Side::Bid, quantity);
    let fa = missing_order(asks, Side::Ask, quantity);
    let pb = bt.filter_map(fb);
    let pa = at.filter_map(fa);
    let k = choose|k: int| 0 <= k < (pb + pa).len() && (pb + pa)[k] == o;
    if k < pb.len() {
        assert(pb[k] == o);
        assert(pb.contains(o));
        bt.lemma_filter_map_contains(fb, o);
    } else {
        assert(pa[k - pb.len()] == o);
        assert(pa.contains(o));
        at.lemma_filter_map_contains(fa, o);
    }
}

/// Law: every order an update cancels is one of the resting orders it was
/// given, whose price reads as an amount.
pub proof fn update_cancels_resting_orders(
    g: Seq<u64>,
    market: u64,
    bids: Seq<Order>,
    asks: Seq<Order>,
    quantity: u64,
    c: CancelOrderRequest,
)
    requires
        update_plan(g, market, bids, asks, quantity).1.contains(c),
    ensures
        exists|o: Order|
            (bids.contains(o) || asks.contains(o)) && #[trigger] o.id == c.order_id && o.symbol == c.symbol
                && (o.price matches Some(ps) && parsed_amount(ps@) is Some),
{
    let ci = closest_index(g, market);
    let fb = stale_order(g, ci, Side::Bid);
    let fa = stale_order(g, ci, Side::Ask);
    let cb = bids.filter_map(fb);
    let ca = asks.filter_map(fa);
    let k = choose|k: int| 0 <= k < (cb + ca).len() && (cb + ca)[k] == c;
    if k < cb.len() {
        assert(cb[k] == c);
        assert(cb.contains(c));
        bids.lemma_filter_map_contains(fb, c);
        let o = choose|o: Order| #[trigger] bids.contains(o) && fb(o) == Some(c);
        assert(o.id == c.order_id);
    } else {
        assert(ca[k - cb.len()] == c);
        assert(ca.contains(c));
        asks.lemma_filter_map_contains(fa, c);
        let o = choose|o: Order| #[trigger] asks.contains(o) && fa(o) == Some(c);
        assert(o.id == c.order_id);
    }
}

/// Number of orders of `s` on `side`.
pub open spec fn count_side(s: Seq<OrderIntent>, side: Side) -> nat
    decreases s.len(),
{
    if s.len() == 0 {
        0
    } else {
        count_side(s.drop_last(), side) + if s.last().side == side {
            1nat
        } else {
            0nat
        }
    }
}

/// Number of indices below `k` within `lo ..= hi`.
spec fn indices_within(k: int, lo: int, hi: int) -> int {
    let top = if k - 1 < hi { k - 1 } else { hi };
    let bottom = if lo < 0 { 0 } else { lo };
    if top < bottom {
        0
    } else {
        top - bottom + 1
    }
}

proof fn lemma_initial_counts(g: Seq<u64>, market: u64, quantity: u64, k: int)
    requires
        0 <= k <= g.len(),
    ensures
        ({
            let ci = closest_index(g, market);
            let f = |i: int| initial_intent(g, market, ci, quantity, i);
            let s = Seq::new(k as nat, |i: int| i).filter_map(f);
            &&& count_side(s, Side::Bid) <= indices_within(k, ci - 3, ci - 1)
            &&& count_side(s, Side::Ask) <= indices_within(k, ci + 1, ci + 3)
        }),
    decreases k,
{
    let ci = closest_index(g, market);
    let f = |i: int| initial_intent(g, market, ci, quantity, i);
    if k > 0 {
        lemma_initial_counts(g, market, quantity, k - 1);
        let idx = Seq::new(k as nat, |i: int| i);
        let prev = Seq::new((k - 1) as nat, |i: int| i);
        assert(idx.drop_last() =~= prev);
        let a = prev.filter_map(f);
        match f(k - 1) {
            Some(x) => {
                assert(idx.filter_map(f) == a + seq![x]);
                assert((a + seq![x]).drop_last() =~= a);
            },
            None => {
                assert(idx.filter_map(f) == a);
            },
        }
    }
}

/// Law: the initial orders hold at most three bids and at most three asks.
pub proof fn initial_orders_at_most_three_each(g: Seq<u64>, market: u64, quantity: u64)
    ensures
        count_side(initial_orders(g, market, quantity), Side::Bid) <= 3,
        count_side(initial_orders(g, market, quantity), Side::Ask) <= 3,
{
    lemma_initial_counts(g, market, quantity, g.len() as int);
    let ci = closest_index(g, market);
    assert(initial_orders(g, market, quantity) == Seq::new(g.len(), |i: int| i).filter_map(
        |i: int| initial_intent(g, market, ci, quantity, i),
    ));
}

/// Law: the quantity of a grid order is never below the minimum quantity
/// (both rounded to the quantity precision).
pub proof fn grid_quantity_at_least_minimum(total_funds: nat, levels: nat, min_quantity: nat, precision: nat)
    requires
        levels >= 1,
        precision <= 8,
    ensures
        per_grid_quantity_for(total_funds, levels, min_quantity, precision) >= round_div(min_quantity, tick(precision))
            * tick(precision),
{
    lemma_tick(precision);
    let t = tick(precision);
    if 9 * total_funds >= 10 * levels * min_quantity {
        let x = 9 * total_funds;
        let d = 10 * levels;
        assert(d * t > 0) by (nonlinear_arith)
            requires d >= 10, t >= 1;
        assert(2 * x + d * t >= (2 * min_quantity + t) * d) by (nonlinear_arith)
            requires x >= d * min_quantity;
        vstd::arithmetic::div_mod::lemma_div_is_ordered(
            ((2 * min_quantity + t) * d) as int,
            (2 * x + d * t) as int,
            (2 * (d * t)) as int,
        );
        assert((2 * (d * t)) == (2 * t) * d) by (nonlinear_arith);
        lemma_div_cancel((2 * min_quantity + t) as nat, (2 * t) as nat, d as nat);
        let a = round_div(x, (d * t) as nat);
        let b = round_div(min_quantity, t);
        assert(a >= b);
        assert(a * t >= b * t) by (nonlinear_arith)
            requires a >= b, t >= 0;
    }
}

/// Law: more funds never give a smaller grid order quantity.
pub proof fn grid_quantity_grows_with_funds(
    smaller_funds: nat,
    larger_funds: nat,
    levels: nat,
    min_quantity: nat,
    precision: nat,
)
    requires
        smaller_funds <= larger_funds,
        levels >= 1,
        precision <= 8,
    ensures
        per_grid_quantity_for(smaller_funds, levels, min_quantity, precision) <= per_grid_quantity_for(
            larger_funds,
            levels,
            min_quantity,
            precision,
        ),
{
    lemma_tick(precision);
    let t = tick(precision);
    if 9 * larger_funds >= 10 * levels * min_quantity {
        grid_quantity_at_least_minimum(larger_funds, levels, min_quantity, precision);
        if 9 * smaller_funds >= 10 * levels * min_quantity {
            let d = 10 * levels * t;
            assert(d > 0) by (nonlinear_arith)
                requires levels >= 1, t >= 1, d == 10 * levels * t;
            vstd::arithmetic::div_mod::lemma_div_is_ordered(
                (2 * (9 * smaller_funds) + d) as int,
                (2 * (9 * larger_funds) + d) as int,
                (2 * d) as int,
            );
            let ra = round_div(9 * smaller_funds, d as nat);
            let rb = round_div(9 * larger_funds, d as nat);
            assert(ra <= rb);
            assert(ra * t <= rb * t) by (nonlinear_arith)
                requires ra <= rb, t >= 0;
        }
    }
}

proof fn lemma_lower_bound_range(g: Seq<u64>, p: u64)
    ensures
        0 <= lower_bound(g, p) <= g.len(),
    decreases g.len(),
{
    if g.len() > 0 {
        lemma_lower_bound_range(g.drop_last(), p);
    }
}

proof fn lemma_filter_map_len<A, B>(s: Seq<A>, f: spec_fn(A) -> Option<B>)
    ensures
        s.filter_map(f).len() <= s.len(),
    decreases s.len(),
{
    if s.len() > 0 {
        lemma_filter_map_len(s.drop_last(), f);
    }
}

/// Law: an update places at most three bids and three asks.
pub proof fn update_places_at_most_six(g: Seq<u64>, market: u64, bids: Seq<Order>, asks: Seq<Order>, quantity: u64)
    ensures
        update_plan(g, market, bids, asks, quantity).0.len() <= 6,
{
    let ci = closest_index(g, market);
    lemma_lower_bound_range(g, market);
    assert(ci >= 0);
    assert(bid_targets(g, ci).len() <= 3);
    assert(ask_targets(g, ci).len() <= 3);
    lemma_filter_map_len(bid_targets(g, ci), missing_order(bids, Side::Bid, quantity));
    lemma_filter_map_len(ask_targets(g, ci), missing_order(asks, Side::Ask, quantity));
}


/// Every grid price is strictly above the ones before it.
pub open spec fn strictly_increasing(g: Seq<u64>) -> bool {
    forall|i: int, j: int| 0 <= i < j < g.len() ==> g[i] < g[j]
}

/// A price at or below level `k` is closest to level `k` or one below it.
proof fn lemma_closest_at_most(g: Seq<u64>, p: u64, k: int)
    requires
        sorted(g),
        0 <= k < g.len(),
        p <= g[k],
    ensures
        closest_index(g, p) <= k,
{
    lemma_lower_bound_sorted(g, p);
}

/// On a strictly increasing grid, a price at or above level `k` is closest
/// to level `k` or one above it.
proof fn lemma_closest_at_least(g: Seq<u64>, p: u64, k: int)
    requires
        strictly_increasing(g),
        0 <= k < g.len(),
        p >= g[k],
    ensures
        closest_index(g, p) >= k,
{
    assert(sorted(g));
    lemma_lower_bound_sorted(g, p);
    let lb = lower_bound(g, p);
    if p == g[k] {
        if lb < k {
            assert(g[lb] < g[k]);
        }
        assert(lb == k);
    } else {
        assert(lb > k);
    }
}

/// Law: a fill is answered one grid level away, on the other side. After a
/// fill on a side other than "Bid", when the level below the fill's level is
/// below the market, the bid goes there; and on a strictly increasing grid,
/// whenever there is a level below the fill's level, the bid is below the
/// fill's level. After a "Bid" fill the same holds upwards for the ask.
pub proof fn fill_answered_one_level_away(g: Seq<u64>, filled_side: Seq<char>, filled: u64, market: u64)
    requires
        strictly_increasing(g),
        market <= 2 * MAX_AMOUNT,
    ensures
        ({
            let ci = closest_index(g, filled);
            let r = fill_response(g, filled_side, filled, market);
            &&& filled_side != "Bid"@ && 0 < ci < g.len() && g[ci - 1] < market ==> r.1 == g[ci - 1]
            &&& filled_side != "Bid"@ && 0 < ci < g.len() ==> r.1 < g[ci]
            &&& filled_side == "Bid"@ && ci + 1 < g.len() && g[ci + 1] > market ==> r.1 == g[ci + 1]
            &&& filled_side == "Bid"@ && 0 <= ci && ci + 1 < g.len() ==> r.1 > g[ci]
            &&& filled_side != "Bid"@ && 0 < ci < g.len() && g[ci - 1] >= market && closest_index(g, market) > 0
                ==> r.1 == g[closest_index(g, market) - 1]
            &&& filled_side == "Bid"@ && 0 <= ci && ci + 1 < g.len() && g[ci + 1] <= market && closest_index(
                g,
                market,
            ) + 1 < g.len() ==> r.1 == g[closest_index(g, market) + 1]
            &&& filled_side != "Bid"@ && 0 < ci < g.len() ==> r.1 <= market
            &&& filled_side == "Bid"@ && 0 <= ci && ci + 1 < g.len() ==> r.1 >= market
            &&& r.0 == (if filled_side == "Bid"@ { Side::Ask } else { Side::Bid })
        }),
{
    let ci = closest_index(g, filled);
    let mi = closest_index(g, market);
    assert(sorted(g));
    if g.len() > 0 {
        closest_is_nearest(g, filled, 0);
        closest_is_nearest(g, market, 0);
    }
    if filled_side != "Bid"@ && 0 < ci < g.len() && g[ci - 1] >= market {
        lemma_closest_at_most(g, market, ci - 1);
        if mi > 0 {
            assert(g[mi - 1] < g[ci]);
            lemma_lower_bound_sorted(g, market);
            assert(g[mi - 1] < market);
        } else {
            assert(percent_of(market, 99) <= market);
        }
    }
    if filled_side == "Bid"@ && 0 <= ci && ci + 1 < g.len() && g[ci + 1] <= market {
        lemma_closest_at_least(g, market, ci + 1);
        if mi + 1 < g.len() {
            assert(g[mi + 1] > g[ci]);
            lemma_lower_bound_sorted(g, market);
            let lb = lower_bound(g, market);
            if lb < g.len() {
                assert(g[lb] < g[mi + 1] || mi + 1 <= lb);
            }
            assert(g[mi + 1] > market);
        } else {
            assert(market * 101 / 100 >= market);
            assert(market * 101 / 100 <= u64::MAX);
            assert(percent_of(market, 101) >= market);
        }
    }
}

/// Law: an update places a bid on each of the up to three grid levels below
/// the market's level, and an ask on each of the up to three above it, where
/// no order of that side rests; and every bid (ask) it places is on one of
/// those levels below (above) the market's level.
pub proof fn update_fills_missing_levels(
    g: Seq<u64>,
    market: u64,
    bids: Seq<Order>,
    asks: Seq<Order>,
    quantity: u64,
    k: int,
    o: OrderIntent,
)
    requires
        1 <= k <= 3,
    ensures
        ({
            let ci = closest_index(g, market);
            let placed = update_plan(g, market, bids, asks, quantity).0;
            &&& k <= ci < g.len() && (forall|j: int| 0 <= j < bids.len() ==> !rests_at(#[trigger] bids[j], g[ci - k]))
                ==> placed.contains(OrderIntent { side: Side::Bid, price: g[ci - k], quantity })
            &&& 0 <= ci && ci + k < g.len() && (forall|j: int| 0 <= j < asks.len() ==> !rests_at(
                #[trigger] asks[j],
                g[ci + k],
            )) ==> placed.contains(OrderIntent { side: Side::Ask, price: g[ci + k], quantity })
            &&& placed.contains(o) && o.side == Side::Bid ==> exists|d: int|
                1 <= d <= 3 && d <= ci && o.price == #[trigger] g[ci - d]
            &&& placed.contains(o) && o.side == Side::Ask ==> exists|d: int|
                1 <= d <= 3 && ci + d < g.len() && o.price == #[trigger] g[ci + d]
        }),
{
    let ci = closest_index(g, market);
    lemma_lower_bound_range(g, market);
    let bt = bid_targets(g, ci);
    let at = ask_targets(g, ci);
    let fb = missing_order(bids, Side::Bid, quantity);
    let fa = missing_order(asks, Side::Ask, quantity);
    let pb = bt.filter_map(fb);
    let pa = at.filter_map(fa);
    let placed = update_plan(g, market, bids, asks, quantity).0;
    assert(placed == pb + pa);
    if k <= ci < g.len() && (forall|j: int| 0 <= j < bids.len() ==> !rests_at(#[trigger] bids[j], g[ci - k])) {
        let t = g[ci - k];
        assert(bt[k - 1] == t);
        assert(bt.contains(t));
        assert(!covered(bids, t));
        let i = OrderIntent { side: Side::Bid, price: t, quantity };
        assert(fb(t) == Some(i));
        lemma_filter_map_keeps(bt, fb, t, i);
        let x = choose|x: int| 0 <= x < pb.len() && pb[x] == i;
        assert((pb + pa)[x] == i);
    }
    if 0 <= ci && ci + k < g.len() && (forall|j: int| 0 <= j < asks.len() ==> !rests_at(#[trigger] asks[j], g[ci + k])) {
        let t = g[ci + k];
        assert(at[k - 1] == t);
        assert(at.contains(t));
        assert(!covered(asks, t));
        let i = OrderIntent { side: Side::Ask, price: t, quantity };
        assert(fa(t) == Some(i));
        lemma_filter_map_keeps(at, fa, t, i);
        let x = choose|x: int| 0 <= x < pa.len() && pa[x] == i;
        assert((pb + pa)[pb.len() + x] == i);
    }
    if placed.contains(o) {
        update_places_at_targets(g, market, bids, asks, quantity, o);
        if o.side == Side::Bid {
            let x = choose|x: int| 0 <= x < bt.len() && bt[x] == o.price;
            assert(bt.len() == min_int(ci, 3));
            assert(bt[x] == g[ci - 1 - x]);
            let d = x + 1;
            assert(1 <= d <= 3 && d <= ci && o.price == g[ci - d]);
        }
        if o.side == Side::Ask {
            let x = choose|x: int| 0 <= x < at.len() && at[x] == o.price;
            assert(at[x] == g[ci + 1 + x]);
            let d = x + 1;
            assert(1 <= d <= 3 && ci + d < g.len() && o.price == g[ci + d]);
        }
    }
}

/// Law: an update cancels every resting bid whose price reads as an amount
/// closest to a level other than the three below the market's level, and
/// every resting ask closest to a level other than the three above it.
pub proof fn update_cancels_orders_off_target(
    g: Seq<u64>,
    market: u64,
    bids: Seq<Order>,
    asks: Seq<Order>,
    quantity: u64,
    o: Order,
    p: u64,
)
    requires
        (o.price matches Some(ps) && parsed_amount(ps@) == Some(p)),
    ensures
        ({
            let ci = closest_index(g, market);
            let oi = closest_index(g, p);
            let cancels = update_plan(g, market, bids, asks, quantity).1;
            let c = CancelOrderRequest { symbol: o.symbol, order_id: o.id };
            &&& bids.contains(o) && !(oi < ci && ci - oi <= 3) ==> cancels.contains(c)
            &&& asks.contains(o) && !(oi > ci && oi - ci <= 3 && oi < g.len()) ==> cancels.contains(c)
        }),
{
    let ci = closest_index(g, market);
    let oi = closest_index(g, p);
    let c = CancelOrderRequest { symbol: o.symbol, order_id: o.id };
    let fb = stale_order(g, ci, Side::Bid);
    let fa = stale_order(g, ci, Side::Ask);
    let cb = bids.filter_map(fb);
    let ca = asks.filter_map(fa);
    let cancels = update_plan(g, market, bids, asks, quantity).1;
    assert(cancels == cb + ca);
    if bids.contains(o) && !(oi < ci && ci - oi <= 3) {
        assert(fb(o) == Some(c));
        lemma_filter_map_keeps(bids, fb, o, c);
        let x = choose|x: int| 0 <= x < cb.len() && cb[x] == c;
        assert((cb + ca)[x] == c);
    }
    if asks.contains(o) && !(oi > ci && oi - ci <= 3 && oi < g.len()) {
        assert(fa(o) == Some(c));
        lemma_filter_map_keeps(asks, fa, o, c);
        let x = choose|x: int| 0 <= x < ca.len() && ca[x] == c;
        assert((cb + ca)[cb.len() + x] == c);
    }
}

/// Law: the first orders are a fresh grid only when no order of the symbol
/// rests on either side; when some bid or ask of the symbol rests, they are
/// the update of the resting orders.
pub proof fn initial_grid_only_without_resting_orders(
    r: InitialOrders,
    grid: Seq<u64>,
    symbol: Seq<char>,
    reference: u64,
    quantity: u64,
    om: &OrderManager,
    o: Order,
)
    requires
        is_initial_plan(r, grid, symbol, reference, quantity, om),
    ensures
        om.active().contains(o) && o.symbol@ == symbol && (o.side@ == "Bid"@ || o.side@ == "Ask"@)
            ==> r is Update,
        (forall|p: Order| #[trigger] om.active().contains(p) && p.symbol@ == symbol ==> p.side@ != "Bid"@
            && p.side@ != "Ask"@) ==> r is Place,
{
    let bids = orders_matching(om.active(), symbol, Some("Bid"@));
    let asks = orders_matching(om.active(), symbol, Some("Ask"@));
    if om.active().contains(o) && o.symbol@ == symbol && (o.side@ == "Bid"@ || o.side@ == "Ask"@) {
        matching_orders_are_of_symbol_and_side(om.active(), symbol, Some("Bid"@), o);
        matching_orders_are_of_symbol_and_side(om.active(), symbol, Some("Ask"@), o);
        if o.side@ == "Bid"@ {
            assert(bids.contains(o));
        } else {
            assert(asks.contains(o));
        }
    }
    if forall|p: Order| #[trigger] om.active().contains(p) && p.symbol@ == symbol ==> p.side@ != "Bid"@ && p.side@
        != "Ask"@ {
        if bids.len() > 0 {
            matching_orders_are_of_symbol_and_side(om.active(), symbol, Some("Bid"@), bids[0]);
            assert(bids.contains(bids[0]));
        }
        if asks.len() > 0 {
            matching_orders_are_of_symbol_and_side(om.active(), symbol, Some("Ask"@), asks[0]);
            assert(asks.contains(asks[0]));
        }
    }
}

} // verus!
