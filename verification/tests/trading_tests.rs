use backpack_grid::api::rest::{MaxOrderQuantity, Order, RestClient};
use backpack_grid::api::websocket::{BookTicker, MarketEvent, OrderUpdate, Trade};
use backpack_grid::config::Config;
use backpack_grid::order_manager::{CancelSettlement, OrderError, OrderManager};
use backpack_grid::risk_manager::{CancelReport, RiskManager};
use backpack_grid::strategy::grid::{
    closest_grid_index, GridStrategy, InitialOrders, OrderIntent, RunAction, RunInput, Side, StartupStep,
};

const SECRET: &str = "TM0Imyj/ltqdtsNG7BFOD1uKMZ81q6Yk2oz27U+4pvs=";
const ONE: u64 = 100_000_000;

fn config() -> Config {
    Config {
        api_key: "key-1".to_string(),
        api_secret: SECRET.to_string(),
        base_url: "https://api.backpack.exchange".to_string(),
        ws_url: "wss://ws.backpack.exchange".to_string(),
        symbol: "SOL_USDC".to_string(),
        grid_upper_bound: 100_000,
        grid_lower_bound: -100_000,
        grid_levels: 5,
        active_orders: 6,
        price_precision: 2,
        quantity_precision: 2,
        min_quantity: 1_000_000,
    }
}

fn manager() -> OrderManager {
    OrderManager::new(RestClient::new(&config()))
}

fn order(id: &str, side: &str, price: Option<&str>) -> Order {
    Order {
        id: id.to_string(),
        client_id: None,
        order_type: "Limit".to_string(),
        side: side.to_string(),
        status: "New".to_string(),
        symbol: "SOL_USDC".to_string(),
        price: price.map(|p| p.to_string()),
        quantity: "1".to_string(),
        executed_quantity: "0".to_string(),
        quote_quantity: None,
        executed_quote_quantity: None,
        time_in_force: "GTC".to_string(),
        created_at: 0,
    }
}

fn ticker(bid: &str, ask: &str) -> BookTicker {
    BookTicker {
        event_type: "bookTicker".to_string(),
        event_time: 1,
        symbol: "SOL_USDC".to_string(),
        inside_ask_price: ask.to_string(),
        inside_ask_quantity: "1".to_string(),
        inside_bid_price: bid.to_string(),
        inside_bid_quantity: "1".to_string(),
        update_id: "1".to_string(),
        engine_timestamp: 1,
    }
}

fn fill(id: &str, side: &str, price: Option<&str>) -> OrderUpdate {
    OrderUpdate {
        event_type: "orderFill".to_string(),
        event_time: 1,
        symbol: "SOL_USDC".to_string(),
        client_order_id: None,
        side: side.to_string(),
        order_type: "Limit".to_string(),
        time_in_force: "GTC".to_string(),
        quantity: None,
        quote_quantity: None,
        price: None,
        trigger_price: None,
        trigger_by: None,
        take_profit_price: None,
        stop_loss_price: None,
        take_profit_trigger_by: None,
        stop_loss_trigger_by: None,
        trigger_quantity: None,
        order_state: "Filled".to_string(),
        order_expiry_reason: None,
        order_id: id.to_string(),
        trade_id: None,
        fill_quantity: None,
        executed_quantity: None,
        executed_quote_quantity: None,
        last_filled_price: price.map(|p| p.to_string()),
        is_maker: None,
        fee: None,
        fee_symbol: None,
        self_trade_prevention: None,
        engine_timestamp: 1,
        origin: None,
        related_order_id: None,
    }
}

fn ready_strategy() -> (GridStrategy, OrderManager) {
    let mut om = manager();
    let mut g = GridStrategy::new(&config(), 0);
    assert!(!g.is_ready());
    let r = g.process_market_event(&mut om, &MarketEvent::BookTicker(ticker("99.99", "100.01")));
    assert!(r.is_none());
    assert!(g.is_ready());
    g.initialize_grid();
    (g, om)
}

#[test]
fn order_bookkeeping() {
    let mut om = manager();
    om.record_placed_order(order("1", "Bid", Some("95")));
    om.record_placed_order(order("2", "Ask", Some("105")));
    om.record_placed_order(order("1", "Bid", Some("96")));
    assert_eq!(om.get_active_orders_count("SOL_USDC", None), 2);
    assert_eq!(om.get_active_orders_count("SOL_USDC", Some("Bid")), 1);
    assert_eq!(om.get_active_orders_count("BTC_USDC", None), 0);
    let bids = om.get_active_orders_by_side("SOL_USDC", "Bid");
    assert_eq!(bids.len(), 1);
    assert_eq!(bids[0].price.as_deref(), Some("96"));
    assert_eq!(om.get_active_orders("SOL_USDC").len(), 2);
}

#[test]
fn cancellation_outcomes() {
    let mut om = manager();
    om.record_placed_order(order("1", "Bid", Some("95")));
    om.record_placed_order(order("2", "Ask", Some("105")));
    om.record_placed_order(order("3", "Ask", Some("106")));
    assert_eq!(om.finish_cancel("1", Ok(())), Ok(CancelSettlement::Cancelled));
    assert_eq!(om.get_active_orders_count("SOL_USDC", None), 2);
    let e = "Error cancelling order: {\"code\":\"RESOURCE_NOT_FOUND\",\"message\":\"Order not found\"}".to_string();
    assert_eq!(om.finish_cancel("2", Err(e)), Ok(CancelSettlement::AlreadyGone));
    assert_eq!(om.get_active_orders_count("SOL_USDC", None), 1);
    let other = "Error cancelling order: rate limited".to_string();
    assert_eq!(om.finish_cancel("3", Err(other.clone())), Err(other));
    assert_eq!(om.get_active_orders_count("SOL_USDC", None), 1);
}

#[test]
fn replacement_keeps_the_side() {
    let mut om = manager();
    om.record_placed_order(order("1", "Ask", Some("105")));
    let plan = om.update_order("SOL_USDC", "1", 106 * ONE, 2 * ONE).unwrap();
    assert_eq!(plan.cancel.order_id, "1");
    assert_eq!(plan.cancel.symbol, "SOL_USDC");
    assert_eq!(plan.side, "Ask");
    assert_eq!((plan.price, plan.quantity), (106 * ONE, 2 * ONE));
    assert!(om.update_order("SOL_USDC", "2", ONE, ONE).is_err());
    // once cancelled, the order is gone
    assert_eq!(om.finish_cancel("1", Ok(())), Ok(CancelSettlement::Cancelled));
    assert_eq!(om.update_order("SOL_USDC", "1", ONE, ONE).err(), Some(OrderError::NotFound));
}

#[test]
fn fills_and_prices() {
    let mut om = manager();
    om.record_placed_order(order("1", "Bid", Some("95")));
    assert_eq!(om.get_best_prices("SOL_USDC"), None);
    om.handle_order_fill(&fill("1", "Bid", Some("95.00")));
    assert_eq!(om.get_active_orders_count("SOL_USDC", None), 0);
    assert_eq!(om.get_best_prices("SOL_USDC"), Some((95 * ONE * 999 / 1000, 95 * ONE * 1001 / 1000)));
    let mut not_fill = fill("x", "Bid", Some("1"));
    not_fill.event_type = "orderAccepted".to_string();
    om.handle_order_fill(&not_fill);
    assert_eq!(om.get_best_prices("SOL_USDC"), Some((95 * ONE * 999 / 1000, 95 * ONE * 1001 / 1000)));
    om.update_best_prices(&ticker("99", "101"));
    assert_eq!(om.get_best_prices("SOL_USDC"), Some((100 * ONE * 999 / 1000, 100 * ONE * 1001 / 1000)));
    om.update_best_prices(&ticker("bad", "100"));
    assert_eq!(om.get_best_prices("SOL_USDC"), Some((50 * ONE * 999 / 1000, 50 * ONE * 1001 / 1000)));
}

#[test]
fn order_requests() {
    let om = manager();
    let r = om.place_order_request("SOL_USDC", "Bid", 9_550_000_000, 180_000_000);
    assert_eq!(r.price.as_deref(), Some("95.50"));
    assert_eq!(r.quantity, "1.80");
    assert_eq!(r.order_type, "Limit");
    assert_eq!(r.time_in_force, "GTC");
    assert_eq!(r.auto_borrow, Some(true));
    assert_eq!(r.auto_borrow_repay, Some(true));
    assert!(r.client_id.is_some());
}

#[test]
fn panic_mode_after_ten_close_errors() {
    let mut rm = RiskManager::new(&config(), 0);
    let second = 1_000_000_000u64;
    for i in 1..10u64 {
        assert!(!rm.record_error(i * second));
    }
    assert!(rm.record_error(10 * second));
    assert!(rm.is_panic_mode());
    // panic mode stays until reset, even after a long pause
    assert!(!rm.record_error(1000 * second));
    assert!(rm.is_panic_mode());
    rm.reset_panic_mode();
    assert!(!rm.is_panic_mode());
}

#[test]
fn errors_far_apart_start_over() {
    let mut rm = RiskManager::new(&config(), 0);
    let second = 1_000_000_000u64;
    for i in 0..9u64 {
        assert!(!rm.record_error(i * second));
    }
    // more than five minutes later the count starts again at one
    for i in 0..9u64 {
        assert!(!rm.record_error((400 + i) * second));
    }
    assert!(rm.record_error(409 * second));
}

#[test]
fn cancellations_for_panic_mode() {
    let mut om = manager();
    om.record_placed_order(order("1", "Bid", Some("95")));
    let mut other = order("2", "Ask", Some("105"));
    other.symbol = "BTC_USDC".to_string();
    om.record_placed_order(other);
    om.record_placed_order(order("3", "Ask", Some("105")));
    let rm = RiskManager::new(&config(), 0);
    let c = rm.orders_to_cancel(&om);
    assert_eq!(c.len(), 2);
    assert_eq!(c[0].order_id, "1");
    assert_eq!(c[1].order_id, "3");
    let mut report = CancelReport::new();
    report.record(true);
    assert!(!report.has_failures());
    report.record(false);
    assert!(report.has_failures());
    assert_eq!((report.succeeded, report.failed), (1, 1));
}

#[test]
fn grid_layout() {
    let (g, _om) = ready_strategy();
    assert_eq!(g.max_quantity_price(), "100.00");
    let prices: Vec<u64> = vec![90 * ONE, 95 * ONE, 100 * ONE, 105 * ONE, 110 * ONE];
    let mut g = g;
    for (i, p) in prices.iter().enumerate() {
        assert_eq!(g.find_closest_grid_index(*p), i);
    }
}

#[test]
fn closest_grid_level() {
    let grid: Vec<u64> = vec![90, 95, 100, 105, 110];
    assert_eq!(closest_grid_index(&grid, 0), 0);
    assert_eq!(closest_grid_index(&grid, 92), 0);
    assert_eq!(closest_grid_index(&grid, 93), 1);
    // a tie goes to the upper neighbour
    assert_eq!(closest_grid_index(&grid, 97), 1);
    assert_eq!(closest_grid_index(&grid, 98), 2);
    assert_eq!(closest_grid_index(&grid, 1000), 4);
    assert_eq!(closest_grid_index(&vec![], 5), 0);
    let dup: Vec<u64> = vec![1, 2, 2, 2, 3];
    assert_eq!(closest_grid_index(&dup, 2), 1);
    // no grid price is nearer than the chosen one
    for p in 80..120u64 {
        let i = closest_grid_index(&grid, p);
        for q in &grid {
            assert!(grid[i].abs_diff(p) <= q.abs_diff(p));
        }
    }
}

#[test]
fn funds_and_quantity() {
    let (mut g, _om) = ready_strategy();
    g.calculate_total_funds(
        &MaxOrderQuantity { max_order_quantity: "12".to_string() },
        &MaxOrderQuantity { max_order_quantity: "10".to_string() },
    );
    g.calculate_per_grid_quantity();
    let mut om = manager();
    om.update_best_prices(&ticker("99.99", "100.01"));
    match g.place_initial_orders(&om) {
        InitialOrders::Place(v) => {
            assert!(v.iter().all(|o| o.quantity == 180_000_000));
        }
        InitialOrders::Update(_) => panic!("no orders rest yet"),
    }
}

#[test]
fn tiny_funds_use_minimum_quantity() {
    let (mut g, om) = ready_strategy();
    g.calculate_total_funds(
        &MaxOrderQuantity { max_order_quantity: "0.001".to_string() },
        &MaxOrderQuantity { max_order_quantity: "garbage".to_string() },
    );
    g.calculate_per_grid_quantity();
    let plan = g.update_orders(&om);
    assert!(plan.to_place.iter().all(|o| o.quantity == 1_000_000));
}

#[test]
fn initial_orders_flank_the_market() {
    let (mut g, om) = ready_strategy();
    match g.place_initial_orders(&om) {
        InitialOrders::Place(v) => {
            assert_eq!(
                v,
                vec![
                    OrderIntent { side: Side::Bid, price: 90 * ONE, quantity: 0 },
                    OrderIntent { side: Side::Bid, price: 95 * ONE, quantity: 0 },
                    OrderIntent { side: Side::Ask, price: 105 * ONE, quantity: 0 },
                    OrderIntent { side: Side::Ask, price: 110 * ONE, quantity: 0 },
                ]
            );
        }
        InitialOrders::Update(_) => panic!("no orders rest yet"),
    }
}

#[test]
fn update_places_missing_and_cancels_stray_orders() {
    let (mut g, mut om) = ready_strategy();
    om.record_placed_order(order("b1", "Bid", Some("95.00")));
    om.record_placed_order(order("a9", "Ask", Some("120")));
    match g.place_initial_orders(&om) {
        InitialOrders::Update(plan) => {
            assert_eq!(
                plan.to_place,
                vec![
                    OrderIntent { side: Side::Bid, price: 90 * ONE, quantity: 0 },
                    OrderIntent { side: Side::Ask, price: 105 * ONE, quantity: 0 },
                    OrderIntent { side: Side::Ask, price: 110 * ONE, quantity: 0 },
                ]
            );
            // the ask at 120 is closest to the top level (110), which is a target
            assert!(plan.to_cancel.is_empty());
        }
        InitialOrders::Place(_) => panic!("orders rest"),
    }
    om.record_placed_order(order("b2", "Bid", Some("104")));
    let plan = g.update_orders(&om);
    assert_eq!(plan.to_cancel.len(), 1);
    assert_eq!(plan.to_cancel[0].order_id, "b2");
}

#[test]
fn fills_are_answered_on_the_other_side() {
    let (mut g, mut om) = ready_strategy();
    om.record_placed_order(order("b1", "Bid", Some("95")));
    let r = g.process_market_event(&mut om, &MarketEvent::OrderUpdate(fill("b1", "Bid", Some("95"))));
    // the market is now taken from the fill: 95; the ask goes one level up from 95, at 100
    assert_eq!(r, Some(OrderIntent { side: Side::Ask, price: 100 * ONE, quantity: 0 }));
    assert_eq!(om.get_active_orders_count("SOL_USDC", None), 0);
    let r = g.handle_fill(&om, &fill("a1", "Ask", Some("105")));
    assert_eq!(r, Some(OrderIntent { side: Side::Bid, price: 90 * ONE, quantity: 0 }).unwrap());
    // a fill at the top of the grid: 1% above the fill price
    let r = g.handle_fill(&om, &fill("a2", "Bid", Some("110")));
    assert_eq!(r.side, Side::Ask);
    assert_eq!(r.price, 110 * ONE * 101 / 100);
    // an unreadable fill price counts as the reference price
    let r = g.handle_fill(&om, &fill("a3", "Ask", Some("??")));
    assert_eq!(r.side, Side::Bid);
}

#[test]
fn trades_far_from_reference_move_the_grid() {
    let (mut g, mut om) = ready_strategy();
    let trade = |p: &str| Trade {
        event_type: "trade".to_string(),
        event_time: 1,
        symbol: "SOL_USDC".to_string(),
        price: p.to_string(),
        quantity: "1".to_string(),
        buyer_order_id: "1".to_string(),
        seller_order_id: "2".to_string(),
        trade_id: 1,
        engine_timestamp: 1,
        is_buyer_maker: false,
    };
    g.process_market_event(&mut om, &MarketEvent::Trade(trade("101.5")));
    assert_eq!(g.find_closest_grid_index(100 * ONE), 2);
    g.process_market_event(&mut om, &MarketEvent::Trade(trade("200")));
    // new grid 180 .. 220
    assert_eq!(g.find_closest_grid_index(180 * ONE), 0);
    assert_eq!(g.find_closest_grid_index(200 * ONE), 2);
    assert_eq!(g.max_quantity_price(), "200.00");
}

#[test]
fn update_timing() {
    let mut g = GridStrategy::new(&config(), 5);
    assert_eq!(g.update_interval(), 100_000_000);
    assert!(!g.update_due(1_000_000_005));
    assert!(g.update_due(1_000_000_006));
    g.mark_updated(2_000_000_000);
    assert!(!g.update_due(2_500_000_000));
}

#[test]
fn default_grid_of_two_thousand_levels() {
    let mut c = config();
    c.grid_levels = 2000;
    let mut om = manager();
    let mut g = GridStrategy::new(&c, 0);
    g.process_market_event(&mut om, &MarketEvent::BookTicker(ticker("150.00", "150.02")));
    g.initialize_grid();
    let grid = g.grid_prices().clone();
    assert_eq!(grid.len(), 2000);
    assert!(grid.windows(2).all(|w| w[0] <= w[1]));
    // 150.01 -10% = 135.009 -> 135.01; +10% = 165.011 -> 165.01
    assert_eq!(grid[0], 13_501_000_000);
    assert_eq!(grid[1999], 16_501_000_000);
    assert!(grid.iter().all(|p| p % 1_000_000 == 0));
    match g.place_initial_orders(&om) {
        InitialOrders::Place(v) => {
            assert_eq!(v.iter().filter(|o| o.side == Side::Bid).count(), 3);
            assert_eq!(v.iter().filter(|o| o.side == Side::Ask).count(), 3);
            // the middle of 0.1% around the last price 150.01
            let market = 15_001_000_000u64;
            assert!(v.iter().all(|o| (o.side == Side::Bid) == (o.price < market)));
        }
        InitialOrders::Update(_) => panic!("no orders rest yet"),
    }
}

#[test]
fn grid_agrees_with_float_computation() {
    let mut c = config();
    c.grid_levels = 2000;
    let mut om = manager();
    let mut g = GridStrategy::new(&c, 0);
    g.process_market_event(&mut om, &MarketEvent::BookTicker(ticker("150.00", "150.02")));
    g.initialize_grid();
    let reference = 150.01f64;
    let upper = reference * (1.0 + 0.1);
    let lower = reference * (1.0 - 0.1);
    let step = (upper - lower) / (2000.0 - 1.0);
    let precision = 10f64.powi(2);
    let mut differing = 0;
    for (i, p) in g.grid_prices().iter().enumerate() {
        let price = lower + (i as f64) * step;
        let rounded = (price * precision).round() / precision;
        let units = (rounded * 100_000_000.0).round() as u64;
        if units != *p {
            differing += 1;
        }
    }
    assert_eq!(differing, 0);
}

#[test]
fn market_price_is_the_last_price() {
    let mut om = manager();
    let mut g = GridStrategy::new(&config(), 0);
    // no last price yet: the reference price, the middle of the first best bid and ask
    g.process_market_event(&mut manager(), &MarketEvent::BookTicker(ticker("100.123456", "100.123458")));
    assert_eq!(g.reference_price(), 10_012_345_700);
    assert_eq!(g.market_price(&om), 10_012_345_700);
    om.update_best_prices(&ticker("100.123455", "100.123457"));
    assert_eq!(g.market_price(&om), 10_012_345_600);
}

#[test]
fn fill_on_a_level_at_the_market() {
    // prices at eight decimal places, so grid levels need not be multiples of 10^-5
    let mut c = config();
    c.price_precision = 8;
    c.grid_levels = 3;
    c.grid_lower_bound = -1_000;
    c.grid_upper_bound = 1_000;
    let mut om = manager();
    let mut g = GridStrategy::new(&c, 0);
    g.process_market_event(&mut om, &MarketEvent::BookTicker(ticker("100.0012345", "100.0012345")));
    g.initialize_grid();
    let grid = g.grid_prices().clone();
    // last price exactly on the top level: a bid fill at the middle asks
    // above the market's level, which is the top, so 1% above the market
    let top = backpack_grid::decimal::format_amount(grid[2]);
    om.handle_order_fill(&fill("x", "Bid", Some(&top)));
    let r = g.handle_fill(&om, &fill("y", "Bid", Some(&backpack_grid::decimal::format_amount(grid[1]))));
    assert_eq!(r.side, Side::Ask);
    assert_eq!(r.price, grid[2] * 101 / 100);
}

#[test]
fn start_waits_for_market_data_then_places_the_grid() {
    let mut om = manager();
    let mut g = GridStrategy::new(&config(), 0);
    assert!(matches!(g.startup_step(), StartupStep::AwaitMarketData));
    g.process_market_event(&mut om, &MarketEvent::BookTicker(ticker("99.99", "100.01")));
    match g.startup_step() {
        StartupStep::FetchFunds(price) => assert_eq!(price, "100.00"),
        StartupStep::AwaitMarketData => panic!("a reference price is known"),
    }
    let orders = g.start(
        &om,
        &MaxOrderQuantity { max_order_quantity: "12".to_string() },
        &MaxOrderQuantity { max_order_quantity: "10".to_string() },
    );
    assert_eq!(g.total_funds(), 10 * ONE);
    assert_eq!(g.grid_prices(), &vec![90 * ONE, 95 * ONE, 100 * ONE, 105 * ONE, 110 * ONE]);
    assert_eq!(g.per_grid_quantity(), 180_000_000);
    match orders {
        InitialOrders::Place(v) => assert_eq!(
            v,
            vec![
                OrderIntent { side: Side::Bid, price: 90 * ONE, quantity: 180_000_000 },
                OrderIntent { side: Side::Bid, price: 95 * ONE, quantity: 180_000_000 },
                OrderIntent { side: Side::Ask, price: 105 * ONE, quantity: 180_000_000 },
                OrderIntent { side: Side::Ask, price: 110 * ONE, quantity: 180_000_000 },
            ]
        ),
        InitialOrders::Update(_) => panic!("no orders rest yet"),
    }
}

#[test]
fn grid_quantity_grows_with_the_funds() {
    let mut c = config();
    c.grid_levels = 2000;
    let mut om = manager();
    let mut quantities = Vec::new();
    for funds in ["10.0", "200.0"] {
        let mut g = GridStrategy::new(&c, 0);
        g.process_market_event(&mut om, &MarketEvent::BookTicker(ticker("150.00", "150.02")));
        g.calculate_total_funds(
            &MaxOrderQuantity { max_order_quantity: funds.to_string() },
            &MaxOrderQuantity { max_order_quantity: funds.to_string() },
        );
        g.calculate_per_grid_quantity();
        quantities.push(g.per_grid_quantity());
    }
    // 0.01 (the minimum) and then 0.09
    assert_eq!(quantities, vec![1_000_000, 9_000_000]);
}

#[test]
fn ticker_leaves_other_symbols_alone() {
    let mut om = manager();
    om.update_best_prices(&ticker("99", "101"));
    let mut other = ticker("20", "22");
    other.symbol = "BTC_USDC".to_string();
    om.update_best_prices(&other);
    assert_eq!(om.get_best_prices("SOL_USDC"), Some((9_990_000_000, 10_010_000_000)));
    assert_eq!(om.get_best_prices("BTC_USDC"), Some((2_097_900_000, 2_102_100_000)));
    assert_eq!(om.get_best_prices("ETH_USDC"), None);
}

#[test]
fn large_funds_of_a_cheap_token() {
    let (mut g, _om) = ready_strategy();
    g.calculate_total_funds(
        &MaxOrderQuantity { max_order_quantity: "25000000000".to_string() },
        &MaxOrderQuantity { max_order_quantity: "30000000000.5".to_string() },
    );
    assert_eq!(g.total_funds(), 2_500_000_000_000_000_000);
    g.calculate_per_grid_quantity();
    // 90% of 2.5e10 over 5 levels
    assert_eq!(g.per_grid_quantity(), 450_000_000_000_000_000);
}

#[test]
fn order_texts_have_two_decimal_places() {
    let om = manager();
    let r = om.place_order_request("SOL_USDC", "Ask", 9_500_000_000, 50_000_000);
    assert_eq!(r.price.as_deref(), Some("95.00"));
    assert_eq!(r.quantity, "0.50");
    let r = om.place_order_request("SOL_USDC", "Ask", 12_345_678, 13_500_000);
    assert_eq!(r.price.as_deref(), Some("0.12"));
    assert_eq!(r.quantity, "0.14");
}

#[test]
fn run_loop_decisions() {
    let g = GridStrategy::new(&config(), 5_000_000_000);
    for started in [false, true] {
        assert!(matches!(g.next_action(started, &RunInput::Event), RunAction::ProcessEvent));
        assert!(matches!(g.next_action(started, &RunInput::Lagged(7)), RunAction::Continue));
    }
    match g.next_action(false, &RunInput::Closed) {
        RunAction::Finish(Err(e)) => assert_eq!(e, "Channel closed"),
        _ => panic!("a closed channel before the start is an error"),
    }
    assert!(matches!(g.next_action(true, &RunInput::Closed), RunAction::Finish(Ok(()))));
    // an update is due only more than a second after the last one
    assert!(matches!(g.next_action(true, &RunInput::Tick(6_000_000_000)), RunAction::Continue));
    assert!(matches!(g.next_action(true, &RunInput::Tick(6_000_000_001)), RunAction::UpdateOrders));
    assert!(matches!(g.next_action(false, &RunInput::Tick(9_000_000_000)), RunAction::Continue));
}
