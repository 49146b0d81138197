use backpack_grid::api::rest::{
    check_order_response, place_order_params, sort_params, signing_payload, HttpMethod, OrderAction,
    PlaceOrderRequest, RestClient,
};
use backpack_grid::api::signing::{secret_from_base64, signature_of};
use backpack_grid::config::{Config, ConfigError};

// RFC 8032, test 2: secret key and the signature of the one-byte message "r".
const RFC_SECRET: &str = "TM0Imyj/ltqdtsNG7BFOD1uKMZ81q6Yk2oz27U+4pvs=";
const RFC_SIGNATURE: &str = "kqAJqfDUyrhyDoILX2QlQKKye1QWUD+Ps3YiI+vbadoIWsHkPhWZbkWPNhPQ8R2MOHsurrQwKu6wDSkWErsMAA==";

fn config() -> Config {
    Config {
        api_key: "key-1".to_string(),
        api_secret: RFC_SECRET.to_string(),
        base_url: "https://api.backpack.exchange".to_string(),
        ws_url: "wss://ws.backpack.exchange".to_string(),
        symbol: "SOL_USDC".to_string(),
        grid_upper_bound: 100_000,
        grid_lower_bound: -100_000,
        grid_levels: 5,
        active_orders: 6,
        price_precision: 2,
        quantity_precision: 2,
        min_quantity: 1_000_000,
    }
}

fn pairs(v: &[(&str, &str)]) -> Vec<(String, String)> {
    v.iter().map(|(k, x)| (k.to_string(), x.to_string())).collect()
}

#[test]
fn secret_decoding() {
    let secret = secret_from_base64(RFC_SECRET).unwrap();
    assert_eq!(secret[0], 0x4c);
    assert_eq!(secret[31], 0xfb);
    assert_eq!(secret_from_base64("not base64!"), None);
    // valid base64 of 3 bytes: wrong length
    assert_eq!(secret_from_base64("AAAA"), None);
}

#[test]
fn ed25519_signature_matches_rfc_8032() {
    let secret = secret_from_base64(RFC_SECRET).unwrap();
    assert_eq!(signature_of(&secret, "r"), RFC_SIGNATURE);
    assert_ne!(signature_of(&secret, "s"), RFC_SIGNATURE);
}

#[test]
fn clients_need_a_32_byte_secret() {
    assert!(RestClient::try_new(&config()).is_some());
    let mut bad = config();
    bad.api_secret = "AAAA".to_string();
    assert!(RestClient::try_new(&bad).is_none());
}

#[test]
fn instruction_names() {
    let c = RestClient::new(&config());
    assert_eq!(c.get_instruction_type("/api/v1/account", "GET"), "accountQuery");
    assert_eq!(c.get_instruction_type("/api/v1/account/limits/order", "GET"), "maxOrderQuantity");
    assert_eq!(c.get_instruction_type("/api/v1/order", "POST"), "orderExecute");
    assert_eq!(c.get_instruction_type("/api/v1/order", "DELETE"), "orderCancel");
    assert_eq!(c.get_instruction_type("/api/v1/order", "GET"), "unknown");
}

#[test]
fn signing_text_orders_parameters_by_key() {
    let params = Some(pairs(&[("symbol", "SOL_USDC"), ("orderId", "42")]));
    assert_eq!(
        signing_payload("orderCancel", &params, 1700000000000, 5000),
        "instruction=orderCancel&orderId=42&symbol=SOL_USDC&timestamp=1700000000000&window=5000"
    );
    assert_eq!(
        signing_payload("accountQuery", &None, 17, 5000),
        "instruction=accountQuery&timestamp=17&window=5000"
    );
}

#[test]
fn later_parameter_of_a_key_replaces_earlier() {
    let sorted = sort_params(&pairs(&[("b", "1"), ("a", "2"), ("b", "3")]));
    assert_eq!(sorted, pairs(&[("a", "2"), ("b", "3")]));
}

#[test]
fn order_placement_parameters() {
    let order = PlaceOrderRequest {
        auto_borrow: Some(true),
        auto_borrow_repay: None,
        symbol: "SOL_USDC".to_string(),
        side: "Bid".to_string(),
        order_type: "Limit".to_string(),
        time_in_force: "GTC".to_string(),
        price: Some("95.5".to_string()),
        quantity: "1.8".to_string(),
        client_id: Some(77),
    };
    let p = place_order_params(&order);
    assert_eq!(
        sort_params(&p),
        pairs(&[
            ("autoBorrow", "true"),
            ("autoBorrowRepay", "null"),
            ("clientId", "77"),
            ("orderType", "Limit"),
            ("price", "95.5"),
            ("quantity", "1.8"),
            ("side", "Bid"),
            ("symbol", "SOL_USDC"),
            ("timeInForce", "GTC"),
        ])
    );
}

#[test]
fn signed_requests() {
    let c = RestClient::new(&config());
    let secret = secret_from_base64(RFC_SECRET).unwrap();
    let r = c.account_request(1234);
    assert_eq!(r.method, HttpMethod::Get);
    assert_eq!(r.url, "https://api.backpack.exchange/api/v1/account");
    assert_eq!(r.api_key, "key-1");
    assert_eq!(r.timestamp, "1234");
    assert_eq!(r.window, "5000");
    assert_eq!(r.signature, signature_of(&secret, "instruction=accountQuery&timestamp=1234&window=5000"));

    let q = c.max_order_quantity_request("SOL_USDC", "Bid", "100.00", 99);
    assert_eq!(q.url, "https://api.backpack.exchange/api/v1/account/limits/order");
    assert_eq!(q.query.len(), 5);
    assert_eq!(
        q.signature,
        signature_of(
            &secret,
            "instruction=maxOrderQuantity&autoBorrow=true&autoBorrowRepay=true&autoLendRedeem=true&side=Bid&symbol=SOL_USDC&timestamp=99&window=5000"
        )
    );

    let (body, d) = c.cancel_order_request("SOL_USDC", "abc", 7);
    assert_eq!(body.order_id, "abc");
    assert_eq!(d.method, HttpMethod::Delete);
    assert_eq!(
        d.signature,
        signature_of(&secret, "instruction=orderCancel&orderId=abc&symbol=SOL_USDC&timestamp=7&window=5000")
    );
}

#[test]
fn order_response_status() {
    assert_eq!(check_order_response(OrderAction::Place, 200, "{}"), Ok(()));
    assert_eq!(
        check_order_response(OrderAction::Place, 400, "bad price"),
        Err("Error placing order: bad price".to_string())
    );
    assert_eq!(
        check_order_response(OrderAction::Cancel, 404, "Order not found"),
        Err("Error cancelling order: Order not found".to_string())
    );
}

#[test]
fn config_validation() {
    assert_eq!(config().validate(), Ok(()));
    let mut c = config();
    c.grid_lower_bound = 200_000;
    assert_eq!(c.validate(), Err(ConfigError::GridBounds));
    let mut c = config();
    c.grid_levels = 1;
    assert_eq!(c.validate(), Err(ConfigError::GridLevels));
    let mut c = config();
    c.grid_levels = 2_000_000;
    assert_eq!(c.validate(), Ok(()));
    let mut c = config();
    c.price_precision = 9;
    assert_eq!(c.validate(), Err(ConfigError::Precision));
    let mut c = config();
    c.min_quantity = u64::MAX;
    assert_eq!(c.validate(), Err(ConfigError::MinQuantity));
}
