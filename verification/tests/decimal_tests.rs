use backpack_grid::decimal::{
    format_amount, format_fixed, format_u64, parse_amount, parse_quantity, pow10_u64, MAX_AMOUNT,
};
use backpack_grid::text::{contains, starts_with, text_eq, text_less};

#[test]
fn parse_plain_decimals() {
    assert_eq!(parse_amount("123.45"), Some(12_345_000_000));
    assert_eq!(parse_amount("7"), Some(700_000_000));
    assert_eq!(parse_amount(".5"), Some(50_000_000));
    assert_eq!(parse_amount("5."), Some(500_000_000));
    assert_eq!(parse_amount("0.00000001"), Some(1));
    assert_eq!(parse_amount("0007.250"), Some(725_000_000));
}

#[test]
fn parse_drops_digits_past_eighth_place() {
    assert_eq!(parse_amount("0.123456789"), Some(12_345_678));
}

#[test]
fn parse_rejects_malformed_text() {
    assert_eq!(parse_amount(""), None);
    assert_eq!(parse_amount("."), None);
    assert_eq!(parse_amount("1.2.3"), None);
    assert_eq!(parse_amount("abc"), None);
    assert_eq!(parse_amount("-1"), None);
    assert_eq!(parse_amount(" 1"), None);
}

#[test]
fn parse_accepts_a_plus_sign() {
    assert_eq!(parse_amount("+5"), Some(500_000_000));
    assert_eq!(parse_amount("+.5"), Some(50_000_000));
    assert_eq!(parse_amount("+0.25"), Some(25_000_000));
    assert_eq!(parse_amount("+"), None);
    assert_eq!(parse_amount("++5"), None);
    assert_eq!(parse_amount("+-5"), None);
    assert_eq!(parse_amount("5+"), None);
}

#[test]
fn parse_reads_exponents() {
    assert_eq!(parse_amount("1e3"), Some(100_000_000_000));
    assert_eq!(parse_amount("1.5E2"), Some(15_000_000_000));
    assert_eq!(parse_amount("25e-2"), Some(25_000_000));
    assert_eq!(parse_amount("+2.5e+1"), Some(2_500_000_000));
    assert_eq!(parse_amount(".5e1"), Some(500_000_000));
    assert_eq!(parse_amount("5.e0"), Some(500_000_000));
    // below one unit is dropped, from every digit of the mantissa
    assert_eq!(parse_amount("1e-8"), Some(1));
    assert_eq!(parse_amount("1e-9"), Some(0));
    assert_eq!(parse_amount("0.000000001e1"), Some(1));
    assert_eq!(parse_amount("123456789e-16"), Some(1));
    assert_eq!(parse_amount("0e999999999999999999999999999999999999"), Some(0));
    assert_eq!(parse_amount("7e-999999999999999999999999999999999999"), Some(0));
    assert_eq!(parse_amount("1e10"), Some(MAX_AMOUNT));
    assert_eq!(parse_amount("1e11"), None);
    assert_eq!(parse_quantity("1.8446744073709551615e11"), Some(u64::MAX));
    assert_eq!(parse_quantity("1e999999999999999999999999999999999999"), None);
}

#[test]
fn parse_rejects_malformed_exponents() {
    assert_eq!(parse_amount("1e"), None);
    assert_eq!(parse_amount("e5"), None);
    assert_eq!(parse_amount("1e+"), None);
    assert_eq!(parse_amount("1e1.5"), None);
    assert_eq!(parse_amount("1e5e5"), None);
    assert_eq!(parse_amount(".e5"), None);
    assert_eq!(parse_amount("1 e5"), None);
    assert_eq!(parse_amount("inf"), None);
    assert_eq!(parse_amount("NaN"), None);
}

#[test]
fn quantities_go_up_to_what_u64_holds() {
    assert_eq!(parse_quantity("25000000000"), Some(2_500_000_000_000_000_000));
    assert_eq!(parse_amount("25000000000"), None);
    assert_eq!(parse_quantity("184467440737.09551615"), Some(u64::MAX));
    assert_eq!(parse_quantity("184467440737.09551616"), None);
    assert_eq!(parse_quantity("+12.5"), Some(1_250_000_000));
    assert_eq!(parse_quantity("12,5"), None);
}

#[test]
fn parse_rejects_amounts_above_the_maximum() {
    assert_eq!(parse_amount("10000000000"), Some(MAX_AMOUNT));
    assert_eq!(parse_amount("10000000000.00000001"), None);
    assert_eq!(parse_amount("99999999999999999999999"), None);
}

#[test]
fn format_trims_trailing_zeros() {
    assert_eq!(format_amount(12_345_000_000), "123.45");
    assert_eq!(format_amount(10_000_000_000), "100");
    assert_eq!(format_amount(0), "0");
    assert_eq!(format_amount(1), "0.00000001");
    assert_eq!(format_amount(50_000_000), "0.5");
}

#[test]
fn format_then_parse_gives_the_amount_back() {
    for x in [0u64, 1, 99, 100_000_000, 12_345_678_901, 987_654_321_000, MAX_AMOUNT] {
        assert_eq!(parse_amount(&format_amount(x)), Some(x));
    }
}

#[test]
fn fixed_places_round_half_to_even() {
    assert_eq!(format_fixed(12_345_600_000, 2), "123.46");
    assert_eq!(format_fixed(112_500_000, 2), "1.12");
    assert_eq!(format_fixed(113_500_000, 2), "1.14");
    assert_eq!(format_fixed(10_000_000_000, 2), "100.00");
    assert_eq!(format_fixed(250_000_000, 0), "2");
    assert_eq!(format_fixed(350_000_000, 0), "4");
    assert_eq!(format_fixed(1, 8), "0.00000001");
}

#[test]
fn u64_digits() {
    assert_eq!(format_u64(0), "0");
    assert_eq!(format_u64(5000), "5000");
    assert_eq!(format_u64(u64::MAX), u64::MAX.to_string());
    assert_eq!(pow10_u64(0), 1);
    assert_eq!(pow10_u64(18), 1_000_000_000_000_000_000);
}

#[test]
fn text_search() {
    assert!(contains("Error cancelling order: Order not found", "Order not found"));
    assert!(!contains("Order missing", "Order not found"));
    assert!(contains("abc", ""));
    assert!(starts_with("bookTicker.SOL_USDC", "bookTicker."));
    assert!(!starts_with("book", "bookTicker."));
    assert!(text_eq("Bid", "Bid"));
    assert!(!text_eq("Bid", "Ask"));
}

#[test]
fn text_order() {
    assert!(text_less("autoBorrow", "autoBorrowRepay"));
    assert!(text_less("side", "symbol"));
    assert!(!text_less("symbol", "side"));
    assert!(!text_less("same", "same"));
    assert!(text_less("", "a"));
    assert!(text_less("Z", "a"));
}

#[test]
fn fixed_places_agree_with_float_formatting() {
    // values exactly representable as binary fractions, ties included
    for (units, x) in [
        (112_500_000u64, 1.125f64),
        (37_500_000, 0.375),
        (250_000_000, 2.5),
        (987_654_321_000, 9876.54321),
        (12_345_000_000, 123.45),
    ] {
        assert_eq!(format_fixed(units, 2), format!("{:.2}", x));
    }
    assert_eq!(format_fixed(250_000_000, 0), format!("{:.0}", 2.5f64));
    assert_eq!(format_fixed(350_000_000, 0), format!("{:.0}", 3.5f64));
}

#[test]
fn amounts_agree_with_float_display() {
    for (units, x) in [(12_345_000_000u64, 123.45f64), (10_000_000_000, 100.0), (50_000_000, 0.5), (1_000_000, 0.01)] {
        assert_eq!(format_amount(units), format!("{}", x));
    }
}
