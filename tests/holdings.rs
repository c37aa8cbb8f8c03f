use wallet_value::amount::parse_amount;
use wallet_value::error::WalletError;
use wallet_value::holdings::{classify_symbol, load_holdings};
use wallet_value::ticker::{TickerType, SCALE};

fn rows(items: &[(&str, &str)]) -> Vec<(String, String)> {
    items.iter().map(|(s, q)| (s.to_string(), q.to_string())).collect()
}

#[test]
fn parse_amount_reads_fixed_point() {
    assert_eq!(parse_amount("2"), Some(2 * SCALE));
    assert_eq!(parse_amount("0.5"), Some(50_000_000));
    assert_eq!(parse_amount("1.23456789"), Some(123_456_789));
    assert_eq!(parse_amount("100"), Some(100 * SCALE));
    assert_eq!(parse_amount("007.10"), Some(710_000_000));
}

#[test]
fn parse_amount_rejects_other_shapes() {
    assert_eq!(parse_amount(""), None);
    assert_eq!(parse_amount("abc"), None);
    assert_eq!(parse_amount("."), None);
    assert_eq!(parse_amount("1.2.3"), None);
    assert_eq!(parse_amount("-1"), None);
    assert_eq!(parse_amount("1e3"), None);
}

#[test]
fn parse_amount_accepts_bare_point_forms() {
    assert_eq!(parse_amount("5."), Some(5 * SCALE));
    assert_eq!(parse_amount(".5"), Some(50_000_000));
}

#[test]
fn parse_amount_truncates_beyond_eight_decimals() {
    assert_eq!(parse_amount("1.234567891"), Some(123_456_789));
    assert_eq!(parse_amount("0.999999999999"), Some(99_999_999));
}

#[test]
fn parse_amount_rejects_amounts_too_large() {
    assert_eq!(parse_amount("184467440738"), None);
    assert_eq!(parse_amount("184467440737"), Some(18_446_744_073_700_000_000));
    assert_eq!(parse_amount("184467440737.09551615"), Some(u64::MAX));
    assert_eq!(parse_amount("184467440737.09551616"), None);
}

#[test]
fn duplicate_rows_merge_into_one_holding() {
    let hs = load_holdings(&rows(&[("btc", "1.5"), ("btc", "2")])).unwrap();
    assert_eq!(hs.len(), 1);
    assert_eq!(hs[0].name, "btc");
    assert_eq!(hs[0].amount, 350_000_000);
    assert_eq!(hs[0].ticker_type, TickerType::CRYPTO);
}

#[test]
fn duplicate_rows_merge_ignoring_case() {
    let hs = load_holdings(&rows(&[("ETH", "1"), ("usd", "10"), ("eth", "2")])).unwrap();
    assert_eq!(hs.len(), 2);
    assert_eq!(hs[0].name, "eth");
    assert_eq!(hs[0].amount, 3 * SCALE);
    assert_eq!(hs[1].name, "usd");
    assert_eq!(hs[1].amount, 10 * SCALE);
}

#[test]
fn rows_are_classified_and_marker_skipped() {
    let hs = load_holdings(&rows(&[
        ("total_invested", "5000"),
        ("USD", "100"),
        ("eur", "1"),
        ("usdc", "5"),
        ("usdt", "6"),
        ("sol", "7"),
    ]))
    .unwrap();
    assert_eq!(hs.len(), 5);
    assert_eq!(hs[0].name, "usd");
    assert_eq!(hs[0].ticker_type, TickerType::FIAT);
    assert_eq!(hs[1].ticker_type, TickerType::FIAT);
    assert_eq!(hs[2].ticker_type, TickerType::STABLE);
    assert_eq!(hs[3].ticker_type, TickerType::STABLE);
    assert_eq!(hs[4].ticker_type, TickerType::CRYPTO);
    assert!(hs.iter().all(|h| h.cmc_id.is_empty() && h.price == 0));
}

#[test]
fn malformed_row_fails_the_load() {
    let r = load_holdings(&rows(&[("btc", "1"), ("eth", "lots")]));
    assert!(matches!(r, Err(WalletError::MalformedInput)));
}

#[test]
fn merged_amount_overflow_fails_the_load() {
    let r = load_holdings(&rows(&[
        ("btc", "184467440737.09551615"),
        ("btc", "0.00000001"),
    ]));
    assert!(matches!(r, Err(WalletError::Overflow)));
}

#[test]
fn empty_rows_give_no_holdings() {
    assert_eq!(load_holdings(&Vec::new()).unwrap().len(), 0);
}

#[test]
fn classify_symbol_by_fixed_sets() {
    assert_eq!(classify_symbol("usd"), TickerType::FIAT);
    assert_eq!(classify_symbol("usdt"), TickerType::STABLE);
    assert_eq!(classify_symbol("btc"), TickerType::CRYPTO);
}

#[test]
fn empty_symbol_is_malformed() {
    let r = load_holdings(&rows(&[("btc", "1"), ("", "2")]));
    assert!(matches!(r, Err(WalletError::MalformedInput)));
}

#[test]
fn duplicate_rows_merge_among_other_rows() {
    let hs = load_holdings(&rows(&[
        ("btc", "1"),
        ("eth", "2"),
        ("total_invested", "9"),
        ("BTC", "0.5"),
        ("usd", "3"),
    ]))
    .unwrap();
    let btc: Vec<_> = hs.iter().filter(|t| t.name == "btc").collect();
    assert_eq!(btc.len(), 1);
    assert_eq!(btc[0].amount, 150_000_000);
    assert_eq!(hs.len(), 3);
}
