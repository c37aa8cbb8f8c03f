use wallet_value::documents::parse_directory;
use wallet_value::error::WalletError;
use wallet_value::holdings::load_holdings;
use wallet_value::pricing::Quote;
use wallet_value::resolver::CmcApi;
use wallet_value::settings::Settings;
use wallet_value::ticker::{Ticker, TickerType, SCALE};
use wallet_value::wallet::{report_unresolved, total_of, Wallet, WalletType};

const UNIT: u128 = (SCALE as u128) * (SCALE as u128);

fn settings(currency: &str) -> Settings {
    Settings {
        currency: currency.to_string(),
        provider: "cmc".to_string(),
        fetch_symb: false,
        cmc_key: "SECRET-REDACTED".to_string(),
        path: "used_id_CMC.json".to_string(),
    }
}

fn priced(name: &str, ty: TickerType, amount: u64, price: u64) -> Ticker {
    let mut t = Ticker::create_ticker_WO_cmc_id(name.to_string(), amount, ty);
    t.price = price;
    t
}

#[test]
fn wallet_types_select_scope() {
    let c = WalletType::create_wallet_crypto();
    assert!(c.crypto_stable && !c.crypto_stable_fiat);
    let t = WalletType::create_wallet_total();
    assert!(!t.crypto_stable && t.crypto_stable_fiat);
}

#[test]
fn base_currency_is_fiat_at_one() {
    let b = Ticker::createbase_currency("eur".to_string());
    assert_eq!(b.name, "eur");
    assert_eq!(b.cmc_id, "eur");
    assert_eq!(b.ticker_type, TickerType::FIAT);
    assert_eq!(b.price, SCALE);
    assert_eq!(b.amount, 0);
}

#[test]
fn aggregation_sums_quantity_times_price() {
    let base = Ticker::createbase_currency("usd".to_string());
    let mut w = Wallet::new(base, WalletType::create_wallet_crypto(), vec![], 0).unwrap();
    w.cryptocurrencies = vec![priced("btc", TickerType::CRYPTO, 2 * SCALE, 10 * SCALE)];
    w.stable_coins = vec![priced("usdc", TickerType::STABLE, 5 * SCALE, SCALE)];
    w.calc_total_value().unwrap();
    assert_eq!(w.total_value, 25 * UNIT);
}

#[test]
fn total_of_fractional_amounts() {
    let v = vec![priced("btc", TickerType::CRYPTO, 50_000_000, 3 * SCALE)];
    assert_eq!(total_of(&v).unwrap(), 3 * UNIT / 2);
}

#[test]
fn total_overflow_is_reported() {
    let v = vec![
        priced("a", TickerType::CRYPTO, u64::MAX, u64::MAX),
        priced("b", TickerType::CRYPTO, u64::MAX, u64::MAX),
    ];
    assert!(matches!(total_of(&v), Err(WalletError::Overflow)));
}

#[test]
fn unclassified_holding_is_refused() {
    let base = Ticker::createbase_currency("usd".to_string());
    let t = Ticker::create_ticker("btc".to_string(), "1".to_string(), SCALE);
    let r = Wallet::new(base, WalletType::create_wallet_total(), vec![t], 0);
    assert!(matches!(r, Err(WalletError::Unclassified)));
}

#[test]
fn wallet_splits_holdings_by_class() {
    let hs = load_holdings(&vec![
        ("usd".to_string(), "100".to_string()),
        ("eth".to_string(), "3".to_string()),
        ("usdc".to_string(), "5".to_string()),
    ])
    .unwrap();
    let base = Ticker::createbase_currency("usd".to_string());
    let w = Wallet::new(base, WalletType::create_wallet_total(), hs, 42).unwrap();
    assert_eq!(w.cryptocurrencies.len(), 1);
    assert_eq!(w.stable_coins.len(), 1);
    assert_eq!(w.fiat.len(), 1);
    assert_eq!(w.fiat[0].price, SCALE);
    assert_eq!(w.date, 42);
    assert_eq!(w.total_value, 0);
}

#[test]
fn settlement_fiat_needs_no_rate() {
    let base = Ticker::createbase_currency("usd".to_string());
    let fiat = vec![
        priced("usd", TickerType::FIAT, 100 * SCALE, SCALE),
        priced("eur", TickerType::FIAT, 10 * SCALE, SCALE),
    ];
    let mut w = Wallet::new(base, WalletType::create_wallet_total(), fiat, 0).unwrap();
    let req = w.forex_requests();
    assert_eq!(req, vec![None, Some("usdeur=X".to_string())]);
    assert!(matches!(
        w.apply_forex_rates(&vec![None, None]),
        Err(WalletError::RateUnavailable)
    ));
    w.apply_forex_rates(&vec![Some(5 * SCALE), Some(2 * SCALE)]).unwrap();
    assert_eq!(w.fiat[0].price, SCALE);
    assert_eq!(w.fiat[1].price, 2 * SCALE);
    w.calc_total_value().unwrap();
    assert_eq!(w.total_value, 120 * UNIT);
}

#[test]
fn forex_pair_joins_currencies() {
    let base = Ticker::createbase_currency("eur".to_string());
    let w = Wallet::new(base, WalletType::create_wallet_total(), vec![], 0).unwrap();
    assert_eq!(w.forex_pair(&"usd".to_string()), "eurusd=X");
}

#[test]
fn price_query_joins_identifiers() {
    let api = CmcApi::new(settings("usd"), "").unwrap();
    let mut a = Ticker::create_ticker("btc".to_string(), "1".to_string(), SCALE);
    a.ticker_type = TickerType::CRYPTO;
    let b = Ticker::createCrypto("eth".to_string(), "1027".to_string(), SCALE);
    let (ids, cur) = api.price_query(&vec![a, b]);
    assert_eq!(ids, "1,1027");
    assert_eq!(cur, "usd");
    let (none, _) = api.price_query(&vec![]);
    assert_eq!(none, "");
}

#[test]
fn missing_quote_fails_pricing() {
    let api = CmcApi::new(settings("usd"), "").unwrap();
    let b = Ticker::createCrypto("eth".to_string(), "1027".to_string(), SCALE);
    let quotes = vec![Quote { id: "1".to_string(), price: SCALE }];
    assert!(matches!(api.get_price_of(vec![b], &quotes), Err(WalletError::QuoteMissing)));
}

#[test]
fn end_to_end_valuation() {
    let hs = load_holdings(&vec![
        ("usd".to_string(), "100".to_string()),
        ("eth".to_string(), "3".to_string()),
    ])
    .unwrap();
    let base = Ticker::createbase_currency("usd".to_string());
    let mut w = Wallet::new(base, WalletType::create_wallet_total(), hs, 0).unwrap();
    let mut api = CmcApi::new(settings("usd"), "").unwrap();
    let dir = parse_directory(r#"{"data": [{"symbol": "eth", "id": 1027}]}"#).unwrap();
    let (found, not_found) = api
        .convert_symbol_to_id(w.cryptocurrencies.clone(), Some(&dir))
        .unwrap();
    assert_eq!(found.len(), 1);
    assert_eq!(found[0].name, "eth");
    assert_eq!(found[0].cmc_id, "1027");
    assert_eq!(found[0].amount, 3 * SCALE);
    assert!(not_found.is_empty());
    let (ids, cur) = api.price_query(&found);
    assert_eq!(ids, "1027");
    assert_eq!(cur, "usd");
    let quotes = vec![Quote { id: "1027".to_string(), price: 2000 * SCALE }];
    w.cryptocurrencies = api.get_price_of(found, &quotes).unwrap();
    let requests = w.forex_requests();
    assert_eq!(requests, vec![None]);
    w.apply_forex_rates(&vec![None]).unwrap();
    assert_eq!(total_of(&w.fiat).unwrap(), 100 * UNIT);
    assert_eq!(total_of(&w.cryptocurrencies).unwrap(), 6000 * UNIT);
    w.calc_total_value().unwrap();
    assert_eq!(w.total_value, 6100 * UNIT);
    w.wallet_type = WalletType::create_wallet_crypto();
    w.calc_total_value().unwrap();
    assert_eq!(w.total_value, 6000 * UNIT);
}

#[test]
fn unresolvable_symbol_excluded_or_aborts() {
    let hs = load_holdings(&vec![("doesnotexist".to_string(), "1".to_string())]).unwrap();
    let base = Ticker::createbase_currency("usd".to_string());
    let mut w = Wallet::new(base, WalletType::create_wallet_crypto(), hs, 0).unwrap();
    let mut api = CmcApi::new(settings("usd"), "").unwrap();
    let dir = parse_directory(r#"{"data": [{"symbol": "ETH", "id": 1027}]}"#).unwrap();
    let (found, not_found) = api
        .convert_symbol_to_id(w.cryptocurrencies.clone(), Some(&dir))
        .unwrap();
    assert!(found.is_empty());
    assert_eq!(not_found.len(), 1);
    assert_eq!(not_found[0].name, "doesnotexist");
    assert_eq!(not_found[0].amount, SCALE);
    assert!(matches!(report_unresolved(&not_found, true), Err(WalletError::Unresolved)));
    let names = report_unresolved(&not_found, false).unwrap();
    assert_eq!(names, vec!["doesnotexist".to_string()]);
    w.cryptocurrencies = api.get_price_of(found, &vec![]).unwrap();
    w.calc_total_value().unwrap();
    assert_eq!(w.total_value, 0);
}

#[test]
fn tickers_are_equal_by_symbol() {
    let a = Ticker::createCrypto("eth".to_string(), "1027".to_string(), SCALE);
    let b = Ticker::createStable("eth".to_string(), String::new(), 7);
    let c = Ticker::createFiat("usd".to_string(), "usd".to_string(), SCALE);
    assert!(a == b);
    assert!(a != c);
    assert_eq!(b.ticker_type, TickerType::STABLE);
    assert_eq!(c.price, SCALE);
    let d = a.copy();
    assert_eq!(d.cmc_id, "1027");
    assert_eq!(d.amount, SCALE);
}

#[test]
fn settlement_currency_is_compared_in_lower_case() {
    let base = Ticker::createbase_currency("USD".to_string());
    let fiat = vec![priced("usd", TickerType::FIAT, 100 * SCALE, SCALE)];
    let mut w = Wallet::new(base, WalletType::create_wallet_total(), fiat, 0).unwrap();
    assert_eq!(w.forex_requests(), vec![None]);
    w.apply_forex_rates(&vec![None]).unwrap();
    assert_eq!(w.fiat[0].price, SCALE);
}
