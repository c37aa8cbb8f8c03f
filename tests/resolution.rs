use wallet_value::documents::{parse_cache, parse_directory};
use wallet_value::error::WalletError;
use wallet_value::resolver::{check_distinct, CmcApi, DirectoryEntry};
use wallet_value::settings::Settings;
use wallet_value::ticker::{Ticker, TickerType, SCALE};

fn settings(currency: &str) -> Settings {
    Settings {
        currency: currency.to_string(),
        provider: "cmc".to_string(),
        fetch_symb: false,
        cmc_key: "SECRET-REDACTED".to_string(),
        path: "used_id_CMC.json".to_string(),
    }
}

fn holding(name: &str, amount: u64) -> Ticker {
    Ticker::create_ticker_WO_cmc_id(name.to_string(), amount, TickerType::CRYPTO)
}

fn entry(symbol: &str, id: &str) -> DirectoryEntry {
    DirectoryEntry { symbol: symbol.to_string(), id: id.to_string() }
}

#[test]
fn directory_hit_resolves_and_is_cached() {
    let mut api = CmcApi::new(settings("usd"), "").unwrap();
    let dir = vec![entry("BTC", "1"), entry("ETH", "1027")];
    let (found, not_found) = api
        .convert_symbol_to_id(vec![holding("eth", 3 * SCALE)], Some(&dir))
        .unwrap();
    assert_eq!(found.len(), 1);
    assert_eq!(found[0].name, "eth");
    assert_eq!(found[0].cmc_id, "1027");
    assert_eq!(found[0].amount, 3 * SCALE);
    assert!(not_found.is_empty());
    assert_eq!(api.used_id.len(), 1);
    assert_eq!(api.used_id[0].name, "eth");
    assert_eq!(api.used_id[0].cmc_id, "1027");
    assert_eq!(api.used_id[0].amount, 0);
}

#[test]
fn second_run_hits_the_cache_only() {
    let mut api = CmcApi::new(settings("usd"), "").unwrap();
    let dir = vec![entry("eth", "1027")];
    let batch = || vec![holding("eth", 3 * SCALE)];
    assert!(api.needs_directory(&batch()));
    let first = api.convert_symbol_to_id(batch(), Some(&dir)).unwrap();
    let cache_after_first: Vec<(String, String)> =
        api.used_id.iter().map(|t| (t.name.clone(), t.cmc_id.clone())).collect();
    assert!(!api.needs_directory(&batch()));
    let second = api.convert_symbol_to_id(batch(), None).unwrap();
    let cache_after_second: Vec<(String, String)> =
        api.used_id.iter().map(|t| (t.name.clone(), t.cmc_id.clone())).collect();
    assert_eq!(cache_after_first, cache_after_second);
    assert_eq!(first.0[0].cmc_id, second.0[0].cmc_id);
    assert_eq!(second.0[0].amount, 3 * SCALE);
    assert!(second.1.is_empty());
}

#[test]
fn partition_covers_the_batch() {
    let mut api = CmcApi::new(
        settings("usd"),
        r#"[{"name": "btc", "cmc_id": "1"}]"#,
    )
    .unwrap();
    let dir = vec![entry("ETH", "1027"), entry("eth", "9999")];
    let batch = vec![
        holding("btc", SCALE),
        holding("xyz", 2 * SCALE),
        holding("eth", 3 * SCALE),
    ];
    let (found, not_found) = api.convert_symbol_to_id(batch, Some(&dir)).unwrap();
    let names: Vec<&str> = found.iter().map(|t| t.name.as_str()).collect();
    assert_eq!(names, vec!["btc", "eth"]);
    assert_eq!(found[0].cmc_id, "1");
    assert_eq!(found[0].amount, SCALE);
    assert_eq!(found[1].cmc_id, "1027");
    assert_eq!(not_found.len(), 1);
    assert_eq!(not_found[0].name, "xyz");
    assert_eq!(not_found[0].amount, 2 * SCALE);
    assert_eq!(api.used_id.len(), 2);
}

#[test]
fn unresolvable_symbol_is_reported_unresolved() {
    let mut api = CmcApi::new(settings("usd"), "").unwrap();
    let dir = vec![entry("eth", "1027")];
    let (found, not_found) = api
        .convert_symbol_to_id(vec![holding("doesnotexist", SCALE)], Some(&dir))
        .unwrap();
    assert!(found.is_empty());
    assert_eq!(not_found.len(), 1);
    assert_eq!(not_found[0].name, "doesnotexist");
    assert_eq!(not_found[0].amount, SCALE);
    assert!(api.used_id.is_empty());
}

#[test]
fn cache_miss_without_directory_fails() {
    let mut api = CmcApi::new(settings("usd"), "").unwrap();
    let r = api.convert_symbol_to_id(vec![holding("eth", SCALE)], None);
    assert!(matches!(r, Err(WalletError::DirectoryUnavailable)));
    assert!(api.used_id.is_empty());
}

#[test]
fn cache_document_is_read_keeping_first_entries() {
    let api = CmcApi::new(
        settings("usd"),
        r#"[{"name": "btc", "cmc_id": "1"}, {"name": "eth", "cmc_id": "1027"}, {"name": "btc", "cmc_id": "7"}]"#,
    )
    .unwrap();
    assert_eq!(api.used_id.len(), 2);
    assert_eq!(api.used_id[0].cmc_id, "1");
    assert_eq!(api.used_id[1].name, "eth");
    assert_eq!(api.used_id[1].ticker_type, TickerType::CRYPTO);
}

#[test]
fn malformed_cache_document_is_refused() {
    assert!(matches!(
        CmcApi::new(settings("usd"), "not json"),
        Err(WalletError::MalformedInput)
    ));
    assert!(matches!(
        CmcApi::new(settings("usd"), r#"{"name": "btc"}"#),
        Err(WalletError::MalformedInput)
    ));
}

#[test]
fn directory_document_is_read() {
    let d = parse_directory(
        r#"{"status": {}, "data": [{"id": 1, "symbol": "BTC"}, {"id": 1027, "symbol": "ETH", "name": "Ethereum"}]}"#,
    )
    .unwrap();
    assert_eq!(d.len(), 2);
    assert_eq!(d[0].symbol, "BTC");
    assert_eq!(d[0].id, "1");
    assert_eq!(d[1].symbol, "ETH");
    assert_eq!(d[1].id, "1027");
}

#[test]
fn malformed_directory_is_unavailable() {
    assert!(matches!(parse_directory(""), Err(WalletError::DirectoryUnavailable)));
    assert!(matches!(parse_directory("{}"), Err(WalletError::DirectoryUnavailable)));
    assert!(matches!(
        parse_directory(r#"{"data": [{"symbol": "BTC", "id": "1"}]}"#),
        Err(WalletError::DirectoryUnavailable)
    ));
}

#[test]
fn cache_entries_keep_first_per_symbol() {
    let entries = vec![
        ("btc".to_string(), "1".to_string()),
        ("eth".to_string(), "1027".to_string()),
        ("btc".to_string(), "7".to_string()),
    ];
    let api = CmcApi::with_cache(settings("eur"), &entries);
    assert_eq!(api.used_id.len(), 2);
    assert_eq!(api.used_id[0].name, "btc");
    assert_eq!(api.used_id[0].cmc_id, "1");
    assert_eq!(api.used_id[1].cmc_id, "1027");
    assert_eq!(api.used_id[1].amount, 0);
    assert_eq!(api.settings.currency, "eur");
}

#[test]
fn cache_document_is_parsed_in_order() {
    let e = parse_cache(r#"[{"name": "eth", "cmc_id": "1027"}, {"cmc_id": "1", "name": "btc"}]"#)
        .unwrap();
    assert_eq!(
        e,
        vec![
            ("eth".to_string(), "1027".to_string()),
            ("btc".to_string(), "1".to_string())
        ]
    );
    assert_eq!(parse_cache("[]").unwrap().len(), 0);
    assert!(matches!(parse_cache(r#"[{"name": 1, "cmc_id": "1"}]"#), Err(WalletError::MalformedInput)));
}

#[test]
fn duplicate_symbols_in_a_batch_are_refused() {
    assert!(check_distinct(&vec![holding("btc", 1), holding("eth", 2)]).is_ok());
    assert!(matches!(
        check_distinct(&vec![holding("btc", 1), holding("eth", 2), holding("btc", 3)]),
        Err(WalletError::DuplicateSymbol)
    ));
}

#[test]
fn directory_with_negative_id_is_unavailable() {
    assert!(matches!(
        parse_directory(r#"{"data": [{"symbol": "BTC", "id": -1}]}"#),
        Err(WalletError::DirectoryUnavailable)
    ));
    assert_eq!(parse_directory(r#"{"data": []}"#).unwrap().len(), 0);
}
