use discretionary_engine::acquisition::PositionSpec;
use discretionary_engine::followup::ProtocolType;
use discretionary_engine::orders::{OrderKind, Side};
use discretionary_engine::signing::{sign_query, signed_url};
use discretionary_engine::trailing_stop::{TrailingStop, TrailingStopCache};

#[test]
fn cache_starts_at_current_price() {
    let spec = PositionSpec::new("BTC".to_string(), Side::Buy, 1000);
    let c = TrailingStopCache::build(&spec, 50_000);
    assert_eq!((c.top, c.bottom), (50_000, 50_000));
    assert_eq!(c.symbol, "BTC");
}

#[test]
fn long_trails_new_highs() {
    let ts = TrailingStop { percent_bp: 200 };
    assert_eq!(ts.subtype(), ProtocolType::Momentum);
    let spec = PositionSpec::new("BTC".to_string(), Side::Buy, 1000);
    let mut c = TrailingStopCache::build(&spec, 100);
    assert!(ts.on_price(&mut c, 99, Side::Buy, 3).is_none());
    assert_eq!(c.bottom, 99);
    let b = ts.on_price(&mut c, 1000, Side::Buy, 3).unwrap();
    assert_eq!(c.top, 1000);
    assert_eq!(b.producer, 3);
    assert_eq!(b.orders.len(), 1);
    let o = &b.orders[0];
    assert_eq!(o.kind, OrderKind::StopMarket);
    assert_eq!(o.side, Side::Sell);
    assert_eq!(o.price, 980);
    assert_eq!(o.weight_bp, 10000);
    assert_eq!((o.id >> 76) & 0xf, 4);
    let again = ts.on_price(&mut c, 1100, Side::Buy, 3).unwrap();
    assert_ne!(again.orders[0].id, o.id);
    assert_eq!(again.orders[0].price, 1078);
}

#[test]
fn short_trails_new_lows() {
    let ts = TrailingStop { percent_bp: 500 };
    let spec = PositionSpec::new("ETH".to_string(), Side::Sell, 1000);
    let mut c = TrailingStopCache::build(&spec, 2000);
    assert!(ts.on_price(&mut c, 2100, Side::Sell, 1).is_none());
    let b = ts.on_price(&mut c, 1000, Side::Sell, 1).unwrap();
    assert_eq!(b.orders[0].side, Side::Buy);
    assert_eq!(b.orders[0].price, 1050);
    assert_eq!(b.orders[0].symbol, "ETH");
}

#[test]
fn stop_prices_saturate() {
    let ts = TrailingStop { percent_bp: 20000 };
    let spec = PositionSpec::new("X".to_string(), Side::Buy, 1);
    let mut c = TrailingStopCache::build(&spec, 10);
    assert_eq!(ts.on_price(&mut c, 100, Side::Buy, 1).unwrap().orders[0].price, 0);
    let mut c = TrailingStopCache::build(&spec, u64::MAX);
    assert_eq!(ts.on_price(&mut c, u64::MAX - 1, Side::Sell, 1).unwrap().orders[0].price, u64::MAX);
}

#[test]
fn query_signature_is_hex_hmac_sha256() {
    let url = sign_query("https://h/x", "The quick brown fox jumps over the lazy dog", "key");
    assert_eq!(
        url,
        "https://h/x?The quick brown fox jumps over the lazy dog&signature=f7bc83f430538424b13298e6aa6fb143ef4d59a14946175997479dbc2d1a3cd8"
    );
}

#[test]
fn signed_url_encodes_parameters_in_order() {
    let params = vec![
        ("symbol".to_string(), "BTCUSDT".to_string()),
        ("side".to_string(), "BUY".to_string()),
        ("note".to_string(), "a b&c".to_string()),
    ];
    let url = signed_url("https://h/o", &params, "s").unwrap();
    let expected_query = "symbol=BTCUSDT&side=BUY&note=a+b%26c";
    assert_eq!(url, sign_query("https://h/o", expected_query, "s"));
    assert!(url.starts_with("https://h/o?symbol=BTCUSDT&side=BUY&note=a+b%26c&signature="));
    assert_eq!(url.len(), "https://h/o?".len() + expected_query.len() + "&signature=".len() + 64);
}
