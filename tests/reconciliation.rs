use discretionary_engine::orders::{ConceptualOrder, OrderKind, Side};
use discretionary_engine::reconcile::{recompute, TargetOrderSet};

fn order(id: u128, kind: OrderKind, price: u64, notional: u64) -> ConceptualOrder {
    ConceptualOrder {
        id,
        producer: 1,
        kind,
        symbol: "BTCUSDT".to_string(),
        side: Side::Sell,
        price,
        notional,
    }
}

fn notionals(t: &TargetOrderSet) -> Vec<(u128, u64)> {
    t.orders.iter().map(|o| (o.id, o.notional)).collect()
}

#[test]
fn market_order_consumes_stop_budget() {
    let orders = vec![
        order(1, OrderKind::StopMarket, 100, 1000),
        order(2, OrderKind::Market, 0, 1000),
    ];
    let t = recompute(&orders, 1000, 0, Side::Buy);
    assert_eq!(notionals(&t), vec![(2, 1000), (1, 0)]);
    assert_eq!(t.market_orders_notional, 1000);
    assert_eq!(t.stop_orders_notional, 0);
    assert_eq!(t.limit_orders_notional, 0);
}

#[test]
fn nearer_stop_is_kept_whole_on_long() {
    let orders = vec![
        order(1, OrderKind::StopMarket, 90, 600),
        order(2, OrderKind::StopMarket, 95, 600),
    ];
    let t = recompute(&orders, 1000, 0, Side::Buy);
    assert_eq!(notionals(&t), vec![(2, 600), (1, 400)]);
    assert_eq!(t.stop_orders_notional, 1000);
}

#[test]
fn short_position_sorts_stops_ascending_and_limits_descending() {
    let orders = vec![
        order(1, OrderKind::StopMarket, 110, 300),
        order(2, OrderKind::StopMarket, 105, 300),
        order(3, OrderKind::Limit, 80, 200),
        order(4, OrderKind::Limit, 90, 200),
    ];
    let t = recompute(&orders, 500, 0, Side::Sell);
    assert_eq!(notionals(&t), vec![(2, 300), (1, 200), (4, 200), (3, 200)]);
    assert_eq!(t.stop_orders_notional, 500);
    assert_eq!(t.limit_orders_notional, 400);
}

#[test]
fn long_position_sorts_limits_ascending() {
    let orders = vec![
        order(1, OrderKind::Limit, 130, 700),
        order(2, OrderKind::Limit, 120, 700),
    ];
    let t = recompute(&orders, 1000, 0, Side::Buy);
    assert_eq!(notionals(&t), vec![(2, 700), (1, 300)]);
    assert_eq!(t.limit_orders_notional, 1000);
}

#[test]
fn equal_prices_keep_arrival_order() {
    let orders = vec![
        order(1, OrderKind::StopMarket, 95, 600),
        order(2, OrderKind::StopMarket, 95, 600),
    ];
    let t = recompute(&orders, 1000, 0, Side::Buy);
    assert_eq!(notionals(&t), vec![(1, 600), (2, 400)]);
}

#[test]
fn market_orders_clip_to_open_notional() {
    let orders = vec![
        order(1, OrderKind::Market, 0, 700),
        order(2, OrderKind::Market, 0, 700),
        order(3, OrderKind::Limit, 120, 100),
    ];
    let t = recompute(&orders, 1000, 0, Side::Buy);
    assert_eq!(notionals(&t), vec![(1, 700), (2, 300), (3, 0)]);
    assert_eq!(t.market_orders_notional, 1000);
}

#[test]
fn closed_notional_reduces_budget() {
    let orders = vec![order(1, OrderKind::StopMarket, 90, 1000)];
    let t = recompute(&orders, 1000, 250, Side::Buy);
    assert_eq!(notionals(&t), vec![(1, 750)]);
}

#[test]
fn pools_under_budget_are_kept_whole() {
    let orders = vec![
        order(1, OrderKind::Market, 0, 100),
        order(2, OrderKind::StopMarket, 90, 300),
        order(3, OrderKind::Limit, 120, 400),
    ];
    let t = recompute(&orders, 1000, 0, Side::Buy);
    assert_eq!(notionals(&t), vec![(1, 100), (2, 300), (3, 400)]);
    // every tracker stays non-negative
    assert!(t.market_orders_notional + t.stop_orders_notional <= 1000);
    assert!(t.market_orders_notional + t.limit_orders_notional <= 1000);
}

#[test]
fn clipping_gives_exactly_the_remaining_budget() {
    let orders = vec![
        order(1, OrderKind::Market, 0, 150),
        order(2, OrderKind::StopMarket, 90, 500),
        order(3, OrderKind::StopMarket, 80, 500),
        order(4, OrderKind::Limit, 120, 900),
    ];
    let t = recompute(&orders, 1000, 0, Side::Buy);
    assert_eq!(t.stop_orders_notional, 850);
    assert_eq!(t.limit_orders_notional, 850);
}

#[test]
fn market_order_processing_order_does_not_matter() {
    let a = vec![
        order(1, OrderKind::Market, 0, 300),
        order(2, OrderKind::Market, 0, 200),
        order(3, OrderKind::StopMarket, 90, 1000),
    ];
    let b = vec![
        order(2, OrderKind::Market, 0, 200),
        order(3, OrderKind::StopMarket, 90, 1000),
        order(1, OrderKind::Market, 0, 300),
    ];
    let ta = recompute(&a, 1000, 0, Side::Buy);
    let tb = recompute(&b, 1000, 0, Side::Buy);
    assert_eq!(ta.market_orders_notional, tb.market_orders_notional);
    assert_eq!(ta.stop_orders_notional, 500);
    assert_eq!(tb.stop_orders_notional, 500);
}

#[test]
fn recompute_is_idempotent() {
    let orders = vec![
        order(1, OrderKind::StopMarket, 90, 600),
        order(2, OrderKind::Limit, 120, 600),
        order(3, OrderKind::Market, 0, 100),
    ];
    let a = recompute(&orders, 1000, 0, Side::Buy);
    let b = recompute(&orders, 1000, 0, Side::Buy);
    assert_eq!(notionals(&a), notionals(&b));
    assert_eq!(a.market_orders_notional, b.market_orders_notional);
    assert_eq!(a.stop_orders_notional, b.stop_orders_notional);
    assert_eq!(a.limit_orders_notional, b.limit_orders_notional);
}

#[test]
fn empty_input_gives_empty_target() {
    let t = recompute(&Vec::new(), 1000, 0, Side::Sell);
    assert!(t.orders.is_empty());
    assert_eq!(t.market_orders_notional, 0);
}

#[test]
fn side_opposite_flips() {
    assert_eq!(Side::Buy.opposite(), Side::Sell);
    assert_eq!(Side::Sell.opposite(), Side::Buy);
}
