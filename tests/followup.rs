use discretionary_engine::followup::{
    FillRecord, FollowupEvent, FollowupPhase, PositionFollowup, ProtocolOrder, ProtocolOrderBatch, ProtocolType,
    StrategyEntry, closed_from, filled_for, record_fill, weights_within,
};
use discretionary_engine::orders::{OrderKind, Side};

fn momentum(producer: u64) -> StrategyEntry {
    StrategyEntry { producer, subtype: ProtocolType::Momentum }
}

fn stop(id: u128, price: u64, weight_bp: u64) -> ProtocolOrder {
    ProtocolOrder { id, kind: OrderKind::StopMarket, symbol: "BTC".to_string(), side: Side::Sell, price, weight_bp }
}

fn batch(producer: u64, orders: Vec<ProtocolOrder>) -> FollowupEvent {
    FollowupEvent::Batch(ProtocolOrderBatch { producer, orders })
}

#[test]
fn shares_split_equally_within_subtype() {
    let f = PositionFollowup::new(Side::Buy, 900, &vec![momentum(1), momentum(2), momentum(3)]).unwrap();
    for s in f.strategies.iter() {
        assert_eq!(s.share, 300);
    }
    assert_eq!(f.phase, FollowupPhase::Running);
}

#[test]
fn duplicate_producers_are_refused() {
    assert!(PositionFollowup::new(Side::Buy, 900, &vec![momentum(1), momentum(1)]).is_none());
}

#[test]
fn all_strategies_triggering_stay_within_acquired() {
    let mut f = PositionFollowup::new(Side::Buy, 1000, &vec![momentum(1), momentum(2), momentum(3)]).unwrap();
    assert!(f.handle(batch(1, vec![stop(11, 90, 10000)])));
    assert!(f.handle(batch(2, vec![stop(21, 91, 10000)])));
    assert!(f.handle(batch(3, vec![stop(31, 92, 10000)])));
    let total: u64 = f.target.orders.iter().map(|o| o.notional).sum();
    assert_eq!(total, 999);
    assert!(total <= 1000);
    assert_eq!(f.target.stop_orders_notional, 999);
}

#[test]
fn batch_scales_weights_against_share() {
    let mut f = PositionFollowup::new(Side::Buy, 1000, &vec![momentum(1), momentum(2)]).unwrap();
    assert!(f.handle(batch(1, vec![stop(11, 90, 2500), stop(12, 95, 5000)])));
    let got: Vec<(u128, u64)> = f.target.orders.iter().map(|o| (o.id, o.notional)).collect();
    assert_eq!(got, vec![(12, 250), (11, 125)]);
}

#[test]
fn later_batch_replaces_earlier_one() {
    let mut f = PositionFollowup::new(Side::Buy, 1000, &vec![momentum(1)]).unwrap();
    assert!(f.handle(batch(1, vec![stop(11, 90, 10000)])));
    assert!(f.handle(batch(1, vec![stop(12, 95, 5000)])));
    let got: Vec<(u128, u64)> = f.target.orders.iter().map(|o| (o.id, o.notional)).collect();
    assert_eq!(got, vec![(12, 500)]);
}

#[test]
fn overweight_and_unknown_batches_are_refused() {
    let mut f = PositionFollowup::new(Side::Buy, 1000, &vec![momentum(1)]).unwrap();
    assert!(!f.handle(batch(1, vec![stop(11, 90, 6000), stop(12, 95, 6000)])));
    assert!(!f.handle(batch(7, vec![stop(71, 90, 100)])));
    assert!(f.target.orders.is_empty());
}

#[test]
fn fills_reduce_orders_and_count_as_closed() {
    let mut f = PositionFollowup::new(Side::Buy, 1000, &vec![momentum(1)]).unwrap();
    assert!(f.handle(batch(1, vec![stop(11, 90, 10000)])));
    assert!(f.handle(FollowupEvent::Fill(FillRecord { order_id: 11, filled_notional: 300 })));
    assert_eq!(f.closed_notional, 300);
    let got: Vec<(u128, u64)> = f.target.orders.iter().map(|o| (o.id, o.notional)).collect();
    assert_eq!(got, vec![(11, 700)]);
    // a later report of the same order overwrites the earlier amount
    assert!(f.handle(FollowupEvent::Fill(FillRecord { order_id: 11, filled_notional: 400 })));
    assert_eq!(f.closed_notional, 400);
    assert_eq!(f.target.orders[0].notional, 600);
}

#[test]
fn fully_filled_position_closes() {
    let mut f = PositionFollowup::new(Side::Buy, 1000, &vec![momentum(1)]).unwrap();
    assert!(f.handle(batch(1, vec![stop(11, 90, 10000)])));
    assert!(f.handle(FollowupEvent::Fill(FillRecord { order_id: 11, filled_notional: 1000 })));
    assert_eq!(f.phase, FollowupPhase::FullyClosed);
    assert!(f.target.orders.is_empty());
    assert!(!f.handle(FollowupEvent::FillsClosed));
}

#[test]
fn disconnected_strategy_keeps_split() {
    let mut f = PositionFollowup::new(Side::Buy, 1000, &vec![momentum(1), momentum(2)]).unwrap();
    assert!(f.handle(batch(1, vec![stop(11, 90, 10000)])));
    assert!(f.handle(FollowupEvent::QueueClosed(1)));
    assert!(!f.strategies[0].open);
    assert_eq!(f.strategies[0].share, 500);
    assert_eq!(f.strategies[1].share, 500);
    // frozen orders of the closed strategy stay in the target set
    assert_eq!(f.target.orders.len(), 1);
    assert!(f.handle(batch(2, vec![stop(21, 95, 10000)])));
    let got: Vec<(u128, u64)> = f.target.orders.iter().map(|o| (o.id, o.notional)).collect();
    assert_eq!(got, vec![(21, 500), (11, 500)]);
    assert!(!f.handle(batch(1, vec![stop(12, 99, 10000)])));
}

#[test]
fn all_sources_closing_ends_followup_distinctly() {
    let mut f = PositionFollowup::new(Side::Sell, 1000, &vec![momentum(1)]).unwrap();
    assert!(f.handle(FollowupEvent::QueueClosed(1)));
    assert_eq!(f.phase, FollowupPhase::Running);
    assert!(f.handle(FollowupEvent::FillsClosed));
    assert_eq!(f.phase, FollowupPhase::SourcesClosed);
}

#[test]
fn ledger_overwrites_and_looks_up() {
    let mut fills = Vec::new();
    record_fill(&mut fills, FillRecord { order_id: 5, filled_notional: 10 });
    record_fill(&mut fills, FillRecord { order_id: 6, filled_notional: 20 });
    record_fill(&mut fills, FillRecord { order_id: 5, filled_notional: 15 });
    assert_eq!(fills.len(), 2);
    assert_eq!(filled_for(&fills, 5), 15);
    assert_eq!(filled_for(&fills, 6), 20);
    assert_eq!(filled_for(&fills, 7), 0);
    assert_eq!(closed_from(100, &fills), 35);
    assert_eq!(closed_from(30, &fills), 30);
}

#[test]
fn weights_checked_against_whole_share() {
    assert!(weights_within(&vec![stop(1, 90, 4000), stop(2, 91, 6000)]));
    assert!(!weights_within(&vec![stop(1, 90, 4000), stop(2, 91, 6001)]));
    assert!(!weights_within(&vec![stop(1, 90, 10001)]));
    assert!(weights_within(&Vec::new()));
}

#[test]
fn find_slot_locates_producers() {
    let f = PositionFollowup::new(Side::Buy, 1000, &vec![momentum(4), momentum(9)]).unwrap();
    assert_eq!(f.find_slot(9), Some(1));
    assert_eq!(f.find_slot(3), None);
}
