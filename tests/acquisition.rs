use discretionary_engine::acquisition::{
    poll_outcome, quantity_parts, quantity_steps, spec_from_size, AcquisitionError, PollOutcome, PositionAcquisition,
    PositionSpec,
};
use discretionary_engine::exchange::{BinanceOrder, OrderStatus};
use discretionary_engine::orders::Side;

#[test]
fn btc_entry_quantity() {
    let q = quantity_steps(1000, 50_000, 3).unwrap();
    assert_eq!(q, 20);
    let (whole, frac) = quantity_parts(q, 3);
    assert_eq!(format!("{}.{:0width$}", whole, frac, width = 3), "0.020");
}

#[test]
fn quantity_rounds_half_up() {
    assert_eq!(quantity_steps(1, 3, 0), Ok(0));
    assert_eq!(quantity_steps(2, 3, 0), Ok(1));
    assert_eq!(quantity_steps(3, 2, 0), Ok(2));
    assert_eq!(quantity_steps(1000, 30_000, 3), Ok(33));
}

#[test]
fn sizing_errors() {
    assert_eq!(quantity_steps(0, 50_000, 3), Err(AcquisitionError::ZeroSize));
    assert_eq!(quantity_steps(1000, 0, 3), Err(AcquisitionError::ZeroPrice));
    assert_eq!(quantity_steps(1000, 50_000, 19), Err(AcquisitionError::PrecisionTooFine));
    assert_eq!(quantity_steps(u64::MAX, 1, 18).unwrap(), u64::MAX as u128 * 1_000_000_000_000_000_000);
}

#[test]
fn size_sign_picks_side() {
    let buy = spec_from_size("BTC".to_string(), 2500, 4000).unwrap();
    assert_eq!(buy.side, Side::Buy);
    assert_eq!(buy.target_notional, 1000);
    assert_eq!(buy.asset, "BTC");
    let sell = spec_from_size("ETH".to_string(), -5000, 4000).unwrap();
    assert_eq!(sell.side, Side::Sell);
    assert_eq!(sell.target_notional, 2000);
    assert_eq!(spec_from_size("BTC".to_string(), 0, 4000).err(), Some(AcquisitionError::ZeroSize));
    assert_eq!(
        spec_from_size("BTC".to_string(), i64::MAX, u64::MAX).err(),
        Some(AcquisitionError::SizeTooLarge)
    );
    assert_eq!(spec_from_size("BTC".to_string(), i64::MIN, 1).unwrap().target_notional, 922_337_203_685_477);
}

#[test]
fn poll_statuses() {
    assert_eq!(poll_outcome(OrderStatus::New), PollOutcome::Pending);
    assert_eq!(poll_outcome(OrderStatus::PartiallyFilled), PollOutcome::Pending);
    assert_eq!(poll_outcome(OrderStatus::Filled), PollOutcome::Filled);
    assert_eq!(poll_outcome(OrderStatus::Canceled), PollOutcome::Failed);
    assert_eq!(poll_outcome(OrderStatus::Expired), PollOutcome::Failed);
    assert_eq!(poll_outcome(OrderStatus::ExpiredInMatch), PollOutcome::Failed);
}

#[test]
fn acquisition_accumulates_on_fill() {
    let mut a = PositionAcquisition::start(PositionSpec::new("BTC".to_string(), Side::Buy, 1000));
    assert_eq!(a.acquired_notional, 0);
    assert_eq!(a.on_poll(OrderStatus::New, 0), Ok(false));
    assert_eq!(a.on_poll(OrderStatus::PartiallyFilled, 400), Ok(false));
    assert_eq!(a.acquired_notional, 0);
    assert_eq!(a.on_poll(OrderStatus::Filled, 998), Ok(true));
    assert_eq!(a.acquired_notional, 998);
    assert_eq!(a.target_notional, 1000);
}

#[test]
fn acquisition_fails_on_terminal_status() {
    let mut a = PositionAcquisition::start(PositionSpec::new("BTC".to_string(), Side::Sell, 1000));
    assert_eq!(
        a.on_poll(OrderStatus::Expired, 0),
        Err(AcquisitionError::OrderFailed(OrderStatus::Expired))
    );
    assert_eq!(a.acquired_notional, 0);
}

#[test]
fn debug_acquisition_is_fixed() {
    let a = PositionAcquisition::dbg_new(PositionSpec::new("BTC".to_string(), Side::Buy, 5));
    assert_eq!(a.target_notional, 10);
    assert_eq!(a.acquired_notional, 10);
}

#[test]
fn order_type_names() {
    assert_eq!(BinanceOrder::Market.to_string(), "MARKET");
    assert_eq!(BinanceOrder::StopLossLimit.to_string(), "STOP_LOSS_LIMIT");
    assert_eq!(BinanceOrder::TakeProfit.to_string(), "TAKE_PROFIT");
    assert_eq!(BinanceOrder::LimitMaker.to_string(), "LIMIT_MAKER");
}
