use vstd::prelude::*;
use crate::orders::{OrderKind, Side};
use crate::acquisition::PositionSpec;
use crate::followup::{ProtocolOrder, ProtocolOrderBatch, ProtocolType, WEIGHT_SCALE};

verus! {

/// Relies on uuid::Uuid::new_v4, read as a `u128` by Uuid::as_u128: a random
/// version-4 identity, whose version nibble is 4 and whose variant bits are
/// `10`.
#[verifier::external_body]
fn new_order_id() -> (r: u128)
    ensures
        (r >> 76u128) & 0xfu128 == 4,
        (r >> 62u128) & 3u128 == 2,
{
    uuid::Uuid::new_v4().as_u128()
}

/// Trailing stop: follows the best price seen and keeps one stop order a
/// fixed distance behind it.
#[derive(Debug, Clone, Copy, PartialEq, Eq, Structural)]
pub struct TrailingStop {
    /// Distance of the stop from the best price, in basis points.
    pub percent_bp: u64,
}

/// Highest and lowest prices seen, kept for both directions.
#[derive(Debug)]
pub struct TrailingStopCache {
    pub symbol: String,
    pub top: u64,
    pub bottom: u64,
}

impl TrailingStopCache {
    /// Seeds the cache from the position and the current price.
    pub fn build(position: &PositionSpec, price: u64) -> (r: TrailingStopCache)
        ensures
            r.symbol == position.asset,
            r.top == price,
            r.bottom == price,
    {
        TrailingStopCache { symbol: position.asset.clone(), top: price, bottom: price }
    }
}

/// Stop price for a short position after a new low: `percent_bp` above it,
/// capped at the largest price.
pub open spec fn stop_above(price: u64, percent_bp: u64) -> u64 {
    let p = price + (price as int * percent_bp as int) / (WEIGHT_SCALE as int);
    if p > u64::MAX {
        u64::MAX
    } else {
        p as u64
    }
}

/// Stop price for a long position after a new high: `percent_bp` below it,
/// floored at zero.
pub open spec fn stop_below(price: u64, percent_bp: u64) -> u64 {
    let p = price - (price as int * percent_bp as int) / (WEIGHT_SCALE as int);
    if p < 0 {
        0
    } else {
        p as u64
    }
}

/// Price of the stop that a new price calls for, if any: a new low moves the
/// stop of a short position, a new high the stop of a long one.
pub open spec fn trailing_trigger(top: u64, bottom: u64, price: u64, side: Side, percent_bp: u64) -> Option<u64> {
    if price > top && side == Side::Buy {
        Some(stop_below(price, percent_bp))
    } else if price < bottom && side == Side::Sell {
        Some(stop_above(price, percent_bp))
    } else {
        None
    }
}

impl TrailingStop {
    pub fn subtype(&self) -> (r: ProtocolType)
        ensures
            r == ProtocolType::Momentum,
    {
        ProtocolType::Momentum
    }

    /// Takes a new price. Updates the extremes and, where the trailing stop
    /// moves, returns the replacement batch of `producer`: one stop-market
    /// order on the closing side, at the new stop price, for the whole share,
    /// with a fresh identity.
    pub fn on_price(&self, cache: &mut TrailingStopCache, price: u64, side: Side, producer: u64) -> (r: Option<ProtocolOrderBatch>)
        ensures
            final(cache).symbol == old(cache).symbol,
            final(cache).top == if price > old(cache).top { price } else { old(cache).top },
            final(cache).bottom == if price < old(cache).bottom { price } else { old(cache).bottom },
            trailing_trigger(old(cache).top, old(cache).bottom, price, side, self.percent_bp) is None ==> r is None,
            trailing_trigger(old(cache).top, old(cache).bottom, price, side, self.percent_bp) matches Some(stop) ==> (
            r matches Some(b) && {
                &&& b.producer == producer
                &&& b.orders@.len() == 1
                &&& b.orders@[0].kind == OrderKind::StopMarket
                &&& b.orders@[0].side != side
                &&& b.orders@[0].price == stop
                &&& b.orders@[0].weight_bp == WEIGHT_SCALE
                &&& b.orders@[0].symbol == old(cache).symbol
            }),
    {
        assert((price as int) * (self.percent_bp as int) <= 0xffff_ffff_ffff_ffff * 0xffff_ffff_ffff_ffff)
            by (nonlinear_arith)
            requires
                price <= 0xffff_ffff_ffff_ffff,
                self.percent_bp <= 0xffff_ffff_ffff_ffff,
        ;
        let trigger: Option<u64> = if price > cache.top && side == Side::Buy {
            let off: u128 = (price as u128) * (self.percent_bp as u128) / (WEIGHT_SCALE as u128);
            Some(if off > price as u128 { 0 } else { price - off as u64 })
        } else if price < cache.bottom && side == Side::Sell {
            let up: u128 = (price as u128) * (self.percent_bp as u128) / (WEIGHT_SCALE as u128) + price as u128;
            Some(if up > u64::MAX as u128 { u64::MAX } else { up as u64 })
        } else {
            None
        };
        if price > cache.top {
            cache.top = price;
        }
        if price < cache.bottom {
            cache.bottom = price;
        }
        match trigger {
            None => None,
            Some(stop) => {
                let order = ProtocolOrder {
                    id: new_order_id(),
                    kind: OrderKind::StopMarket,
                    symbol: cache.symbol.clone(),
                    side: side.opposite(),
                    price: stop,
                    weight_bp: WEIGHT_SCALE,
                };
                let mut orders: Vec<ProtocolOrder> = Vec::new();
                orders.push(order);
                Some(ProtocolOrderBatch { producer, orders })
            },
        }
    }
}

} // verus!
