use vstd::prelude::*;

verus! {

/// Direction of a position or of an order.
#[derive(Debug, Clone, Copy, PartialEq, Eq, Structural)]
pub enum Side {
    Buy,
    Sell,
}

impl Side {
    /// The side that closes exposure opened on `self`.
    pub fn opposite(&self) -> (r: Side)
        ensures
            r != *self,
    {
        match self {
            Side::Buy => Side::Sell,
            Side::Sell => Side::Buy,
        }
    }
}

/// The three kinds of conceptual order the engine knows.
#[derive(Debug, Clone, Copy, PartialEq, Eq, Structural)]
pub enum OrderKind {
    Market,
    Limit,
    StopMarket,
}

/// A desired order, not a live exchange order. Notional is in quote-currency
/// units; `price` is in price ticks and carries no meaning for a market order.
#[derive(Debug)]
pub struct ConceptualOrder {
    /// Identity of the sub-order, the key of the fill ledger.
    pub id: u128,
    /// The strategy that emitted this order.
    pub producer: u64,
    pub kind: OrderKind,
    pub symbol: String,
    pub side: Side,
    pub price: u64,
    pub notional: u64,
}

impl ConceptualOrder {
    /// The same order with another notional.
    pub open spec fn with_notional(self, n: u64) -> ConceptualOrder {
        ConceptualOrder {
            id: self.id,
            producer: self.producer,
            kind: self.kind,
            symbol: self.symbol,
            side: self.side,
            price: self.price,
            notional: n,
        }
    }

    /// A copy of this order carrying notional `n`.
    pub fn resized(&self, n: u64) -> (r: ConceptualOrder)
        ensures
            r == self.with_notional(n),
    {
        ConceptualOrder {
            id: self.id,
            producer: self.producer,
            kind: self.kind,
            symbol: self.symbol.clone(),
            side: self.side,
            price: self.price,
            notional: n,
        }
    }

    /// An exact copy of this order.
    pub fn duplicate(&self) -> (r: ConceptualOrder)
        ensures
            r == *self,
    {
        self.resized(self.notional)
    }
}

/// Sum of the notionals of a sequence of orders.
pub open spec fn total(s: Seq<ConceptualOrder>) -> nat
    decreases s.len(),
{
    if s.len() == 0 {
        0
    } else {
        total(s.drop_last()) + s.last().notional as nat
    }
}

/// `a - b`, or zero where `b` exceeds `a`.
pub open spec fn sat_sub(a: int, b: int) -> int {
    if a > b {
        a - b
    } else {
        0
    }
}

/// The orders of `s` of kind `k`, in their order in `s`.
pub open spec fn of_kind(s: Seq<ConceptualOrder>, k: OrderKind) -> Seq<ConceptualOrder>
    decreases s.len(),
{
    if s.len() == 0 {
        seq![]
    } else if s.last().kind == k {
        of_kind(s.drop_last(), k).push(s.last())
    } else {
        of_kind(s.drop_last(), k)
    }
}

} // verus!
