use vstd::prelude::*;

verus! {

/// HTTP verbs of the exchange's REST interface.
#[derive(Debug, Clone, Copy, PartialEq, Eq, Structural)]
pub enum HttpMethod {
    GET,
    POST,
    PUT,
    DELETE,
}

/// Order types as the exchange names them on submission.
#[derive(Debug, Clone, Copy, PartialEq, Eq, Structural)]
pub enum BinanceOrder {
    Market,
    Limit,
    StopLoss,
    StopLossLimit,
    TakeProfit,
    TakeProfitLimit,
    LimitMaker,
}

/// The exchange's name of an order type.
pub open spec fn order_type_name(o: BinanceOrder) -> Seq<char> {
    match o {
        BinanceOrder::Market => "MARKET"@,
        BinanceOrder::Limit => "LIMIT"@,
        BinanceOrder::StopLoss => "STOP_LOSS"@,
        BinanceOrder::StopLossLimit => "STOP_LOSS_LIMIT"@,
        BinanceOrder::TakeProfit => "TAKE_PROFIT"@,
        BinanceOrder::TakeProfitLimit => "TAKE_PROFIT_LIMIT"@,
        BinanceOrder::LimitMaker => "LIMIT_MAKER"@,
    }
}

impl BinanceOrder {
    /// The `type` parameter of an order submission.
    pub fn to_string(&self) -> (r: String)
        ensures
            r@ == order_type_name(*self),
    {
        match self {
            BinanceOrder::Market => "MARKET".to_owned(),
            BinanceOrder::Limit => "LIMIT".to_owned(),
            BinanceOrder::StopLoss => "STOP_LOSS".to_owned(),
            BinanceOrder::StopLossLimit => "STOP_LOSS_LIMIT".to_owned(),
            BinanceOrder::TakeProfit => "TAKE_PROFIT".to_owned(),
            BinanceOrder::TakeProfitLimit => "TAKE_PROFIT_LIMIT".to_owned(),
            BinanceOrder::LimitMaker => "LIMIT_MAKER".to_owned(),
        }
    }
}

/// Status of a submitted order as the exchange reports it.
#[derive(Debug, Clone, Copy, PartialEq, Eq, Structural)]
pub enum OrderStatus {
    New,
    PartiallyFilled,
    Filled,
    Canceled,
    Expired,
    ExpiredInMatch,
}

/// Whether the order can no longer fill.
pub open spec fn is_terminal_failure(s: OrderStatus) -> bool {
    s == OrderStatus::Canceled || s == OrderStatus::Expired || s == OrderStatus::ExpiredInMatch
}

/// One candlestick as the exchange returns it, prices as decimal strings.
#[derive(Debug)]
pub struct ResponseKline {
    pub open_time: i64,
    pub open: String,
    pub high: String,
    pub low: String,
    pub close: String,
    pub volume: String,
    pub close_time: u64,
    pub quote_asset_volume: String,
    pub number_of_trades: usize,
    pub taker_buy_base_asset_volume: String,
    pub taker_buy_quote_asset_volume: String,
    pub ignore: String,
}

} // verus!
