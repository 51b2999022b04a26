//! Wire forms of the engine's values, as the service exchanges them.
use vstd::prelude::*;

verus! {

/// An asset on the wire.
#[derive(Debug, Clone, Copy, PartialEq, Eq, Structural)]
pub enum Asset {
    Eth,
    Sol,
    Btc,
    Usdc,
    Usdt,
}

/// A side on the wire.
#[derive(Debug, Clone, Copy, PartialEq, Eq, Structural)]
pub enum Side {
    Buy,
    Sell,
}

/// An order type on the wire.
#[derive(Debug, Clone, Copy, PartialEq, Eq, Structural)]
pub enum OrderType {
    GoodTillCancel,
    GoodForDay,
    FillAndKill,
    FillOrKill,
}

/// A trading pair on the wire.
#[derive(Debug, Clone, Copy, PartialEq, Eq, Structural)]
pub struct TradingPair {
    pub base: Asset,
    pub quote: Asset,
}

/// One side of a trade on the wire; the user id is the UUID text.
#[derive(Debug)]
pub struct TradeInfo {
    pub order_id: u64,
    pub price: i32,
    pub quantity: u32,
    pub user_id: String,
}

/// A trade on the wire.
#[derive(Debug)]
pub struct Trade {
    pub trade_id: u64,
    pub timestamp: u64,
    pub bid_trade: Option<TradeInfo>,
    pub ask_trade: Option<TradeInfo>,
}

} // verus!
