//! Scalar aliases and the small enums shared by the whole engine.
use vstd::prelude::*;

use crate::order::Order;
use crate::order_modify::OrderModify;
use crate::trade::Trades;
use crate::trading_pair::TradingPair;

verus! {

/// Price of an order in the smallest quote unit. Signed so that
/// non-positive prices can be represented and rejected.
pub type Price = i32;

/// Quantity of an asset in its smallest unit.
pub type Quantity = u32;

/// Identifier of a user account: the 128-bit value of the account's UUID.
pub type UserId = u128;

/// Identifier of an order, assigned by the engine.
pub type OrderId = u64;

/// Identifier of a trade (fill).
pub type TradeId = u64;

/// Errors that can occur when placing or modifying an order.
#[derive(Debug, Clone, Copy, PartialEq, Eq, Structural)]
pub enum OrderError {
    /// The trading pair has no order book in the engine.
    NoSuchPair,
    /// The order references a user that does not exist in the engine.
    NoSuchUser,
    /// The user does not have enough available balance to cover the order.
    InsufficientBalance,
    /// The order itself is invalid (non-positive price or quantity, notional
    /// overflow, duplicate order id, or unsupported side/user change on modify).
    InvalidOrder,
}

/// Errors of user and balance operations.
#[derive(Debug, Clone, Copy, PartialEq, Eq, Structural)]
pub enum UserError {
    /// The user does not exist in the engine.
    NoSuchUser,
    /// The user's available balance does not cover the request.
    InsufficientBalance,
    /// The request would overflow a balance.
    BalanceOverflow,
}

/// How long an order lives and how it interacts with the book.
#[derive(Debug, Clone, Copy, PartialEq, Eq, Structural)]
pub enum OrderType {
    /// Rests in the book until cancelled or fully filled.
    GoodTillCancel,
    /// Rests in the book like `GoodTillCancel` (day-end expiry is not implemented).
    GoodForDay,
    /// Matches what it can at its limit price; the remainder is discarded.
    FillAndKill,
    /// Fills entirely in one match or not at all.
    FillOrKill,
}

/// Which side of the trade the order is on.
#[derive(Debug, Clone, Copy, PartialEq, Eq, Structural)]
pub enum Side {
    /// Buys the base asset with the quote asset.
    Buy,
    /// Sells the base asset for the quote asset.
    Sell,
}

/// Lifecycle state of an order.
#[derive(Debug, Clone, Copy, PartialEq, Eq, Structural)]
pub enum OrderStatus {
    /// Cancelled by the user or the engine.
    Cancelled,
    /// Some quantity has been matched and some remains.
    PartiallyFilled,
    /// All quantity has been matched.
    Filled,
    /// Initial state before any matching.
    Empty,
}

/// Assets supported by the exchange.
#[derive(Debug, Clone, Copy, PartialEq, Eq, Hash, Structural)]
pub enum Asset {
    /// Ethereum
    ETH,
    /// Solana
    SOL,
    /// Bitcoin
    BTC,
    /// USD Coin
    USDC,
    /// Tether
    USDT,
}

/// The ticker of an asset, as a character sequence.
pub open spec fn asset_ticker(a: Asset) -> Seq<char> {
    match a {
        Asset::ETH => seq!['E', 'T', 'H'],
        Asset::SOL => seq!['S', 'O', 'L'],
        Asset::BTC => seq!['B', 'T', 'C'],
        Asset::USDC => seq!['U', 'S', 'D', 'C'],
        Asset::USDT => seq!['U', 'S', 'D', 'T'],
    }
}

/// The position of an asset in the fixed list of supported assets.
pub open spec fn asset_index(a: Asset) -> int {
    match a {
        Asset::ETH => 0,
        Asset::SOL => 1,
        Asset::BTC => 2,
        Asset::USDC => 3,
        Asset::USDT => 4,
    }
}

impl Asset {
    /// Position of the asset in the fixed list of supported assets.
    pub fn index(&self) -> (i: usize)
        ensures
            i == asset_index(*self),
            i < 5,
    {
        match self {
            Asset::ETH => 0,
            Asset::SOL => 1,
            Asset::BTC => 2,
            Asset::USDC => 3,
            Asset::USDT => 4,
        }
    }

    /// The asset's ticker (`"ETH"`, `"SOL"`, ...).
    pub fn to_string(&self) -> (s: String)
        ensures
            s@ == asset_ticker(*self),
    {
        let t = match self {
            Asset::ETH => "ETH",
            Asset::SOL => "SOL",
            Asset::BTC => "BTC",
            Asset::USDC => "USDC",
            Asset::USDT => "USDT",
        };
        proof {
            reveal_strlit("ETH");
            reveal_strlit("SOL");
            reveal_strlit("BTC");
            reveal_strlit("USDC");
            reveal_strlit("USDT");
        }
        t.to_owned()
    }
}


/// One logged engine command.
#[derive(Debug)]
pub enum WalEntryType {
    /// A trading pair was added.
    AddTradingPair { pair: TradingPair },
    /// A trading pair was removed.
    RemoveTradingPair { pair: TradingPair },
    /// An order was placed (with the trades it made, when recorded).
    AddOrder { pair: TradingPair, order: Order, trades: Option<Trades> },
    /// An order was cancelled (with whether the cancel succeeded).
    CancelOrder { pair: TradingPair, order_id: OrderId, success: bool },
    /// An order was modified (with the trades it made, when recorded).
    ModifyOrder { pair: TradingPair, modify: OrderModify, trades: Option<Trades> },
    /// A user was added.
    AddUser { user_id: UserId },
    /// A user was removed.
    RemoveUser { user_id: UserId },
    /// A balance was deposited.
    DepositBalance { user_id: UserId, asset: Asset, quantity: Quantity },
    /// A balance was withdrawn.
    WithdrawBalance { user_id: UserId, asset: Asset, quantity: Quantity },
}
} // verus!
