//! Trades: matched fills between a buy order and a sell order.
use vstd::prelude::*;

use crate::order::clock_nanos;
use crate::types::{OrderId, Price, Quantity, TradeId, UserId};

verus! {

/// Mathematical content of a [`TradeInfo`].
pub struct TradeInfoView {
    pub order_id: OrderId,
    pub price: Price,
    pub quantity: Quantity,
    pub user_id: UserId,
}

/// One side of a matched trade: the order, the execution price, the
/// matched quantity and the order's owner.
#[derive(Debug, Clone, Copy)]
pub struct TradeInfo {
    order_id: OrderId,
    price: Price,
    quantity: Quantity,
    user_id: UserId,
}

impl View for TradeInfo {
    type V = TradeInfoView;

    closed spec fn view(&self) -> TradeInfoView {
        TradeInfoView {
            order_id: self.order_id,
            price: self.price,
            quantity: self.quantity,
            user_id: self.user_id,
        }
    }
}

impl TradeInfo {
    /// Creates one side of a trade.
    pub fn new(order_id: OrderId, price: Price, quantity: Quantity, user_id: UserId) -> (t:
        TradeInfo)
        ensures
            t@ == (TradeInfoView { order_id, price, quantity, user_id }),
    {
        TradeInfo { order_id, price, quantity, user_id }
    }

    /// Returns the id of the filled order.
    pub fn get_order_id(&self) -> (r: OrderId)
        ensures
            r == self@.order_id,
    {
        self.order_id
    }

    /// Returns the execution price.
    pub fn get_price(&self) -> (r: Price)
        ensures
            r == self@.price,
    {
        self.price
    }

    /// Returns the matched quantity.
    pub fn get_quantity(&self) -> (r: Quantity)
        ensures
            r == self@.quantity,
    {
        self.quantity
    }

    /// Returns the owner of the filled order.
    pub fn get_user_id(&self) -> (r: UserId)
        ensures
            r == self@.user_id,
    {
        self.user_id
    }
}

/// Mathematical content of a [`Trade`].
pub struct TradeView {
    pub trade_id: TradeId,
    pub timestamp: u64,
    pub bid: TradeInfoView,
    pub ask: TradeInfoView,
}

/// A single fill between a buy order (`bid`) and a sell order (`ask`).
#[derive(Debug, Clone, Copy)]
pub struct Trade {
    trade_id: TradeId,
    timestamp: u64,
    bid_trade: TradeInfo,
    ask_trade: TradeInfo,
}

impl View for Trade {
    type V = TradeView;

    closed spec fn view(&self) -> TradeView {
        TradeView {
            trade_id: self.trade_id,
            timestamp: self.timestamp,
            bid: self.bid_trade@,
            ask: self.ask_trade@,
        }
    }
}

impl Trade {
    /// Creates a trade stamped with the current time.
    pub fn new(trade_id: TradeId, bid_trade: TradeInfo, ask_trade: TradeInfo) -> (t: Trade)
        ensures
            t@.trade_id == trade_id,
            t@.bid == bid_trade@,
            t@.ask == ask_trade@,
    {
        let ts = clock_nanos();
        Trade { trade_id, timestamp: ts, bid_trade, ask_trade }
    }

    /// Returns the trade id.
    pub fn get_trade_id(&self) -> (r: TradeId)
        ensures
            r == self@.trade_id,
    {
        self.trade_id
    }

    /// Returns the timestamp (nanoseconds since the Unix epoch).
    pub fn get_timestamp(&self) -> (r: u64)
        ensures
            r == self@.timestamp,
    {
        self.timestamp
    }

    /// Returns the buy side of the trade.
    pub fn get_bid_trade_info(&self) -> (r: &TradeInfo)
        ensures
            r@ == self@.bid,
    {
        &self.bid_trade
    }

    /// Returns the sell side of the trade.
    pub fn get_ask_trade_info(&self) -> (r: &TradeInfo)
        ensures
            r@ == self@.ask,
    {
        &self.ask_trade
    }

    /// Overwrites the trade id.
    pub fn set_trade_id(&mut self, id: TradeId)
        ensures
            final(self)@ == (TradeView { trade_id: id, ..old(self)@ }),
    {
        self.trade_id = id;
    }

    /// Overwrites the timestamp.
    pub fn set_timestamp(&mut self, ts: u64)
        ensures
            final(self)@ == (TradeView { timestamp: ts, ..old(self)@ }),
    {
        self.timestamp = ts;
    }
}

/// Trades in the order they were produced.
pub type Trades = std::collections::VecDeque<Trade>;

} // verus!
