//! Order book depth snapshots.
use vstd::prelude::*;

use crate::types::{Price, Quantity};

verus! {

/// One price level of a depth snapshot: the price and the total remaining
/// quantity of the orders resting there.
#[derive(Debug, Clone, Copy, PartialEq, Eq, Structural)]
pub struct LevelInfo {
    /// Price in quote units.
    pub price: Price,
    /// Total remaining quantity at this price.
    pub quantity: Quantity,
}

impl LevelInfo {
    /// Creates a price level snapshot.
    pub fn new(price: Price, quantity: Quantity) -> (l: LevelInfo)
        ensures
            l.price == price,
            l.quantity == quantity,
    {
        LevelInfo { price, quantity }
    }
}

/// A sequence of price levels.
pub type LevelInfos = std::collections::VecDeque<LevelInfo>;

/// A full depth snapshot. Each side lists its best level first: bids by
/// descending price, asks by ascending price.
#[derive(Debug, Clone)]
pub struct OrderBookLevelInfo {
    bids: LevelInfos,
    asks: LevelInfos,
}

impl View for OrderBookLevelInfo {
    type V = (Seq<LevelInfo>, Seq<LevelInfo>);

    closed spec fn view(&self) -> (Seq<LevelInfo>, Seq<LevelInfo>) {
        (self.bids@, self.asks@)
    }
}

impl OrderBookLevelInfo {
    /// Creates a snapshot from its bid and ask levels.
    pub fn new(bids: LevelInfos, asks: LevelInfos) -> (info: OrderBookLevelInfo)
        ensures
            info@.0 == bids@,
            info@.1 == asks@,
    {
        OrderBookLevelInfo { bids, asks }
    }
}

/// Read access to the two sides of a depth snapshot.
#[allow(non_camel_case_types)]
pub trait getOrderBookLevelInfos {
    /// The view of the snapshot's two sides.
    spec fn levels(&self) -> (Seq<LevelInfo>, Seq<LevelInfo>);

    /// Returns the bid levels (best, i.e. highest, first).
    fn get_bids(&self) -> (r: &LevelInfos)
        ensures
            r@ == self.levels().0,
    ;

    /// Returns the ask levels (best, i.e. lowest, first).
    fn get_asks(&self) -> (r: &LevelInfos)
        ensures
            r@ == self.levels().1,
    ;
}

impl getOrderBookLevelInfos for OrderBookLevelInfo {
    open spec fn levels(&self) -> (Seq<LevelInfo>, Seq<LevelInfo>) {
        self@
    }

    fn get_bids(&self) -> (r: &LevelInfos) {
        &self.bids
    }

    fn get_asks(&self) -> (r: &LevelInfos) {
        &self.asks
    }
}

} // verus!
