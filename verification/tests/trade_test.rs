use vertex_engine::order::Order;
use vertex_engine::order_modify::OrderModify;
use vertex_engine::snowflake_id::SnowFlakeGenerator;
use vertex_engine::trading_pair::TradingPair;
use vertex_engine::types::{Asset, OrderId, OrderStatus, OrderType, Price, Quantity, Side, UserId};

use vertex_engine::trade::{Trade, TradeInfo, Trades};


#[test]
fn trade_info_new_stores_fields() {
    let uid = make_user_id();
    let info = TradeInfo::new(42, 50000, 10, uid);
    assert_eq!(info.get_order_id(), 42);
    assert_eq!(info.get_price(), 50000);
    assert_eq!(info.get_quantity(), 10);
    assert_eq!(info.get_user_id(), uid);
}

#[test]
fn trade_new_sets_bid_ask_and_timestamp() {
    let uid1 = make_user_id();
    let uid2 = make_user_id();
    let bid = TradeInfo::new(1, 50000, 10, uid1);
    let ask = TradeInfo::new(2, 50000, 10, uid2);
    let trade = Trade::new(100, bid, ask);
    assert_eq!(trade.get_trade_id(), 100);
    assert!(trade.get_timestamp() > 0);
    assert_eq!(trade.get_bid_trade_info().get_order_id(), 1);
    assert_eq!(trade.get_ask_trade_info().get_order_id(), 2);
}

#[test]
fn set_trade_id_overwrites() {
    let uid1 = make_user_id();
    let uid2 = make_user_id();
    let mut trade = Trade::new(
        0,
        TradeInfo::new(1, 50000, 10, uid1),
        TradeInfo::new(2, 50000, 10, uid2),
    );
    assert_eq!(trade.get_trade_id(), 0);
    trade.set_trade_id(999);
    assert_eq!(trade.get_trade_id(), 999);
}

#[test]
fn set_timestamp_overwrites() {
    let uid1 = make_user_id();
    let uid2 = make_user_id();
    let mut trade = Trade::new(
        0,
        TradeInfo::new(1, 50000, 10, uid1),
        TradeInfo::new(2, 50000, 10, uid2),
    );
    let first_ts = trade.get_timestamp();
    trade.set_timestamp(12345);
    assert_eq!(trade.get_timestamp(), 12345);
    assert_ne!(trade.get_timestamp(), first_ts);
}

#[test]
fn trades_fifo_ordering() {
    let uid1 = make_user_id();
    let uid2 = make_user_id();
    let mut trades: Trades = Trades::new();
    let t1 = Trade::new(
        1,
        TradeInfo::new(1, 50000, 10, uid1),
        TradeInfo::new(2, 50000, 10, uid2),
    );
    let t2 = Trade::new(
        2,
        TradeInfo::new(3, 51000, 5, uid1),
        TradeInfo::new(4, 51000, 5, uid2),
    );
    trades.push_back(t1);
    trades.push_back(t2);
    assert_eq!(trades.pop_front().unwrap().get_trade_id(), 1);
    assert_eq!(trades.pop_front().unwrap().get_trade_id(), 2);
    assert!(trades.is_empty());
}


#[allow(dead_code)]
fn next_order_id() -> OrderId {
    uuid::Uuid::new_v4().as_u64_pair().0
}

#[allow(dead_code)]
fn make_user_id() -> UserId {
    uuid::Uuid::new_v4().as_u128()
}

#[allow(dead_code)]
fn make_user_id_fixed(seed: u64) -> UserId {
    seed as u128
}

#[allow(dead_code)]
fn make_order(order_type: OrderType, side: Side, price: Price, quantity: Quantity, user_id: UserId) -> Order {
    Order::new(next_order_id(), order_type, side, OrderStatus::Empty, price, quantity, user_id)
}

#[allow(dead_code)]
fn make_order_with_id(
    order_id: OrderId,
    order_type: OrderType,
    side: Side,
    price: Price,
    quantity: Quantity,
    user_id: UserId,
) -> Order {
    Order::new(order_id, order_type, side, OrderStatus::Empty, price, quantity, user_id)
}

#[allow(dead_code)]
fn make_modify(order_id: OrderId, price: Price, side: Side, quantity: Quantity, user_id: UserId) -> OrderModify {
    OrderModify::new(order_id, price, side, quantity, OrderStatus::Empty, user_id)
}

#[allow(dead_code)]
fn make_pair(base: Asset, quote: Asset) -> TradingPair {
    TradingPair::new(base, quote)
}

#[allow(dead_code)]
fn make_generator() -> SnowFlakeGenerator {
    SnowFlakeGenerator::new(1, 1)
}
