use vertex_engine::order::Order;
use vertex_engine::order_modify::OrderModify;
use vertex_engine::snowflake_id::SnowFlakeGenerator;
use vertex_engine::trading_pair::TradingPair;
use vertex_engine::types::{Asset, OrderId, OrderStatus, OrderType, Price, Quantity, Side, UserId};



#[test]
fn new_stores_all_fields() {
    let uid = make_user_id();
    let modify = make_modify(42, 55000, Side::Buy, 20, uid);
    assert_eq!(modify.get_order_id(), 42);
    assert_eq!(modify.get_price(), 55000);
    assert_eq!(modify.get_side(), Side::Buy);
    assert_eq!(modify.get_quantity(), 20);
    assert_eq!(modify.get_status(), OrderStatus::Empty);
    assert_eq!(modify.get_user_id(), uid);
}

#[test]
fn to_order_pointer_creates_correct_order() {
    let uid = make_user_id();
    let modify = make_modify(42, 55000, Side::Sell, 20, uid);
    let order = modify.to_order_pointer(OrderType::FillAndKill);
    assert_eq!(order.get_order_id(), 42);
    assert_eq!(order.get_type(), OrderType::FillAndKill);
    assert_eq!(order.get_side(), Side::Sell);
    assert_eq!(order.get_price(), 55000);
    assert_eq!(order.get_initial_quantity(), 20);
    assert_eq!(order.get_user_id(), uid);
}



#[allow(dead_code)]
fn next_order_id() -> OrderId {
    uuid::Uuid::new_v4().as_u64_pair().0
}

#[allow(dead_code)]
fn make_user_id() -> UserId {
    uuid::Uuid::new_v4().as_u128()
}

#[allow(dead_code)]
fn make_user_id_fixed(seed: u64) -> UserId {
    seed as u128
}

#[allow(dead_code)]
fn make_order(order_type: OrderType, side: Side, price: Price, quantity: Quantity, user_id: UserId) -> Order {
    Order::new(next_order_id(), order_type, side, OrderStatus::Empty, price, quantity, user_id)
}

#[allow(dead_code)]
fn make_order_with_id(
    order_id: OrderId,
    order_type: OrderType,
    side: Side,
    price: Price,
    quantity: Quantity,
    user_id: UserId,
) -> Order {
    Order::new(order_id, order_type, side, OrderStatus::Empty, price, quantity, user_id)
}

#[allow(dead_code)]
fn make_modify(order_id: OrderId, price: Price, side: Side, quantity: Quantity, user_id: UserId) -> OrderModify {
    OrderModify::new(order_id, price, side, quantity, OrderStatus::Empty, user_id)
}

#[allow(dead_code)]
fn make_pair(base: Asset, quote: Asset) -> TradingPair {
    TradingPair::new(base, quote)
}

#[allow(dead_code)]
fn make_generator() -> SnowFlakeGenerator {
    SnowFlakeGenerator::new(1, 1)
}
