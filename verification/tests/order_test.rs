use vertex_engine::order::Order;
use vertex_engine::order_modify::OrderModify;
use vertex_engine::snowflake_id::SnowFlakeGenerator;
use vertex_engine::trading_pair::TradingPair;
use vertex_engine::types::{Asset, OrderId, OrderStatus, OrderType, Price, Quantity, Side, UserId};



#[test]
fn new_sets_fields_correctly() {
    let uid = make_user_id();
    let order = make_order(OrderType::GoodTillCancel, Side::Buy, 50000, 10, uid);
    assert_eq!(order.get_type(), OrderType::GoodTillCancel);
    assert_eq!(order.get_side(), Side::Buy);
    assert_eq!(order.get_price(), 50000);
    assert_eq!(order.get_initial_quantity(), 10);
    assert_eq!(order.get_remaining_quantity(), 10);
    assert_eq!(order.get_user_id(), uid);
    assert_eq!(order.get_status(), OrderStatus::Empty);
}

#[test]
fn initial_equals_remaining_quantity() {
    let uid = make_user_id();
    let order = make_order(OrderType::GoodTillCancel, Side::Sell, 100, 500, uid);
    assert_eq!(order.get_initial_quantity(), order.get_remaining_quantity());
}

#[test]
fn filled_quantity_zero_for_new_order() {
    let uid = make_user_id();
    let order = make_order(OrderType::GoodTillCancel, Side::Buy, 100, 50, uid);
    assert_eq!(order.get_filled_quantity(), 0);
}

#[test]
fn is_filled_false_for_new_order() {
    let uid = make_user_id();
    let order = make_order(OrderType::GoodTillCancel, Side::Buy, 100, 50, uid);
    assert!(!order.is_filled());
}

#[test]
fn partial_fill_reduces_remaining_sets_partially_filled() {
    let uid = make_user_id();
    let mut order = make_order(OrderType::GoodTillCancel, Side::Buy, 100, 10, uid);
    order.fills(3).unwrap();
    assert_eq!(order.get_remaining_quantity(), 7);
    assert_eq!(order.get_filled_quantity(), 3);
    assert_eq!(order.get_status(), OrderStatus::PartiallyFilled);
}

#[test]
fn exact_fill_sets_filled_status() {
    let uid = make_user_id();
    let mut order = make_order(OrderType::GoodTillCancel, Side::Buy, 100, 10, uid);
    order.fills(10).unwrap();
    assert_eq!(order.get_remaining_quantity(), 0);
    assert!(order.is_filled());
    assert_eq!(order.get_status(), OrderStatus::Filled);
}

#[test]
fn overfill_returns_err() {
    let uid = make_user_id();
    let mut order = make_order(OrderType::GoodTillCancel, Side::Buy, 100, 10, uid);
    let result = order.fills(11);
    assert!(result.is_err());
}

#[test]
fn zero_fill_succeeds_remaining_unchanged() {
    let uid = make_user_id();
    let mut order = make_order(OrderType::GoodTillCancel, Side::Buy, 100, 10, uid);
    order.fills(0).unwrap();
    assert_eq!(order.get_remaining_quantity(), 10);
    // A zero fill is a no-op: status must not be marked as filled/partial
    assert_eq!(order.get_status(), OrderStatus::Empty);
}

#[test]
fn sequential_fills_accumulate() {
    let uid = make_user_id();
    let mut order = make_order(OrderType::GoodTillCancel, Side::Buy, 100, 10, uid);
    order.fills(3).unwrap();
    assert_eq!(order.get_remaining_quantity(), 7);
    assert_eq!(order.get_status(), OrderStatus::PartiallyFilled);
    order.fills(7).unwrap();
    assert_eq!(order.get_remaining_quantity(), 0);
    assert_eq!(order.get_status(), OrderStatus::Filled);
}

#[test]
fn timestamp_is_nonzero() {
    let uid = make_user_id();
    let order = make_order(OrderType::GoodTillCancel, Side::Buy, 100, 10, uid);
    assert!(order.get_timestamp() > 0);
}


#[allow(dead_code)]
fn next_order_id() -> OrderId {
    uuid::Uuid::new_v4().as_u64_pair().0
}

#[allow(dead_code)]
fn make_user_id() -> UserId {
    uuid::Uuid::new_v4().as_u128()
}

#[allow(dead_code)]
fn make_user_id_fixed(seed: u64) -> UserId {
    seed as u128
}

#[allow(dead_code)]
fn make_order(order_type: OrderType, side: Side, price: Price, quantity: Quantity, user_id: UserId) -> Order {
    Order::new(next_order_id(), order_type, side, OrderStatus::Empty, price, quantity, user_id)
}

#[allow(dead_code)]
fn make_order_with_id(
    order_id: OrderId,
    order_type: OrderType,
    side: Side,
    price: Price,
    quantity: Quantity,
    user_id: UserId,
) -> Order {
    Order::new(order_id, order_type, side, OrderStatus::Empty, price, quantity, user_id)
}

#[allow(dead_code)]
fn make_modify(order_id: OrderId, price: Price, side: Side, quantity: Quantity, user_id: UserId) -> OrderModify {
    OrderModify::new(order_id, price, side, quantity, OrderStatus::Empty, user_id)
}

#[allow(dead_code)]
fn make_pair(base: Asset, quote: Asset) -> TradingPair {
    TradingPair::new(base, quote)
}

#[allow(dead_code)]
fn make_generator() -> SnowFlakeGenerator {
    SnowFlakeGenerator::new(1, 1)
}

#[test]
fn overfill_error_names_the_order() {
    let mut order = Order::new(4_096_017, OrderType::GoodTillCancel, Side::Sell, OrderStatus::Empty, 100, 3, 1);
    assert_eq!(
        order.fills(4),
        Err("Order 4096017 cannot be filled for more than its remaining quantity".to_string())
    );
    assert_eq!(order.get_remaining_quantity(), 3);
}
