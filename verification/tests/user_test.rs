use vertex_engine::order::Order;
use vertex_engine::order_modify::OrderModify;
use vertex_engine::snowflake_id::SnowFlakeGenerator;
use vertex_engine::trading_pair::TradingPair;
use vertex_engine::types::{Asset, OrderId, OrderStatus, OrderType, Price, Quantity, Side, UserId};

use vertex_engine::user::User;


#[test]
fn new_with_none_generates_random_uuid() {
    let user = User::new(None);
    let user2 = User::new(None);
    assert_ne!(user.get_id(), user2.get_id());
}

#[test]
fn new_with_some_uses_provided_uuid() {
    let uid = make_user_id();
    let user = User::new(Some(uid));
    assert_eq!(user.get_id(), uid);
}

#[test]
fn add_balance_credits() {
    let mut user = User::new(None);
    user.add_balance(Asset::USDC, 10000);
    assert_eq!(user.get_balance(&Asset::USDC), 10000);
}

#[test]
fn add_balance_accumulates() {
    let mut user = User::new(None);
    user.add_balance(Asset::USDC, 1000);
    user.add_balance(Asset::USDC, 2000);
    assert_eq!(user.get_balance(&Asset::USDC), 3000);
}

#[test]
fn get_balance_returns_total() {
    let mut user = User::new(None);
    user.add_balance(Asset::USDC, 5000);
    assert_eq!(user.get_balance(&Asset::USDC), 5000);
}

#[test]
fn available_balance_no_locks_equals_total() {
    let mut user = User::new(None);
    user.add_balance(Asset::USDC, 5000);
    assert_eq!(user.get_available_balance(&Asset::USDC), 5000);
}

#[test]
fn available_balance_after_lock_reduces() {
    let mut user = User::new(None);
    user.add_balance(Asset::USDC, 5000);
    user.lock(1, Asset::USDC, 2000).unwrap();
    assert_eq!(user.get_available_balance(&Asset::USDC), 3000);
    assert_eq!(user.get_balance(&Asset::USDC), 5000);
}

#[test]
fn available_balance_multiple_locks_accumulate() {
    let mut user = User::new(None);
    user.add_balance(Asset::USDC, 10000);
    user.lock(1, Asset::USDC, 2000).unwrap();
    user.lock(2, Asset::USDC, 3000).unwrap();
    assert_eq!(user.get_available_balance(&Asset::USDC), 5000);
}

#[test]
fn available_balance_unknown_asset_returns_zero() {
    let user = User::new(None);
    assert_eq!(user.get_available_balance(&Asset::ETH), 0);
}

#[test]
fn lock_success() {
    let mut user = User::new(None);
    user.add_balance(Asset::USDC, 5000);
    assert!(user.lock(1, Asset::USDC, 2000).is_ok());
    assert_eq!(user.get_locked_balance(Asset::USDC), 2000);
}

#[test]
fn lock_insufficient_balance_errs() {
    let mut user = User::new(None);
    user.add_balance(Asset::USDC, 100);
    let result = user.lock(1, Asset::USDC, 200);
    assert!(result.is_err());
    assert_eq!(result.unwrap_err(), "Insufficient balance");
}

#[test]
fn lock_exact_available_succeeds() {
    let mut user = User::new(None);
    user.add_balance(Asset::USDC, 5000);
    assert!(user.lock(1, Asset::USDC, 5000).is_ok());
    assert_eq!(user.get_available_balance(&Asset::USDC), 0);
}

#[test]
fn lock_zero_amount() {
    let mut user = User::new(None);
    user.add_balance(Asset::USDC, 5000);
    assert!(user.lock(1, Asset::USDC, 0).is_ok());
    assert_eq!(user.get_available_balance(&Asset::USDC), 5000);
}

#[test]
fn lock_same_order_id_overwrites() {
    let mut user = User::new(None);
    user.add_balance(Asset::USDC, 10000);
    user.lock(1, Asset::USDC, 2000).unwrap();
    user.lock(1, Asset::USDC, 3000).unwrap();
    assert_eq!(user.get_locked_balance(Asset::USDC), 3000);
}

#[test]
fn unlock_order_success_restores_balance() {
    let mut user = User::new(None);
    user.add_balance(Asset::USDC, 5000);
    user.lock(1, Asset::USDC, 2000).unwrap();
    assert_eq!(user.get_available_balance(&Asset::USDC), 3000);
    user.unlock_order(&1).unwrap();
    assert_eq!(user.get_available_balance(&Asset::USDC), 5000);
    assert_eq!(user.get_locked_balance(Asset::USDC), 0);
}

#[test]
fn unlock_order_not_found_errs() {
    let mut user = User::new(None);
    let result = user.unlock_order(&999);
    assert!(result.is_err());
    assert_eq!(result.unwrap_err(), "Order not Locked");
}

#[test]
fn get_locked_balance_sums_all_locks() {
    let mut user = User::new(None);
    user.add_balance(Asset::USDC, 10000);
    user.lock(1, Asset::USDC, 1000).unwrap();
    user.lock(2, Asset::USDC, 2000).unwrap();
    user.lock(3, Asset::USDC, 3000).unwrap();
    assert_eq!(user.get_locked_balance(Asset::USDC), 6000);
}

#[test]
fn get_locked_balance_no_locks_zero() {
    let user = User::new(None);
    assert_eq!(user.get_locked_balance(Asset::USDC), 0);
}

#[test]
fn apply_fill_partial_reduces_lock_credits_received() {
    let mut user = User::new(None);
    user.add_balance(Asset::USDC, 10000);
    user.add_balance(Asset::ETH, 0);
    user.lock(1, Asset::USDC, 5000).unwrap();
    user.apply_fill(&1, Asset::USDC, 2000, Asset::ETH, 1)
        .unwrap();
    assert_eq!(user.get_locked_balance(Asset::USDC), 3000);
    assert_eq!(user.get_balance(&Asset::ETH), 1);
}

#[test]
fn apply_fill_full_removes_lock_entry() {
    let mut user = User::new(None);
    user.add_balance(Asset::USDC, 10000);
    user.add_balance(Asset::ETH, 0);
    user.lock(1, Asset::USDC, 5000).unwrap();
    user.apply_fill(&1, Asset::USDC, 5000, Asset::ETH, 5)
        .unwrap();
    assert_eq!(user.get_locked_balance(Asset::USDC), 0);
    assert_eq!(user.get_balance(&Asset::ETH), 5);
}

#[test]
fn apply_fill_wrong_asset_errs() {
    let mut user = User::new(None);
    user.add_balance(Asset::USDC, 10000);
    user.lock(1, Asset::USDC, 5000).unwrap();
    let result = user.apply_fill(&1, Asset::ETH, 2000, Asset::USDC, 1);
    assert!(result.is_err());
    assert_eq!(result.unwrap_err(), "Locked asset mismatch");
}

#[test]
fn apply_fill_insufficient_locked_errs() {
    let mut user = User::new(None);
    user.add_balance(Asset::USDC, 10000);
    user.lock(1, Asset::USDC, 1000).unwrap();
    let result = user.apply_fill(&1, Asset::USDC, 2000, Asset::ETH, 1);
    assert!(result.is_err());
    assert_eq!(result.unwrap_err(), "Locked amount insufficient for fill");
}

#[test]
fn substract_balance_success() {
    let mut user = User::new(None);
    user.add_balance(Asset::USDC, 10000);
    user.substract_balance(Asset::USDC, 3000).unwrap();
    assert_eq!(user.get_balance(&Asset::USDC), 7000);
}

#[test]
fn substract_balance_insufficient_errs() {
    let mut user = User::new(None);
    user.add_balance(Asset::USDC, 1000);
    let result = user.substract_balance(Asset::USDC, 2000);
    assert!(result.is_err());
    assert_eq!(result.unwrap_err(), "Insufficient Balance");
}

#[test]
fn substract_balance_exact() {
    let mut user = User::new(None);
    user.add_balance(Asset::USDC, 5000);
    user.substract_balance(Asset::USDC, 5000).unwrap();
    assert_eq!(user.get_balance(&Asset::USDC), 0);
}

#[test]
fn substract_balance_respects_locked_funds() {
    let mut user = User::new(None);
    user.add_balance(Asset::USDC, 10000);
    user.lock(1, Asset::USDC, 4000).unwrap();
    let result = user.substract_balance(Asset::USDC, 8000);
    assert!(result.is_err());
    assert_eq!(result.unwrap_err(), "Insufficient Balance");
}

#[test]
fn get_all_balances_returns_all() {
    let mut user = User::new(None);
    user.add_balance(Asset::USDC, 10000);
    user.add_balance(Asset::ETH, 5);
    user.add_balance(Asset::BTC, 1);
    let balances = user.get_all_balances();
    assert_eq!(balances.get(&Asset::USDC), Some(&10000));
    assert_eq!(balances.get(&Asset::ETH), Some(&5));
    assert_eq!(balances.get(&Asset::BTC), Some(&1));
}

#[test]
fn get_all_balances_includes_locked() {
    let mut user = User::new(None);
    user.add_balance(Asset::USDC, 10000);
    user.lock(1, Asset::USDC, 3000).unwrap();
    let balances = user.get_all_balances();
    assert_eq!(balances.get(&Asset::USDC), Some(&10000));
}

#[test]
fn get_all_locked_balances_returns_locks() {
    let mut user = User::new(None);
    user.add_balance(Asset::USDC, 10000);
    user.lock(1, Asset::USDC, 2000).unwrap();
    user.lock(2, Asset::USDC, 3000).unwrap();
    let locks = user.get_all_locked_balances();
    assert_eq!(locks.len(), 2);
    assert!(locks.contains_key(&1));
    assert!(locks.contains_key(&2));
}


#[allow(dead_code)]
fn next_order_id() -> OrderId {
    uuid::Uuid::new_v4().as_u64_pair().0
}

#[allow(dead_code)]
fn make_user_id() -> UserId {
    uuid::Uuid::new_v4().as_u128()
}

#[allow(dead_code)]
fn make_user_id_fixed(seed: u64) -> UserId {
    seed as u128
}

#[allow(dead_code)]
fn make_order(order_type: OrderType, side: Side, price: Price, quantity: Quantity, user_id: UserId) -> Order {
    Order::new(next_order_id(), order_type, side, OrderStatus::Empty, price, quantity, user_id)
}

#[allow(dead_code)]
fn make_order_with_id(
    order_id: OrderId,
    order_type: OrderType,
    side: Side,
    price: Price,
    quantity: Quantity,
    user_id: UserId,
) -> Order {
    Order::new(order_id, order_type, side, OrderStatus::Empty, price, quantity, user_id)
}

#[allow(dead_code)]
fn make_modify(order_id: OrderId, price: Price, side: Side, quantity: Quantity, user_id: UserId) -> OrderModify {
    OrderModify::new(order_id, price, side, quantity, OrderStatus::Empty, user_id)
}

#[allow(dead_code)]
fn make_pair(base: Asset, quote: Asset) -> TradingPair {
    TradingPair::new(base, quote)
}

#[allow(dead_code)]
fn make_generator() -> SnowFlakeGenerator {
    SnowFlakeGenerator::new(1, 1)
}

#[test]
fn random_user_id_is_a_version_4_uuid_value() {
    for _ in 0..16 {
        let id = User::new(None).get_id();
        assert_eq!((id >> 76) & 0xf, 4);
        assert_eq!((id >> 62) & 3, 2);
    }
}
