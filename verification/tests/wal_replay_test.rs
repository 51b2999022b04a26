use vertex_engine::engine::CoreEngine;
use vertex_engine::order::Order;
use vertex_engine::trading_pair::TradingPair;
use vertex_engine::types::{Asset, OrderStatus, OrderType, Side, UserId, WalEntryType};
use vertex_engine::wal::WalEntry;

fn eth_usdc() -> TradingPair {
    TradingPair::new(Asset::ETH, Asset::USDC)
}

fn make_user_id() -> UserId {
    uuid::Uuid::new_v4().as_u128()
}

fn make_order(order_type: OrderType, side: Side, price: i32, quantity: u32, user_id: UserId) -> Order {
    Order::new(uuid::Uuid::new_v4().as_u64_pair().0, order_type, side, OrderStatus::Empty, price, quantity, user_id)
}

/// The log as a writer numbers it: 1, 2, ... in order.
fn numbered(entries: Vec<WalEntryType>) -> Vec<WalEntry> {
    entries.into_iter().enumerate().map(|(i, e)| WalEntry::new(i as u64 + 1, e)).collect()
}

#[test]
fn replay_empty_wal_gives_empty_engine() {
    let mut engine = CoreEngine::new(1, 1);
    assert_eq!(engine.replay_log(&Vec::new()), 0);
    assert!(engine.size(&eth_usdc()).is_none());
}

#[test]
fn replay_restores_trading_pair() {
    let log = numbered(vec![WalEntryType::AddTradingPair { pair: eth_usdc() }]);
    let mut engine = CoreEngine::new(1, 1);
    assert_eq!(engine.replay_log(&log), 1);
    assert_eq!(engine.size(&eth_usdc()), Some(0));
}

#[test]
fn replay_restores_order_in_book() {
    let user = make_user_id();
    let order = make_order(OrderType::GoodTillCancel, Side::Buy, 50000, 10, user);
    let log = numbered(vec![
        WalEntryType::AddTradingPair { pair: eth_usdc() },
        WalEntryType::AddUser { user_id: user },
        WalEntryType::DepositBalance { user_id: user, asset: Asset::USDC, quantity: 500000 },
        WalEntryType::AddOrder { pair: eth_usdc(), order, trades: None },
    ]);
    let mut engine = CoreEngine::new(1, 1);
    assert_eq!(engine.replay_log(&log), 4);
    assert_eq!(engine.size(&eth_usdc()), Some(1));
}

#[test]
fn replay_restores_cancel() {
    let user = make_user_id();
    let order = make_order(OrderType::GoodTillCancel, Side::Buy, 50000, 10, user);
    let order_id = order.get_order_id();
    let log = numbered(vec![
        WalEntryType::AddTradingPair { pair: eth_usdc() },
        WalEntryType::AddUser { user_id: user },
        WalEntryType::DepositBalance { user_id: user, asset: Asset::USDC, quantity: 500000 },
        WalEntryType::AddOrder { pair: eth_usdc(), order, trades: None },
        WalEntryType::CancelOrder { pair: eth_usdc(), order_id, success: true },
    ]);
    let mut engine = CoreEngine::new(1, 1);
    assert_eq!(engine.replay_log(&log), 5);
    assert_eq!(engine.size(&eth_usdc()), Some(0));
    // the cancelled order's lock went with it
    assert_eq!(engine.get_balance(user, Asset::USDC), Ok(500000));
}
