use vertex_engine::engine::CoreEngine;
use vertex_engine::grpc::{execute, wal_entry, EngineRequest};
use vertex_engine::level_info::getOrderBookLevelInfos;
use vertex_engine::order::Order;
use vertex_engine::order_modify::OrderModify;
use vertex_engine::trading_pair::TradingPair;
use vertex_engine::types::{Asset, OrderError, OrderId, OrderStatus, OrderType, Price, Quantity, Side, UserError, UserId, WalEntryType};
use vertex_engine::wal::WalEntry;

fn new_engine() -> CoreEngine {
    CoreEngine::new(1, 1)
}

fn eth_usdc() -> TradingPair {
    make_pair(Asset::ETH, Asset::USDC)
}

fn btc_usdc() -> TradingPair {
    make_pair(Asset::BTC, Asset::USDC)
}

fn next_order_id() -> OrderId {
    uuid::Uuid::new_v4().as_u64_pair().0
}

fn make_user_id() -> UserId {
    uuid::Uuid::new_v4().as_u128()
}

fn make_order(order_type: OrderType, side: Side, price: Price, quantity: Quantity, user_id: UserId) -> Order {
    Order::new(next_order_id(), order_type, side, OrderStatus::Empty, price, quantity, user_id)
}

fn make_modify(order_id: OrderId, price: Price, side: Side, quantity: Quantity, user_id: UserId) -> OrderModify {
    OrderModify::new(order_id, price, side, quantity, OrderStatus::Empty, user_id)
}

fn make_pair(base: Asset, quote: Asset) -> TradingPair {
    TradingPair::new(base, quote)
}

fn funded_user(engine: &mut CoreEngine, usdc: Quantity, eth: Quantity) -> UserId {
    let uid = make_user_id();
    engine.add_user(uid);
    engine.deposit_balance(uid, Asset::USDC, usdc).unwrap();
    engine.deposit_balance(uid, Asset::ETH, eth).unwrap();
    uid
}

#[test]
fn new_creates_empty_engine() {
    let engine = new_engine();
    assert!(engine.size(&eth_usdc()).is_none());
}

#[test]
fn add_trading_pair_adds_new() {
    let mut engine = new_engine();
    engine.add_trading_pair(eth_usdc());
    assert_eq!(engine.size(&eth_usdc()), Some(0));
}

#[test]
fn add_trading_pair_duplicate_noop() {
    let mut engine = new_engine();
    engine.add_trading_pair(eth_usdc());
    engine.add_trading_pair(eth_usdc());
    assert_eq!(engine.size(&eth_usdc()), Some(0));
}

#[test]
fn remove_trading_pair_returns_some() {
    let mut engine = new_engine();
    engine.add_trading_pair(eth_usdc());
    let removed = engine.remove_trading_pair(&eth_usdc());
    assert!(removed.is_some());
    assert!(engine.size(&eth_usdc()).is_none());
}

#[test]
fn remove_nonexistent_returns_none() {
    let mut engine = new_engine();
    assert!(engine.remove_trading_pair(&eth_usdc()).is_none());
}

#[test]
fn add_order_nonexistent_pair_returns_none() {
    let mut engine = new_engine();
    let order = make_order(OrderType::GoodTillCancel, Side::Buy, 50000, 10, make_user_id());
    let result = engine.add_order(&eth_usdc(), &order);
    assert!(matches!(result, Err(OrderError::NoSuchPair)));
}

#[test]
fn cancel_order_nonexistent_pair_returns_false() {
    let mut engine = new_engine();
    let result = engine.cancel_order(&eth_usdc(), &999);
    assert!(!result);
}

#[test]
fn modify_order_nonexistent_pair_returns_none() {
    let mut engine = new_engine();
    let modify = make_modify(42, 50000, Side::Buy, 10, make_user_id());
    let result = engine.modify_order(&eth_usdc(), modify);
    assert!(matches!(result, Err(OrderError::NoSuchPair)));
}

#[test]
fn get_order_info_nonexistent_pair_returns_none() {
    let engine = new_engine();
    assert!(engine.get_order_info(&eth_usdc()).is_none());
}

#[test]
fn size_nonexistent_pair_returns_none() {
    let engine = new_engine();
    assert!(engine.size(&eth_usdc()).is_none());
}

#[test]
fn order_ids_are_unique() {
    let mut engine = new_engine();
    engine.add_trading_pair(eth_usdc());

    let uid = make_user_id();
    let o1 = make_order(OrderType::GoodTillCancel, Side::Buy, 50000, 10, uid);
    let _ = engine.add_order(&eth_usdc(), &o1);
    let id1 = o1.get_order_id();

    let o2 = make_order(OrderType::GoodTillCancel, Side::Buy, 51000, 10, uid);
    let _ = engine.add_order(&eth_usdc(), &o2);
    let id2 = o2.get_order_id();

    assert_ne!(id1, id2);
}

// ---- engine scenarios with registered, funded users ----

#[test]
fn engine_order_from_unknown_user_is_refused() {
    let mut engine = new_engine();
    engine.add_trading_pair(eth_usdc());
    let order = make_order(OrderType::GoodTillCancel, Side::Buy, 100, 10, make_user_id());
    assert!(matches!(engine.add_order(&eth_usdc(), &order), Err(OrderError::NoSuchUser)));
    assert_eq!(engine.size(&eth_usdc()), Some(0));
}

#[test]
fn engine_invalid_orders_are_refused() {
    let mut engine = new_engine();
    engine.add_trading_pair(eth_usdc());
    let uid = funded_user(&mut engine, 1000, 10);
    let zero_price = make_order(OrderType::GoodTillCancel, Side::Buy, 0, 10, uid);
    assert!(matches!(engine.add_order(&eth_usdc(), &zero_price), Err(OrderError::InvalidOrder)));
    let zero_qty = make_order(OrderType::GoodTillCancel, Side::Buy, 10, 0, uid);
    assert!(matches!(engine.add_order(&eth_usdc(), &zero_qty), Err(OrderError::InvalidOrder)));
    let huge = make_order(OrderType::GoodTillCancel, Side::Buy, 100_000, 100_000, uid);
    assert!(matches!(engine.add_order(&eth_usdc(), &huge), Err(OrderError::InvalidOrder)));
}

#[test]
fn engine_insufficient_balance_is_refused() {
    let mut engine = new_engine();
    engine.add_trading_pair(eth_usdc());
    let uid = funded_user(&mut engine, 999, 0);
    let order = make_order(OrderType::GoodTillCancel, Side::Buy, 100, 10, uid);
    assert!(matches!(engine.add_order(&eth_usdc(), &order), Err(OrderError::InsufficientBalance)));
    assert_eq!(engine.get_balance(uid, Asset::USDC), Ok(999));
    assert_eq!(engine.size(&eth_usdc()), Some(0));
}

#[test]
fn engine_duplicate_resting_id_is_invalid() {
    let mut engine = new_engine();
    engine.add_trading_pair(eth_usdc());
    let uid = funded_user(&mut engine, 10_000, 0);
    let order = make_order(OrderType::GoodTillCancel, Side::Buy, 100, 10, uid);
    assert!(matches!(engine.add_order(&eth_usdc(), &order), Ok(Some(_))));
    assert!(matches!(engine.add_order(&eth_usdc(), &order), Err(OrderError::InvalidOrder)));
}

#[test]
fn engine_resting_order_locks_funds_and_cancel_releases() {
    let mut engine = new_engine();
    engine.add_trading_pair(eth_usdc());
    let uid = funded_user(&mut engine, 10_000, 0);
    let order = make_order(OrderType::GoodTillCancel, Side::Buy, 100, 10, uid);
    let trades = engine.add_order(&eth_usdc(), &order).unwrap().unwrap();
    assert!(trades.is_empty());
    assert_eq!(engine.get_balance(uid, Asset::USDC), Ok(9_000));
    assert_eq!(engine.get_total_balance(uid, Asset::USDC), Ok(10_000));
    assert!(engine.cancel_order(&eth_usdc(), &order.get_order_id()));
    assert_eq!(engine.get_balance(uid, Asset::USDC), Ok(10_000));
    assert_eq!(engine.size(&eth_usdc()), Some(0));
    assert!(!engine.cancel_order(&eth_usdc(), &order.get_order_id()));
}

#[test]
fn engine_full_lifecycle_with_users() {
    let mut engine = new_engine();
    engine.add_trading_pair(eth_usdc());
    let uid = funded_user(&mut engine, 100_000, 0);
    let o1 = make_order(OrderType::GoodTillCancel, Side::Buy, 100, 10, uid);
    let o2 = make_order(OrderType::GoodTillCancel, Side::Buy, 101, 20, uid);
    engine.add_order(&eth_usdc(), &o1).unwrap();
    engine.add_order(&eth_usdc(), &o2).unwrap();
    assert_eq!(engine.size(&eth_usdc()), Some(2));
    assert!(engine.cancel_order(&eth_usdc(), &o1.get_order_id()));
    assert_eq!(engine.size(&eth_usdc()), Some(1));
    assert!(engine.cancel_order(&eth_usdc(), &o2.get_order_id()));
    assert_eq!(engine.size(&eth_usdc()), Some(0));
}

#[test]
fn engine_books_of_pairs_are_isolated() {
    let mut engine = new_engine();
    engine.add_trading_pair(eth_usdc());
    engine.add_trading_pair(btc_usdc());
    let uid = funded_user(&mut engine, 1_000_000, 0);
    let eth_order = make_order(OrderType::GoodTillCancel, Side::Buy, 500, 10, uid);
    let btc_order = make_order(OrderType::GoodTillCancel, Side::Buy, 1000, 5, uid);
    engine.add_order(&eth_usdc(), &eth_order).unwrap();
    engine.add_order(&btc_usdc(), &btc_order).unwrap();
    assert_eq!(engine.size(&eth_usdc()), Some(1));
    assert_eq!(engine.size(&btc_usdc()), Some(1));
    engine.cancel_order(&eth_usdc(), &eth_order.get_order_id());
    assert_eq!(engine.size(&eth_usdc()), Some(0));
    assert_eq!(engine.size(&btc_usdc()), Some(1));
}

#[test]
fn engine_fill_settles_both_users_at_resting_price() {
    let mut engine = new_engine();
    engine.add_trading_pair(eth_usdc());
    let seller = funded_user(&mut engine, 0, 10);
    let buyer = funded_user(&mut engine, 10_000, 0);
    let sell = make_order(OrderType::GoodTillCancel, Side::Sell, 100, 10, seller);
    engine.add_order(&eth_usdc(), &sell).unwrap();
    assert_eq!(engine.get_balance(seller, Asset::ETH), Ok(0));
    let buy = make_order(OrderType::GoodTillCancel, Side::Buy, 120, 10, buyer);
    let trades = engine.add_order(&eth_usdc(), &buy).unwrap().unwrap();
    assert_eq!(trades.len(), 1);
    assert_eq!(trades[0].get_bid_trade_info().get_price(), 100);
    // buyer: locked 1200, paid 1000 at the resting price; the order is
    // filled, so the 200 left of its lock is released
    assert_eq!(engine.get_total_balance(buyer, Asset::USDC), Ok(9_000));
    assert_eq!(engine.get_total_balance(buyer, Asset::ETH), Ok(10));
    assert_eq!(engine.get_balance(buyer, Asset::USDC), Ok(9_000));
    // seller: gave 10 ETH, received 1000 USDC
    assert_eq!(engine.get_total_balance(seller, Asset::ETH), Ok(0));
    assert_eq!(engine.get_total_balance(seller, Asset::USDC), Ok(1_000));
    // notional conserved across the two users
    let usdc = engine.get_total_balance(buyer, Asset::USDC).unwrap() + engine.get_total_balance(seller, Asset::USDC).unwrap();
    assert_eq!(usdc, 10_000);
    assert_eq!(engine.size(&eth_usdc()), Some(0));
}

#[test]
fn engine_fill_and_kill_releases_leftover_lock() {
    let mut engine = new_engine();
    engine.add_trading_pair(eth_usdc());
    let seller = funded_user(&mut engine, 0, 5);
    let buyer = funded_user(&mut engine, 10_000, 0);
    let sell = make_order(OrderType::GoodTillCancel, Side::Sell, 100, 5, seller);
    engine.add_order(&eth_usdc(), &sell).unwrap();
    let buy = make_order(OrderType::FillAndKill, Side::Buy, 100, 10, buyer);
    let trades = engine.add_order(&eth_usdc(), &buy).unwrap().unwrap();
    assert_eq!(trades.len(), 1);
    assert_eq!(engine.get_total_balance(buyer, Asset::USDC), Ok(9_500));
    assert_eq!(engine.get_balance(buyer, Asset::USDC), Ok(9_500));
    assert_eq!(engine.get_total_balance(buyer, Asset::ETH), Ok(5));
    assert_eq!(engine.size(&eth_usdc()), Some(0));
}

#[test]
fn engine_refused_fill_or_kill_changes_nothing() {
    let mut engine = new_engine();
    engine.add_trading_pair(eth_usdc());
    let seller = funded_user(&mut engine, 0, 5);
    let buyer = funded_user(&mut engine, 10_000, 0);
    let sell = make_order(OrderType::GoodTillCancel, Side::Sell, 100, 5, seller);
    engine.add_order(&eth_usdc(), &sell).unwrap();
    let buy = make_order(OrderType::FillOrKill, Side::Buy, 100, 10, buyer);
    assert!(matches!(engine.add_order(&eth_usdc(), &buy), Ok(None)));
    assert_eq!(engine.get_balance(buyer, Asset::USDC), Ok(10_000));
    assert_eq!(engine.size(&eth_usdc()), Some(1));
}

#[test]
fn engine_modify_checks_owner_and_side() {
    let mut engine = new_engine();
    engine.add_trading_pair(eth_usdc());
    let uid = funded_user(&mut engine, 10_000, 0);
    let order = make_order(OrderType::GoodTillCancel, Side::Buy, 100, 10, uid);
    engine.add_order(&eth_usdc(), &order).unwrap();
    let other = make_modify(order.get_order_id(), 100, Side::Buy, 10, make_user_id());
    assert!(matches!(engine.modify_order(&eth_usdc(), other), Err(OrderError::InvalidOrder)));
    let flip = make_modify(order.get_order_id(), 100, Side::Sell, 10, uid);
    assert!(matches!(engine.modify_order(&eth_usdc(), flip), Err(OrderError::InvalidOrder)));
    let missing = make_modify(12345, 100, Side::Buy, 10, uid);
    assert!(matches!(engine.modify_order(&eth_usdc(), missing), Err(OrderError::InvalidOrder)));
}

#[test]
fn engine_modify_relocks_and_counts_old_lock() {
    let mut engine = new_engine();
    engine.add_trading_pair(eth_usdc());
    let uid = funded_user(&mut engine, 1_000, 0);
    let order = make_order(OrderType::GoodTillCancel, Side::Buy, 100, 10, uid);
    engine.add_order(&eth_usdc(), &order).unwrap();
    assert_eq!(engine.get_balance(uid, Asset::USDC), Ok(0));
    // the old order's lock of 1000 counts as available for the replacement
    let modify = make_modify(order.get_order_id(), 50, Side::Buy, 20, uid);
    let trades = engine.modify_order(&eth_usdc(), modify).unwrap().unwrap();
    assert!(trades.is_empty());
    assert_eq!(engine.get_balance(uid, Asset::USDC), Ok(0));
    let info = engine.get_order_info(&eth_usdc()).unwrap();
    assert_eq!(info.get_bids()[0].price, 50);
    assert_eq!(info.get_bids()[0].quantity, 20);
    let too_big = make_modify(order.get_order_id(), 100, Side::Buy, 20, uid);
    assert!(matches!(engine.modify_order(&eth_usdc(), too_big), Err(OrderError::InsufficientBalance)));
    assert_eq!(engine.size(&eth_usdc()), Some(1));
}

#[test]
fn engine_refused_modify_changes_nothing_when_the_lock_is_in_another_asset() {
    let mut engine = new_engine();
    engine.add_trading_pair(eth_usdc());
    engine.add_trading_pair(btc_usdc());
    let uid = funded_user(&mut engine, 10_000, 10);
    // the same id rests in two books; the second order's lock replaces the first's
    let sell = Order::new(7, OrderType::GoodTillCancel, Side::Sell, OrderStatus::Empty, 100, 10, uid);
    engine.add_order(&eth_usdc(), &sell).unwrap();
    let buy = Order::new(7, OrderType::GoodTillCancel, Side::Buy, OrderStatus::Empty, 100, 10, uid);
    engine.add_order(&btc_usdc(), &buy).unwrap();
    assert_eq!(engine.get_balance(uid, Asset::ETH), Ok(10));
    assert_eq!(engine.get_balance(uid, Asset::USDC), Ok(9_000));
    // the USDC lock does not count towards an ETH lock
    let modify = make_modify(7, 100, Side::Sell, 50, uid);
    assert!(matches!(engine.modify_order(&eth_usdc(), modify), Err(OrderError::InsufficientBalance)));
    assert_eq!(engine.size(&eth_usdc()), Some(1));
    assert_eq!(engine.size(&btc_usdc()), Some(1));
    assert_eq!(engine.get_balance(uid, Asset::ETH), Ok(10));
    assert_eq!(engine.get_balance(uid, Asset::USDC), Ok(9_000));
    let info = engine.get_order_info(&eth_usdc()).unwrap();
    assert_eq!(info.get_asks()[0].quantity, 10);
}

#[test]
fn engine_user_balance_errors() {
    let mut engine = new_engine();
    let ghost = make_user_id();
    assert_eq!(engine.deposit_balance(ghost, Asset::USDC, 10), Err(UserError::NoSuchUser));
    assert_eq!(engine.withdraw_balance(ghost, Asset::USDC, 10), Err(UserError::NoSuchUser));
    assert_eq!(engine.get_balance(ghost, Asset::USDC), Err(UserError::NoSuchUser));
    assert_eq!(engine.get_total_balance(ghost, Asset::USDC), Err(UserError::NoSuchUser));
    let uid = funded_user(&mut engine, 100, 0);
    assert_eq!(engine.withdraw_balance(uid, Asset::USDC, 101), Err(UserError::InsufficientBalance));
    assert_eq!(engine.withdraw_balance(uid, Asset::USDC, 40), Ok(()));
    assert_eq!(engine.get_total_balance(uid, Asset::USDC), Ok(60));
}

#[test]
fn engine_add_user_is_idempotent() {
    let mut engine = new_engine();
    let uid = funded_user(&mut engine, 100, 0);
    engine.add_user(uid);
    assert_eq!(engine.get_total_balance(uid, Asset::USDC), Ok(100));
}

#[test]
fn engine_remove_user_cancels_orders_and_returns_balances() {
    let mut engine = new_engine();
    engine.add_trading_pair(eth_usdc());
    engine.add_trading_pair(btc_usdc());
    let uid = funded_user(&mut engine, 10_000, 3);
    let other = funded_user(&mut engine, 10_000, 0);
    engine.add_order(&eth_usdc(), &make_order(OrderType::GoodTillCancel, Side::Buy, 100, 10, uid)).unwrap();
    engine.add_order(&btc_usdc(), &make_order(OrderType::GoodTillCancel, Side::Buy, 100, 10, uid)).unwrap();
    engine.add_order(&eth_usdc(), &make_order(OrderType::GoodTillCancel, Side::Buy, 90, 10, other)).unwrap();
    let balances = engine.remove_user(uid).unwrap();
    assert_eq!(balances.get(&Asset::USDC), Some(&10_000));
    assert_eq!(balances.get(&Asset::ETH), Some(&3));
    assert_eq!(engine.size(&eth_usdc()), Some(1));
    assert_eq!(engine.size(&btc_usdc()), Some(0));
    assert_eq!(engine.get_balance(uid, Asset::USDC), Err(UserError::NoSuchUser));
    assert!(matches!(engine.remove_user(uid), Err(UserError::NoSuchUser)));
}

#[test]
fn engine_next_id_increases() {
    let mut engine = new_engine();
    let a = engine.next_id();
    let b = engine.next_id();
    assert!(b > a);
}

#[test]
fn engine_replay_rebuilds_state() {
    let uid = make_user_id();
    let order = Order::new(77, OrderType::GoodTillCancel, Side::Buy, OrderStatus::Empty, 100, 10, uid);
    let log = vec![
        WalEntry::new(1, WalEntryType::AddTradingPair { pair: eth_usdc() }),
        WalEntry::new(2, WalEntryType::AddUser { user_id: uid }),
        WalEntry::new(3, WalEntryType::DepositBalance { user_id: uid, asset: Asset::USDC, quantity: 5_000 }),
        WalEntry::new(4, WalEntryType::AddOrder { pair: eth_usdc(), order, trades: None }),
        WalEntry::new(5, WalEntryType::WithdrawBalance { user_id: uid, asset: Asset::USDC, quantity: 1_000 }),
    ];
    let mut engine = new_engine();
    let max = engine.replay_log(&log);
    assert_eq!(max, 5);
    assert_eq!(engine.size(&eth_usdc()), Some(1));
    assert_eq!(engine.get_total_balance(uid, Asset::USDC), Ok(4_000));
    assert_eq!(engine.get_balance(uid, Asset::USDC), Ok(3_000));
    let mut empty = new_engine();
    assert_eq!(empty.replay_log(&Vec::new()), 0);
}

#[test]
fn engine_notional_and_lock_amounts() {
    assert_eq!(CoreEngine::notional(100, 10), Some(1_000));
    assert_eq!(CoreEngine::notional(-1, 0), Some(0));
    assert_eq!(CoreEngine::notional(-1, 5), None);
    assert_eq!(CoreEngine::notional(70_000, 70_000), None);
    assert_eq!(CoreEngine::validate_order(1, 1), Ok(()));
    assert_eq!(CoreEngine::validate_order(0, 1), Err(OrderError::InvalidOrder));
    let pair = eth_usdc();
    assert_eq!(CoreEngine::lock_amount_for(&pair, Side::Buy, 100, 10), Ok((Asset::USDC, 1_000)));
    assert_eq!(CoreEngine::lock_amount_for(&pair, Side::Sell, 100, 10), Ok((Asset::ETH, 10)));
    assert_eq!(CoreEngine::lock_amount_for(&pair, Side::Buy, 70_000, 70_000), Err(OrderError::InvalidOrder));
}

#[test]
fn engine_replay_of_logged_commands_matches_the_run() {
    let buyer = make_user_id();
    let seller = make_user_id();
    let bid = Order::new(501, OrderType::GoodTillCancel, Side::Buy, OrderStatus::Empty, 100, 10, buyer);
    let ask = Order::new(502, OrderType::GoodTillCancel, Side::Sell, OrderStatus::Empty, 99, 4, seller);
    let requests = vec![
        EngineRequest::AddTradingPair { pair: eth_usdc() },
        EngineRequest::AddUser { user_id: buyer },
        EngineRequest::AddUser { user_id: seller },
        EngineRequest::DepositBalance { user_id: buyer, asset: Asset::USDC, quantity: 5_000 },
        EngineRequest::DepositBalance { user_id: seller, asset: Asset::ETH, quantity: 50 },
        EngineRequest::GetBalance { user_id: buyer, asset: Asset::USDC },
        EngineRequest::SubmitOrder { pair: eth_usdc(), order: bid },
        EngineRequest::SubmitOrder { pair: eth_usdc(), order: ask },
        EngineRequest::CancelOrder { pair: eth_usdc(), order_id: 999 },
        EngineRequest::WithdrawBalance { user_id: seller, asset: Asset::USDC, quantity: 100 },
    ];
    let mut run = new_engine();
    let mut log: Vec<WalEntry> = Vec::new();
    let mut seq: u64 = 0;
    for r in requests {
        if let Some(entry) = wal_entry(&r) {
            seq += 1;
            log.push(WalEntry::new(seq, entry));
        }
        let _ = execute(&mut run, r);
    }
    assert_eq!(log.len(), 9);
    let mut replayed = new_engine();
    assert_eq!(replayed.replay_log(&log), 9);
    for uid in [buyer, seller] {
        for asset in [Asset::USDC, Asset::ETH] {
            assert_eq!(replayed.get_balance(uid, asset), run.get_balance(uid, asset));
            assert_eq!(replayed.get_total_balance(uid, asset), run.get_total_balance(uid, asset));
        }
    }
    assert_eq!(run.get_total_balance(seller, Asset::USDC), Ok(300));
    assert_eq!(replayed.size(&eth_usdc()), run.size(&eth_usdc()));
    assert_eq!(replayed.size(&eth_usdc()), Some(1));
    let a = replayed.get_order_info(&eth_usdc()).unwrap();
    let b = run.get_order_info(&eth_usdc()).unwrap();
    assert_eq!(a.get_bids().len(), b.get_bids().len());
    assert_eq!(a.get_bids()[0].quantity, 6);
    assert_eq!(b.get_bids()[0].quantity, 6);
}

#[test]
fn engine_replay_with_a_modification_matches_the_run() {
    let buyer = make_user_id();
    let seller = make_user_id();
    let bid = Order::new(601, OrderType::GoodTillCancel, Side::Buy, OrderStatus::Empty, 100, 10, buyer);
    let ask = Order::new(602, OrderType::GoodTillCancel, Side::Sell, OrderStatus::Empty, 85, 4, seller);
    let requests = vec![
        EngineRequest::AddTradingPair { pair: eth_usdc() },
        EngineRequest::AddUser { user_id: buyer },
        EngineRequest::AddUser { user_id: seller },
        EngineRequest::DepositBalance { user_id: buyer, asset: Asset::USDC, quantity: 5_000 },
        EngineRequest::DepositBalance { user_id: seller, asset: Asset::ETH, quantity: 50 },
        EngineRequest::SubmitOrder { pair: eth_usdc(), order: bid },
        EngineRequest::ModifyOrder { pair: eth_usdc(), modify: make_modify(601, 90, Side::Buy, 20, buyer) },
        EngineRequest::SubmitOrder { pair: eth_usdc(), order: ask },
    ];
    let mut run = new_engine();
    let mut log: Vec<WalEntry> = Vec::new();
    let mut seq: u64 = 0;
    for r in requests {
        if let Some(entry) = wal_entry(&r) {
            seq += 1;
            log.push(WalEntry::new(seq, entry));
        }
        let _ = execute(&mut run, r);
    }
    let mut replayed = new_engine();
    assert_eq!(replayed.replay_log(&log), log.len() as u64);
    for uid in [buyer, seller] {
        for asset in [Asset::USDC, Asset::ETH] {
            assert_eq!(replayed.get_balance(uid, asset), run.get_balance(uid, asset));
            assert_eq!(replayed.get_total_balance(uid, asset), run.get_total_balance(uid, asset));
        }
    }
    // the ask traded 4 at the replacement's price of 90
    assert_eq!(run.get_total_balance(seller, Asset::USDC), Ok(360));
    assert_eq!(replayed.size(&eth_usdc()), run.size(&eth_usdc()));
    let a = replayed.get_order_info(&eth_usdc()).unwrap();
    let b = run.get_order_info(&eth_usdc()).unwrap();
    assert_eq!(a.get_bids().len(), 1);
    assert_eq!(b.get_bids().len(), 1);
    assert_eq!(a.get_bids()[0].price, 90);
    assert_eq!(b.get_bids()[0].price, 90);
    assert_eq!(a.get_bids()[0].quantity, 16);
    assert_eq!(b.get_bids()[0].quantity, 16);
}

#[test]
fn engine_filled_orders_keep_no_lock() {
    let mut engine = new_engine();
    engine.add_trading_pair(eth_usdc());
    let seller = funded_user(&mut engine, 0, 10);
    let buyer = funded_user(&mut engine, 10_000, 0);
    // the sell rests, then is filled by a buy above its price
    let sell = make_order(OrderType::GoodTillCancel, Side::Sell, 10, 1, seller);
    engine.add_order(&eth_usdc(), &sell).unwrap();
    let buy = make_order(OrderType::GoodTillCancel, Side::Buy, 20, 1, buyer);
    let trades = engine.add_order(&eth_usdc(), &buy).unwrap().unwrap();
    assert_eq!(trades.len(), 1);
    assert_eq!(engine.size(&eth_usdc()), Some(0));
    // both orders left the book filled: nothing stays locked
    assert_eq!(engine.get_balance(buyer, Asset::USDC), Ok(9_990));
    assert_eq!(engine.get_total_balance(buyer, Asset::USDC), Ok(9_990));
    assert_eq!(engine.get_balance(seller, Asset::ETH), Ok(9));
    assert_eq!(engine.get_total_balance(seller, Asset::ETH), Ok(9));
    assert_eq!(engine.get_balance(seller, Asset::USDC), Ok(10));
}

#[test]
fn engine_remove_trading_pair_is_logged_and_replayed() {
    let requests = vec![
        EngineRequest::AddTradingPair { pair: eth_usdc() },
        EngineRequest::AddTradingPair { pair: btc_usdc() },
        EngineRequest::RemoveTradingPair { pair: eth_usdc() },
    ];
    let mut run = new_engine();
    let mut log: Vec<WalEntry> = Vec::new();
    let mut seq: u64 = 0;
    for r in requests {
        if let Some(entry) = wal_entry(&r) {
            seq += 1;
            log.push(WalEntry::new(seq, entry));
        }
        let _ = execute(&mut run, r);
    }
    assert_eq!(log.len(), 3);
    let mut replayed = new_engine();
    assert_eq!(replayed.replay_log(&log), 3);
    assert_eq!(run.size(&eth_usdc()), None);
    assert_eq!(replayed.size(&eth_usdc()), None);
    assert_eq!(replayed.size(&btc_usdc()), Some(0));
}
