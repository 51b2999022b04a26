//! The engine's service boundary: engine failures as status replies, and
//! the conversions between wire values and engine values.
use vstd::prelude::*;
use vstd::string::*;

use crate::engine::{cancel_engine_spec, modify_spec, place_spec, replays, CoreEngine};
use crate::level_info::OrderBookLevelInfo;
use crate::order::Order;
use crate::order_modify::OrderModify;
use crate::orderbook::{side_depth, trade_ids, trades_record, OrderBook};
use crate::snowflake_id::issued;
use crate::proto;
use crate::trade::{Trade, TradeInfoView, Trades};
use crate::trading_pair::{pair_index, TradingPair};
use crate::types::{asset_index, Asset, OrderError, OrderId, OrderType, Quantity, Side, UserError, UserId, WalEntryType};
use crate::user::AssetBalances;
use crate::wal::hex_digit;

verus! {

/// A failure surfaced from the engine task.
#[derive(Debug, Clone, Copy, PartialEq, Eq, Structural)]
pub enum EngineError {
    /// The engine panicked while processing the command.
    Panic,
    /// The command was refused with an order-level error.
    Order(OrderError),
    /// The command was refused with a user or balance error.
    User(UserError),
}

/// The status class of a refused request.
#[derive(Debug, Clone, Copy, PartialEq, Eq, Structural)]
pub enum StatusCode {
    Internal,
    NotFound,
    FailedPrecondition,
    InvalidArgument,
}

/// A refused request: its status class and message.
#[derive(Debug)]
pub struct ErrorStatus {
    pub code: StatusCode,
    pub message: String,
}

/// The status class and message that report engine failure `e`.
pub open spec fn status_of(e: EngineError) -> (StatusCode, Seq<char>) {
    match e {
        EngineError::Panic => (StatusCode::Internal, "internal engine error"@),
        EngineError::Order(OrderError::NoSuchPair) => (StatusCode::NotFound, "trading pair not found"@),
        EngineError::Order(OrderError::NoSuchUser) => (StatusCode::NotFound, "user not found"@),
        EngineError::Order(OrderError::InsufficientBalance) => (StatusCode::FailedPrecondition, "insufficient balance"@),
        EngineError::Order(OrderError::InvalidOrder) => (StatusCode::InvalidArgument, "invalid order"@),
        EngineError::User(UserError::NoSuchUser) => (StatusCode::NotFound, "user not found"@),
        EngineError::User(UserError::InsufficientBalance) => (StatusCode::FailedPrecondition, "insufficient balance"@),
        EngineError::User(UserError::BalanceOverflow) => (StatusCode::FailedPrecondition, "balance overflow"@),
    }
}

/// A status reply with a message given as a literal.
fn status(code: StatusCode, message: &str) -> (s: ErrorStatus)
    ensures
        s.code == code,
        s.message@ == message@,
{
    ErrorStatus { code, message: message.to_owned() }
}

impl EngineError {
    /// The status reply that reports this failure (see [`status_of`]).
    pub fn to_status(&self) -> (s: ErrorStatus)
        ensures
            (s.code, s.message@) == status_of(*self),
    {
        match self {
            EngineError::Panic => status(StatusCode::Internal, "internal engine error"),
            EngineError::Order(e) => match e {
                OrderError::NoSuchPair => status(StatusCode::NotFound, "trading pair not found"),
                OrderError::NoSuchUser => status(StatusCode::NotFound, "user not found"),
                OrderError::InsufficientBalance => status(StatusCode::FailedPrecondition, "insufficient balance"),
                OrderError::InvalidOrder => status(StatusCode::InvalidArgument, "invalid order"),
            },
            EngineError::User(e) => match e {
                UserError::NoSuchUser => status(StatusCode::NotFound, "user not found"),
                UserError::InsufficientBalance => status(StatusCode::FailedPrecondition, "insufficient balance"),
                UserError::BalanceOverflow => status(StatusCode::FailedPrecondition, "balance overflow"),
            },
        }
    }
}

/// The engine asset of a wire asset.
pub open spec fn asset_of(a: proto::Asset) -> Asset {
    match a {
        proto::Asset::Eth => Asset::ETH,
        proto::Asset::Sol => Asset::SOL,
        proto::Asset::Btc => Asset::BTC,
        proto::Asset::Usdc => Asset::USDC,
        proto::Asset::Usdt => Asset::USDT,
    }
}

/// Converts a wire asset (every wire asset has an engine asset).
pub fn proto_asset_to_engine(asset: proto::Asset) -> (r: Result<Asset, ErrorStatus>)
    ensures
        r matches Ok(a) && a == asset_of(asset),
{
    match asset {
        proto::Asset::Eth => Ok(Asset::ETH),
        proto::Asset::Sol => Ok(Asset::SOL),
        proto::Asset::Btc => Ok(Asset::BTC),
        proto::Asset::Usdc => Ok(Asset::USDC),
        proto::Asset::Usdt => Ok(Asset::USDT),
    }
}

/// Converts a wire side.
pub fn proto_side_to_engine(side: proto::Side) -> (r: Result<Side, ErrorStatus>)
    ensures
        r matches Ok(s) && s == match side {
            proto::Side::Buy => Side::Buy,
            proto::Side::Sell => Side::Sell,
        },
{
    match side {
        proto::Side::Buy => Ok(Side::Buy),
        proto::Side::Sell => Ok(Side::Sell),
    }
}

/// Converts a wire order type.
pub fn proto_order_type_to_engine(order_type: proto::OrderType) -> (r: Result<OrderType, ErrorStatus>)
    ensures
        r matches Ok(t) && t == match order_type {
            proto::OrderType::GoodTillCancel => OrderType::GoodTillCancel,
            proto::OrderType::GoodForDay => OrderType::GoodForDay,
            proto::OrderType::FillAndKill => OrderType::FillAndKill,
            proto::OrderType::FillOrKill => OrderType::FillOrKill,
        },
{
    match order_type {
        proto::OrderType::GoodTillCancel => Ok(OrderType::GoodTillCancel),
        proto::OrderType::GoodForDay => Ok(OrderType::GoodForDay),
        proto::OrderType::FillAndKill => Ok(OrderType::FillAndKill),
        proto::OrderType::FillOrKill => Ok(OrderType::FillOrKill),
    }
}

/// Converts a wire trading pair.
pub fn proto_pair_to_engine(pair: proto::TradingPair) -> (r: Result<TradingPair, ErrorStatus>)
    ensures
        r matches Ok(p) && p == (TradingPair { base: asset_of(pair.base), quote: asset_of(pair.quote) }),
{
    let base = match proto_asset_to_engine(pair.base) {
        Ok(a) => a,
        Err(e) => return Err(e),
    };
    let quote = match proto_asset_to_engine(pair.quote) {
        Ok(a) => a,
        Err(e) => return Err(e),
    };
    Ok(TradingPair::new(base, quote))
}

/// The trading pair of a request: `InvalidArgument` ("missing trading
/// pair") when the request has none.
pub fn required_pair(pair: Option<proto::TradingPair>) -> (r: Result<TradingPair, ErrorStatus>)
    ensures
        match pair {
            Some(p) => r matches Ok(q) && q == (TradingPair { base: asset_of(p.base), quote: asset_of(p.quote) }),
            None => r matches Err(s) && s.code == StatusCode::InvalidArgument && s.message@ == "missing trading pair"@,
        },
{
    match pair {
        Some(p) => proto_pair_to_engine(p),
        None => Err(status(StatusCode::InvalidArgument, "missing trading pair")),
    }
}

/// The 32 lowercase hex digits of a 128-bit value, most significant first.
pub open spec fn hex32(id: u128) -> Seq<char> {
    Seq::new(32, |i: int| hex_digit(((id >> ((124 - 4 * i) as u128)) & 15) as u64))
}

/// The hyphenated text of the UUID with value `id`: its 32 hex digits in
/// groups of 8, 4, 4, 4 and 12.
pub open spec fn uuid_text_spec(id: u128) -> Seq<char> {
    let d = hex32(id);
    d.subrange(0, 8) + seq!['-'] + d.subrange(8, 12) + seq!['-'] + d.subrange(12, 16) + seq!['-']
        + d.subrange(16, 20) + seq!['-'] + d.subrange(20, 32)
}

/// The text of the UUID with value `id`, made by
/// `uuid::Uuid::from_u128(id).to_string()`. The claim: uuid's `Display`
/// (through `LowerHex` and the hyphenated format) writes the value's 16
/// big-endian bytes as 32 lowercase hex digits with a hyphen after the
/// 8th, 12th, 16th and 20th digit.
#[verifier::external_body]
pub(crate) fn uuid_text(id: u128) -> (s: String)
    ensures
        s@ == uuid_text_spec(id),
{
    uuid::Uuid::from_u128(id).to_string()
}

/// The text of user id `id` as replies carry it: the hyphenated lowercase
/// form of the UUID with that value (see [`uuid_text_spec`]).
pub fn user_id_text(id: UserId) -> (s: String)
    ensures
        s@ == uuid_text_spec(id),
{
    uuid_text(id)
}

/// What `uuid::Uuid::parse_str` makes of a text: the UUID's 128-bit value,
/// or `None` when the text is not a UUID.
pub uninterp spec fn uuid_parse(text: Seq<char>) -> Option<u128>;

/// Parses a UUID text with `uuid::Uuid::parse_str` (which accepts the
/// simple, hyphenated, braced and URN forms) and gives the UUID's 128-bit
/// value (`as_u128`), or `None` when parsing fails. The result is named,
/// not stated.
#[verifier::external_body]
fn parse_uuid(text: &str) -> (r: Option<u128>)
    ensures
        r == uuid_parse(text@),
{
    match uuid::Uuid::parse_str(text) {
        Ok(u) => Some(u.as_u128()),
        Err(_) => None,
    }
}

/// The user id of a request: `InvalidArgument` with `message` when the
/// text is not a UUID.
pub fn user_id_arg(text: &str, message: &str) -> (r: Result<UserId, ErrorStatus>)
    ensures
        match uuid_parse(text@) {
            Some(id) => r matches Ok(u) && u == id,
            None => r matches Err(s) && s.code == StatusCode::InvalidArgument && s.message@ == message@,
        },
{
    match parse_uuid(text) {
        Some(id) => Ok(id),
        None => Err(status(StatusCode::InvalidArgument, message)),
    }
}

/// One side of a trade on the wire.
pub open spec fn wire_info(i: TradeInfoView, w: proto::TradeInfo) -> bool {
    &&& w.order_id == i.order_id
    &&& w.price == i.price
    &&& w.quantity == i.quantity
    &&& w.user_id@ == uuid_text_spec(i.user_id)
}

/// The wire form of a trade; user ids become their UUID texts.
pub fn engine_trade_to_proto(trade: Trade) -> (w: proto::Trade)
    ensures
        w.trade_id == trade@.trade_id,
        w.timestamp == trade@.timestamp,
        w.bid_trade matches Some(b) && wire_info(trade@.bid, b),
        w.ask_trade matches Some(a) && wire_info(trade@.ask, a),
{
    let bid = trade.get_bid_trade_info();
    let ask = trade.get_ask_trade_info();
    proto::Trade {
        trade_id: trade.get_trade_id(),
        timestamp: trade.get_timestamp(),
        bid_trade: Some(proto::TradeInfo {
            order_id: bid.get_order_id(),
            price: bid.get_price(),
            quantity: bid.get_quantity(),
            user_id: uuid_text(bid.get_user_id()),
        }),
        ask_trade: Some(proto::TradeInfo {
            order_id: ask.get_order_id(),
            price: ask.get_price(),
            quantity: ask.get_quantity(),
            user_id: uuid_text(ask.get_user_id()),
        }),
    }
}


/// A command for the engine task.
#[derive(Debug)]
pub enum EngineRequest {
    /// Place an order (already built, with its id).
    SubmitOrder { pair: TradingPair, order: Order },
    /// Cancel an order.
    CancelOrder { pair: TradingPair, order_id: OrderId },
    /// Replace an order.
    ModifyOrder { pair: TradingPair, modify: OrderModify },
    /// Read a depth snapshot.
    GetOrderBook { pair: TradingPair },
    /// Add a trading pair.
    AddTradingPair { pair: TradingPair },
    /// Remove a trading pair and its book.
    RemoveTradingPair { pair: TradingPair },
    /// Open an account.
    AddUser { user_id: UserId },
    /// Close an account.
    RemoveUser { user_id: UserId },
    /// Credit a balance.
    DepositBalance { user_id: UserId, asset: Asset, quantity: Quantity },
    /// Debit a balance.
    WithdrawBalance { user_id: UserId, asset: Asset, quantity: Quantity },
    /// Read an available balance.
    GetBalance { user_id: UserId, asset: Asset },
    /// Read a total balance.
    GetTotalBalance { user_id: UserId, asset: Asset },
}

/// The engine task's answer to a command.
#[derive(Debug)]
pub enum EngineReply {
    /// The placed order's id and its trades (`None` when the book refused it).
    Submitted(Result<(OrderId, Option<Trades>), EngineError>),
    /// Whether an order was cancelled.
    Cancelled(Result<bool, EngineError>),
    /// The replacement's trades (`None` when the book refused it).
    Modified(Result<Option<Trades>, EngineError>),
    /// A depth snapshot.
    OrderBook(Result<OrderBookLevelInfo, EngineError>),
    /// A change without a value.
    Done(Result<(), EngineError>),
    /// The removed book (`None` when the pair had none).
    PairRemoved(Option<OrderBook>),
    /// The closed account's balances.
    Removed(Result<AssetBalances, EngineError>),
    /// A balance.
    Amount(Result<Quantity, EngineError>),
}

/// The trades that a reply carries for publication: those of a placed or a
/// modified order that the book took; `None` for any other reply.
pub fn reply_trades(reply: &EngineReply) -> (r: Option<&Trades>)
    ensures
        match reply {
            EngineReply::Submitted(Ok((_, Some(t)))) => r == Some(t),
            EngineReply::Modified(Ok(Some(t))) => r == Some(t),
            _ => r is None,
        },
{
    match reply {
        EngineReply::Submitted(Ok((_, Some(t)))) => Some(t),
        EngineReply::Modified(Ok(Some(t))) => Some(t),
        _ => None,
    }
}

/// The log entry that records command `r`; `None` for a read.
pub open spec fn wal_entry_spec(r: EngineRequest) -> Option<WalEntryType> {
    match r {
        EngineRequest::SubmitOrder { pair, order } => Some(WalEntryType::AddOrder { pair, order, trades: None }),
        EngineRequest::CancelOrder { pair, order_id } => Some(WalEntryType::CancelOrder { pair, order_id, success: true }),
        EngineRequest::ModifyOrder { pair, modify } => Some(WalEntryType::ModifyOrder { pair, modify, trades: None }),
        EngineRequest::AddTradingPair { pair } => Some(WalEntryType::AddTradingPair { pair }),
        EngineRequest::RemoveTradingPair { pair } => Some(WalEntryType::RemoveTradingPair { pair }),
        EngineRequest::AddUser { user_id } => Some(WalEntryType::AddUser { user_id }),
        EngineRequest::RemoveUser { user_id } => Some(WalEntryType::RemoveUser { user_id }),
        EngineRequest::DepositBalance { user_id, asset, quantity } => Some(WalEntryType::DepositBalance { user_id, asset, quantity }),
        EngineRequest::WithdrawBalance { user_id, asset, quantity } => Some(WalEntryType::WithdrawBalance { user_id, asset, quantity }),
        _ => None,
    }
}

/// The log entry that records command `r`, to be written before the
/// command runs; `None` for a read.
pub fn wal_entry(r: &EngineRequest) -> (e: Option<WalEntryType>)
    ensures
        e == wal_entry_spec(*r),
{
    match r {
        EngineRequest::SubmitOrder { pair, order } => Some(WalEntryType::AddOrder { pair: *pair, order: *order, trades: None }),
        EngineRequest::CancelOrder { pair, order_id } => Some(WalEntryType::CancelOrder { pair: *pair, order_id: *order_id, success: true }),
        EngineRequest::ModifyOrder { pair, modify } => Some(WalEntryType::ModifyOrder { pair: *pair, modify: *modify, trades: None }),
        EngineRequest::AddTradingPair { pair } => Some(WalEntryType::AddTradingPair { pair: *pair }),
        EngineRequest::RemoveTradingPair { pair } => Some(WalEntryType::RemoveTradingPair { pair: *pair }),
        EngineRequest::AddUser { user_id } => Some(WalEntryType::AddUser { user_id: *user_id }),
        EngineRequest::RemoveUser { user_id } => Some(WalEntryType::RemoveUser { user_id: *user_id }),
        EngineRequest::DepositBalance { user_id, asset, quantity } => Some(WalEntryType::DepositBalance { user_id: *user_id, asset: *asset, quantity: *quantity }),
        EngineRequest::WithdrawBalance { user_id, asset, quantity } => Some(WalEntryType::WithdrawBalance { user_id: *user_id, asset: *asset, quantity: *quantity }),
        _ => None,
    }
}

/// Runs command `r` on the engine and builds the reply. A command that
/// changes the engine changes it exactly as replaying its log entry
/// does; a read changes nothing. Refusals come back as `EngineError`s:
/// order refusals as `Order`, account refusals as `User`, and a depth
/// snapshot of a missing pair as `Order(NoSuchPair)`.
pub fn execute(engine: &mut CoreEngine, r: EngineRequest) -> (reply: EngineReply)
    requires
        old(engine).wf(),
    ensures
        final(engine).wf(),
        match wal_entry_spec(r) {
            Some(c) => replays(old(engine)@, c, final(engine)@),
            None => final(engine)@ == old(engine)@,
        },
        match r {
            EngineRequest::SubmitOrder { pair, order } => reply matches EngineReply::Submitted(res) && match place_spec(old(engine)@, pair, order@).1 {
                Err(e) => res == Err::<(OrderId, Option<Trades>), EngineError>(EngineError::Order(e)),
                Ok(None) => res == Ok::<(OrderId, Option<Trades>), EngineError>((order@.order_id, None)),
                Ok(Some(fills)) => res matches Ok((id, Some(t))) && id == order@.order_id && trades_record(t@, fills),
            },
            EngineRequest::CancelOrder { pair, order_id } => reply == EngineReply::Cancelled(Ok(cancel_engine_spec(old(engine)@, pair, order_id) is Some)),
            EngineRequest::ModifyOrder { pair, modify } => reply matches EngineReply::Modified(res) && exists|ts: u64| {
                &&& final(engine)@ == #[trigger] modify_spec(old(engine)@, pair, modify@, ts).0
                &&& match modify_spec(old(engine)@, pair, modify@, ts).1 {
                    Err(e) => res == Err::<Option<Trades>, EngineError>(EngineError::Order(e)),
                    Ok(None) => res == Ok::<Option<Trades>, EngineError>(None),
                    Ok(Some(fills)) => res matches Ok(Some(t)) && trades_record(t@, fills),
                }
            },
            EngineRequest::GetOrderBook { pair } => reply matches EngineReply::OrderBook(res) && match res {
                Ok(info) => old(engine)@.books.contains_key(pair_index(pair) as usize)
                    && info@.0 == side_depth(old(engine)@.books[pair_index(pair) as usize].bids, old(engine)@.books[pair_index(pair) as usize].orders)
                    && info@.1 == side_depth(old(engine)@.books[pair_index(pair) as usize].asks, old(engine)@.books[pair_index(pair) as usize].orders),
                Err(e) => e == EngineError::Order(OrderError::NoSuchPair) && !old(engine)@.books.contains_key(pair_index(pair) as usize),
            },
            EngineRequest::AddTradingPair { pair } => reply == EngineReply::Done(Ok(())),
            EngineRequest::RemoveTradingPair { pair } => reply matches EngineReply::PairRemoved(r) && match r {
                Some(b) => old(engine)@.books.contains_key(pair_index(pair) as usize) && b@ == old(engine)@.books[pair_index(pair) as usize],
                None => !old(engine)@.books.contains_key(pair_index(pair) as usize),
            },
            EngineRequest::AddUser { user_id } => reply == EngineReply::Done(Ok(())),
            EngineRequest::RemoveUser { user_id } => reply matches EngineReply::Removed(res) && match res {
                Ok(b) => old(engine)@.users.contains_key(user_id) && b.wf() && forall|a: Asset| #[trigger] b.entry(a) == old(engine)@.users[user_id].slots[asset_index(a)],
                Err(e) => e == EngineError::User(UserError::NoSuchUser) && !old(engine)@.users.contains_key(user_id),
            },
            EngineRequest::DepositBalance { user_id, asset, quantity } => reply == EngineReply::Done(
                if old(engine)@.users.contains_key(user_id) { Ok(()) } else { Err(EngineError::User(UserError::NoSuchUser)) },
            ),
            EngineRequest::WithdrawBalance { user_id, asset, quantity } => reply == EngineReply::Done(
                if !old(engine)@.users.contains_key(user_id) {
                    Err(EngineError::User(UserError::NoSuchUser))
                } else if crate::user::withdraw_spec(old(engine)@.users[user_id], asset, quantity) is None {
                    Err(EngineError::User(UserError::InsufficientBalance))
                } else {
                    Ok(())
                },
            ),
            EngineRequest::GetBalance { user_id, asset } => reply == EngineReply::Amount(
                if old(engine)@.users.contains_key(user_id) {
                    Ok(crate::user::view_available(old(engine)@.users[user_id], asset) as Quantity)
                } else {
                    Err(EngineError::User(UserError::NoSuchUser))
                },
            ),
            EngineRequest::GetTotalBalance { user_id, asset } => reply == EngineReply::Amount(
                if old(engine)@.users.contains_key(user_id) {
                    Ok(crate::user::slot_amount(old(engine)@.users[user_id].slots, asset) as Quantity)
                } else {
                    Err(EngineError::User(UserError::NoSuchUser))
                },
            ),
        },
        match reply {
            EngineReply::Submitted(Ok((_, Some(t)))) => exists|stamps: Seq<(u64, u64)>| #[trigger] issued(trade_ids(t@), stamps, old(engine).id_gen()@, final(engine).id_gen()@),
            EngineReply::Modified(Ok(Some(t))) => exists|stamps: Seq<(u64, u64)>| #[trigger] issued(trade_ids(t@), stamps, old(engine).id_gen()@, final(engine).id_gen()@),
            _ => true,
        },
{
    match r {
        EngineRequest::SubmitOrder { pair, order } => {
            let res = match engine.add_order(&pair, &order) {
                Ok(trades) => Ok((order.get_order_id(), trades)),
                Err(e) => Err(EngineError::Order(e)),
            };
            assert(replays(old(engine)@, WalEntryType::AddOrder { pair, order, trades: None }, engine@));
            EngineReply::Submitted(res)
        },
        EngineRequest::CancelOrder { pair, order_id } => {
            let ok = engine.cancel_order(&pair, &order_id);
            proof {
                if cancel_engine_spec(old(engine)@, pair, order_id) is None {
                    assert(engine@ == old(engine)@);
                }
            }
            EngineReply::Cancelled(Ok(ok))
        },
        EngineRequest::ModifyOrder { pair, modify } => {
            let ghost e0 = *engine;
            let res = match engine.modify_order(&pair, modify) {
                Ok(trades) => Ok(trades),
                Err(e) => Err(EngineError::Order(e)),
            };
            proof {
                let ts = choose|ts: u64| #[trigger] modify_spec(e0@, pair, modify@, ts).0 == engine@;
                assert(modify_spec(e0@, pair, modify@, ts).0 == engine@);
                assert(exists|t: u64| engine@ == #[trigger] modify_spec(e0@, pair, modify@, t).0);
                let c = WalEntryType::ModifyOrder { pair, modify, trades: None };
                assert(c matches WalEntryType::ModifyOrder { pair: p2, modify: m2, trades: _ } && p2 == pair && m2 == modify);
                assert(replays(e0@, c, engine@));
            }
            EngineReply::Modified(res)
        },
        EngineRequest::GetOrderBook { pair } => {
            let res = match engine.get_order_info(&pair) {
                Some(info) => Ok(info),
                None => Err(EngineError::Order(OrderError::NoSuchPair)),
            };
            EngineReply::OrderBook(res)
        },
        EngineRequest::RemoveTradingPair { pair } => {
            let b = engine.remove_trading_pair(&pair);
            EngineReply::PairRemoved(b)
        },
        EngineRequest::AddTradingPair { pair } => {
            engine.add_trading_pair(pair);
            assert(engine@ =~= crate::engine::add_pair_spec(old(engine)@, pair));
            EngineReply::Done(Ok(()))
        },
        EngineRequest::AddUser { user_id } => {
            engine.add_user(user_id);
            assert(engine@ =~= crate::engine::add_user_spec(old(engine)@, user_id));
            EngineReply::Done(Ok(()))
        },
        EngineRequest::RemoveUser { user_id } => {
            let res = match engine.remove_user(user_id) {
                Ok(b) => Ok(b),
                Err(e) => Err(EngineError::User(e)),
            };
            assert(engine@ =~= crate::engine::EngineView { books: crate::engine::books_without_user(old(engine)@.books, user_id), users: old(engine)@.users.remove(user_id) });
            EngineReply::Removed(res)
        },
        EngineRequest::DepositBalance { user_id, asset, quantity } => {
            let res = match engine.deposit_balance(user_id, asset, quantity) {
                Ok(()) => Ok(()),
                Err(e) => Err(EngineError::User(e)),
            };
            assert(engine@ =~= crate::engine::deposit_engine_spec(old(engine)@, user_id, asset, quantity));
            EngineReply::Done(res)
        },
        EngineRequest::WithdrawBalance { user_id, asset, quantity } => {
            let res = match engine.withdraw_balance(user_id, asset, quantity) {
                Ok(()) => Ok(()),
                Err(e) => Err(EngineError::User(e)),
            };
            assert(engine@ =~= crate::engine::withdraw_engine_spec(old(engine)@, user_id, asset, quantity));
            EngineReply::Done(res)
        },
        EngineRequest::GetBalance { user_id, asset } => {
            let res = match engine.get_balance(user_id, asset) {
                Ok(q) => Ok(q),
                Err(e) => Err(EngineError::User(e)),
            };
            EngineReply::Amount(res)
        },
        EngineRequest::GetTotalBalance { user_id, asset } => {
            let res = match engine.get_total_balance(user_id, asset) {
                Ok(q) => Ok(q),
                Err(e) => Err(EngineError::User(e)),
            };
            EngineReply::Amount(res)
        },
    }
}
} // verus!
