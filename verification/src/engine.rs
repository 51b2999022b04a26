//! The core engine: one order book per trading pair, the user accounts, and
//! the order id generator. Placing an order locks the funds it may spend,
//! fills are settled against both users' balances, and the funds of an
//! order that leaves the book unfilled are released.
use std::collections::HashMap;
use vstd::prelude::*;

use crate::book_model::{add_spec, book_wf, cancel_spec, ioc_run, party, without_user, BookModel, Fill, IocState};
use crate::level_info::OrderBookLevelInfo;
use crate::order::{Order, OrderView};
use crate::order_modify::{OrderModify, OrderModifyView};
use crate::orderbook::{replaces, side_depth, trade_ids, trades_record, OrderBook};
use crate::snowflake_id::{issued, stamp_before, SnowFlakeGenerator};
use crate::trade::Trades;
use crate::trading_pair::{pair_index, TradingPair};
use crate::types::{asset_index, Asset, OrderError, OrderId, OrderType, Price, Quantity, Side, UserError, UserId};
use crate::user::{apply_fill_spec, AssetBalances, User, UserView};
use crate::types::WalEntryType;
use crate::wal::WalEntry;

verus! {

broadcast use vstd::std_specs::hash::group_hash_axioms;

/// `price * quantity` when it is a quantity: `Some(0)` for a zero
/// quantity, `None` for a negative price with a non-zero quantity or a
/// product above the largest quantity.
pub open spec fn notional_spec(price: Price, quantity: Quantity) -> Option<Quantity> {
    if quantity == 0 {
        Some(0)
    } else if price < 0 {
        None
    } else if price * quantity <= u32::MAX {
        Some((price * quantity) as Quantity)
    } else {
        None
    }
}

/// An order's price and quantity are acceptable: both positive, and the
/// notional `price * quantity` fits a quantity.
pub open spec fn valid_order(price: Price, quantity: Quantity) -> bool {
    price > 0 && quantity > 0 && price * quantity <= u32::MAX
}

/// What an order must lock: the notional in the quote asset for a buy, the
/// quantity of the base asset for a sell; `None` when the notional of a buy
/// is not a quantity.
pub open spec fn lock_spec_for(pair: TradingPair, side: Side, price: Price, quantity: Quantity) -> Option<(Asset, Quantity)> {
    match side {
        Side::Buy => match notional_spec(price, quantity) {
            Some(n) => Some((pair.quote, n)),
            None => None,
        },
        Side::Sell => Some((pair.base, quantity)),
    }
}

/// The users after one side of a fill is applied to user `uid` (unchanged
/// when the user does not exist or the fill is refused).
pub open spec fn settle_side(
    users: Map<UserId, UserView>,
    uid: UserId,
    oid: OrderId,
    da: Asset,
    dq: Quantity,
    ca: Asset,
    cq: Quantity,
) -> Map<UserId, UserView> {
    if users.contains_key(uid) {
        match apply_fill_spec(users[uid], oid, da, dq, ca, cq) {
            Some(v) => users.insert(uid, v),
            None => users,
        }
    } else {
        users
    }
}

/// The users after fill `f` of pair `pair` is settled: the buyer pays the
/// notional in the quote asset and receives the quantity of the base asset,
/// the seller the inverse. A fill whose notional is not a quantity is skipped.
pub open spec fn settle_fill(users: Map<UserId, UserView>, pair: TradingPair, f: Fill) -> Map<UserId, UserView> {
    match notional_spec(f.price, f.quantity) {
        None => users,
        Some(n) => {
            let u1 = settle_side(users, f.bid_user, f.bid_id, pair.quote, n, pair.base, f.quantity);
            settle_side(u1, f.ask_user, f.ask_id, pair.base, f.quantity, pair.quote, n)
        },
    }
}

/// The users after the fills are settled in order.
pub open spec fn settle_spec(users: Map<UserId, UserView>, pair: TradingPair, fills: Seq<Fill>) -> Map<UserId, UserView>
    decreases fills.len(),
{
    if fills.len() == 0 {
        users
    } else {
        settle_fill(settle_spec(users, pair, fills.drop_last()), pair, fills.last())
    }
}

/// The users after the lock of order `oid` of user `uid` is released.
pub open spec fn release(users: Map<UserId, UserView>, uid: UserId, oid: OrderId) -> Map<UserId, UserView> {
    if users.contains_key(uid) {
        users.insert(uid, crate::user::unlock_spec(users[uid], oid))
    } else {
        users
    }
}

/// Mathematical content of the engine: the book of each trading pair (by
/// pair index) and the account of each user.
#[verifier::ext_equal]
pub struct EngineView {
    pub books: Map<usize, BookModel>,
    pub users: Map<UserId, UserView>,
}

/// Every account is consistent and stored under its own id.
pub open spec fn users_ok(users: Map<UserId, User>) -> bool {
    forall|k: UserId| #[trigger] users.contains_key(k) ==> users[k].wf() && users[k]@.id == k
}

/// Every book is well formed.
pub open spec fn books_ok(books: Map<usize, OrderBook>) -> bool {
    forall|k: usize| #[trigger] books.contains_key(k) ==> books[k].wf() && k < 25
}

pub open spec fn users_model(users: Map<UserId, User>) -> Map<UserId, UserView> {
    users.map_values(|u: User| u@)
}

pub open spec fn books_model(books: Map<usize, OrderBook>) -> Map<usize, BookModel> {
    books.map_values(|b: OrderBook| b@)
}

/// The single-threaded matching engine.
pub struct CoreEngine {
    orderbooks: HashMap<usize, OrderBook>,
    users: HashMap<UserId, User>,
    generator: SnowFlakeGenerator,
}

impl View for CoreEngine {
    type V = EngineView;

    closed spec fn view(&self) -> EngineView {
        EngineView { books: books_model(self.orderbooks@), users: users_model(self.users@) }
    }
}

/// Applies one side of a fill to user `uid`, when the user exists (a
/// refused fill changes nothing).
fn fill_side(users: &mut HashMap<UserId, User>, uid: UserId, oid: OrderId, da: Asset, dq: Quantity, ca: Asset, cq: Quantity)
    requires
        users_ok(old(users)@),
    ensures
        users_ok(final(users)@),
        users_model(final(users)@) == settle_side(users_model(old(users)@), uid, oid, da, dq, ca, cq),
{
    let ghost before = users@;
    if users.contains_key(&uid) {
        let mut u = users.remove(&uid).unwrap();
        assert(before.contains_key(uid));
        let _ = u.apply_fill(&oid, da, dq, ca, cq);
        users.insert(uid, u);
        proof {
            assert(users_model(users@) =~= settle_side(users_model(before), uid, oid, da, dq, ca, cq));
        }
    } else {
        assert(users_model(users@) =~= users_model(before));
    }
}

impl CoreEngine {
    /// The engine's order id generator.
    pub closed spec fn id_gen(&self) -> SnowFlakeGenerator {
        self.generator
    }

    /// The engine's internal consistency: a consistent id generator, well
    /// formed books, and consistent accounts stored under their ids.
    pub closed spec fn wf(&self) -> bool {
        &&& self.id_gen().wf()
        &&& books_ok(self.orderbooks@)
        &&& users_ok(self.users@)
    }

    /// Creates an engine with no trading pairs and no users, whose order ids
    /// carry the given machine and datacenter ids.
    pub fn new(machine_id: u64, datacenter_id: u64) -> (e: CoreEngine)
        requires
            machine_id <= 31,
            datacenter_id <= 31,
        ensures
            e.wf(),
            e@.books == Map::<usize, BookModel>::empty(),
            e@.users == Map::<UserId, UserView>::empty(),
            locks_backed(e@),
    {
        let e = CoreEngine {
            orderbooks: HashMap::new(),
            users: HashMap::new(),
            generator: SnowFlakeGenerator::new(machine_id, datacenter_id),
        };
        assert(e@.books =~= Map::<usize, BookModel>::empty());
        assert(e@.users =~= Map::<UserId, UserView>::empty());
        e
    }

    /// A fresh order id from the engine's generator (larger than every id it
    /// handed out before).
    pub fn next_id(&mut self) -> (id: OrderId)
        requires
            old(self).wf(),
        ensures
            final(self).wf(),
            final(self)@ == old(self)@,
            id == final(self).id_gen().last_id(),
            final(self).id_gen()@.machine_id == old(self).id_gen()@.machine_id,
            final(self).id_gen()@.datacenter_id == old(self).id_gen()@.datacenter_id,
            old(self).id_gen()@.last_timestamp < u64::MAX ==> stamp_before(
                old(self).id_gen()@.last_timestamp,
                old(self).id_gen()@.sequence,
                final(self).id_gen()@.last_timestamp,
                final(self).id_gen()@.sequence,
            ),
    {
        self.generator.next_id()
    }

    /// `price * quantity` as a quantity (see [`notional_spec`]).
    pub fn notional(price: Price, quantity: Quantity) -> (r: Option<Quantity>)
        ensures
            r == notional_spec(price, quantity),
    {
        if quantity == 0 {
            return Some(0);
        }
        if price < 0 {
            return None;
        }
        let p = price as u64;
        let q = quantity as u64;
        assert(p * q <= 0xffff_ffff_ffff_ffff) by (nonlinear_arith)
            requires
                p <= 0x7fff_ffff,
                q <= 0xffff_ffff,
        ;
        let v = p * q;
        if v <= 0xffff_ffff {
            Some(v as u32)
        } else {
            None
        }
    }

    /// Checks an order's price and quantity (see [`valid_order`]).
    pub fn validate_order(price: Price, quantity: Quantity) -> (r: Result<(), OrderError>)
        ensures
            r is Ok <==> valid_order(price, quantity),
            r is Err ==> r == Err::<(), OrderError>(OrderError::InvalidOrder),
    {
        if price <= 0 || quantity == 0 {
            return Err(OrderError::InvalidOrder);
        }
        match Self::notional(price, quantity) {
            Some(_) => Ok(()),
            None => Err(OrderError::InvalidOrder),
        }
    }

    /// The asset and amount an order must lock (see [`lock_spec_for`]);
    /// `InvalidOrder` when the notional of a buy is not a quantity.
    pub fn lock_amount_for(pair: &TradingPair, side: Side, price: Price, quantity: Quantity) -> (r: Result<(Asset, Quantity), OrderError>)
        ensures
            match lock_spec_for(*pair, side, price, quantity) {
                Some(x) => r == Ok::<(Asset, Quantity), OrderError>(x),
                None => r == Err::<(Asset, Quantity), OrderError>(OrderError::InvalidOrder),
            },
    {
        match side {
            Side::Buy => match Self::notional(price, quantity) {
                Some(n) => Ok((pair.quote, n)),
                None => Err(OrderError::InvalidOrder),
            },
            Side::Sell => Ok((pair.base, quantity)),
        }
    }

    /// Settles the trades of pair `pair` against the users' balances, in
    /// order (see [`settle_spec`]): each trade records fill `fills[k]`.
    fn settle_trades(users: &mut HashMap<UserId, User>, pair: &TradingPair, trades: &Trades, Ghost(fills): Ghost<Seq<Fill>>)
        requires
            users_ok(old(users)@),
            trades_record(trades@, fills),
        ensures
            users_ok(final(users)@),
            users_model(final(users)@) == settle_spec(users_model(old(users)@), *pair, fills),
    {
        let ghost start = users_model(users@);
        let mut i: usize = 0;
        assert(fills.take(0) =~= Seq::<Fill>::empty());
        while i < trades.len()
            invariant
                i <= trades@.len(),
                trades_record(trades@, fills),
                users_ok(users@),
                users_model(users@) == settle_spec(start, *pair, fills.take(i as int)),
            decreases trades@.len() - i,
        {
            let t = &trades[i];
            let bid = t.get_bid_trade_info();
            let ask = t.get_ask_trade_info();
            let price = bid.get_price();
            let quantity = bid.get_quantity();
            proof {
                assert(crate::orderbook::trade_records(trades@[i as int]@, fills[i as int]));
                assert(fills.take(i + 1).drop_last() =~= fills.take(i as int));
                assert(fills.take(i + 1).last() == fills[i as int]);
            }
            match Self::notional(price, quantity) {
                None => {},
                Some(n) => {
                    fill_side(users, bid.get_user_id(), bid.get_order_id(), pair.quote, n, pair.base, quantity);
                    fill_side(users, ask.get_user_id(), ask.get_order_id(), pair.base, quantity, pair.quote, n);
                },
            }
            i = i + 1;
        }
        assert(fills.take(i as int) =~= fills);
    }
}


/// An empty order book.
pub open spec fn empty_book() -> BookModel {
    BookModel { bids: Seq::empty(), asks: Seq::empty(), orders: Map::empty() }
}

/// A new account: no locks, no balance entries.
pub open spec fn fresh_user(id: UserId) -> UserView {
    UserView { id, locks: Seq::empty(), slots: seq![None::<Quantity>, None, None, None, None] }
}

/// Releases the lock of order `oid` of user `uid`, when the user exists.
fn release_lock(users: &mut HashMap<UserId, User>, uid: UserId, oid: OrderId)
    requires
        users_ok(old(users)@),
    ensures
        users_ok(final(users)@),
        users_model(final(users)@) == release(users_model(old(users)@), uid, oid),
{
    let ghost before = users@;
    if users.contains_key(&uid) {
        let mut u = users.remove(&uid).unwrap();
        let _ = u.unlock_order(&oid);
        users.insert(uid, u);
        assert(users_model(users@) =~= release(users_model(before), uid, oid));
    } else {
        assert(users_model(users@) =~= users_model(before));
    }
}

impl CoreEngine {
    /// Adds an empty book for `pair`; nothing changes when it has one.
    pub fn add_trading_pair(&mut self, pair: TradingPair)
        requires
            old(self).wf(),
        ensures
            final(self).wf(),
            final(self)@.users == old(self)@.users,
            final(self)@.books == if old(self)@.books.contains_key(pair_index(pair) as usize) {
                old(self)@.books
            } else {
                old(self)@.books.insert(pair_index(pair) as usize, empty_book())
            },
            locks_backed(old(self)@) ==> locks_backed(final(self)@),
    {
        let k = pair.index();
        if !self.orderbooks.contains_key(&k) {
            let b = OrderBook::new();
            self.orderbooks.insert(k, b);
            assert(b@.bids =~= Seq::<crate::book_model::LevelModel>::empty());
            assert(b@.asks =~= Seq::<crate::book_model::LevelModel>::empty());
            assert(b@ == empty_book());
            assert(self@.books =~= old(self)@.books.insert(k, empty_book()));
            proof {
                let e0 = old(self)@;
                let e1 = self@;
                if locks_backed(e0) {
                    assert forall|u: UserId, x: OrderId|
                        #![trigger crate::user::lookup(e1.users[u].locks, x)]
                        e1.users.contains_key(u) && crate::user::lookup(e1.users[u].locks, x) is Some implies rests_for(e1.books, x, u) by {
                        assert(rests_for(e0.books, x, u));
                        let k1 = choose|k1: usize| #![trigger e0.books[k1]] e0.books.contains_key(k1) && e0.books[k1].orders.contains_key(x) && e0.books[k1].orders[x].user_id == u;
                        assert(k1 != k);
                        assert(e1.books[k1] == e0.books[k1]);
                    }
                }
            }
        }
    }

    /// Removes the book of `pair` and returns it (`None` when there is none).
    pub fn remove_trading_pair(&mut self, pair: &TradingPair) -> (r: Option<OrderBook>)
        requires
            old(self).wf(),
        ensures
            final(self).wf(),
            final(self)@.users == old(self)@.users,
            final(self)@.books == old(self)@.books.remove(pair_index(*pair) as usize),
            match r {
                Some(b) => b.wf() && old(self)@.books.contains_key(pair_index(*pair) as usize) && b@ == old(self)@.books[pair_index(*pair) as usize],
                None => !old(self)@.books.contains_key(pair_index(*pair) as usize),
            },
    {
        let k = pair.index();
        let r = self.orderbooks.remove(&k);
        assert(self@.books =~= old(self)@.books.remove(k));
        r
    }

    /// A depth snapshot of the book of `pair` (`None` when there is none).
    pub fn get_order_info(&self, pair: &TradingPair) -> (r: Option<OrderBookLevelInfo>)
        requires
            self.wf(),
        ensures
            match r {
                Some(info) => self@.books.contains_key(pair_index(*pair) as usize)
                    && info@.0 == side_depth(self@.books[pair_index(*pair) as usize].bids, self@.books[pair_index(*pair) as usize].orders)
                    && info@.1 == side_depth(self@.books[pair_index(*pair) as usize].asks, self@.books[pair_index(*pair) as usize].orders),
                None => !self@.books.contains_key(pair_index(*pair) as usize),
            },
    {
        let k = pair.index();
        match self.orderbooks.get(&k) {
            Some(b) => Some(b.get_order_info()),
            None => None,
        }
    }

    /// The number of resting orders in the book of `pair` (`None` when there is none).
    pub fn size(&self, pair: &TradingPair) -> (r: Option<usize>)
        requires
            self.wf(),
        ensures
            match r {
                Some(n) => self@.books.contains_key(pair_index(*pair) as usize)
                    && n == self@.books[pair_index(*pair) as usize].orders.len(),
                None => !self@.books.contains_key(pair_index(*pair) as usize),
            },
    {
        let k = pair.index();
        match self.orderbooks.get(&k) {
            Some(b) => Some(b.size()),
            None => None,
        }
    }

    /// Opens an account for `user_id`; nothing changes when it has one.
    pub fn add_user(&mut self, user_id: UserId)
        requires
            old(self).wf(),
        ensures
            final(self).wf(),
            final(self)@.books == old(self)@.books,
            final(self)@.users == if old(self)@.users.contains_key(user_id) {
                old(self)@.users
            } else {
                old(self)@.users.insert(user_id, fresh_user(user_id))
            },
            locks_backed(old(self)@) ==> locks_backed(final(self)@),
    {
        if !self.users.contains_key(&user_id) {
            let u = User::new(Some(user_id));
            assert(u@.locks =~= Seq::<(OrderId, crate::user::LockEntry)>::empty());
            assert(u@ == fresh_user(user_id));
            self.users.insert(user_id, u);
            assert(self@.users =~= old(self)@.users.insert(user_id, fresh_user(user_id)));
        }
    }

    /// Credits `quantity` of `asset` to `user_id` (saturating).
    pub fn deposit_balance(&mut self, user_id: UserId, asset: Asset, quantity: Quantity) -> (r: Result<(), UserError>)
        requires
            old(self).wf(),
        ensures
            final(self).wf(),
            final(self)@.books == old(self)@.books,
            match r {
                Ok(_) => old(self)@.users.contains_key(user_id) && final(self)@.users == old(self)@.users.insert(
                    user_id,
                    crate::user::deposit_spec(old(self)@.users[user_id], asset, quantity),
                ),
                Err(e) => e == UserError::NoSuchUser && !old(self)@.users.contains_key(user_id)
                    && final(self)@ == old(self)@,
            },
            locks_backed(old(self)@) ==> locks_backed(final(self)@),
    {
        if !self.users.contains_key(&user_id) {
            return Err(UserError::NoSuchUser);
        }
        let mut u = self.users.remove(&user_id).unwrap();
        u.add_balance(asset, quantity);
        self.users.insert(user_id, u);
        assert(self@.users =~= old(self)@.users.insert(user_id, crate::user::deposit_spec(old(self)@.users[user_id], asset, quantity)));
        Ok(())
    }

    /// Debits `quantity` of `asset` from `user_id`; refused when the user's
    /// available balance is below `quantity`.
    pub fn withdraw_balance(&mut self, user_id: UserId, asset: Asset, quantity: Quantity) -> (r: Result<(), UserError>)
        requires
            old(self).wf(),
        ensures
            final(self).wf(),
            final(self)@.books == old(self)@.books,
            !old(self)@.users.contains_key(user_id) ==> r == Err::<(), UserError>(UserError::NoSuchUser) && final(self)@ == old(self)@,
            old(self)@.users.contains_key(user_id) ==> match crate::user::withdraw_spec(old(self)@.users[user_id], asset, quantity) {
                None => r == Err::<(), UserError>(UserError::InsufficientBalance) && final(self)@ == old(self)@,
                Some(v) => r is Ok && final(self)@.users == old(self)@.users.insert(user_id, v),
            },
            locks_backed(old(self)@) ==> locks_backed(final(self)@),
    {
        if !self.users.contains_key(&user_id) {
            return Err(UserError::NoSuchUser);
        }
        let mut u = self.users.remove(&user_id).unwrap();
        let res = u.substract_balance(asset, quantity);
        self.users.insert(user_id, u);
        match res {
            Ok(_) => {
                assert(self@.users =~= old(self)@.users.insert(user_id, u@));
                Ok(())
            },
            Err(_) => {
                assert(self@.users =~= old(self)@.users);
                Err(UserError::InsufficientBalance)
            },
        }
    }

    /// The available balance (held minus locked) of `asset` for `user_id`.
    pub fn get_balance(&self, user_id: UserId, asset: Asset) -> (r: Result<Quantity, UserError>)
        requires
            self.wf(),
        ensures
            match r {
                Ok(q) => self@.users.contains_key(user_id) && q == crate::user::view_available(self@.users[user_id], asset),
                Err(e) => e == UserError::NoSuchUser && !self@.users.contains_key(user_id),
            },
    {
        match self.users.get(&user_id) {
            Some(u) => Ok(u.get_available_balance(&asset)),
            None => Err(UserError::NoSuchUser),
        }
    }

    /// The total balance (locked funds included) of `asset` for `user_id`.
    pub fn get_total_balance(&self, user_id: UserId, asset: Asset) -> (r: Result<Quantity, UserError>)
        requires
            self.wf(),
        ensures
            match r {
                Ok(q) => self@.users.contains_key(user_id) && q == crate::user::slot_amount(self@.users[user_id].slots, asset),
                Err(e) => e == UserError::NoSuchUser && !self@.users.contains_key(user_id),
            },
    {
        match self.users.get(&user_id) {
            Some(u) => Ok(u.get_balance(&asset)),
            None => Err(UserError::NoSuchUser),
        }
    }
}

/// What the engine returns for a command that may trade: `Err(e)`, or the
/// fills of the trades it made (`None` when the book refused the order).
pub open spec fn outcome(r: Result<Option<Trades>, OrderError>, res: Result<Option<Seq<Fill>>, OrderError>) -> bool {
    match res {
        Err(e) => r == Err::<Option<Trades>, OrderError>(e),
        Ok(None) => r == Ok::<Option<Trades>, OrderError>(None),
        Ok(Some(fills)) => r matches Ok(Some(t)) && trades_record(t@, fills),
    }
}

/// The users after the locks of the orders that the fills took out of the
/// book (those that `b` no longer holds) are released, fill by fill.
pub open spec fn release_done(users: Map<UserId, UserView>, fills: Seq<Fill>, b: BookModel) -> Map<UserId, UserView>
    decreases fills.len(),
{
    if fills.len() == 0 {
        users
    } else {
        let u1 = release_done(users, fills.drop_last(), b);
        let f = fills.last();
        let u2 = if b.orders.contains_key(f.bid_id) {
            u1
        } else {
            release(u1, f.bid_user, f.bid_id)
        };
        if b.orders.contains_key(f.ask_id) {
            u2
        } else {
            release(u2, f.ask_user, f.ask_id)
        }
    }
}

/// Settling fills keeps the set of accounts.
proof fn lemma_settle_dom(users: Map<UserId, UserView>, pair: TradingPair, fills: Seq<Fill>)
    ensures
        settle_spec(users, pair, fills).dom() =~= users.dom(),
    decreases fills.len(),
{
    if fills.len() > 0 {
        lemma_settle_dom(users, pair, fills.drop_last());
    }
}

/// Releasing the locks of filled orders keeps the set of accounts.
proof fn lemma_release_done_dom(users: Map<UserId, UserView>, fills: Seq<Fill>, b: BookModel)
    ensures
        release_done(users, fills, b).dom() =~= users.dom(),
    decreases fills.len(),
{
    if fills.len() > 0 {
        lemma_release_done_dom(users, fills.drop_last(), b);
    }
}

/// Every account's lock table is keyed by distinct orders.
pub open spec fn locks_unique(users: Map<UserId, UserView>) -> bool {
    forall|u: UserId| #[trigger] users.contains_key(u) ==> crate::user::keys_unique(users[u].locks)
}

/// User `u` has no lock under order `id` (or no account).
pub open spec fn no_lock(users: Map<UserId, UserView>, u: UserId, id: OrderId) -> bool {
    users.contains_key(u) ==> crate::user::lookup(users[u].locks, id) is None
}

proof fn lemma_users_ok_unique(users: Map<UserId, User>)
    requires
        users_ok(users),
    ensures
        locks_unique(users_model(users)),
{
    assert forall|u: UserId| #[trigger] users_model(users).contains_key(u) implies crate::user::keys_unique(users_model(users)[u].locks) by {
        assert(users.contains_key(u));
    }
}

/// Releasing a lock keeps the lock tables keyed uniquely, removes that lock,
/// and adds none.
proof fn lemma_release_facts(users: Map<UserId, UserView>, uid: UserId, oid: OrderId)
    requires
        locks_unique(users),
    ensures
        locks_unique(release(users, uid, oid)),
        release(users, uid, oid).dom() =~= users.dom(),
        no_lock(release(users, uid, oid), uid, oid),
        forall|u: UserId, id: OrderId| #[trigger] no_lock(users, u, id) ==> no_lock(release(users, uid, oid), u, id),
{
    let r = release(users, uid, oid);
    if users.contains_key(uid) {
        crate::user::lemma_unlock_removes(users[uid], oid);
        assert forall|u: UserId| #[trigger] r.contains_key(u) implies crate::user::keys_unique(r[u].locks) by {
            if u == uid {
                crate::user::lemma_unlock_keeps(users[uid], oid, oid);
            }
        }
        assert forall|u: UserId, id: OrderId| #[trigger] no_lock(users, u, id) implies no_lock(r, u, id) by {
            if u == uid && users.contains_key(u) {
                crate::user::lemma_unlock_keeps(users[uid], oid, id);
            }
        }
    }
}

/// After the locks of the orders taken out of `b` are released, none of
/// those orders keeps a lock.
proof fn lemma_release_done_clears(users: Map<UserId, UserView>, fills: Seq<Fill>, b: BookModel)
    requires
        locks_unique(users),
    ensures
        locks_unique(release_done(users, fills, b)),
        release_done(users, fills, b).dom() =~= users.dom(),
        forall|i: int| 0 <= i < fills.len() && !b.orders.contains_key(#[trigger] fills[i].bid_id) ==> no_lock(release_done(users, fills, b), fills[i].bid_user, fills[i].bid_id),
        forall|i: int| 0 <= i < fills.len() && !b.orders.contains_key(#[trigger] fills[i].ask_id) ==> no_lock(release_done(users, fills, b), fills[i].ask_user, fills[i].ask_id),
    decreases fills.len(),
{
    if fills.len() > 0 {
        let d = fills.drop_last();
        lemma_release_done_clears(users, d, b);
        let u1 = release_done(users, d, b);
        let f = fills.last();
        let u2 = if b.orders.contains_key(f.bid_id) { u1 } else { release(u1, f.bid_user, f.bid_id) };
        if !b.orders.contains_key(f.bid_id) {
            lemma_release_facts(u1, f.bid_user, f.bid_id);
        }
        if !b.orders.contains_key(f.ask_id) {
            lemma_release_facts(u2, f.ask_user, f.ask_id);
        }
        let u3 = release_done(users, fills, b);
        assert forall|i: int| 0 <= i < fills.len() && !b.orders.contains_key(#[trigger] fills[i].bid_id) implies no_lock(u3, fills[i].bid_user, fills[i].bid_id) by {
            if i < d.len() {
                assert(d[i] == fills[i]);
                assert(no_lock(u1, d[i].bid_user, d[i].bid_id));
            }
        }
        assert forall|i: int| 0 <= i < fills.len() && !b.orders.contains_key(#[trigger] fills[i].ask_id) implies no_lock(u3, fills[i].ask_user, fills[i].ask_id) by {
            if i < d.len() {
                assert(d[i] == fills[i]);
                assert(no_lock(u1, d[i].ask_user, d[i].ask_id));
            }
        }
    }
}

/// Every lock of `m2` was a lock of `m1`, and both hold the same accounts.
pub open spec fn locks_within(m2: Map<UserId, UserView>, m1: Map<UserId, UserView>) -> bool {
    &&& m2.dom() == m1.dom()
    &&& forall|u: UserId, x: OrderId|
        #![trigger crate::user::lookup(m2[u].locks, x)]
        m2.contains_key(u) && crate::user::lookup(m2[u].locks, x) is Some ==> crate::user::lookup(m1[u].locks, x) is Some
}

proof fn lemma_within_trans(a: Map<UserId, UserView>, b: Map<UserId, UserView>, c: Map<UserId, UserView>)
    requires
        locks_within(a, b),
        locks_within(b, c),
    ensures
        locks_within(a, c),
{
    assert forall|u: UserId, x: OrderId|
        #![trigger crate::user::lookup(a[u].locks, x)]
        a.contains_key(u) && crate::user::lookup(a[u].locks, x) is Some implies crate::user::lookup(c[u].locks, x) is Some by {
        assert(crate::user::lookup(b[u].locks, x) is Some);
    }
}

proof fn lemma_release_within(users: Map<UserId, UserView>, uid: UserId, oid: OrderId)
    requires
        locks_unique(users),
    ensures
        locks_within(release(users, uid, oid), users),
        locks_unique(release(users, uid, oid)),
{
    lemma_release_facts(users, uid, oid);
    let r = release(users, uid, oid);
    assert forall|u: UserId, x: OrderId|
        #![trigger crate::user::lookup(r[u].locks, x)]
        r.contains_key(u) && crate::user::lookup(r[u].locks, x) is Some implies crate::user::lookup(users[u].locks, x) is Some by {
        if crate::user::lookup(users[u].locks, x) is None {
            assert(no_lock(users, u, x));
            assert(no_lock(r, u, x));
        }
    }
}

proof fn lemma_settle_side_within(users: Map<UserId, UserView>, uid: UserId, oid: OrderId, da: Asset, dq: Quantity, ca: Asset, cq: Quantity)
    requires
        locks_unique(users),
    ensures
        locks_within(settle_side(users, uid, oid, da, dq, ca, cq), users),
        locks_unique(settle_side(users, uid, oid, da, dq, ca, cq)),
{
    let r = settle_side(users, uid, oid, da, dq, ca, cq);
    if users.contains_key(uid) && apply_fill_spec(users[uid], oid, da, dq, ca, cq) is Some {
        assert forall|u: UserId| #[trigger] r.contains_key(u) implies crate::user::keys_unique(r[u].locks) by {
            if u == uid {
                crate::user::lemma_apply_fill_keys(users[uid], oid, da, dq, ca, cq, oid);
            }
        }
        assert forall|u: UserId, x: OrderId|
            #![trigger crate::user::lookup(r[u].locks, x)]
            r.contains_key(u) && crate::user::lookup(r[u].locks, x) is Some implies crate::user::lookup(users[u].locks, x) is Some by {
            if u == uid {
                crate::user::lemma_apply_fill_keys(users[uid], oid, da, dq, ca, cq, x);
            }
        }
    }
    assert(r.dom() =~= users.dom());
}

proof fn lemma_settle_within(users: Map<UserId, UserView>, pair: TradingPair, fills: Seq<Fill>)
    requires
        locks_unique(users),
    ensures
        locks_within(settle_spec(users, pair, fills), users),
        locks_unique(settle_spec(users, pair, fills)),
    decreases fills.len(),
{
    if fills.len() == 0 {
        assert(settle_spec(users, pair, fills) == users);
    } else {
        let d = fills.drop_last();
        lemma_settle_within(users, pair, d);
        let m = settle_spec(users, pair, d);
        let f = fills.last();
        match notional_spec(f.price, f.quantity) {
            None => {},
            Some(n) => {
                let u1 = settle_side(m, f.bid_user, f.bid_id, pair.quote, n, pair.base, f.quantity);
                lemma_settle_side_within(m, f.bid_user, f.bid_id, pair.quote, n, pair.base, f.quantity);
                lemma_settle_side_within(u1, f.ask_user, f.ask_id, pair.base, f.quantity, pair.quote, n);
                lemma_within_trans(settle_spec(users, pair, fills), u1, m);
            },
        }
        lemma_within_trans(settle_spec(users, pair, fills), m, users);
    }
}

proof fn lemma_release_done_within(users: Map<UserId, UserView>, fills: Seq<Fill>, b: BookModel)
    requires
        locks_unique(users),
    ensures
        locks_within(release_done(users, fills, b), users),
        locks_unique(release_done(users, fills, b)),
    decreases fills.len(),
{
    if fills.len() == 0 {
        assert(release_done(users, fills, b) == users);
    } else {
        let d = fills.drop_last();
        lemma_release_done_within(users, d, b);
        let u1 = release_done(users, d, b);
        let f = fills.last();
        let u2 = if b.orders.contains_key(f.bid_id) { u1 } else { release(u1, f.bid_user, f.bid_id) };
        if !b.orders.contains_key(f.bid_id) {
            lemma_release_within(u1, f.bid_user, f.bid_id);
            lemma_within_trans(u2, u1, users);
        }
        if !b.orders.contains_key(f.ask_id) {
            lemma_release_within(u2, f.ask_user, f.ask_id);
            lemma_within_trans(release_done(users, fills, b), u2, users);
        }
    }
}

/// The engine after an order that its book refused (the order's lock is
/// released) or accepted (its fills are settled, then the lock of every
/// order that the fills took out of the book is released, and the order's
/// own lock when it does not rest), given the users after the order's
/// funds were locked.
pub open spec fn book_step(
    e: EngineView,
    pair: TradingPair,
    o: OrderView,
    book: BookModel,
    users1: Map<UserId, UserView>,
) -> (EngineView, Result<Option<Seq<Fill>>, OrderError>) {
    let k = pair_index(pair) as usize;
    match add_spec(book, o) {
        None => (EngineView { books: e.books.insert(k, book), users: release(users1, o.user_id, o.order_id) }, Ok(None)),
        Some(res) => {
            let users3 = release_done(settle_spec(users1, pair, res.1), res.1, res.0);
            (
                EngineView {
                    books: e.books.insert(k, res.0),
                    users: if res.0.orders.contains_key(o.order_id) {
                        users3
                    } else {
                        release(users3, o.user_id, o.order_id)
                    },
                },
                Ok(Some(res.1)),
            )
        },
    }
}

/// What placing order `o` on pair `pair` does: the engine afterwards and
/// the outcome. In turn: an invalid price or quantity, a missing book, an
/// id already resting, a missing user, or an available balance below what
/// the order must lock refuse it with no change; otherwise its funds are
/// locked and the book takes it (see [`book_step`]).
pub open spec fn place_spec(e: EngineView, pair: TradingPair, o: OrderView) -> (EngineView, Result<Option<Seq<Fill>>, OrderError>) {
    let k = pair_index(pair) as usize;
    if !valid_order(o.price, o.initial_quantity) {
        (e, Err(OrderError::InvalidOrder))
    } else if !e.books.contains_key(k) {
        (e, Err(OrderError::NoSuchPair))
    } else if e.books[k].orders.contains_key(o.order_id) {
        (e, Err(OrderError::InvalidOrder))
    } else {
        match lock_spec_for(pair, o.side, o.price, o.initial_quantity) {
            None => (e, Err(OrderError::InvalidOrder)),
            Some(l) => if !e.users.contains_key(o.user_id) {
                (e, Err(OrderError::NoSuchUser))
            } else {
                match crate::user::lock_spec(e.users[o.user_id], o.order_id, l.0, l.1) {
                    None => (e, Err(OrderError::InsufficientBalance)),
                    Some(u1) => book_step(e, pair, o, e.books[k], e.users.insert(o.user_id, u1)),
                }
            },
        }
    }
}

/// What cancelling order `id` on pair `pair` does: `None` (no change) when
/// there is no such book or order; otherwise the order leaves the book and
/// its owner's lock for it is released.
pub open spec fn cancel_engine_spec(e: EngineView, pair: TradingPair, id: OrderId) -> Option<EngineView> {
    let k = pair_index(pair) as usize;
    if !e.books.contains_key(k) {
        None
    } else {
        match cancel_spec(e.books[k], id) {
            None => None,
            Some(res) => Some(EngineView { books: e.books.insert(k, res.0), users: release(e.users, res.1.user_id, id) }),
        }
    }
}

/// The replacement order built by modification `m` of an order of type `t`,
/// stamped `ts`.
pub open spec fn replacement(m: OrderModifyView, t: OrderType, ts: u64) -> OrderView {
    OrderView {
        order_id: m.order_id,
        order_type: t,
        side: m.side,
        status: m.status,
        price: m.price,
        initial_quantity: m.quantity,
        remaining_quantity: m.quantity,
        timestamp: ts,
        user_id: m.user_id,
    }
}

/// Once the check of [`modify_spec`] has passed, the replacement's lock
/// cannot fail: releasing the order's own lock gives back exactly the part
/// of it that is in the new lock's asset.
pub proof fn lemma_modify_relock(u: UserView, id: OrderId, a: Asset, amount: Quantity)
    requires
        crate::user::keys_unique(u.locks),
        amount <= crate::user::view_available(u, a) + match crate::user::lookup(u.locks, id) {
            Some(le) => crate::user::lock_part(le, a),
            None => 0,
        },
    ensures
        crate::user::lock_spec(crate::user::unlock_spec(u, id), id, a, amount) is Some,
{
    crate::user::lemma_unlock_available(u, id, a);
}

/// What modification `m` on pair `pair` does, the replacement order being
/// stamped `ts`. In turn: an invalid price or quantity, a missing book, a
/// missing order, another user or side than the order's, a notional that is
/// not a quantity, a missing user, or an available balance below what the
/// replacement must lock refuse it with no change. The order's own lock
/// counts as available when it is in the asset of the new lock. Otherwise
/// the order is cancelled, its lock released, the replacement's funds locked
/// (which then always succeeds, see [`lemma_modify_relock`]) and the
/// replacement goes to the book (see [`book_step`]).
pub open spec fn modify_spec(e: EngineView, pair: TradingPair, m: OrderModifyView, ts: u64) -> (EngineView, Result<Option<Seq<Fill>>, OrderError>) {
    let k = pair_index(pair) as usize;
    if !valid_order(m.price, m.quantity) {
        (e, Err(OrderError::InvalidOrder))
    } else if !e.books.contains_key(k) {
        (e, Err(OrderError::NoSuchPair))
    } else if !e.books[k].orders.contains_key(m.order_id) {
        (e, Err(OrderError::InvalidOrder))
    } else {
        let old = e.books[k].orders[m.order_id];
        if m.user_id != old.user_id || m.side != old.side {
            (e, Err(OrderError::InvalidOrder))
        } else {
            match lock_spec_for(pair, m.side, m.price, m.quantity) {
                None => (e, Err(OrderError::InvalidOrder)),
                Some(l) => if !e.users.contains_key(old.user_id) {
                    (e, Err(OrderError::NoSuchUser))
                } else {
                    let u = e.users[old.user_id];
                    let held_lock: int = match crate::user::lookup(u.locks, m.order_id) {
                        Some(le) => crate::user::lock_part(le, l.0),
                        None => 0,
                    };
                    if l.1 > crate::user::view_available(u, l.0) + held_lock {
                        (e, Err(OrderError::InsufficientBalance))
                    } else {
                        let b1 = cancel_spec(e.books[k], m.order_id).unwrap().0;
                        let u1 = crate::user::unlock_spec(u, m.order_id);
                        match crate::user::lock_spec(u1, m.order_id, l.0, l.1) {
                            None => (e, Err(OrderError::InsufficientBalance)),
                            Some(u2) => book_step(
                                e,
                                pair,
                                replacement(m, old.order_type, ts),
                                b1,
                                e.users.insert(old.user_id, u2),
                            ),
                        }
                    }
                },
            }
        }
    }
}

impl CoreEngine {
    /// Releases the locks of the orders that the trades took out of `book`,
    /// trade by trade (see [`release_done`]).
    fn release_filled(users: &mut HashMap<UserId, User>, trades: &Trades, book: &OrderBook, Ghost(fills): Ghost<Seq<Fill>>)
        requires
            users_ok(old(users)@),
            trades_record(trades@, fills),
        ensures
            users_ok(final(users)@),
            users_model(final(users)@) == release_done(users_model(old(users)@), fills, book@),
    {
        let ghost start = users_model(users@);
        let mut i: usize = 0;
        assert(fills.take(0) =~= Seq::<Fill>::empty());
        while i < trades.len()
            invariant
                i <= trades@.len(),
                trades_record(trades@, fills),
                users_ok(users@),
                users_model(users@) == release_done(start, fills.take(i as int), book@),
            decreases trades@.len() - i,
        {
            let t = &trades[i];
            let bid = t.get_bid_trade_info();
            let ask = t.get_ask_trade_info();
            proof {
                assert(crate::orderbook::trade_records(trades@[i as int]@, fills[i as int]));
                assert(fills.take(i + 1).drop_last() =~= fills.take(i as int));
                assert(fills.take(i + 1).last() == fills[i as int]);
            }
            if !book.has_order(&bid.get_order_id()) {
                release_lock(users, bid.get_user_id(), bid.get_order_id());
            }
            if !book.has_order(&ask.get_order_id()) {
                release_lock(users, ask.get_user_id(), ask.get_order_id());
            }
            i = i + 1;
        }
        assert(fills.take(i as int) =~= fills);
    }

    /// Hands a locked order to its book and settles the fills; then releases
    /// the locks of the orders that left the book filled, and the order's own
    /// lock when it does not rest (see [`book_step`]).
    fn book_order(&mut self, pair: &TradingPair, order: &Order) -> (r: Result<Option<Trades>, OrderError>)
        requires
            old(self).wf(),
            old(self)@.books.contains_key(pair_index(*pair) as usize),
        ensures
            final(self).wf(),
            ({
                let st = book_step(old(self)@, *pair, order@, old(self)@.books[pair_index(*pair) as usize], old(self)@.users);
                final(self)@ == st.0 && outcome(r, st.1)
            }),
            r matches Ok(Some(t)) ==> exists|stamps: Seq<(u64, u64)>| #[trigger] issued(trade_ids(t@), stamps, old(self).id_gen()@, final(self).id_gen()@),
            old(self)@.users.contains_key(order@.user_id) ==> (!final(self)@.books[pair_index(*pair) as usize].orders.contains_key(order@.order_id) ==> final(self)@.users.contains_key(order@.user_id) && crate::user::lookup(final(self)@.users[order@.user_id].locks, order@.order_id) is None),            r matches Ok(Some(t)) ==> forall|i: int| 0 <= i < t@.len() ==> {
                &&& !final(self)@.books[pair_index(*pair) as usize].orders.contains_key(#[trigger] t@[i]@.bid.order_id)
                    ==> no_lock(final(self)@.users, t@[i]@.bid.user_id, t@[i]@.bid.order_id)
                &&& !final(self)@.books[pair_index(*pair) as usize].orders.contains_key(t@[i]@.ask.order_id)
                    ==> no_lock(final(self)@.users, t@[i]@.ask.user_id, t@[i]@.ask.order_id)
            },
    {
        let k = pair.index();
        let ghost e0 = self@;
        let ghost g0 = self.generator@;
        let mut book = self.orderbooks.remove(&k).unwrap();
        let trades = book.add_order(order, &mut self.generator);
        let ghost g1 = self.generator@;
        let ghost bm = book@;
        let uid = order.get_user_id();
        let oid = order.get_order_id();
        match trades {
            Some(trades) => {
                let ghost fills = add_spec(e0.books[k as int as usize], order@).unwrap().1;
                Self::settle_trades(&mut self.users, pair, &trades, Ghost(fills));
                let ghost settled = users_model(self.users@);
                proof {
                    lemma_users_ok_unique(self.users@);
                    lemma_release_done_clears(settled, fills, book@);
                }
                Self::release_filled(&mut self.users, &trades, &book, Ghost(fills));
                let ghost released = users_model(self.users@);
                proof {
                    lemma_settle_dom(users_model(old(self).users@), *pair, fills);
                    lemma_release_done_dom(settle_spec(users_model(old(self).users@), *pair, fills), fills, book@);
                    assert(users_model(self.users@).dom() =~= self.users@.dom());
                    assert(users_model(old(self).users@).dom() =~= old(self).users@.dom());
                    assert(self.users@.dom() =~= old(self).users@.dom());
                }
                if !book.has_order(&oid) {
                    proof {
                        if self.users@.contains_key(uid) {
                            crate::user::lemma_unlock_removes(self.users@[uid]@, oid);
                        }
                    }
                    proof {
                        lemma_release_facts(released, uid, oid);
                    }
                    release_lock(&mut self.users, uid, oid);
                }
                proof {
                    let fin = users_model(self.users@);
                    assert forall|i: int| 0 <= i < trades@.len() implies {
                        &&& !book@.orders.contains_key(#[trigger] trades@[i]@.bid.order_id)
                            ==> no_lock(fin, trades@[i]@.bid.user_id, trades@[i]@.bid.order_id)
                        &&& !book@.orders.contains_key(trades@[i]@.ask.order_id)
                            ==> no_lock(fin, trades@[i]@.ask.user_id, trades@[i]@.ask.order_id)
                    } by {
                        assert(crate::orderbook::trade_records(trades@[i]@, fills[i]));
                        if !book@.orders.contains_key(fills[i].bid_id) {
                            assert(no_lock(released, fills[i].bid_user, fills[i].bid_id));
                        }
                        if !book@.orders.contains_key(fills[i].ask_id) {
                            assert(no_lock(released, fills[i].ask_user, fills[i].ask_id));
                        }
                    }
                }
                self.orderbooks.insert(k, book);
                assert(self@.books =~= e0.books.insert(k, bm));
                proof {
                    let stamps = choose|stamps: Seq<(u64, u64)>| issued(trade_ids(trades@), stamps, g0, g1);
                    assert(issued(trade_ids(trades@), stamps, old(self).id_gen()@, self.id_gen()@));
                }
                Ok(Some(trades))
            },
            None => {
                proof {
                    if self.users@.contains_key(uid) {
                        crate::user::lemma_unlock_removes(self.users@[uid]@, oid);
                    }
                }
                release_lock(&mut self.users, uid, oid);
                self.orderbooks.insert(k, book);
                assert(self@.books =~= e0.books.insert(k, bm));
                Ok(None)
            },
        }
    }

    /// Places an order on pair `pair` (see [`place_spec`]): validates it,
    /// locks the funds it may spend, matches it, settles the fills, and
    /// returns the trades (`Ok(None)` when the book refused it).
    pub fn add_order(&mut self, pair: &TradingPair, order: &Order) -> (r: Result<Option<Trades>, OrderError>)
        requires
            old(self).wf(),
        ensures
            final(self).wf(),
            final(self)@ == place_spec(old(self)@, *pair, order@).0,
            outcome(r, place_spec(old(self)@, *pair, order@).1),
            r is Err ==> final(self)@ == old(self)@,
            locks_backed(old(self)@) ==> locks_backed(final(self)@),
            r is Ok && !final(self)@.books[pair_index(*pair) as usize].orders.contains_key(order@.order_id) ==> final(self)@.users.contains_key(order@.user_id) && crate::user::lookup(final(self)@.users[order@.user_id].locks, order@.order_id) is None,
            r matches Ok(Some(t)) ==> forall|i: int| 0 <= i < t@.len() ==> {
                &&& !final(self)@.books[pair_index(*pair) as usize].orders.contains_key(#[trigger] t@[i]@.bid.order_id)
                    ==> no_lock(final(self)@.users, t@[i]@.bid.user_id, t@[i]@.bid.order_id)
                &&& !final(self)@.books[pair_index(*pair) as usize].orders.contains_key(t@[i]@.ask.order_id)
                    ==> no_lock(final(self)@.users, t@[i]@.ask.user_id, t@[i]@.ask.order_id)
            },
            r matches Ok(Some(t)) ==> exists|stamps: Seq<(u64, u64)>| #[trigger] issued(trade_ids(t@), stamps, old(self).id_gen()@, final(self).id_gen()@),
    {
        proof {
            lemma_users_ok_unique(self.users@);
            assert forall|k: usize| #[trigger] self@.books.contains_key(k) implies book_wf(self@.books[k]) by {
                assert(self.orderbooks@.contains_key(k));
            }
            if locks_backed(self@) {
                lemma_place_keeps_locks_backed(self@, *pair, order@);
            }
        }
        match Self::validate_order(order.get_price(), order.get_initial_quantity()) {
            Ok(_) => {},
            Err(e) => return Err(e),
        }
        let k = pair.index();
        match self.orderbooks.get(&k) {
            None => return Err(OrderError::NoSuchPair),
            Some(book) => {
                if book.has_order(&order.get_order_id()) {
                    return Err(OrderError::InvalidOrder);
                }
            },
        }
        let (asset, amount) = match Self::lock_amount_for(pair, order.get_side(), order.get_price(), order.get_initial_quantity()) {
            Ok(x) => x,
            Err(e) => return Err(e),
        };
        let uid = order.get_user_id();
        if !self.users.contains_key(&uid) {
            return Err(OrderError::NoSuchUser);
        }
        let ghost e0 = self@;
        let mut u = self.users.remove(&uid).unwrap();
        let locked = u.lock(order.get_order_id(), asset, amount);
        self.users.insert(uid, u);
        match locked {
            Err(_) => {
                assert(self@.users =~= e0.users);
                assert(self@ == e0);
                return Err(OrderError::InsufficientBalance);
            },
            Ok(_) => {},
        }
        assert(self@.users =~= e0.users.insert(uid, u@));
        assert(self@.books == e0.books);
        self.book_order(pair, order)
    }

    /// Cancels order `order_id` on pair `pair` (see [`cancel_engine_spec`]);
    /// returns whether an order was cancelled.
    pub fn cancel_order(&mut self, pair: &TradingPair, order_id: &OrderId) -> (r: bool)
        requires
            old(self).wf(),
        ensures
            final(self).wf(),
            match cancel_engine_spec(old(self)@, *pair, *order_id) {
                None => !r && final(self)@ == old(self)@,
                Some(v) => r && final(self)@ == v,
            },
            r ==> final(self)@.books[pair_index(*pair) as usize].orders.len() == old(self)@.books[pair_index(*pair) as usize].orders.len() - 1,
            locks_backed(old(self)@) ==> locks_backed(final(self)@),
    {
        proof {
            lemma_users_ok_unique(self.users@);
            assert forall|k: usize| #[trigger] self@.books.contains_key(k) implies book_wf(self@.books[k]) by {
                assert(self.orderbooks@.contains_key(k));
            }
            if locks_backed(self@) {
                lemma_cancel_keeps_locks_backed(self@, *pair, *order_id);
            }
        }
        let k = pair.index();
        if !self.orderbooks.contains_key(&k) {
            return false;
        }
        let ghost e0 = self@;
        let mut book = self.orderbooks.remove(&k).unwrap();
        let cancelled = book.cancel_order(order_id);
        let ghost bm = book@;
        self.orderbooks.insert(k, book);
        match cancelled {
            None => {
                assert(self@.books =~= e0.books);
                false
            },
            Some(o) => {
                assert(self@.books =~= e0.books.insert(k, bm));
                release_lock(&mut self.users, o.get_user_id(), *order_id);
                true
            },
        }
    }

    /// Replaces a resting order (see [`modify_spec`]): the replacement keeps
    /// the order's id and type, takes the request's price, quantity and
    /// status, and goes through the same locking, matching and settlement as
    /// a new order. Returns its trades (`Ok(None)` when the book refused it).
    pub fn modify_order(&mut self, pair: &TradingPair, modify_order: OrderModify) -> (r: Result<Option<Trades>, OrderError>)
        requires
            old(self).wf(),
        ensures
            final(self).wf(),
            exists|ts: u64| #![trigger modify_spec(old(self)@, *pair, modify_order@, ts)]
                final(self)@ == modify_spec(old(self)@, *pair, modify_order@, ts).0
                && outcome(r, modify_spec(old(self)@, *pair, modify_order@, ts).1),
            locks_backed(old(self)@) ==> locks_backed(final(self)@),
            r is Err ==> final(self)@ == old(self)@,
            r matches Ok(Some(t)) ==> exists|stamps: Seq<(u64, u64)>| #[trigger] issued(trade_ids(t@), stamps, old(self).id_gen()@, final(self).id_gen()@),
    {
        let ghost e0 = self@;
        let ghost m = modify_order@;
        proof {
            assert(modify_spec(e0, *pair, m, 0) == modify_spec(e0, *pair, m, 0));
        }
        match Self::validate_order(modify_order.get_price(), modify_order.get_quantity()) {
            Ok(_) => {},
            Err(e) => return Err(e),
        }
        let k = pair.index();
        let id = modify_order.get_order_id();
        let old_order = match self.orderbooks.get(&k) {
            None => return Err(OrderError::NoSuchPair),
            Some(book) => match book.get_order(&id) {
                None => return Err(OrderError::InvalidOrder),
                Some(o) => o,
            },
        };
        if modify_order.get_user_id() != old_order.get_user_id() || modify_order.get_side() != old_order.get_side() {
            return Err(OrderError::InvalidOrder);
        }
        let (asset, amount) = match Self::lock_amount_for(pair, modify_order.get_side(), modify_order.get_price(), modify_order.get_quantity()) {
            Ok(x) => x,
            Err(e) => return Err(e),
        };
        let uid = old_order.get_user_id();
        let (available, held_lock) = match self.users.get(&uid) {
            None => return Err(OrderError::NoSuchUser),
            Some(u) => {
                let held: u64 = match u.get_all_locked_balances().get(&id) {
                    Some(le) => if le.asset == asset {
                        le.amount as u64
                    } else {
                        0
                    },
                    None => 0,
                };
                (u.get_available_balance(&asset) as u64, held)
            },
        };
        if amount as u64 > available + held_lock {
            return Err(OrderError::InsufficientBalance);
        }
        proof {
            lemma_users_ok_unique(self.users@);
        }
        let ghost u0 = self@.users[uid];
        let mut book = self.orderbooks.remove(&k).unwrap();
        let _ = book.cancel_order(&id);
        let ghost b1 = book@;
        proof {
            assert(book_wf(b1));
        }
        self.orderbooks.insert(k, book);
        let mut u = self.users.remove(&uid).unwrap();
        let _ = u.unlock_order(&id);
        let ghost u1 = u@;
        proof {
            crate::user::lemma_unlock_removes(u0, id);
            crate::user::lemma_unlock_keeps(u0, id, id);
        }
        let locked = u.lock(id, asset, amount);
        self.users.insert(uid, u);
        proof {
            lemma_modify_relock(u0, id, asset, amount);
        }
        match locked {
            Err(_) => {
                assert(false);
                return Err(OrderError::InsufficientBalance);
            },
            Ok(_) => {},
        }
        let new_order = modify_order.to_order_pointer(old_order.get_type());
        assert(new_order@ == replacement(m, old_order@.order_type, new_order@.timestamp));
        assert(self@.books =~= e0.books.insert(k, b1));
        assert(self@.users =~= e0.users.insert(uid, u@));
        let ghost e_mid = self@;
        let ghost users1 = self@.users;
        let r = self.book_order(pair, &new_order);
        proof {
            let ts = new_order@.timestamp;
            let n = replacement(m, old_order@.order_type, ts);
            let st1 = book_step(e_mid, *pair, n, b1, users1);
            let st2 = book_step(e0, *pair, n, b1, users1);
            match add_spec(b1, n) {
                None => {
                    assert(st1.0.books =~= st2.0.books);
                },
                Some(res) => {
                    assert(st1.0.books =~= st2.0.books);
                },
            }
            assert(st1 == st2);
            assert(modify_spec(e0, *pair, m, ts) == st2);
            if locks_backed(e0) {
                assert forall|x: OrderId| #[trigger] crate::user::lookup(users1[uid].locks, x) is Some implies x == id
                    || crate::user::lookup(crate::user::unlock_spec(e0.users[uid], id).locks, x) is Some by {
                    crate::user::lemma_lock_keys(u1, id, asset, amount, x);
                }
                lemma_relock_backed(e0, k, id, uid, users1[uid], b1);
                assert(e0.users.insert(uid, users1[uid]) =~= users1);
                crate::user::lemma_lock_keys(u1, id, asset, amount, id);
                assert(locks_unique(users1)) by {
                    assert forall|v: UserId| #[trigger] users1.contains_key(v) implies crate::user::keys_unique(users1[v].locks) by {
                        if v != uid {
                            assert(e0.users.contains_key(v));
                        }
                    }
                }
                lemma_book_step_keeps_locks_backed(e0, *pair, n, b1, users1);
            }
        }
        r
    }
}

/// The books after every order of user `u` is cancelled in each of them.
pub open spec fn books_without_user(books: Map<usize, BookModel>, u: UserId) -> Map<usize, BookModel> {
    books.map_values(|b: BookModel| without_user(b, u))
}

/// Closing an account keeps every lock backed: the other users' orders stay
/// in the books.
pub proof fn lemma_remove_user_keeps_locks_backed(e: EngineView, u: UserId)
    requires
        locks_backed(e),
    ensures
        locks_backed(EngineView { books: books_without_user(e.books, u), users: e.users.remove(u) }),
{
    let e2 = EngineView { books: books_without_user(e.books, u), users: e.users.remove(u) };
    assert forall|v: UserId, x: OrderId|
        #![trigger crate::user::lookup(e2.users[v].locks, x)]
        e2.users.contains_key(v) && crate::user::lookup(e2.users[v].locks, x) is Some implies rests_for(e2.books, x, v) by {
        assert(crate::user::lookup(e.users[v].locks, x) is Some);
        assert(rests_for(e.books, x, v));
        let k1 = choose|k1: usize| #![trigger e.books[k1]] e.books.contains_key(k1) && e.books[k1].orders.contains_key(x) && e.books[k1].orders[x].user_id == v;
        let b2 = without_user(e.books[k1], u);
        assert(e2.books[k1] == b2);
        assert(b2.orders.contains_key(x));
    }
}

impl CoreEngine {
    /// Closes the account of `user_id`: every order of the user is cancelled
    /// in every book and its lock released, then the account is removed and
    /// its balances are returned. `NoSuchUser` when there is no such account
    /// (its orders are cancelled all the same).
    pub fn remove_user(&mut self, user_id: UserId) -> (r: Result<AssetBalances, UserError>)
        requires
            old(self).wf(),
        ensures
            final(self).wf(),
            final(self)@.books == books_without_user(old(self)@.books, user_id),
            final(self)@.users == old(self)@.users.remove(user_id),
            locks_backed(old(self)@) ==> locks_backed(final(self)@),
            match r {
                Ok(b) => old(self)@.users.contains_key(user_id) && b.wf() && forall|a: Asset|
                    #[trigger] b.entry(a) == old(self)@.users[user_id].slots[asset_index(a)],
                Err(e) => e == UserError::NoSuchUser && !old(self)@.users.contains_key(user_id),
            },
    {
        let ghost e0 = self@;
        proof {
            if locks_backed(e0) {
                lemma_remove_user_keeps_locks_backed(e0, user_id);
            }
        }
        let mut k: usize = 0;
        while k < 25
            invariant
                k <= 25,
                self.wf(),
                forall|j: usize| #[trigger] self@.books.contains_key(j) <==> e0.books.contains_key(j),
                forall|j: usize| #![trigger self@.books[j]] j < k && e0.books.contains_key(j) ==> self@.books[j] == without_user(e0.books[j], user_id),
                forall|j: usize| #![trigger self@.books[j]] j >= k && e0.books.contains_key(j) ==> self@.books[j] == e0.books[j],
                self@.users.remove(user_id) == e0.users.remove(user_id),
                self@.users.contains_key(user_id) <==> e0.users.contains_key(user_id),
                e0.users.contains_key(user_id) ==> self@.users[user_id].slots == e0.users[user_id].slots,
            decreases 25 - k,
        {
            if self.orderbooks.contains_key(&k) {
                let ghost before = self@;
                assert(before.books.contains_key(k));
                assert(e0.books.contains_key(k));
                let mut book = self.orderbooks.remove(&k).unwrap();
                let ids = book.cancel_orders_for_user(user_id);
                let ghost bm = book@;
                self.orderbooks.insert(k, book);
                assert(self@.books =~= before.books.insert(k, bm));
                assert(before.books[k] == e0.books[k]);
                assert(bm == without_user(e0.books[k], user_id));
                assert(self@.books[k] == without_user(e0.books[k], user_id));
                if self.users.contains_key(&user_id) {
                    let ghost ub = self@.users;
                    let mut usr = self.users.remove(&user_id).unwrap();
                    let ghost slots0 = usr@.slots;
                    let mut i: usize = 0;
                    while i < ids.len()
                        invariant
                            usr.wf(),
                            usr@.id == user_id,
                            usr@.slots == slots0,
                        decreases ids@.len() - i,
                    {
                        let _ = usr.unlock_order(&ids[i]);
                        i = i + 1;
                    }
                    self.users.insert(user_id, usr);
                    assert(self@.users.remove(user_id) =~= ub.remove(user_id));
                }
                assert forall|j: usize| #![trigger self@.books[j]] j < k + 1 && e0.books.contains_key(j) implies self@.books[j] == without_user(e0.books[j], user_id) by {
                    if j != k {
                        assert(self@.books[j] == before.books[j]);
                    }
                }
            } else {
                assert(!self@.books.contains_key(k));
                assert(!e0.books.contains_key(k));
            }
            k = k + 1;
        }
        proof {
            assert forall|j: usize| #[trigger] self.orderbooks@.contains_key(j) implies j < 25 by {}
            assert(self@.books =~= books_without_user(e0.books, user_id));
        }
        let ghost before = self@;
        match self.users.remove(&user_id) {
            Some(usr) => {
                assert(self@.users =~= e0.users.remove(user_id));
                let b = usr.into_balances();
                Ok(b)
            },
            None => {
                assert(self@.users =~= e0.users.remove(user_id));
                Err(UserError::NoSuchUser)
            },
        }
    }
}

/// The engine after `pair` is added (no change when it has a book).
pub open spec fn add_pair_spec(e: EngineView, pair: TradingPair) -> EngineView {
    EngineView {
        books: if e.books.contains_key(pair_index(pair) as usize) {
            e.books
        } else {
            e.books.insert(pair_index(pair) as usize, empty_book())
        },
        users: e.users,
    }
}

/// The engine after user `u` is added (no change when the account exists).
pub open spec fn add_user_spec(e: EngineView, u: UserId) -> EngineView {
    EngineView {
        books: e.books,
        users: if e.users.contains_key(u) {
            e.users
        } else {
            e.users.insert(u, fresh_user(u))
        },
    }
}

/// The engine after a deposit (no change without the account).
pub open spec fn deposit_engine_spec(e: EngineView, u: UserId, a: Asset, q: Quantity) -> EngineView {
    if e.users.contains_key(u) {
        EngineView { books: e.books, users: e.users.insert(u, crate::user::deposit_spec(e.users[u], a, q)) }
    } else {
        e
    }
}

/// The engine after a withdrawal (no change without the account or funds).
pub open spec fn withdraw_engine_spec(e: EngineView, u: UserId, a: Asset, q: Quantity) -> EngineView {
    if e.users.contains_key(u) {
        match crate::user::withdraw_spec(e.users[u], a, q) {
            Some(v) => EngineView { books: e.books, users: e.users.insert(u, v) },
            None => e,
        }
    } else {
        e
    }
}

/// Replaying logged command `c` takes the engine from `e` to `e2`: the
/// same change that the command made when it was executed.
pub open spec fn replays(e: EngineView, c: WalEntryType, e2: EngineView) -> bool {
    match c {
        WalEntryType::AddTradingPair { pair } => e2 == add_pair_spec(e, pair),
        WalEntryType::RemoveTradingPair { pair } => e2 == EngineView { books: e.books.remove(pair_index(pair) as usize), users: e.users },
        WalEntryType::AddOrder { pair, order, trades: _ } => e2 == place_spec(e, pair, order@).0,
        WalEntryType::CancelOrder { pair, order_id, success: _ } => e2 == match cancel_engine_spec(e, pair, order_id) {
            Some(v) => v,
            None => e,
        },
        WalEntryType::ModifyOrder { pair, modify, trades: _ } => exists|ts: u64| e2 == #[trigger] modify_spec(e, pair, modify@, ts).0,
        WalEntryType::AddUser { user_id } => e2 == add_user_spec(e, user_id),
        WalEntryType::RemoveUser { user_id } => e2 == EngineView { books: books_without_user(e.books, user_id), users: e.users.remove(user_id) },
        WalEntryType::DepositBalance { user_id, asset, quantity } => e2 == deposit_engine_spec(e, user_id, asset, quantity),
        WalEntryType::WithdrawBalance { user_id, asset, quantity } => e2 == withdraw_engine_spec(e, user_id, asset, quantity),
    }
}

/// Replay reproduces the run: two engines that both follow from `e` by
/// logged command `c` (one by running the command, one by replaying its
/// entry) are equal. A modification is left out: its replacement order is
/// stamped with the time at which it is made, which the entry does not
/// record (see [`lemma_replays_match`]).
pub proof fn lemma_replay_reproduces(e: EngineView, c: WalEntryType, e1: EngineView, e2: EngineView)
    requires
        replays(e, c, e1),
        replays(e, c, e2),
        !(c is ModifyOrder),
    ensures
        e1 == e2,
{
}

/// The largest sequence number of the entries (0 for none).
pub open spec fn max_seq(entries: Seq<WalEntry>) -> u64
    decreases entries.len(),
{
    if entries.len() == 0 {
        0
    } else if entries.last()@.seq > max_seq(entries.drop_last()) {
        entries.last()@.seq
    } else {
        max_seq(entries.drop_last())
    }
}

/// `states` is a run of the logged commands `cmds`: each state follows from
/// the previous one by the command between them (see [`replays`]).
pub open spec fn command_chain(cmds: Seq<WalEntryType>, states: Seq<EngineView>) -> bool {
    &&& states.len() == cmds.len() + 1
    &&& forall|i: int| 0 <= i < cmds.len() ==> replays(#[trigger] states[i], cmds[i], states[i + 1])
}

/// Replaying a whole log reproduces the run that wrote it: two runs of the
/// same logged commands from the same engine (one by executing them, one by
/// replaying the log) pass through the same engines and end in the same
/// one. Modifications are left out: a replacement order is stamped with the
/// time at which it is made, which the log does not record; with them the
/// runs agree up to those timestamps (see [`lemma_log_replay_matches`]).
pub proof fn lemma_log_replay_reproduces(cmds: Seq<WalEntryType>, run: Seq<EngineView>, replayed: Seq<EngineView>)
    requires
        command_chain(cmds, run),
        command_chain(cmds, replayed),
        run[0] == replayed[0],
        forall|i: int| 0 <= i < cmds.len() ==> !(#[trigger] cmds[i] is ModifyOrder),
    ensures
        run =~= replayed,
    decreases cmds.len(),
{
    if cmds.len() > 0 {
        let n = cmds.len() - 1;
        let c2 = cmds.drop_last();
        let r2 = run.drop_last();
        let p2 = replayed.drop_last();
        assert forall|i: int| 0 <= i < c2.len() implies replays(#[trigger] r2[i], c2[i], r2[i + 1]) by {
            assert(replays(run[i], cmds[i], run[i + 1]));
        }
        assert forall|i: int| 0 <= i < c2.len() implies replays(#[trigger] p2[i], c2[i], p2[i + 1]) by {
            assert(replays(replayed[i], cmds[i], replayed[i + 1]));
        }
        assert forall|i: int| 0 <= i < c2.len() implies !(#[trigger] c2[i] is ModifyOrder) by {
            assert(!(cmds[i] is ModifyOrder));
        }
        lemma_log_replay_reproduces(c2, r2, p2);
        assert(r2[n] == run[n] && p2[n] == replayed[n]);
        assert(run[n] == replayed[n]);
        assert(replays(run[n], cmds[n], run[n + 1]));
        assert(replays(replayed[n], cmds[n], replayed[n + 1]));
        assert(!(cmds[n] is ModifyOrder));
        lemma_replay_reproduces(run[n], cmds[n], run[n + 1], replayed[n + 1]);
        assert forall|i: int| 0 <= i < run.len() implies run[i] == replayed[i] by {
            if i <= n {
                assert(r2[i] == run[i] && p2[i] == replayed[i]);
            }
        }
    }
}

/// Every book of the engine is well formed.
pub open spec fn engine_books_wf(e: EngineView) -> bool {
    forall|k: usize| #[trigger] e.books.contains_key(k) ==> book_wf(e.books[k])
}

/// Two maps of books hold matching books under the same pairs.
pub open spec fn book_maps_match(m1: Map<usize, BookModel>, m2: Map<usize, BookModel>) -> bool {
    &&& m1.dom() == m2.dom()
    &&& forall|k: usize| #[trigger] m1.contains_key(k) ==> crate::book_model::books_match(m1[k], m2[k])
}

/// Two engines are the same up to the timestamps of their resting orders:
/// the same accounts, and books with the same levels and the same orders.
pub open spec fn engines_match(e1: EngineView, e2: EngineView) -> bool {
    &&& e1.users == e2.users
    &&& book_maps_match(e1.books, e2.books)
}

proof fn lemma_maps_insert_match(m1: Map<usize, BookModel>, m2: Map<usize, BookModel>, k: usize, b1: BookModel, b2: BookModel)
    requires
        book_maps_match(m1, m2),
        crate::book_model::books_match(b1, b2),
    ensures
        book_maps_match(m1.insert(k, b1), m2.insert(k, b2)),
{
    assert(m1.insert(k, b1).dom() =~= m2.insert(k, b2).dom());
}

/// Releasing the locks of filled orders reads only which orders the book holds.
proof fn lemma_release_done_dom_only(users: Map<UserId, UserView>, fills: Seq<Fill>, b1: BookModel, b2: BookModel)
    requires
        b1.orders.dom() == b2.orders.dom(),
    ensures
        release_done(users, fills, b1) == release_done(users, fills, b2),
    decreases fills.len(),
{
    if fills.len() > 0 {
        lemma_release_done_dom_only(users, fills.drop_last(), b1, b2);
        assert(b1.orders.contains_key(fills.last().bid_id) == b2.orders.contains_key(fills.last().bid_id));
        assert(b1.orders.contains_key(fills.last().ask_id) == b2.orders.contains_key(fills.last().ask_id));
    }
}

/// The book step reads no timestamp: from matching books, for orders that
/// differ at most in their timestamps, it gives matching engines and the
/// same outcome.
proof fn lemma_book_step_match(
    e1: EngineView,
    e2: EngineView,
    pair: TradingPair,
    o1: OrderView,
    o2: OrderView,
    book1: BookModel,
    book2: BookModel,
    users1: Map<UserId, UserView>,
)
    requires
        book_maps_match(e1.books, e2.books),
        crate::book_model::books_match(book1, book2),
        book_wf(book1),
        crate::book_model::unstamped(o1) == crate::book_model::unstamped(o2),
    ensures
        engines_match(book_step(e1, pair, o1, book1, users1).0, book_step(e2, pair, o2, book2, users1).0),
        book_step(e1, pair, o1, book1, users1).1 == book_step(e2, pair, o2, book2, users1).1,
{
    let k = pair_index(pair) as usize;
    crate::book_model::lemma_add_match(book1, book2, o1, o2);
    match add_spec(book1, o1) {
        None => {
            lemma_maps_insert_match(e1.books, e2.books, k, book1, book2);
        },
        Some(r1) => {
            let r2 = add_spec(book2, o2).unwrap();
            lemma_maps_insert_match(e1.books, e2.books, k, r1.0, r2.0);
            lemma_release_done_dom_only(settle_spec(users1, pair, r1.1), r1.1, r1.0, r2.0);
            assert(r1.0.orders.contains_key(o1.order_id) == r2.0.orders.contains_key(o2.order_id));
        },
    }
}

/// Placing an order reads no timestamp: matching engines stay matching and
/// give the same outcome.
pub proof fn lemma_place_match(e1: EngineView, e2: EngineView, pair: TradingPair, o: OrderView)
    requires
        engines_match(e1, e2),
        engine_books_wf(e1),
    ensures
        engines_match(place_spec(e1, pair, o).0, place_spec(e2, pair, o).0),
        place_spec(e1, pair, o).1 == place_spec(e2, pair, o).1,
{
    let k = pair_index(pair) as usize;
    if e1.books.contains_key(k) {
        assert(e2.books.contains_key(k));
        assert(e1.books[k].orders.contains_key(o.order_id) == e2.books[k].orders.contains_key(o.order_id));
        match lock_spec_for(pair, o.side, o.price, o.initial_quantity) {
            Some(l) => {
                if e1.users.contains_key(o.user_id) {
                    match crate::user::lock_spec(e1.users[o.user_id], o.order_id, l.0, l.1) {
                        Some(u1) => {
                            lemma_book_step_match(e1, e2, pair, o, o, e1.books[k], e2.books[k], e1.users.insert(o.user_id, u1));
                        },
                        None => {},
                    }
                }
            },
            None => {},
        }
    } else {
        assert(!e2.books.contains_key(k));
    }
}

/// Modifying an order reads no timestamp but gives its own to the
/// replacement: matching engines stay matching and give the same outcome,
/// whatever stamps the two replacements get.
pub proof fn lemma_modify_match(e1: EngineView, e2: EngineView, pair: TradingPair, m: OrderModifyView, ts1: u64, ts2: u64)
    requires
        engines_match(e1, e2),
        engine_books_wf(e1),
    ensures
        engines_match(modify_spec(e1, pair, m, ts1).0, modify_spec(e2, pair, m, ts2).0),
        modify_spec(e1, pair, m, ts1).1 == modify_spec(e2, pair, m, ts2).1,
{
    let k = pair_index(pair) as usize;
    if valid_order(m.price, m.quantity) && e1.books.contains_key(k) {
        assert(e2.books.contains_key(k));
        let b1 = e1.books[k];
        let b2 = e2.books[k];
        if b1.orders.contains_key(m.order_id) {
            assert(b2.orders.contains_key(m.order_id));
            let old1 = b1.orders[m.order_id];
            let old2 = b2.orders[m.order_id];
            assert(crate::book_model::unstamped(old1) == crate::book_model::unstamped(old2));
            assert(old1.user_id == old2.user_id && old1.side == old2.side && old1.order_type == old2.order_type);
            if m.user_id == old1.user_id && m.side == old1.side {
                match lock_spec_for(pair, m.side, m.price, m.quantity) {
                    Some(l) => {
                        if e1.users.contains_key(old1.user_id) {
                            let u = e1.users[old1.user_id];
                            let c1 = cancel_spec(b1, m.order_id).unwrap().0;
                            let c2 = cancel_spec(b2, m.order_id).unwrap().0;
                            crate::book_model::lemma_cancel_match(b1, b2, m.order_id);
                            crate::book_model::lemma_cancel_wf(b1, m.order_id);
                            match crate::user::lock_spec(crate::user::unlock_spec(u, m.order_id), m.order_id, l.0, l.1) {
                                Some(u2) => {
                                    lemma_book_step_match(
                                        e1,
                                        e2,
                                        pair,
                                        replacement(m, old1.order_type, ts1),
                                        replacement(m, old2.order_type, ts2),
                                        c1,
                                        c2,
                                        e1.users.insert(old1.user_id, u2),
                                    );
                                },
                                None => {},
                            }
                        }
                    },
                    None => {},
                }
            }
        }
    } else if valid_order(m.price, m.quantity) {
        assert(!e2.books.contains_key(k));
    }
}

/// Cancelling an order reads no timestamp: matching engines stay matching.
pub proof fn lemma_cancel_engine_match(e1: EngineView, e2: EngineView, pair: TradingPair, id: OrderId)
    requires
        engines_match(e1, e2),
    ensures
        cancel_engine_spec(e1, pair, id) is None <==> cancel_engine_spec(e2, pair, id) is None,
        cancel_engine_spec(e1, pair, id) matches Some(f1) ==> engines_match(f1, cancel_engine_spec(e2, pair, id).unwrap()),
{
    let k = pair_index(pair) as usize;
    if e1.books.contains_key(k) {
        assert(e2.books.contains_key(k));
        crate::book_model::lemma_cancel_match(e1.books[k], e2.books[k], id);
        if let Some(r1) = cancel_spec(e1.books[k], id) {
            let r2 = cancel_spec(e2.books[k], id).unwrap();
            assert(r1.1.user_id == r2.1.user_id);
            lemma_maps_insert_match(e1.books, e2.books, k, r1.0, r2.0);
        }
    } else {
        assert(!e2.books.contains_key(k));
    }
}

/// Replaying a logged command reads no timestamp: from matching engines,
/// two engines that follow by the same command match.
pub proof fn lemma_replays_match(e1: EngineView, e2: EngineView, c: WalEntryType, f1: EngineView, f2: EngineView)
    requires
        engines_match(e1, e2),
        engine_books_wf(e1),
        replays(e1, c, f1),
        replays(e2, c, f2),
    ensures
        engines_match(f1, f2),
{
    match c {
        WalEntryType::AddTradingPair { pair } => {
            let k = pair_index(pair) as usize;
            if !e1.books.contains_key(k) {
                lemma_maps_insert_match(e1.books, e2.books, k, empty_book(), empty_book());
            }
        },
        WalEntryType::RemoveTradingPair { pair } => {
            let k = pair_index(pair) as usize;
            assert(f1.books.dom() =~= f2.books.dom());
        },
        WalEntryType::AddOrder { pair, order, trades: _ } => {
            lemma_place_match(e1, e2, pair, order@);
        },
        WalEntryType::CancelOrder { pair, order_id, success: _ } => {
            lemma_cancel_engine_match(e1, e2, pair, order_id);
        },
        WalEntryType::ModifyOrder { pair, modify, trades: _ } => {
            let ts1 = choose|ts: u64| f1 == #[trigger] modify_spec(e1, pair, modify@, ts).0;
            let ts2 = choose|ts: u64| f2 == #[trigger] modify_spec(e2, pair, modify@, ts).0;
            lemma_modify_match(e1, e2, pair, modify@, ts1, ts2);
        },
        WalEntryType::RemoveUser { user_id } => {
            let m1 = books_without_user(e1.books, user_id);
            let m2 = books_without_user(e2.books, user_id);
            assert(m1.dom() =~= m2.dom());
            assert forall|k: usize| #[trigger] m1.contains_key(k) implies crate::book_model::books_match(m1[k], m2[k]) by {
                crate::book_model::lemma_without_user_match(e1.books[k], e2.books[k], user_id);
            }
        },
        _ => {},
    }
}

/// Replaying a logged command keeps every book well formed.
pub proof fn lemma_replays_keep_wf(e: EngineView, c: WalEntryType, f: EngineView)
    requires
        engine_books_wf(e),
        replays(e, c, f),
    ensures
        engine_books_wf(f),
{
    match c {
        WalEntryType::AddTradingPair { pair } => {
            assert(book_wf(empty_book()));
        },
        WalEntryType::AddOrder { pair, order, trades: _ } => {
            let k = pair_index(pair) as usize;
            if e.books.contains_key(k) {
                crate::book_model::lemma_add_wf(e.books[k], order@);
            }
        },
        WalEntryType::CancelOrder { pair, order_id, success: _ } => {
            let k = pair_index(pair) as usize;
            if e.books.contains_key(k) {
                crate::book_model::lemma_cancel_wf(e.books[k], order_id);
            }
        },
        WalEntryType::ModifyOrder { pair, modify, trades: _ } => {
            let k = pair_index(pair) as usize;
            let ts = choose|ts: u64| f == #[trigger] modify_spec(e, pair, modify@, ts).0;
            if e.books.contains_key(k) {
                crate::book_model::lemma_cancel_wf(e.books[k], modify@.order_id);
                if let Some(r) = cancel_spec(e.books[k], modify@.order_id) {
                    crate::book_model::lemma_add_wf(r.0, replacement(modify@, e.books[k].orders[modify@.order_id].order_type, ts));
                }
            }
        },
        WalEntryType::RemoveUser { user_id } => {
            assert forall|k: usize| #[trigger] f.books.contains_key(k) implies book_wf(f.books[k]) by {
                crate::book_model::lemma_without_user_wf(e.books[k], user_id);
            }
        },
        _ => {},
    }
}

/// Replaying a whole log reproduces the run that wrote it, up to the
/// timestamps of the orders that modifications put in the books: two runs
/// of the same logged commands from the same engine (one by executing them,
/// one by replaying the log) pass through engines with the same accounts,
/// the same price levels and the same resting orders, which differ at most
/// in their timestamps. Without modifications they are equal (see
/// [`lemma_log_replay_reproduces`]).
pub proof fn lemma_log_replay_matches(cmds: Seq<WalEntryType>, run: Seq<EngineView>, replayed: Seq<EngineView>)
    requires
        command_chain(cmds, run),
        command_chain(cmds, replayed),
        run[0] == replayed[0],
        engine_books_wf(run[0]),
    ensures
        forall|i: int| 0 <= i < run.len() ==> #[trigger] engines_match(run[i], replayed[i]),
    decreases cmds.len(),
{
    if cmds.len() == 0 {
        let e = run[0];
        assert(engines_match(e, e)) by {
            assert forall|k: usize| #[trigger] e.books.contains_key(k) implies crate::book_model::books_match(e.books[k], e.books[k]) by {}
        }
    } else {
        let n = cmds.len() - 1;
        let c2 = cmds.drop_last();
        let r2 = run.drop_last();
        let p2 = replayed.drop_last();
        assert forall|i: int| 0 <= i < c2.len() implies replays(#[trigger] r2[i], c2[i], r2[i + 1]) by {
            assert(replays(run[i], cmds[i], run[i + 1]));
        }
        assert forall|i: int| 0 <= i < c2.len() implies replays(#[trigger] p2[i], c2[i], p2[i + 1]) by {
            assert(replays(replayed[i], cmds[i], replayed[i + 1]));
        }
        lemma_log_replay_matches(c2, r2, p2);
        lemma_chain_keeps_wf(c2, r2);
        assert(engines_match(r2[n], p2[n]));
        assert(replays(run[n], cmds[n], run[n + 1]));
        assert(replays(replayed[n], cmds[n], replayed[n + 1]));
        lemma_replays_match(run[n], replayed[n], cmds[n], run[n + 1], replayed[n + 1]);
        assert forall|i: int| 0 <= i < run.len() implies #[trigger] engines_match(run[i], replayed[i]) by {
            if i <= n {
                assert(engines_match(r2[i], p2[i]));
            }
        }
    }
}

/// Every engine of a run of logged commands from an engine with well-formed
/// books has well-formed books.
proof fn lemma_chain_keeps_wf(cmds: Seq<WalEntryType>, run: Seq<EngineView>)
    requires
        command_chain(cmds, run),
        engine_books_wf(run[0]),
    ensures
        forall|i: int| 0 <= i < run.len() ==> #[trigger] engine_books_wf(run[i]),
    decreases cmds.len(),
{
    if cmds.len() > 0 {
        let n = cmds.len() - 1;
        let c2 = cmds.drop_last();
        let r2 = run.drop_last();
        assert forall|i: int| 0 <= i < c2.len() implies replays(#[trigger] r2[i], c2[i], r2[i + 1]) by {
            assert(replays(run[i], cmds[i], run[i + 1]));
        }
        lemma_chain_keeps_wf(c2, r2);
        assert(engine_books_wf(r2[n]));
        assert(replays(run[n], cmds[n], run[n + 1]));
        lemma_replays_keep_wf(run[n], cmds[n], run[n + 1]);
        assert forall|i: int| 0 <= i < run.len() implies #[trigger] engine_books_wf(run[i]) by {
            if i <= n {
                assert(engine_books_wf(r2[i]));
            }
        }
    }
}

/// A log whose entries carry the sequence numbers 1, 2, ... in order ends at
/// its length: replaying it gives the number after which the writer goes on.
pub proof fn lemma_max_seq_of_numbered_log(entries: Seq<WalEntry>)
    requires
        forall|i: int| 0 <= i < entries.len() ==> #[trigger] entries[i]@.seq == i + 1,
    ensures
        max_seq(entries) == entries.len(),
    decreases entries.len(),
{
    if entries.len() > 0 {
        let d = entries.drop_last();
        assert forall|i: int| 0 <= i < d.len() implies #[trigger] d[i]@.seq == i + 1 by {
            assert(d[i] == entries[i]);
        }
        lemma_max_seq_of_numbered_log(d);
        assert(entries.last()@.seq == entries.len());
    }
}

/// Every book of a consistent engine is well formed.
pub proof fn lemma_engine_books(e: &CoreEngine)
    requires
        e.wf(),
    ensures
        engine_books_wf(e@),
{
    assert forall|k: usize| #[trigger] e@.books.contains_key(k) implies book_wf(e@.books[k]) by {
        assert(e.orderbooks@.contains_key(k));
    }
}

/// Every account of a consistent engine is consistent (its locks are keyed
/// by distinct orders, it has one balance slot per asset, and no asset has
/// more locked than held) and is stored under its own id.
pub proof fn lemma_engine_accounts(e: &CoreEngine)
    requires
        e.wf(),
    ensures
        forall|u: UserId| #[trigger] e@.users.contains_key(u) ==> crate::user::user_view_wf(e@.users[u]) && e@.users[u].id == u,
{
    assert forall|u: UserId| #[trigger] e@.users.contains_key(u) implies crate::user::user_view_wf(e@.users[u]) && e@.users[u].id == u by {
        assert(e.users@.contains_key(u));
    }
}

impl CoreEngine {
    /// Replays one logged command against the engine (see [`replays`]); its
    /// outcome is not needed.
    pub fn replay_entry(&mut self, entry: &WalEntryType)
        requires
            old(self).wf(),
        ensures
            final(self).wf(),
            replays(old(self)@, *entry, final(self)@),
    {
        match entry {
            WalEntryType::AddTradingPair { pair } => {
                self.add_trading_pair(*pair);
            },
            WalEntryType::RemoveTradingPair { pair } => {
                let _ = self.remove_trading_pair(pair);
            },
            WalEntryType::AddOrder { pair, order, trades: _ } => {
                let _ = self.add_order(pair, order);
            },
            WalEntryType::CancelOrder { pair, order_id, success: _ } => {
                let _ = self.cancel_order(pair, order_id);
            },
            WalEntryType::ModifyOrder { pair, modify, trades: _ } => {
                let _ = self.modify_order(pair, *modify);
            },
            WalEntryType::AddUser { user_id } => {
                self.add_user(*user_id);
            },
            WalEntryType::RemoveUser { user_id } => {
                let _ = self.remove_user(*user_id);
            },
            WalEntryType::DepositBalance { user_id, asset, quantity } => {
                let _ = self.deposit_balance(*user_id, *asset, *quantity);
            },
            WalEntryType::WithdrawBalance { user_id, asset, quantity } => {
                let _ = self.withdraw_balance(*user_id, *asset, *quantity);
            },
        }
    }

    /// Replays a log, entry by entry, and returns its largest sequence
    /// number (0 for an empty log): the engine goes through one state per
    /// entry, each reached from the previous one by replaying the entry.
    pub fn replay_log(&mut self, entries: &Vec<WalEntry>) -> (m: u64)
        requires
            old(self).wf(),
        ensures
            final(self).wf(),
            m == max_seq(entries@),
            exists|states: Seq<EngineView>| {
                &&& states.len() == entries@.len() + 1
                &&& states[0] == old(self)@
                &&& states.last() == final(self)@
                &&& forall|i: int| 0 <= i < entries@.len() ==> replays(#[trigger] states[i], entries@[i].command(), states[i + 1])
            },
    {
        let ghost mut states: Seq<EngineView> = seq![self@];
        let mut m: u64 = 0;
        let mut i: usize = 0;
        assert(entries@.take(0) =~= Seq::<WalEntry>::empty());
        while i < entries.len()
            invariant
                i <= entries@.len(),
                self.wf(),
                m == max_seq(entries@.take(i as int)),
                states.len() == i + 1,
                states[0] == old(self)@,
                states.last() == self@,
                forall|j: int| 0 <= j < i ==> replays(#[trigger] states[j], entries@[j].command(), states[j + 1]),
            decreases entries@.len() - i,
        {
            let e = &entries[i];
            let ghost before = self@;
            self.replay_entry(e.entry());
            proof {
                assert(entries@.take(i + 1).drop_last() =~= entries@.take(i as int));
                assert(entries@.take(i + 1).last() == entries@[i as int]);
                let old_states = states;
                states = states.push(self@);
                assert forall|j: int| 0 <= j < i + 1 implies replays(#[trigger] states[j], entries@[j].command(), states[j + 1]) by {
                    if j < i {
                        assert(states[j] == old_states[j]);
                        assert(states[j + 1] == old_states[j + 1]);
                    } else {
                        assert(states[j] == before);
                    }
                }
            }
            if e.seq() > m {
                m = e.seq();
            }
            i = i + 1;
        }
        assert(entries@.take(i as int) =~= entries@);
        m
    }
}

/// Settling a fill between two different users moves funds without
/// creating or destroying any: when both sides of the fill apply and no
/// credit saturates, the two users together hold as much of the quote
/// asset, and as much of the base asset, as before.
pub proof fn lemma_settle_conserves(users: Map<UserId, UserView>, pair: TradingPair, f: Fill)
    requires
        pair.base != pair.quote,
        f.bid_user != f.ask_user,
        users.contains_key(f.bid_user),
        users.contains_key(f.ask_user),
        crate::user::user_view_wf(users[f.bid_user]),
        crate::user::user_view_wf(users[f.ask_user]),
        notional_spec(f.price, f.quantity) is Some,
        apply_fill_spec(users[f.bid_user], f.bid_id, pair.quote, notional_spec(f.price, f.quantity).unwrap(), pair.base, f.quantity) is Some,
        apply_fill_spec(users[f.ask_user], f.ask_id, pair.base, f.quantity, pair.quote, notional_spec(f.price, f.quantity).unwrap()) is Some,
        crate::user::slot_amount(users[f.bid_user].slots, pair.base) + f.quantity <= u32::MAX,
        crate::user::slot_amount(users[f.ask_user].slots, pair.quote) + notional_spec(f.price, f.quantity).unwrap() <= u32::MAX,
    ensures
        ({
            let after = settle_fill(users, pair, f);
            &&& crate::user::slot_amount(after[f.bid_user].slots, pair.quote) + crate::user::slot_amount(after[f.ask_user].slots, pair.quote)
                == crate::user::slot_amount(users[f.bid_user].slots, pair.quote) + crate::user::slot_amount(users[f.ask_user].slots, pair.quote)
            &&& crate::user::slot_amount(after[f.bid_user].slots, pair.base) + crate::user::slot_amount(after[f.ask_user].slots, pair.base)
                == crate::user::slot_amount(users[f.bid_user].slots, pair.base) + crate::user::slot_amount(users[f.ask_user].slots, pair.base)
            &&& crate::user::slot_amount(after[f.bid_user].slots, pair.quote) == crate::user::slot_amount(users[f.bid_user].slots, pair.quote) - notional_spec(f.price, f.quantity).unwrap()
            &&& crate::user::slot_amount(after[f.bid_user].slots, pair.base) == crate::user::slot_amount(users[f.bid_user].slots, pair.base) + f.quantity
        }),
{
    let n = notional_spec(f.price, f.quantity).unwrap();
    let u1 = settle_side(users, f.bid_user, f.bid_id, pair.quote, n, pair.base, f.quantity);
    assert(u1[f.ask_user] == users[f.ask_user]);
    crate::user::lemma_apply_fill_amounts(users[f.bid_user], f.bid_id, pair.quote, n, pair.base, f.quantity);
    crate::user::lemma_apply_fill_amounts(users[f.ask_user], f.ask_id, pair.base, f.quantity, pair.quote, n);
}

/// The total of asset `a` held by the accounts `ids` (a missing account
/// holds nothing).
pub open spec fn holdings(users: Map<UserId, UserView>, ids: Seq<UserId>, a: Asset) -> int
    decreases ids.len(),
{
    if ids.len() == 0 {
        0
    } else {
        holdings(users, ids.drop_last(), a) + if users.contains_key(ids.last()) {
            crate::user::slot_amount(users[ids.last()].slots, a)
        } else {
            0
        }
    }
}

/// Fill `f` of pair `pair` settles in full on both sides: two different
/// users with consistent accounts, each side's lock covering what it gives,
/// and room for what each side receives.
pub open spec fn fill_settles(users: Map<UserId, UserView>, pair: TradingPair, f: Fill) -> bool {
    &&& f.bid_user != f.ask_user
    &&& users.contains_key(f.bid_user)
    &&& users.contains_key(f.ask_user)
    &&& crate::user::user_view_wf(users[f.bid_user])
    &&& crate::user::user_view_wf(users[f.ask_user])
    &&& notional_spec(f.price, f.quantity) is Some
    &&& apply_fill_spec(users[f.bid_user], f.bid_id, pair.quote, notional_spec(f.price, f.quantity).unwrap(), pair.base, f.quantity) is Some
    &&& apply_fill_spec(users[f.ask_user], f.ask_id, pair.base, f.quantity, pair.quote, notional_spec(f.price, f.quantity).unwrap()) is Some
    &&& crate::user::slot_amount(users[f.bid_user].slots, pair.base) + f.quantity <= u32::MAX
    &&& crate::user::slot_amount(users[f.ask_user].slots, pair.quote) + notional_spec(f.price, f.quantity).unwrap() <= u32::MAX
}

/// Changing only accounts `u1` and `u2` changes the holdings of `ids` by
/// their changes (for those of them that `ids` lists).
proof fn lemma_holdings_two(m1: Map<UserId, UserView>, m2: Map<UserId, UserView>, ids: Seq<UserId>, u1: UserId, u2: UserId, a: Asset)
    requires
        ids.no_duplicates(),
        u1 != u2,
        m1.contains_key(u1) && m2.contains_key(u1),
        m1.contains_key(u2) && m2.contains_key(u2),
        forall|u: UserId| u != u1 && u != u2 ==> (#[trigger] m1.contains_key(u) <==> m2.contains_key(u)),
        forall|u: UserId| u != u1 && u != u2 && #[trigger] m1.contains_key(u) ==> crate::user::slot_amount(m1[u].slots, a) == crate::user::slot_amount(m2[u].slots, a),
    ensures
        holdings(m2, ids, a) - holdings(m1, ids, a) == (if ids.contains(u1) {
            crate::user::slot_amount(m2[u1].slots, a) - crate::user::slot_amount(m1[u1].slots, a)
        } else {
            0
        }) + (if ids.contains(u2) {
            crate::user::slot_amount(m2[u2].slots, a) - crate::user::slot_amount(m1[u2].slots, a)
        } else {
            0
        }),
    decreases ids.len(),
{
    if ids.len() > 0 {
        let d = ids.drop_last();
        assert(d.no_duplicates()) by {
            assert forall|i: int, j: int| 0 <= i < j < d.len() implies d[i] != d[j] by {
                assert(ids[i] != ids[j]);
            }
        }
        lemma_holdings_two(m1, m2, d, u1, u2, a);
        let x = ids.last();
        assert forall|u: UserId| ids.contains(u) && u != x implies d.contains(u) by {
            let i = choose|i: int| 0 <= i < ids.len() && ids[i] == u;
            assert(d[i] == u);
        }
        assert forall|u: UserId| d.contains(u) implies ids.contains(u) && u != x by {
            let i = choose|i: int| 0 <= i < d.len() && d[i] == u;
            assert(ids[i] == u);
            assert(ids[i] != ids[ids.len() - 1]);
        }
        assert(ids.contains(x)) by {
            assert(ids[ids.len() - 1] == x);
        }
    }
}

/// Settling one fill in full conserves the holdings of every asset over
/// any accounts that include both of its users, and leaves every other
/// account as it was.
proof fn lemma_settle_fill_conserves(users: Map<UserId, UserView>, pair: TradingPair, f: Fill, ids: Seq<UserId>, a: Asset)
    requires
        pair.base != pair.quote,
        ids.no_duplicates(),
        ids.contains(f.bid_user),
        ids.contains(f.ask_user),
        fill_settles(users, pair, f),
    ensures
        holdings(settle_fill(users, pair, f), ids, a) == holdings(users, ids, a),
        forall|u: UserId| u != f.bid_user && u != f.ask_user ==> (#[trigger] settle_fill(users, pair, f).contains_key(u) <==> users.contains_key(u))
            && (users.contains_key(u) ==> settle_fill(users, pair, f)[u] == users[u]),
{
    let after = settle_fill(users, pair, f);
    lemma_settle_conserves(users, pair, f);
    let n = notional_spec(f.price, f.quantity).unwrap();
    let vb = users[f.bid_user];
    let va = users[f.ask_user];
    let u1 = settle_side(users, f.bid_user, f.bid_id, pair.quote, n, pair.base, f.quantity);
    assert(u1[f.ask_user] == va);
    assert(after[f.bid_user] == apply_fill_spec(vb, f.bid_id, pair.quote, n, pair.base, f.quantity).unwrap());
    assert(after[f.ask_user] == apply_fill_spec(va, f.ask_id, pair.base, f.quantity, pair.quote, n).unwrap());
    if a != pair.base && a != pair.quote {
        assert(asset_index(a) != asset_index(pair.base) && asset_index(a) != asset_index(pair.quote));
        assert(crate::user::slot_amount(after[f.bid_user].slots, a) == crate::user::slot_amount(vb.slots, a));
        assert(crate::user::slot_amount(after[f.ask_user].slots, a) == crate::user::slot_amount(va.slots, a));
    }
    lemma_holdings_two(users, after, ids, f.bid_user, f.ask_user, a);
}

/// Settling fills leaves every account that is not a user of any fill as
/// it was.
pub proof fn lemma_settlement_frame(users: Map<UserId, UserView>, pair: TradingPair, fills: Seq<Fill>, u: UserId)
    requires
        forall|i: int| 0 <= i < fills.len() ==> u != #[trigger] fills[i].bid_user && u != fills[i].ask_user,
    ensures
        settle_spec(users, pair, fills).contains_key(u) <==> users.contains_key(u),
        users.contains_key(u) ==> settle_spec(users, pair, fills)[u] == users[u],
    decreases fills.len(),
{
    if fills.len() > 0 {
        let d = fills.drop_last();
        assert forall|i: int| 0 <= i < d.len() implies u != #[trigger] d[i].bid_user && u != d[i].ask_user by {
            assert(d[i] == fills[i]);
        }
        lemma_settlement_frame(users, pair, d, u);
        assert(fills.last() == fills[fills.len() - 1]);
    }
}

/// A whole settlement conserves every asset: when each fill settles in full
/// on both sides at its turn, the holdings of any accounts that include all
/// the fills' users are the same afterwards (and every other account is
/// unchanged, see [`lemma_settlement_frame`]). Summed over all accounts, no
/// funds are created or destroyed.
#[verifier::spinoff_prover]
#[verifier::rlimit(40)]
pub proof fn lemma_settlement_conserves(users: Map<UserId, UserView>, pair: TradingPair, fills: Seq<Fill>, ids: Seq<UserId>, a: Asset)
    requires
        pair.base != pair.quote,
        ids.no_duplicates(),
        forall|i: int| 0 <= i < fills.len() ==> ids.contains(#[trigger] fills[i].bid_user) && ids.contains(fills[i].ask_user),
        forall|i: int| 0 <= i < fills.len() ==> fill_settles(settle_spec(users, pair, fills.take(i)), pair, #[trigger] fills[i]),
    ensures
        holdings(settle_spec(users, pair, fills), ids, a) == holdings(users, ids, a),
    decreases fills.len(),
{
    if fills.len() > 0 {
        let d = fills.drop_last();
        let n = fills.len() - 1;
        assert forall|i: int| 0 <= i < d.len() implies ids.contains(#[trigger] d[i].bid_user) && ids.contains(d[i].ask_user) by {
            assert(d[i] == fills[i]);
        }
        assert forall|i: int| 0 <= i < d.len() implies fill_settles(settle_spec(users, pair, d.take(i)), pair, #[trigger] d[i]) by {
            assert(d[i] == fills[i]);
            assert(d.take(i) =~= fills.take(i));
        }
        lemma_settlement_conserves(users, pair, d, ids, a);
        assert(fills.take(n) =~= d);
        assert(fill_settles(settle_spec(users, pair, d), pair, fills[n]));
        assert(ids.contains(fills[n].bid_user) && ids.contains(fills[n].ask_user));
        lemma_settle_fill_conserves(settle_spec(users, pair, d), pair, fills[n], ids, a);
        assert(fills.last() == fills[n]);
    }
}

/// Order `x` of user `u` rests in one of the books.
pub open spec fn rests_for(books: Map<usize, BookModel>, x: OrderId, u: UserId) -> bool {
    exists|k: usize| #![trigger books[k]] books.contains_key(k) && books[k].orders.contains_key(x) && books[k].orders[x].user_id == u
}

/// Every lock is held for an order of its owner that rests in a book.
pub open spec fn locks_backed(e: EngineView) -> bool {
    forall|u: UserId, x: OrderId|
        #![trigger crate::user::lookup(e.users[u].locks, x)]
        e.users.contains_key(u) && crate::user::lookup(e.users[u].locks, x) is Some ==> rests_for(e.books, x, u)
}

/// The order that rests after a placement is the placed order's remainder,
/// of the same user.
proof fn lemma_placed_rests(b: BookModel, o: OrderView)
    requires
        book_wf(b),
        add_spec(b, o) is Some,
    ensures
        ({
            let st = crate::book_model::ioc_from(b, o);
            let res0 = add_spec(b, o).unwrap().0;
            &&& add_spec(b, o).unwrap().1 == st.fills
            &&& forall|x: OrderId| x != o.order_id ==> (#[trigger] res0.orders.contains_key(x) <==> st.book.orders.contains_key(x))
                && (res0.orders.contains_key(x) ==> res0.orders[x] == st.book.orders[x])
            &&& res0.orders.contains_key(o.order_id) ==> res0.orders[o.order_id].user_id == o.user_id
        }),
{
    let st0 = IocState { book: b, skip: 0, remaining: o.remaining_quantity, fills: seq![] };
    crate::book_model::lemma_ioc_never_rests(st0, o);
}

/// The book step of a placed order keeps every lock backed: given the
/// users after the order's funds were locked, whose every lock is the
/// order's own or backed in the books with `b0` as the order's book.
proof fn lemma_book_step_keeps_locks_backed(e: EngineView, pair: TradingPair, o: OrderView, b0: BookModel, users1: Map<UserId, UserView>)
    requires
        book_wf(b0),
        !b0.orders.contains_key(o.order_id),
        locks_unique(users1),
        forall|u: UserId, x: OrderId|
            #![trigger crate::user::lookup(users1[u].locks, x)]
            users1.contains_key(u) && crate::user::lookup(users1[u].locks, x) is Some ==> (u == o.user_id && x == o.order_id)
                || rests_for(e.books.insert(pair_index(pair) as usize, b0), x, u),
    ensures
        locks_backed(book_step(e, pair, o, b0, users1).0),
{
    let k = pair_index(pair) as usize;
    let e2 = book_step(e, pair, o, b0, users1).0;
    let eb = e.books.insert(k, b0);
    match add_spec(b0, o) {
        None => {
            let uf = release(users1, o.user_id, o.order_id);
            lemma_release_within(users1, o.user_id, o.order_id);
            lemma_release_facts(users1, o.user_id, o.order_id);
            assert(e2.books == eb);
            assert forall|u: UserId, x: OrderId|
                #![trigger crate::user::lookup(e2.users[u].locks, x)]
                e2.users.contains_key(u) && crate::user::lookup(e2.users[u].locks, x) is Some implies rests_for(e2.books, x, u) by {
                assert(crate::user::lookup(users1[u].locks, x) is Some);
                if u == o.user_id && x == o.order_id {
                    assert(no_lock(uf, u, x));
                }
            }
        },
        Some(res) => {
            let fills = res.1;
            let res0 = res.0;
            let users2 = settle_spec(users1, pair, fills);
            let users3 = release_done(users2, fills, res0);
            lemma_settle_within(users1, pair, fills);
            lemma_release_done_within(users2, fills, res0);
            lemma_release_done_clears(users2, fills, res0);
            lemma_within_trans(users3, users2, users1);
            lemma_placed_rests(b0, o);
            let st0 = IocState { book: b0, skip: 0, remaining: o.remaining_quantity, fills: seq![] };
            let st = ioc_run(st0, o);
            crate::book_model::lemma_ioc_users(st0, o);
            crate::book_model::lemma_ioc_removed_traded(st0, o);
            let rests = res0.orders.contains_key(o.order_id);
            if !rests {
                lemma_release_within(users3, o.user_id, o.order_id);
                lemma_release_facts(users3, o.user_id, o.order_id);
            }
            assert(locks_within(e2.users, users1)) by {
                if !rests {
                    lemma_within_trans(e2.users, users3, users1);
                }
            }
            assert forall|u: UserId, x: OrderId|
                #![trigger crate::user::lookup(e2.users[u].locks, x)]
                e2.users.contains_key(u) && crate::user::lookup(e2.users[u].locks, x) is Some implies rests_for(e2.books, x, u) by {
                assert(crate::user::lookup(users1[u].locks, x) is Some);
                assert(!no_lock(e2.users, u, x));
                if u == o.user_id && x == o.order_id {
                    if rests {
                        assert(e2.books[k] == res0);
                    } else {
                        assert(no_lock(e2.users, u, x));
                    }
                } else {
                    assert(rests_for(eb, x, u));
                    let k1 = choose|k1: usize| #![trigger eb[k1]] eb.contains_key(k1) && eb[k1].orders.contains_key(x) && eb[k1].orders[x].user_id == u;
                    if k1 != k {
                        assert(e2.books[k1] == eb[k1]);
                    } else {
                        assert(x != o.order_id);
                        if res0.orders.contains_key(x) {
                            assert(st.book.orders.contains_key(x));
                            assert(res0.orders[x].user_id == u);
                            assert(e2.books[k] == res0);
                        } else {
                            assert(b0.orders.contains_key(x) && !st.book.orders.contains_key(x));
                            let i = choose|i: int| 0 <= i < st.fills.len() && #[trigger] party(st.fills[i], x, b0.orders[x].user_id);
                            assert(fills[i] == st.fills[i]);
                            if fills[i].bid_id == x && fills[i].bid_user == u {
                                assert(no_lock(users3, fills[i].bid_user, fills[i].bid_id));
                            } else {
                                assert(no_lock(users3, fills[i].ask_user, fills[i].ask_id));
                            }
                            assert(no_lock(users3, u, x));
                            assert(no_lock(e2.users, u, x));
                        }
                    }
                }
            }
        },
    }
}

/// After the lock of order `id` of user `uid` is released and possibly set
/// again, every lock is that one or is backed with `id` cancelled from its
/// book.
proof fn lemma_relock_backed(e: EngineView, k: usize, id: OrderId, uid: UserId, v2: UserView, b1: BookModel)
    requires
        locks_backed(e),
        locks_unique(e.users),
        e.users.contains_key(uid),
        e.books.contains_key(k),
        e.books[k].orders.contains_key(id),
        e.books[k].orders[id].user_id == uid,
        b1.orders == e.books[k].orders.remove(id),
        forall|x: OrderId| #[trigger] crate::user::lookup(v2.locks, x) is Some ==> x == id || crate::user::lookup(
            crate::user::unlock_spec(e.users[uid], id).locks,
            x,
        ) is Some,
    ensures
        forall|u: UserId, x: OrderId|
            #![trigger crate::user::lookup(e.users.insert(uid, v2)[u].locks, x)]
            e.users.insert(uid, v2).contains_key(u) && crate::user::lookup(e.users.insert(uid, v2)[u].locks, x) is Some ==> (u == uid
                && x == id) || rests_for(e.books.insert(k, b1), x, u),
{
    let users1 = e.users.insert(uid, v2);
    let eb = e.books.insert(k, b1);
    assert forall|u: UserId, x: OrderId|
        #![trigger crate::user::lookup(users1[u].locks, x)]
        users1.contains_key(u) && crate::user::lookup(users1[u].locks, x) is Some implies (u == uid && x == id) || rests_for(eb, x, u) by {
        if !(u == uid && x == id) {
            if u == uid {
                crate::user::lemma_unlock_keeps(e.users[uid], id, x);
            }
            assert(crate::user::lookup(e.users[u].locks, x) is Some);
            assert(rests_for(e.books, x, u));
            let k1 = choose|k1: usize| #![trigger e.books[k1]] e.books.contains_key(k1) && e.books[k1].orders.contains_key(x) && e.books[k1].orders[x].user_id == u;
            if k1 != k {
                assert(eb[k1] == e.books[k1]);
            } else {
                assert(x != id);
                assert(eb[k].orders.contains_key(x));
            }
        }
    }
}

/// Placing an order keeps every lock backed by a resting order of its
/// owner: the placed order's lock stays only while it rests, and the locks
/// of the orders that its fills take out of the book are released.
pub proof fn lemma_place_keeps_locks_backed(e: EngineView, pair: TradingPair, o: OrderView)
    requires
        locks_backed(e),
        locks_unique(e.users),
        forall|k: usize| #[trigger] e.books.contains_key(k) ==> book_wf(e.books[k]),
    ensures
        locks_backed(place_spec(e, pair, o).0),
{
    let k = pair_index(pair) as usize;
    let e2 = place_spec(e, pair, o).0;
    if valid_order(o.price, o.initial_quantity) && e.books.contains_key(k) && !e.books[k].orders.contains_key(o.order_id)
        && lock_spec_for(pair, o.side, o.price, o.initial_quantity) is Some && e.users.contains_key(o.user_id)
        && crate::user::lock_spec(e.users[o.user_id], o.order_id, lock_spec_for(pair, o.side, o.price, o.initial_quantity).unwrap().0, lock_spec_for(pair, o.side, o.price, o.initial_quantity).unwrap().1) is Some {
        let l = lock_spec_for(pair, o.side, o.price, o.initial_quantity).unwrap();
        let v1 = crate::user::lock_spec(e.users[o.user_id], o.order_id, l.0, l.1).unwrap();
        let users1 = e.users.insert(o.user_id, v1);
        let b0 = e.books[k];
        assert(e.books.insert(k, b0) =~= e.books);
        crate::user::lemma_lock_keys(e.users[o.user_id], o.order_id, l.0, l.1, o.order_id);
        assert(locks_unique(users1)) by {
            assert forall|u: UserId| #[trigger] users1.contains_key(u) implies crate::user::keys_unique(users1[u].locks) by {
                if u != o.user_id {
                    assert(e.users.contains_key(u));
                }
            }
        }
        assert forall|u: UserId, x: OrderId|
            #![trigger crate::user::lookup(users1[u].locks, x)]
            users1.contains_key(u) && crate::user::lookup(users1[u].locks, x) is Some implies (u == o.user_id && x == o.order_id)
                || rests_for(e.books.insert(k, b0), x, u) by {
            if u == o.user_id {
                crate::user::lemma_lock_keys(e.users[o.user_id], o.order_id, l.0, l.1, x);
            }
            if !(u == o.user_id && x == o.order_id) {
                assert(crate::user::lookup(e.users[u].locks, x) is Some);
                assert(rests_for(e.books, x, u));
            }
        }
        lemma_book_step_keeps_locks_backed(e, pair, o, b0, users1);
    } else {
        assert(e2 == e);
    }
}

/// Cancelling an order keeps every lock backed by a resting order of its
/// owner: the cancelled order's lock is released with it.
pub proof fn lemma_cancel_keeps_locks_backed(e: EngineView, pair: TradingPair, id: OrderId)
    requires
        locks_backed(e),
        locks_unique(e.users),
        forall|k: usize| #[trigger] e.books.contains_key(k) ==> book_wf(e.books[k]),
    ensures
        cancel_engine_spec(e, pair, id) matches Some(e2) ==> locks_backed(e2),
{
    if let Some(e2) = cancel_engine_spec(e, pair, id) {
        let k = pair_index(pair) as usize;
        let b = e.books[k];
        let owner = b.orders[id].user_id;
        lemma_release_within(e.users, owner, id);
        lemma_release_facts(e.users, owner, id);
        assert forall|u: UserId, x: OrderId|
            #![trigger crate::user::lookup(e2.users[u].locks, x)]
            e2.users.contains_key(u) && crate::user::lookup(e2.users[u].locks, x) is Some implies rests_for(e2.books, x, u) by {
            assert(crate::user::lookup(e.users[u].locks, x) is Some);
            assert(rests_for(e.books, x, u));
            let k1 = choose|k1: usize| #![trigger e.books[k1]] e.books.contains_key(k1) && e.books[k1].orders.contains_key(x) && e.books[k1].orders[x].user_id == u;
            if k1 != k {
                assert(e2.books[k1] == e.books[k1]);
            } else if x == id {
                assert(u == owner);
                assert(no_lock(e2.users, u, x));
            } else {
                assert(e2.books[k].orders == b.orders.remove(id));
                assert(e2.books[k].orders.contains_key(x));
            }
        }
    }
}

impl CoreEngine {
    /// A new order with a fresh id from the engine's generator, initial
    /// status `Empty`, stamped with the current time.
    pub fn new_order(&mut self, order_type: OrderType, side: Side, price: Price, quantity: Quantity, user_id: UserId) -> (o: Order)
        requires
            old(self).wf(),
        ensures
            final(self).wf(),
            final(self)@ == old(self)@,
            o@.order_id == final(self).id_gen().last_id(),
            o@.order_type == order_type,
            o@.side == side,
            o@.status == crate::types::OrderStatus::Empty,
            o@.price == price,
            o@.initial_quantity == quantity,
            o@.remaining_quantity == quantity,
            o@.user_id == user_id,
    {
        let id = self.next_id();
        Order::new(id, order_type, side, crate::types::OrderStatus::Empty, price, quantity, user_id)
    }
}
} // verus!
