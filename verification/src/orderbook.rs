//! Price-time priority order book for a single trading pair.
//!
//! Each side is a sequence of price levels with the best level last (bids
//! by ascending price, asks by descending price); a level queues the ids of
//! its resting orders, oldest first, and the orders themselves are kept in
//! a map from id to order. The matching rules are those of
//! [`crate::book_model`].
use std::collections::HashMap;
use vstd::prelude::*;
use vstd::std_specs::hash::spec_hash_map_iter;
use vstd::std_specs::iter::IteratorSpec;

use crate::book_model::{
    book_wf, drop_if, fill_view, first_other, ioc_run, ioc_step, level_ok, lemma_first_other,
    lemma_first_other_bound, lemma_ioc_step_wf, lemma_ioc_never_rests, min_q, put_level, settle,
    BookModel, Fill, IocState, LevelModel, avail, level_avail, avail_part, opposite, crosses,
    lemma_avail_nonneg, lemma_level_avail_nonneg, lemma_ioc_fills_all, active_opposite, add_to_side,
    place, better, side_ok, unqueue, lemma_side_after_fill, lemma_side_remove_absent, can_match, rest,
    lemma_rest_wf, cancel_spec, add_spec, lemma_side_frame, not_of, strip, without_user, others_of,
    lemma_without_user_wf, after_fills, uncrossed, on_side, lemma_add_keeps_uncrossed,
    lemma_cancel_keeps_uncrossed, lemma_without_user_keeps_uncrossed,
};
use crate::level_info::{LevelInfo, LevelInfos, OrderBookLevelInfo};
use crate::order::{Order, OrderView};
use crate::order_modify::{OrderModify, OrderModifyView};
use crate::snowflake_id::{issued, lemma_issue_one, SnowFlakeGenerator};
use crate::trade::{Trade, TradeInfo, TradeInfoView, TradeView, Trades};
use crate::types::{OrderId, OrderStatus, OrderType, Price, Quantity, Side, UserId};

verus! {

broadcast use vstd::std_specs::hash::group_hash_axioms;

/// A price level: its price and the ids of its resting orders, oldest first.
#[derive(Debug)]
struct PriceLevel {
    price: Price,
    ids: Vec<OrderId>,
}

spec fn level_model(pl: PriceLevel) -> LevelModel {
    LevelModel { price: pl.price, ids: pl.ids@ }
}

spec fn side_model(v: Seq<PriceLevel>) -> Seq<LevelModel> {
    v.map_values(|pl: PriceLevel| level_model(pl))
}

spec fn orders_model(m: Map<OrderId, Order>) -> Map<OrderId, OrderView> {
    m.map_values(|o: Order| o@)
}

/// A price-time priority order book.
#[derive(Debug)]
pub struct OrderBook {
    bids_map: Vec<PriceLevel>,
    asks_map: Vec<PriceLevel>,
    orders_map: HashMap<OrderId, Order>,
}

impl View for OrderBook {
    type V = BookModel;

    closed spec fn view(&self) -> BookModel {
        BookModel {
            bids: side_model(self.bids_map@),
            asks: side_model(self.asks_map@),
            orders: orders_model(self.orders_map@),
        }
    }
}

/// A trade records fill `f` on both of its sides.
pub open spec fn trade_records(t: TradeView, f: Fill) -> bool {
    &&& t.bid == TradeInfoView { order_id: f.bid_id, price: f.price, quantity: f.quantity, user_id: f.bid_user }
    &&& t.ask == TradeInfoView { order_id: f.ask_id, price: f.price, quantity: f.quantity, user_id: f.ask_user }
}

/// The ids of the trades, in order.
pub open spec fn trade_ids(trades: Seq<Trade>) -> Seq<u64> {
    Seq::new(trades.len(), |k: int| trades[k]@.trade_id)
}

/// The trades record the fills, one for one and in order.
pub open spec fn trades_record(trades: Seq<Trade>, fills: Seq<Fill>) -> bool {
    &&& trades.len() == fills.len()
    &&& forall|k: int| 0 <= k < trades.len() ==> trade_records(#[trigger] trades[k]@, fills[k])
}

impl OrderBook {
    /// The book is well formed (see [`book_wf`]).
    pub open spec fn wf(&self) -> bool {
        book_wf(self@)
    }

    /// Creates an empty order book.
    pub fn new() -> (b: OrderBook)
        ensures
            b.wf(),
            b@.bids.len() == 0,
            b@.asks.len() == 0,
            b@.orders == Map::<OrderId, OrderView>::empty(),
            uncrossed(b@),
    {
        let b = OrderBook { bids_map: Vec::new(), asks_map: Vec::new(), orders_map: HashMap::new() };
        assert(b@.orders =~= Map::<OrderId, OrderView>::empty());
        assert(b@.bids =~= Seq::<LevelModel>::empty());
        assert(b@.asks =~= Seq::<LevelModel>::empty());
        b
    }

    /// Returns the number of resting orders.
    pub fn size(&self) -> (n: usize)
        ensures
            n == self@.orders.len(),
    {
        proof {
            assert(self@.orders.dom() =~= self.orders_map@.dom());
        }
        self.orders_map.len()
    }

    /// Returns `true` when an order with the given id rests in the book.
    pub fn has_order(&self, order_id: &OrderId) -> (b: bool)
        ensures
            b == self@.orders.contains_key(*order_id),
    {
        self.orders_map.contains_key(order_id)
    }

    /// Returns a copy of the resting order with the given id.
    pub fn get_order(&self, order_id: &OrderId) -> (r: Option<Order>)
        ensures
            match r {
                Some(o) => self@.orders.contains_key(*order_id) && o@ == self@.orders[*order_id],
                None => !self@.orders.contains_key(*order_id),
            },
    {
        match self.orders_map.get(order_id) {
            Some(o) => Some(*o),
            None => None,
        }
    }

    /// Returns the type of the resting order with the given id.
    pub fn get_order_type(&self, order_id: &OrderId) -> (r: Option<OrderType>)
        ensures
            match r {
                Some(t) => self@.orders.contains_key(*order_id) && t == self@.orders[*order_id].order_type,
                None => !self@.orders.contains_key(*order_id),
            },
    {
        match self.orders_map.get(order_id) {
            Some(o) => Some(o.get_type()),
            None => None,
        }
    }
}


impl Default for OrderBook {
    /// An empty order book.
    fn default() -> (b: OrderBook)
        ensures
            b.wf(),
            b@.bids.len() == 0,
            b@.asks.len() == 0,
            b@.orders == Map::<OrderId, OrderView>::empty(),
    {
        OrderBook::new()
    }
}

/// Replaces level `k` of a side by itself without the id at position `i`
/// (when `gone`), dropping the level when it becomes empty.
fn replace_level(levels: &mut Vec<PriceLevel>, k: usize, i: usize, gone: bool)
    requires
        k < old(levels)@.len(),
        i < old(levels)@[k as int].ids@.len(),
    ensures
        side_model(final(levels)@) == put_level(
            side_model(old(levels)@),
            k as int,
            drop_if(side_model(old(levels)@)[k as int], i as int, gone),
        ),
{
    let ghost before = side_model(levels@);
    let mut l = levels.remove(k);
    if gone {
        l.ids.remove(i);
    }
    let ghost l2 = drop_if(before[k as int], i as int, gone);
    assert(level_model(l) == l2);
    if l.ids.len() > 0 {
        levels.insert(k, l);
        assert(side_model(levels@) =~= before.update(k as int, l2));
    } else {
        assert(side_model(levels@) =~= before.remove(k as int));
    }
}

/// Index of the first id whose order belongs to a user other than `u`.
fn first_other_exec(ids: &Vec<OrderId>, u: UserId, orders: &HashMap<OrderId, Order>) -> (r: usize)
    requires
        forall|j: int| 0 <= j < ids@.len() ==> orders@.contains_key(#[trigger] ids@[j]),
    ensures
        r == first_other(ids@, u, orders_model(orders@)),
        r <= ids@.len(),
{
    let ghost om = orders_model(orders@);
    let mut i: usize = 0;
    while i < ids.len()
        invariant
            i <= ids@.len(),
            om == orders_model(orders@),
            forall|j: int| 0 <= j < ids@.len() ==> orders@.contains_key(#[trigger] ids@[j]),
            forall|k: int| 0 <= k < i ==> om[#[trigger] ids@[k]].user_id == u,
        decreases ids@.len() - i,
    {
        let id = ids[i];
        let o = orders.get(&id).unwrap();
        if o.get_user_id() != u {
            proof {
                lemma_first_other(ids@, u, om, i as int);
            }
            return i;
        }
        i = i + 1;
    }
    proof {
        lemma_first_other(ids@, u, om, i as int);
    }
    i
}

impl OrderBook {
    /// The resting order with the given id.
    fn read_order(&self, id: OrderId) -> (o: Order)
        requires
            self.orders_map@.contains_key(id),
        ensures
            o@ == self@.orders[id],
    {
        *self.orders_map.get(&id).unwrap()
    }

    /// Records order `o` after a fill: removed when nothing remains, else updated.
    fn store_order(&mut self, id: OrderId, o: Order)
        ensures
            final(self)@.orders == settle(old(self)@.orders, id, o@),
            final(self).bids_map == old(self).bids_map,
            final(self).asks_map == old(self).asks_map,
    {
        if o.is_filled() {
            self.orders_map.remove(&id);
            assert(self@.orders =~= old(self)@.orders.remove(id));
        } else {
            self.orders_map.insert(id, o);
            assert(self@.orders =~= old(self)@.orders.insert(id, o@));
        }
    }

}

/// The two sides of a trade recording `f`.
fn make_trade(trade_id: u64, bid_id: OrderId, bid_user: UserId, ask_id: OrderId, ask_user: UserId, price: Price, quantity: Quantity) -> (t: Trade)
    ensures
        t@.trade_id == trade_id,
        trade_records(t@, Fill { bid_id, bid_user, ask_id, ask_user, price, quantity }),
{
    Trade::new(
        trade_id,
        TradeInfo::new(bid_id, price, quantity, bid_user),
        TradeInfo::new(ask_id, price, quantity, ask_user),
    )
}

impl OrderBook {
    /// Matches the incoming order `aggressor` against the opposite side
    /// (see [`ioc_run`]), starting from what remains of it; each fill
    /// becomes a trade with a fresh id. Returns what remains unfilled.
    fn match_against_opposite_run(&mut self, aggressor: &Order, generator: &mut SnowFlakeGenerator) -> (r: (Trades, Quantity))
        requires
            old(self).wf(),
            old(generator).wf(),
        ensures
            final(self).wf(),
            final(generator).wf(),
            final(generator)@.machine_id == old(generator)@.machine_id,
            final(generator)@.datacenter_id == old(generator)@.datacenter_id,
            ({
                let st = ioc_run(
                    IocState { book: old(self)@, skip: 0, remaining: aggressor@.remaining_quantity, fills: seq![] },
                    aggressor@,
                );
                &&& final(self)@ == st.book
                &&& trades_record(r.0@, st.fills)
                &&& r.1 == st.remaining
            }),
            exists|stamps: Seq<(u64, u64)>| #[trigger] issued(trade_ids(r.0@), stamps, old(generator)@, final(generator)@),
    {
        let ghost a = aggressor@;
        let ghost init = IocState { book: self@, skip: 0, remaining: a.remaining_quantity, fills: seq![] };
        let ghost fills: Seq<Fill> = seq![];
        let ghost g0 = *generator;
        let ghost stamps: Seq<(u64, u64)> = seq![];
        let side = aggressor.get_side();
        let order_id = aggressor.get_order_id();
        let order_price = aggressor.get_price();
        let order_user_id = aggressor.get_user_id();
        let mut remaining = aggressor.get_remaining_quantity();
        let mut trades = Trades::new();
        let mut skip: usize = 0;
        loop
            invariant
                self.wf(),
                generator.wf(),
                generator@.machine_id == old(generator)@.machine_id,
                generator@.datacenter_id == old(generator)@.datacenter_id,
                a == aggressor@,
                side == a.side,
                order_id == a.order_id,
                order_price == a.price,
                order_user_id == a.user_id,
                trades_record(trades@, fills),
                g0@ == old(generator)@,
                issued(trade_ids(trades@), stamps, g0@, generator@),
                trades@.len() == 0 ==> generator@ == g0@,
                generator@.last_timestamp >= g0@.last_timestamp,
                ioc_run(IocState { book: self@, skip: skip as nat, remaining, fills }, a) == ioc_run(init, a),
            ensures
                self.wf(),
                generator.wf(),
                generator@.machine_id == old(generator)@.machine_id,
                generator@.datacenter_id == old(generator)@.datacenter_id,
                trades_record(trades@, fills),
                issued(trade_ids(trades@), stamps, g0@, generator@),
                ioc_step(IocState { book: self@, skip: skip as nat, remaining, fills }, a) is None,
                ioc_run(IocState { book: self@, skip: skip as nat, remaining, fills }, a) == ioc_run(init, a),
            decreases crate::book_model::ioc_measure(IocState { book: self@, skip: skip as nat, remaining, fills }),
        {
            let ghost st = IocState { book: self@, skip: skip as nat, remaining, fills };
            proof {
                crate::book_model::lemma_ioc_step_decreases(st, a);
                lemma_ioc_step_wf(st, a);
            }
            if remaining == 0 {
                break;
            }
            let n = match side {
                Side::Buy => self.asks_map.len(),
                Side::Sell => self.bids_map.len(),
            };
            if n <= skip {
                break;
            }
            let k = n - 1 - skip;
            let lp = match side {
                Side::Buy => self.asks_map[k].price,
                Side::Sell => self.bids_map[k].price,
            };
            let crosses = match side {
                Side::Buy => order_price >= lp,
                Side::Sell => order_price <= lp,
            };
            if !crosses {
                break;
            }
            let ghost rs = crate::book_model::other_side(side);
            let ghost r = crate::book_model::opposite(self@, side);
            proof {
                assert(level_ok(r[k as int], rs, self@.orders));
                assert forall|j: int| 0 <= j < r[k as int].ids.len() implies self.orders_map@.contains_key(#[trigger] r[k as int].ids[j]) by {
                    assert(self@.orders.contains_key(r[k as int].ids[j]));
                }
            }
            let j = match side {
                Side::Buy => first_other_exec(&self.asks_map[k].ids, order_user_id, &self.orders_map),
                Side::Sell => first_other_exec(&self.bids_map[k].ids, order_user_id, &self.orders_map),
            };
            let len = match side {
                Side::Buy => self.asks_map[k].ids.len(),
                Side::Sell => self.bids_map[k].ids.len(),
            };
            if j >= len {
                skip = skip + 1;
            } else {
                let rid = match side {
                    Side::Buy => self.asks_map[k].ids[j],
                    Side::Sell => self.bids_map[k].ids[j],
                };
                assert(self@.orders.contains_key(rid));
                let mut o = self.read_order(rid);
                let q = if remaining <= o.get_remaining_quantity() {
                    remaining
                } else {
                    o.get_remaining_quantity()
                };
                let resting_user = o.get_user_id();
                let resting_price = o.get_price();
                let ghost o0 = o@;
                let _ = o.fills(q);
                assert(o@ == fill_view(o0, q));
                let gone = o.is_filled();
                self.store_order(rid, o);
                match side {
                    Side::Buy => replace_level(&mut self.asks_map, k, j, gone),
                    Side::Sell => replace_level(&mut self.bids_map, k, j, gone),
                }
                remaining = remaining - q;
                let ghost ga = *generator;
                let ghost ids0 = trade_ids(trades@);
                let trade_id = generator.next_id();
                let t = match side {
                    Side::Buy => make_trade(trade_id, order_id, order_user_id, rid, resting_user, resting_price, q),
                    Side::Sell => make_trade(trade_id, rid, resting_user, order_id, order_user_id, resting_price, q),
                };
                trades.push_back(t);
                proof {
                    let f = match side {
                        Side::Buy => Fill { bid_id: order_id, bid_user: order_user_id, ask_id: rid, ask_user: resting_user, price: resting_price, quantity: q },
                        Side::Sell => Fill { bid_id: rid, bid_user: resting_user, ask_id: order_id, ask_user: order_user_id, price: resting_price, quantity: q },
                    };
                    fills = fills.push(f);
                    lemma_issue_one(ids0, stamps, g0, ga, *generator, trade_id);
                    stamps = stamps.push((generator@.last_timestamp, generator@.sequence));
                    assert(trade_ids(trades@) =~= ids0.push(trade_id));
                }
            }
        }
        let r = (trades, remaining);
        assert(issued(trade_ids(r.0@), stamps, old(generator)@, generator@));
        r
    }
}

impl OrderBook {
    /// Whether the opposite levels that cross the limit of `aggressor` hold
    /// at least its remaining quantity from other users (see [`avail`]).
    fn liquidity_covers(&self, aggressor: &Order) -> (b: bool)
        requires
            self.wf(),
        ensures
            b == (avail(opposite(self@, aggressor@.side), self@.orders, aggressor@) >= aggressor@.remaining_quantity),
    {
        let ghost a = aggressor@;
        let ghost om = self@.orders;
        let side = aggressor.get_side();
        let price = aggressor.get_price();
        let user = aggressor.get_user_id();
        let required: u64 = aggressor.get_remaining_quantity() as u64;
        let levels: &Vec<PriceLevel> = match side {
            Side::Buy => &self.asks_map,
            Side::Sell => &self.bids_map,
        };
        let ghost r = opposite(self@, a.side);
        assert(side_model(levels@) == r);
        if required == 0 {
            proof {
                lemma_avail_nonneg(r, om, a);
            }
            return true;
        }
        let mut available: u64 = 0;
        let mut idx: usize = levels.len();
        assert(r.take(idx as int) =~= r);
        while idx > 0
            invariant
                idx <= levels@.len(),
                side_model(levels@) == r,
                self.wf(),
                om == self@.orders,
                r == opposite(self@, a.side),
                a == aggressor@,
                side == a.side,
                price == a.price,
                user == a.user_id,
                required == a.remaining_quantity,
                available < required,
                available + avail(r.take(idx as int), om, a) == avail(r, om, a),
            ensures
                available < required,
                available + avail(r.take(idx as int), om, a) == avail(r, om, a),
                idx == 0 || !crosses(a.side, a.price, r[idx - 1].price),
            decreases idx,
        {
            let ghost l = r[idx - 1];
            assert(r.take(idx as int).last() == l);
            assert(r.take(idx as int).drop_last() =~= r.take(idx - 1));
            let lp = levels[idx - 1].price;
            let c = match side {
                Side::Buy => price >= lp,
                Side::Sell => price <= lp,
            };
            if !c {
                break;
            }
            proof {
                crate::book_model::lemma_avail_nonneg(r.take(idx - 1), om, a);
                assert(level_ok(r[idx - 1], crate::book_model::other_side(side), om));
            }
            let ids = &levels[idx - 1].ids;
            let ghost base = available;
            let mut x: usize = 0;
            assert(ids@.take(0) =~= Seq::<OrderId>::empty());
            while x < ids.len()
                invariant
                    x <= ids@.len(),
                    ids@ == l.ids,
                    a == aggressor@,
                    r == opposite(self@, a.side),
                    level_ok(l, crate::book_model::other_side(side), om),
                    om == self@.orders,
                    self.wf(),
                    user == a.user_id,
                    required == a.remaining_quantity,
                    available < required,
                    base + level_avail(l.ids, om, a.user_id) + avail(r.take(idx - 1), om, a) == avail(r, om, a),
                    available == base + level_avail(ids@.take(x as int), om, a.user_id),
                    avail(r.take(idx - 1), om, a) >= 0,
                decreases ids@.len() - x,
            {
                assert(ids@.take(x + 1).drop_last() =~= ids@.take(x as int));
                assert(om.contains_key(ids@[x as int]));
                let o = self.orders_map.get(&ids[x]).unwrap();
                assert(om[ids@[x as int]] == o@);
                assert(ids@.take(x + 1).last() == ids@[x as int]);
                if o.get_user_id() != user {
                    available = available + o.get_remaining_quantity() as u64;
                    if available >= required {
                        proof {
                            lemma_level_avail_nonneg(l.ids, om, a.user_id, x + 1);
                            assert(avail_part(om, ids@[x as int], a.user_id) == o@.remaining_quantity);
                            assert(level_avail(ids@.take(x + 1), om, a.user_id) == level_avail(ids@.take(x as int), om, a.user_id) + avail_part(om, ids@[x as int], a.user_id));
                            assert(available == base + level_avail(ids@.take(x + 1), om, a.user_id));
                        }
                        return true;
                    }
                }
                x = x + 1;
            }
            assert(ids@.take(x as int) =~= ids@);
            idx = idx - 1;
        }
        proof {
            if idx > 0 {
                assert(r.take(idx as int).last() == r[idx - 1]);
            } else {
                assert(r.take(0).len() == 0);
            }
        }
        false
    }

    /// Matches an order that never rests against the opposite side. For a
    /// fill-or-kill order (`require_full_fill`) nothing happens and `None` is
    /// returned unless the crossing liquidity of other users covers its
    /// remaining quantity, in which case it is filled completely.
    fn match_against_opposite(&mut self, aggressor: &Order, require_full_fill: bool, generator: &mut SnowFlakeGenerator) -> (r: Option<Trades>)
        requires
            old(self).wf(),
            old(generator).wf(),
        ensures
            final(self).wf(),
            final(generator).wf(),
            final(generator)@.machine_id == old(generator)@.machine_id,
            final(generator)@.datacenter_id == old(generator)@.datacenter_id,
            ({
                let st = ioc_run(
                    IocState { book: old(self)@, skip: 0, remaining: aggressor@.remaining_quantity, fills: seq![] },
                    aggressor@,
                );
                let covered = avail(opposite(old(self)@, aggressor@.side), old(self)@.orders, aggressor@) >= aggressor@.remaining_quantity;
                match r {
                    None => require_full_fill && !covered && final(self)@ == old(self)@ && final(generator)@ == old(generator)@,
                    Some(trades) => {
                        &&& !require_full_fill || covered
                        &&& final(self)@ == st.book
                        &&& trades_record(trades@, st.fills)
                        &&& require_full_fill ==> st.remaining == 0
                        &&& exists|stamps: Seq<(u64, u64)>| #[trigger] issued(trade_ids(trades@), stamps, old(generator)@, final(generator)@)
                    },
                }
            }),
    {
        if require_full_fill && !self.liquidity_covers(aggressor) {
            return None;
        }
        proof {
            let st0 = IocState { book: self@, skip: 0, remaining: aggressor@.remaining_quantity, fills: seq![] };
            assert(active_opposite(st0, aggressor@) =~= opposite(self@, aggressor@.side));
            if require_full_fill {
                lemma_ioc_fills_all(st0, aggressor@);
            }
        }
        let (trades, _left) = self.match_against_opposite_run(aggressor, generator);
        Some(trades)
    }
}

/// Queues order `id` at price `p` on a side (see [`add_to_side`]).
fn add_to_levels(levels: &mut Vec<PriceLevel>, side: Side, p: Price, id: OrderId)
    ensures
        side_model(final(levels)@) == add_to_side(side_model(old(levels)@), side, p, id),
{
    let ghost s = side_model(levels@);
    let mut k: usize = levels.len();
    assert(s.take(k as int) =~= s);
    while k > 0
        invariant
            k <= levels@.len(),
            s == side_model(levels@),
            place(s.take(k as int), side, p) == place(s, side, p),
        ensures
            k <= levels@.len(),
            s == side_model(levels@),
            place(s.take(k as int), side, p) == place(s, side, p),
            k == 0 || !better(side, s[k - 1].price, p),
        decreases k,
    {
        let lp = levels[k - 1].price;
        let b = match side {
            Side::Buy => lp > p,
            Side::Sell => lp < p,
        };
        if !b {
            break;
        }
        proof {
            assert(s.take(k as int).last() == s[k - 1]);
            assert(s.take(k as int).drop_last() =~= s.take(k - 1));
        }
        k = k - 1;
    }
    proof {
        if k > 0 {
            assert(s.take(k as int).last() == s[k - 1]);
        }
        assert(place(s, side, p) == k);
    }
    if k > 0 && levels[k - 1].price == p {
        let mut l = levels.remove(k - 1);
        l.ids.push(id);
        levels.insert(k - 1, l);
        assert(side_model(levels@) =~= s.update(k - 1, LevelModel { price: p, ids: s[k - 1].ids.push(id) }));
    } else {
        let mut ids: Vec<OrderId> = Vec::new();
        ids.push(id);
        levels.insert(k, PriceLevel { price: p, ids });
        assert(ids@ =~= seq![id]);
        assert(side_model(levels@) =~= s.insert(k as int, LevelModel { price: p, ids: seq![id] }));
    }
}

/// Position of the level priced `p` in a side, if there is one.
fn find_level(levels: &Vec<PriceLevel>, p: Price) -> (r: Option<usize>)
    ensures
        match r {
            Some(k) => k < levels@.len() && levels@[k as int].price == p,
            None => forall|k: int| 0 <= k < levels@.len() ==> #[trigger] levels@[k].price != p,
        },
{
    let mut k: usize = 0;
    while k < levels.len()
        invariant
            k <= levels@.len(),
            forall|x: int| 0 <= x < k ==> #[trigger] levels@[x].price != p,
        decreases levels@.len() - k,
    {
        if levels[k].price == p {
            return Some(k);
        }
        k = k + 1;
    }
    None
}

/// Position of `id` in a queue of ids, if it is there.
fn find_id(ids: &Vec<OrderId>, id: OrderId) -> (r: Option<usize>)
    ensures
        match r {
            Some(i) => i < ids@.len() && ids@[i as int] == id,
            None => !ids@.contains(id),
        },
{
    let mut i: usize = 0;
    while i < ids.len()
        invariant
            i <= ids@.len(),
            forall|x: int| 0 <= x < i ==> #[trigger] ids@[x] != id,
        decreases ids@.len() - i,
    {
        if ids[i] == id {
            return Some(i);
        }
        i = i + 1;
    }
    None
}

/// Takes order `id`, priced `p`, out of its level on a side (see [`unqueue`]).
fn unqueue_levels(levels: &mut Vec<PriceLevel>, p: Price, id: OrderId, Ghost(side): Ghost<Side>, Ghost(orders): Ghost<Map<OrderId, OrderView>>)
    requires
        side_ok(side_model(old(levels)@), side, orders),
        orders.contains_key(id),
        orders[id].price == p,
        orders[id].side == side,
    ensures
        side_model(final(levels)@) == unqueue(side_model(old(levels)@), p, id),
        side_ok(side_model(final(levels)@), side, orders.remove(id)),
{
    let ghost s = side_model(levels@);
    match find_level(levels, p) {
        Some(k) => {
            assert(s[k as int].price == p);
            match find_id(&levels[k].ids, id) {
                Some(i) => {
                    proof {
                        assert(s[k as int].ids[i as int] == id);
                        assert(s[k as int].ids.contains(id));
                        let k2 = choose|k2: int| 0 <= k2 < s.len() && s[k2].price == p && s[k2].ids.contains(id);
                        if k2 != k {
                            if k2 < k {
                                assert(better(side, s[k as int].price, s[k2].price));
                            } else {
                                assert(better(side, s[k2].price, s[k as int].price));
                            }
                        }
                        assert(level_ok(s[k as int], side, orders));
                        let i2 = s[k as int].ids.index_of(id);
                        assert(s[k as int].ids[i2] == id);
                        assert(i2 == i);
                        lemma_side_after_fill(s, side, orders, orders.remove(id), k as int, i as int, true);
                    }
                    replace_level(levels, k, i, true);
                },
                None => {
                    proof {
                        assert forall|k2: int| 0 <= k2 < s.len() implies !(#[trigger] s[k2].ids.contains(id)) by {
                            if s[k2].ids.contains(id) {
                                let x = choose|x: int| 0 <= x < s[k2].ids.len() && s[k2].ids[x] == id;
                                assert(level_ok(s[k2], side, orders));
                                assert(orders.contains_key(s[k2].ids[x]));
                                if k2 != k {
                                    if k2 < k {
                                        assert(better(side, s[k as int].price, s[k2].price));
                                    } else {
                                        assert(better(side, s[k2].price, s[k as int].price));
                                    }
                                }
                            }
                        }
                        lemma_side_remove_absent(s, side, orders, id);
                    }
                },
            }
        },
        None => {
            proof {
                assert forall|k2: int| 0 <= k2 < s.len() implies !(#[trigger] s[k2].ids.contains(id)) by {
                    if s[k2].ids.contains(id) {
                        let x = choose|x: int| 0 <= x < s[k2].ids.len() && s[k2].ids[x] == id;
                        assert(level_ok(s[k2], side, orders));
                        assert(orders.contains_key(s[k2].ids[x]));
                        assert(levels@[k2].price != p);
                    }
                }
                lemma_side_remove_absent(s, side, orders, id);
            }
        },
    }
}

impl OrderBook {
    /// Whether an order of `side` at `price` reaches the best opposite price
    /// (see [`can_match`]).
    fn can_match(&self, side: Side, price: Price) -> (b: bool)
        ensures
            b == can_match(self@, side, price),
    {
        match side {
            Side::Buy => {
                let n = self.asks_map.len();
                n > 0 && price >= self.asks_map[n - 1].price
            },
            Side::Sell => {
                let n = self.bids_map.len();
                n > 0 && price <= self.bids_map[n - 1].price
            },
        }
    }

    /// Puts a new order into the book (see [`rest`]).
    fn rest_order(&mut self, order: Order)
        requires
            old(self).wf(),
            !old(self)@.orders.contains_key(order@.order_id),
        ensures
            final(self).wf(),
            final(self)@ == rest(old(self)@, order@),
    {
        let ghost b = self@;
        let id = order.get_order_id();
        let p = order.get_price();
        self.orders_map.insert(id, order);
        match order.get_side() {
            Side::Buy => add_to_levels(&mut self.bids_map, Side::Buy, p, id),
            Side::Sell => add_to_levels(&mut self.asks_map, Side::Sell, p, id),
        }
        proof {
            assert(self@.orders =~= b.orders.insert(id, order@));
            lemma_rest_wf(b, order@);
        }
    }

    /// Cancels the resting order with the given id: it leaves the order map
    /// and its price level (a level left empty is removed). Returns the
    /// cancelled order, or `None` (and no change) when no such order rests.
    pub fn cancel_order(&mut self, order_id: &OrderId) -> (r: Option<Order>)
        requires
            old(self).wf(),
        ensures
            final(self).wf(),
            match cancel_spec(old(self)@, *order_id) {
                None => r is None && final(self)@ == old(self)@,
                Some(res) => r matches Some(o) && o@ == res.1 && final(self)@ == res.0,
            },
            final(self)@.orders.len() == old(self)@.orders.len() - if r is Some { 1int } else { 0int },
            uncrossed(old(self)@) ==> uncrossed(final(self)@),
    {
        let id = *order_id;
        let ghost b = self@;
        if !self.orders_map.contains_key(&id) {
            return None;
        }
        let o = self.read_order(id);
        self.orders_map.remove(&id);
        assert(self@.orders =~= b.orders.remove(id));
        let p = o.get_price();
        match o.get_side() {
            Side::Buy => {
                unqueue_levels(&mut self.bids_map, p, id, Ghost(Side::Buy), Ghost(b.orders));
                proof {
                    lemma_side_frame(b.asks, Side::Sell, b.orders, b.orders.remove(id));
                }
            },
            Side::Sell => {
                unqueue_levels(&mut self.asks_map, p, id, Ghost(Side::Sell), Ghost(b.orders));
                proof {
                    lemma_side_frame(b.bids, Side::Buy, b.orders, b.orders.remove(id));
                }
            },
        }
        proof {
            assert forall|x: OrderId| #[trigger] self@.orders.contains_key(x) implies self@.orders[x].order_id == x by {
                assert(b.orders.contains_key(x));
            }
            if uncrossed(b) {
                lemma_cancel_keeps_uncrossed(b, self@, id);
            }
        }
        Some(o)
    }

    /// Places an order (see [`add_spec`]). An order whose id already rests
    /// is refused. A fill-and-kill order that reaches the best opposite
    /// price trades what it can and the rest is discarded; a fill-or-kill
    /// order trades in full or not at all; neither ever rests. Any other
    /// order first trades against the opposite side while it crosses, then
    /// rests with what remains of it, if anything. Returns the trades,
    /// or `None` (and no change) when the order is refused.
    pub fn add_order(&mut self, order: &Order, generator: &mut SnowFlakeGenerator) -> (r: Option<Trades>)
        requires
            old(self).wf(),
            old(generator).wf(),
        ensures
            final(self).wf(),
            final(generator).wf(),
            final(generator)@.machine_id == old(generator)@.machine_id,
            final(generator)@.datacenter_id == old(generator)@.datacenter_id,
            match add_spec(old(self)@, order@) {
                None => r is None && final(self)@ == old(self)@,
                Some(res) => r matches Some(t) && final(self)@ == res.0 && trades_record(t@, res.1),
            },
            r is None ==> final(generator)@ == old(generator)@,
            r matches Some(t) ==> exists|stamps: Seq<(u64, u64)>| #[trigger] issued(trade_ids(t@), stamps, old(generator)@, final(generator)@),
            uncrossed(old(self)@) ==> uncrossed(final(self)@),
            final(self)@.orders.len() <= old(self)@.orders.len() + 1,
            (order@.order_type == OrderType::FillAndKill || order@.order_type == OrderType::FillOrKill) ==> final(self)@.orders.len() <= old(self)@.orders.len(),
    {
        proof {
            if uncrossed(self@) {
                lemma_add_keeps_uncrossed(self@, order@);
            }
            if add_spec(self@, order@) is Some {
                crate::book_model::lemma_add_size(self@, order@);
            }
        }
        let order_side = order.get_side();
        let order_id = order.get_order_id();
        let order_price = order.get_price();
        if self.orders_map.contains_key(&order_id) {
            return None;
        }
        match order.get_type() {
            OrderType::FillAndKill => {
                if !self.can_match(order_side, order_price) {
                    return None;
                }
                self.match_against_opposite(order, false, generator)
            },
            OrderType::FillOrKill => {
                if !self.can_match(order_side, order_price) {
                    return None;
                }
                self.match_against_opposite(order, true, generator)
            },
            _ => {
                proof {
                    let st0 = IocState { book: self@, skip: 0, remaining: order@.remaining_quantity, fills: seq![] };
                    lemma_ioc_never_rests(st0, order@);
                }
                let ghost g0 = generator@;
                let (trades, left) = self.match_against_opposite_run(order, generator);
                let ghost stamps = choose|stamps: Seq<(u64, u64)>| issued(trade_ids(trades@), stamps, g0, generator@);
                assert(issued(trade_ids(trades@), stamps, g0, generator@));
                if left > 0 {
                    proof {
                        use_type_invariant(order);
                        crate::book_model::lemma_ioc_remaining_le(
                            IocState { book: old(self)@, skip: 0, remaining: order@.remaining_quantity, fills: seq![] },
                            order@,
                        );
                    }
                    let remainder = if left == order.get_remaining_quantity() {
                        *order
                    } else {
                        Order::from_parts(
                            order_id,
                            order.get_type(),
                            order_side,
                            OrderStatus::PartiallyFilled,
                            order_price,
                            order.get_initial_quantity(),
                            left,
                            order.get_timestamp(),
                            order.get_user_id(),
                        )
                    };
                    self.rest_order(remainder);
                }
                assert(issued(trade_ids(trades@), stamps, old(generator)@, generator@));
                let ghost tv = trades@;
                let r = Some(trades);
                assert(r matches Some(t) && t@ == tv);
                assert(issued(trade_ids(r->0@), stamps, old(generator)@, generator@));
                r
            },
        }
    }

    /// Replaces a resting order (cancel, then place): the replacement keeps
    /// the id and the order type of the order it replaces and takes its side,
    /// status, price, quantity and user from `order_modify`, with a fresh
    /// timestamp. Returns the trades of placing it, or `None` (and no change)
    /// when no order with that id rests.
    pub fn modify_order(&mut self, order_modify: OrderModify, generator: &mut SnowFlakeGenerator) -> (r: Option<Trades>)
        requires
            old(self).wf(),
            old(generator).wf(),
        ensures
            final(self).wf(),
            final(generator).wf(),
            final(generator)@.machine_id == old(generator)@.machine_id,
            final(generator)@.datacenter_id == old(generator)@.datacenter_id,
            !old(self)@.orders.contains_key(order_modify@.order_id) ==> r is None && final(self)@ == old(self)@,
            old(self)@.orders.contains_key(order_modify@.order_id) ==> exists|n: OrderView| {
                &&& #[trigger] replaces(n, order_modify@, old(self)@.orders[order_modify@.order_id].order_type)
                &&& match add_spec(cancel_spec(old(self)@, order_modify@.order_id).unwrap().0, n) {
                    None => r is None && final(self)@ == cancel_spec(old(self)@, order_modify@.order_id).unwrap().0,
                    Some(res) => r matches Some(t) && final(self)@ == res.0 && trades_record(t@, res.1),
                }
            },
            r is None ==> final(generator)@ == old(generator)@,
            r matches Some(t) ==> exists|stamps: Seq<(u64, u64)>| #[trigger] issued(trade_ids(t@), stamps, old(generator)@, final(generator)@),
            uncrossed(old(self)@) ==> uncrossed(final(self)@),
    {
        let order_id = order_modify.get_order_id();
        if !self.orders_map.contains_key(&order_id) {
            return None;
        }
        let order_type = self.read_order(order_id).get_type();
        let new_order = order_modify.to_order_pointer(order_type);
        let _ = self.cancel_order(&order_id);
        let r = self.add_order(&new_order, generator);
        assert(replaces(new_order@, order_modify@, order_type));
        r
    }
}

/// `n` is the replacement that a modification `m` makes of an order of
/// type `t`: same id and type, with `m`'s side, status, price, quantity
/// (initial and remaining) and user.
pub open spec fn replaces(n: OrderView, m: OrderModifyView, t: OrderType) -> bool {
    &&& n.order_id == m.order_id
    &&& n.order_type == t
    &&& n.side == m.side
    &&& n.status == m.status
    &&& n.price == m.price
    &&& n.initial_quantity == m.quantity
    &&& n.remaining_quantity == m.quantity
    &&& n.user_id == m.user_id
}

/// Total remaining quantity of the orders with the given ids.
pub open spec fn qty_sum(ids: Seq<OrderId>, orders: Map<OrderId, OrderView>) -> int
    decreases ids.len(),
{
    if ids.len() == 0 {
        0
    } else {
        qty_sum(ids.drop_last(), orders) + orders[ids.last()].remaining_quantity
    }
}

/// The depth entry of a level: its price and its total remaining quantity
/// (saturated at the largest quantity).
pub open spec fn level_depth(l: LevelModel, orders: Map<OrderId, OrderView>) -> LevelInfo {
    LevelInfo {
        price: l.price,
        quantity: if qty_sum(l.ids, orders) <= u32::MAX {
            qty_sum(l.ids, orders) as Quantity
        } else {
            u32::MAX
        },
    }
}

/// The depth of a side, best level first.
pub open spec fn side_depth(levels: Seq<LevelModel>, orders: Map<OrderId, OrderView>) -> Seq<LevelInfo> {
    Seq::new(levels.len(), |k: int| level_depth(levels[levels.len() - 1 - k], orders))
}

/// Total remaining quantity of the orders of a queue, saturated.
fn level_quantity(ids: &Vec<OrderId>, orders: &HashMap<OrderId, Order>) -> (q: Quantity)
    requires
        forall|j: int| 0 <= j < ids@.len() ==> orders@.contains_key(#[trigger] ids@[j]),
    ensures
        q == level_depth(LevelModel { price: 0, ids: ids@ }, orders_model(orders@)).quantity,
{
    let ghost om = orders_model(orders@);
    let mut acc: Quantity = 0;
    let mut i: usize = 0;
    assert(ids@.take(0) =~= Seq::<OrderId>::empty());
    while i < ids.len()
        invariant
            i <= ids@.len(),
            om == orders_model(orders@),
            forall|j: int| 0 <= j < ids@.len() ==> orders@.contains_key(#[trigger] ids@[j]),
            acc == (if qty_sum(ids@.take(i as int), om) <= u32::MAX {
                qty_sum(ids@.take(i as int), om) as Quantity
            } else {
                u32::MAX
            }),
            qty_sum(ids@.take(i as int), om) >= 0,
        decreases ids@.len() - i,
    {
        let o = orders.get(&ids[i]).unwrap();
        proof {
            assert(ids@.take(i + 1).drop_last() =~= ids@.take(i as int));
            assert(ids@.take(i + 1).last() == ids@[i as int]);
            assert(om[ids@[i as int]] == o@);
        }
        acc = acc.saturating_add(o.get_remaining_quantity());
        i = i + 1;
    }
    assert(ids@.take(i as int) =~= ids@);
    acc
}

/// The depth of a side, best level first.
fn depth_of(levels: &Vec<PriceLevel>, orders: &HashMap<OrderId, Order>) -> (r: LevelInfos)
    requires
        forall|k: int, j: int| 0 <= k < levels@.len() && 0 <= j < levels@[k].ids@.len() ==> orders@.contains_key(#[trigger] levels@[k].ids@[j]),
    ensures
        r@ == side_depth(side_model(levels@), orders_model(orders@)),
{
    let ghost s = side_model(levels@);
    let ghost om = orders_model(orders@);
    let ghost full = side_depth(s, om);
    let mut out = LevelInfos::new();
    let mut k: usize = levels.len();
    while k > 0
        invariant
            k <= levels@.len(),
            s == side_model(levels@),
            om == orders_model(orders@),
            full == side_depth(s, om),
            forall|k2: int, j: int| 0 <= k2 < levels@.len() && 0 <= j < levels@[k2].ids@.len() ==> orders@.contains_key(#[trigger] levels@[k2].ids@[j]),
            out@ =~= full.take(levels@.len() - k),
        decreases k,
    {
        let l = &levels[k - 1];
        assert forall|j: int| 0 <= j < l.ids@.len() implies orders@.contains_key(#[trigger] l.ids@[j]) by {
            assert(levels@[k - 1].ids@[j] == l.ids@[j]);
        }
        let q = level_quantity(&l.ids, orders);
        out.push_back(LevelInfo::new(l.price, q));
        proof {
            assert(s[k - 1] == level_model(levels@[k - 1]));
            assert(full[levels@.len() - k] == level_depth(s[k - 1], om));
        }
        k = k - 1;
    }
    out
}

impl OrderBook {
    /// A depth snapshot: for each side, its price levels best first (bids
    /// by descending price, asks by ascending price) with the total
    /// remaining quantity resting at each (saturated at the largest quantity).
    pub fn get_order_info(&self) -> (info: OrderBookLevelInfo)
        requires
            self.wf(),
        ensures
            info@.0 == side_depth(self@.bids, self@.orders),
            info@.1 == side_depth(self@.asks, self@.orders),
    {
        proof {
            assert forall|k: int, j: int| 0 <= k < self.bids_map@.len() && 0 <= j < self.bids_map@[k].ids@.len() implies self.orders_map@.contains_key(#[trigger] self.bids_map@[k].ids@[j]) by {
                assert(level_ok(self@.bids[k], Side::Buy, self@.orders));
                assert(self@.bids[k].ids[j] == self.bids_map@[k].ids@[j]);
                assert(self@.orders.contains_key(self@.bids[k].ids[j]));
            }
            assert forall|k: int, j: int| 0 <= k < self.asks_map@.len() && 0 <= j < self.asks_map@[k].ids@.len() implies self.orders_map@.contains_key(#[trigger] self.asks_map@[k].ids@[j]) by {
                assert(level_ok(self@.asks[k], Side::Sell, self@.orders));
                assert(self@.asks[k].ids[j] == self.asks_map@[k].ids@[j]);
                assert(self@.orders.contains_key(self@.asks[k].ids[j]));
            }
        }
        let bids = depth_of(&self.bids_map, &self.orders_map);
        let asks = depth_of(&self.asks_map, &self.orders_map);
        OrderBookLevelInfo::new(bids, asks)
    }
}

/// The ids of a queue whose orders belong to a user other than `u`.
fn filter_level(ids: &Vec<OrderId>, orders: &HashMap<OrderId, Order>, u: UserId) -> (r: Vec<OrderId>)
    requires
        forall|j: int| 0 <= j < ids@.len() ==> orders@.contains_key(#[trigger] ids@[j]),
    ensures
        r@ == ids@.filter(not_of(orders_model(orders@), u)),
{
    let ghost keep = not_of(orders_model(orders@), u);
    let mut out: Vec<OrderId> = Vec::new();
    let mut i: usize = 0;
    proof {
        reveal(Seq::filter);
        assert(ids@.take(0) =~= Seq::<OrderId>::empty());
    }
    while i < ids.len()
        invariant
            i <= ids@.len(),
            keep == not_of(orders_model(orders@), u),
            forall|j: int| 0 <= j < ids@.len() ==> orders@.contains_key(#[trigger] ids@[j]),
            out@ == ids@.take(i as int).filter(keep),
        decreases ids@.len() - i,
    {
        let id = ids[i];
        let o = orders.get(&id).unwrap();
        proof {
            reveal(Seq::filter);
            assert(ids@.take(i + 1).drop_last() =~= ids@.take(i as int));
            assert(ids@.take(i + 1).last() == id);
            assert(orders_model(orders@)[id] == o@);
        }
        if o.get_user_id() != u {
            out.push(id);
        }
        i = i + 1;
    }
    assert(ids@.take(i as int) =~= ids@);
    out
}

/// A side with only the orders of users other than `u` (see [`strip`]).
fn strip_levels(levels: &Vec<PriceLevel>, orders: &HashMap<OrderId, Order>, u: UserId) -> (r: Vec<PriceLevel>)
    requires
        forall|k: int, j: int| 0 <= k < levels@.len() && 0 <= j < levels@[k].ids@.len() ==> orders@.contains_key(#[trigger] levels@[k].ids@[j]),
    ensures
        side_model(r@) == strip(side_model(levels@), not_of(orders_model(orders@), u)),
{
    let ghost keep = not_of(orders_model(orders@), u);
    let ghost s = side_model(levels@);
    let mut out: Vec<PriceLevel> = Vec::new();
    let mut k: usize = 0;
    assert(s.take(0) =~= Seq::<LevelModel>::empty());
    assert(side_model(out@) =~= Seq::<LevelModel>::empty());
    while k < levels.len()
        invariant
            k <= levels@.len(),
            s == side_model(levels@),
            keep == not_of(orders_model(orders@), u),
            forall|k2: int, j: int| 0 <= k2 < levels@.len() && 0 <= j < levels@[k2].ids@.len() ==> orders@.contains_key(#[trigger] levels@[k2].ids@[j]),
            side_model(out@) == strip(s.take(k as int), keep),
        decreases levels@.len() - k,
    {
        let l = &levels[k];
        assert forall|j: int| 0 <= j < l.ids@.len() implies orders@.contains_key(#[trigger] l.ids@[j]) by {
            assert(levels@[k as int].ids@[j] == l.ids@[j]);
        }
        let ids = filter_level(&l.ids, orders, u);
        proof {
            assert(s.take(k + 1).drop_last() =~= s.take(k as int));
            assert(s.take(k + 1).last() == s[k as int]);
        }
        if ids.len() > 0 {
            let ghost before = side_model(out@);
            out.push(PriceLevel { price: l.price, ids });
            assert(side_model(out@) =~= before.push(LevelModel { price: s[k as int].price, ids: s[k as int].ids.filter(keep) }));
        }
        k = k + 1;
    }
    assert(s.take(k as int) =~= s);
    out
}

impl OrderBook {
    /// Every id held in a level names a resting order.
    proof fn lemma_levels_in_map(&self)
        requires
            self.wf(),
        ensures
            forall|k: int, j: int| 0 <= k < self.bids_map@.len() && 0 <= j < self.bids_map@[k].ids@.len() ==> self.orders_map@.contains_key(#[trigger] self.bids_map@[k].ids@[j]),
            forall|k: int, j: int| 0 <= k < self.asks_map@.len() && 0 <= j < self.asks_map@[k].ids@.len() ==> self.orders_map@.contains_key(#[trigger] self.asks_map@[k].ids@[j]),
    {
        assert forall|k: int, j: int| 0 <= k < self.bids_map@.len() && 0 <= j < self.bids_map@[k].ids@.len() implies self.orders_map@.contains_key(#[trigger] self.bids_map@[k].ids@[j]) by {
            assert(level_ok(self@.bids[k], Side::Buy, self@.orders));
            assert(self@.bids[k].ids[j] == self.bids_map@[k].ids@[j]);
            assert(self@.orders.contains_key(self@.bids[k].ids[j]));
        }
        assert forall|k: int, j: int| 0 <= k < self.asks_map@.len() && 0 <= j < self.asks_map@[k].ids@.len() implies self.orders_map@.contains_key(#[trigger] self.asks_map@[k].ids@[j]) by {
            assert(level_ok(self@.asks[k], Side::Sell, self@.orders));
            assert(self@.asks[k].ids[j] == self.asks_map@[k].ids@[j]);
            assert(self@.orders.contains_key(self@.asks[k].ids[j]));
        }
    }

    /// Cancels every resting order of `user_id` (see [`without_user`]) and
    /// returns their ids, each once.
    pub fn cancel_orders_for_user(&mut self, user_id: UserId) -> (r: Vec<OrderId>)
        requires
            old(self).wf(),
        ensures
            final(self).wf(),
            final(self)@ == without_user(old(self)@, user_id),
            uncrossed(old(self)@) ==> uncrossed(final(self)@),
            r@.no_duplicates(),
            forall|id: OrderId| #[trigger] r@.contains(id) <==> old(self)@.orders.contains_key(id) && old(self)@.orders[id].user_id == user_id,
            final(self)@.orders.len() == old(self)@.orders.len() - r@.len(),
    {
        let ghost b = self@;
        let ghost m = self.orders_map@;
        let ghost sq = spec_hash_map_iter(&self.orders_map).remaining();
        let mut to_remove: Vec<OrderId> = Vec::new();
        for pair in it: self.orders_map.iter()
            invariant
                m == self.orders_map@,
                sq == it.seq(),
                sq.no_duplicates(),
                b == self@,
                to_remove@.no_duplicates(),
                forall|x: OrderId| #[trigger] to_remove@.contains(x) <==> exists|j: int| 0 <= j < it.index() && *sq[j].0 == x && (*sq[j].1)@.user_id == user_id,
        {
            let ghost ci = it.index();
            let (id, o) = pair;
            let ghost old_rm = to_remove@;
            assert(*sq[ci].0 == *id && *sq[ci].1 == *o);
            if o.get_user_id() == user_id {
                proof {
                    if old_rm.contains(*id) {
                        let j = choose|j: int| 0 <= j < ci && *sq[j].0 == *id && (*sq[j].1)@.user_id == user_id;
                        if j != ci {
                            assert(m[*sq[j].0] == *sq[j].1);
                            assert(m[*sq[ci].0] == *sq[ci].1);
                            assert(sq[j] == sq[ci]);
                        }
                        assert(j < ci);
                    }
                }
                to_remove.push(*id);
                proof {
                    assert forall|x: OrderId| #[trigger] to_remove@.contains(x) <==> exists|j: int| 0 <= j < ci + 1 && *sq[j].0 == x && (*sq[j].1)@.user_id == user_id by {
                        if to_remove@.contains(x) {
                            let k = choose|k: int| 0 <= k < to_remove@.len() && #[trigger] to_remove@[k] == x;
                            if k < old_rm.len() {
                                assert(old_rm[k] == x);
                                assert(old_rm.contains(x));
                            } else {
                                assert(*sq[ci].0 == x);
                            }
                        }
                        if exists|j: int| 0 <= j < ci + 1 && *sq[j].0 == x && (*sq[j].1)@.user_id == user_id {
                            let j = choose|j: int| 0 <= j < ci + 1 && *sq[j].0 == x && (*sq[j].1)@.user_id == user_id;
                            if j < ci {
                                assert(old_rm.contains(x));
                                let k = choose|k: int| 0 <= k < old_rm.len() && #[trigger] old_rm[k] == x;
                                assert(to_remove@[k] == x);
                            } else {
                                assert(to_remove@[old_rm.len() as int] == x);
                            }
                        }
                    }
                    assert forall|p: int, q: int| 0 <= p < to_remove@.len() && 0 <= q < to_remove@.len() && p != q implies to_remove@[p] != to_remove@[q] by {
                        if p < old_rm.len() && q < old_rm.len() {
                            assert(old_rm[p] != old_rm[q]);
                        } else if p < old_rm.len() {
                            assert(old_rm.contains(old_rm[p]));
                        } else if q < old_rm.len() {
                            assert(old_rm.contains(old_rm[q]));
                        }
                    }
                }
            } else {
                proof {
                    assert forall|x: OrderId| #[trigger] to_remove@.contains(x) <==> exists|j: int| 0 <= j < ci + 1 && *sq[j].0 == x && (*sq[j].1)@.user_id == user_id by {
                        if exists|j: int| 0 <= j < ci + 1 && *sq[j].0 == x && (*sq[j].1)@.user_id == user_id {
                            let j = choose|j: int| 0 <= j < ci + 1 && *sq[j].0 == x && (*sq[j].1)@.user_id == user_id;
                            assert(j != ci);
                        }
                    }
                }
            }
        }
        proof {
            assert forall|x: OrderId| #[trigger] to_remove@.contains(x) <==> b.orders.contains_key(x) && b.orders[x].user_id == user_id by {
                if to_remove@.contains(x) {
                    let j = choose|j: int| 0 <= j < sq.len() && *sq[j].0 == x && (*sq[j].1)@.user_id == user_id;
                    assert(m.contains_key(*sq[j].0));
                    assert(m[*sq[j].0] == *sq[j].1);
                }
                if b.orders.contains_key(x) && b.orders[x].user_id == user_id {
                    assert(m.contains_key(x));
                    assert(sq.contains((&x, &m[x])));
                    let j = choose|j: int| 0 <= j < sq.len() && sq[j] == (&x, &m[x]);
                    assert(*sq[j].0 == x);
                }
            }
            self.lemma_levels_in_map();
        }
        assert(orders_model(self.orders_map@) == b.orders);
        let bids = strip_levels(&self.bids_map, &self.orders_map, user_id);
        let asks = strip_levels(&self.asks_map, &self.orders_map, user_id);
        assert(side_model(bids@) == strip(b.bids, not_of(b.orders, user_id)));
        assert(side_model(asks@) == strip(b.asks, not_of(b.orders, user_id)));
        self.bids_map = bids;
        self.asks_map = asks;
        let ghost nb = self.bids_map@;
        let ghost na = self.asks_map@;
        let mut i: usize = 0;
        while i < to_remove.len()
            invariant
                i <= to_remove@.len(),
                self.bids_map@ == nb,
                self.asks_map@ == na,
                forall|x: OrderId| #[trigger] self.orders_map@.contains_key(x) <==> m.contains_key(x) && !to_remove@.take(i as int).contains(x),
                forall|x: OrderId| #[trigger] self.orders_map@.contains_key(x) ==> self.orders_map@[x] == m[x],
            decreases to_remove@.len() - i,
        {
            let id = to_remove[i];
            self.orders_map.remove(&id);
            proof {
                assert(to_remove@.take(i + 1) =~= to_remove@.take(i as int).push(id));
                assert forall|x: OrderId| to_remove@.take(i as int).push(id).contains(x) <==> to_remove@.take(i as int).contains(x) || x == id by {
                    let t = to_remove@.take(i as int);
                    if t.push(id).contains(x) {
                        let j = choose|j: int| 0 <= j < t.push(id).len() && #[trigger] t.push(id)[j] == x;
                        if j < i {
                            assert(t[j] == x);
                        }
                    }
                    if t.contains(x) {
                        let j = choose|j: int| 0 <= j < t.len() && #[trigger] t[j] == x;
                        assert(t.push(id)[j] == x);
                    }
                    if x == id {
                        assert(t.push(id)[i as int] == x);
                    }
                }
            }
            i = i + 1;
        }
        proof {
            assert(to_remove@.take(i as int) =~= to_remove@);
            assert(self@.orders =~= others_of(b.orders, user_id));
            assert(self@ == without_user(b, user_id));
            lemma_without_user_wf(b, user_id);
            crate::book_model::lemma_user_split_count(b.orders, user_id, to_remove@);
            if uncrossed(b) {
                lemma_without_user_keeps_uncrossed(b, self@, user_id);
            }
        }
        to_remove
    }

    /// Returns a copy of every resting order, each once, in no particular order.
    pub fn get_all_orders(&self) -> (r: Vec<Order>)
        requires
            self.wf(),
        ensures
            r@.len() == self@.orders.len(),
            forall|k: int| 0 <= k < r@.len() ==> self@.orders.contains_key(#[trigger] r@[k]@.order_id) && self@.orders[r@[k]@.order_id] == r@[k]@,
            forall|id: OrderId| #[trigger] self@.orders.contains_key(id) ==> exists|k: int| 0 <= k < r@.len() && r@[k]@ == self@.orders[id],
    {
        let ghost m = self.orders_map@;
        let ghost sq = spec_hash_map_iter(&self.orders_map).remaining();
        let mut out: Vec<Order> = Vec::new();
        for pair in it: self.orders_map.iter()
            invariant
                m == self.orders_map@,
                sq == it.seq(),
                out@.len() == it.index(),
                forall|k: int| 0 <= k < it.index() ==> #[trigger] out@[k] == *it.seq()[k].1,
        {
            let (_, o) = pair;
            out.push(*o);
        }
        proof {
            assert(self@.orders.dom() =~= m.dom());
            assert forall|k: int| 0 <= k < out@.len() implies self@.orders.contains_key(#[trigger] out@[k]@.order_id) && self@.orders[out@[k]@.order_id] == out@[k]@ by {
                assert(m.contains_key(*sq[k].0));
                assert(m[*sq[k].0] == *sq[k].1);
                assert(self@.orders.contains_key(*sq[k].0));
            }
            assert forall|id: OrderId| #[trigger] self@.orders.contains_key(id) implies exists|k: int| 0 <= k < out@.len() && out@[k]@ == self@.orders[id] by {
                assert(m.contains_key(id));
                assert(sq.contains((&id, &m[id])));
                let j = choose|j: int| 0 <= j < sq.len() && sq[j] == (&id, &m[id]);
                assert(out@[j] == m[id]);
            }
        }
        out
    }
}
} // verus!
