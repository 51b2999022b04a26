//! The mathematical model of an order book and of its matching rules.
//!
//! A book has two sides, each a sequence of price levels with the best
//! level last: bids by ascending price, asks by descending price. A level
//! holds the ids of its resting orders, oldest first; the orders themselves
//! live in a map from id to order.
use vstd::prelude::*;

use crate::order::OrderView;
use crate::types::{OrderId, OrderStatus, OrderType, Price, Quantity, Side, UserId};

verus! {

/// A price level: its price and the ids of the orders resting there, oldest first.
pub struct LevelModel {
    pub price: Price,
    pub ids: Seq<OrderId>,
}

/// An order book: bid and ask levels (best last) and the resting orders by id.
pub struct BookModel {
    pub bids: Seq<LevelModel>,
    pub asks: Seq<LevelModel>,
    pub orders: Map<OrderId, OrderView>,
}

/// A matched fill between a buy order and a sell order.
pub struct Fill {
    pub bid_id: OrderId,
    pub bid_user: UserId,
    pub ask_id: OrderId,
    pub ask_user: UserId,
    pub price: Price,
    pub quantity: Quantity,
}

/// `o` after a fill of `q` (at most its remaining quantity): nothing changes
/// for a zero fill, else the remaining quantity drops and the status becomes
/// `Filled` or `PartiallyFilled`.
pub open spec fn fill_view(o: OrderView, q: Quantity) -> OrderView {
    if q == 0 {
        o
    } else {
        OrderView {
            remaining_quantity: (o.remaining_quantity - q) as Quantity,
            status: if o.remaining_quantity - q == 0 {
                OrderStatus::Filled
            } else {
                OrderStatus::PartiallyFilled
            },
            ..o
        }
    }
}

pub open spec fn min_q(a: Quantity, b: Quantity) -> Quantity {
    if a <= b {
        a
    } else {
        b
    }
}

/// Number of order ids across a sequence of levels.
pub open spec fn ids_count(levels: Seq<LevelModel>) -> int
    decreases levels.len(),
{
    if levels.len() == 0 {
        0
    } else {
        ids_count(levels.drop_last()) + levels.last().ids.len()
    }
}

/// The levels of a side are strictly ordered with the best level last.
pub open spec fn side_sorted(levels: Seq<LevelModel>, side: Side) -> bool {
    forall|i: int, j: int|
        0 <= i < j < levels.len() ==> #[trigger] better(side, levels[j].price, levels[i].price)
}

/// Price `a` is strictly better than price `b` for a resting order of `side`
/// (a higher bid, a lower ask).
pub open spec fn better(side: Side, a: Price, b: Price) -> bool {
    match side {
        Side::Buy => a > b,
        Side::Sell => a < b,
    }
}

/// A level of `side` is non-empty, has no repeated id, and every id names a
/// resting order of that side at the level's price.
pub open spec fn level_ok(l: LevelModel, side: Side, orders: Map<OrderId, OrderView>) -> bool {
    &&& l.ids.len() > 0
    &&& l.ids.no_duplicates()
    &&& forall|j: int|
        0 <= j < l.ids.len() ==> (#[trigger] orders.contains_key(l.ids[j])) && orders[l.ids[j]].side
            == side && orders[l.ids[j]].price == l.price
}

/// Every resting order is stored under its own id.
pub open spec fn orders_ok(orders: Map<OrderId, OrderView>) -> bool {
    forall|id: OrderId| #[trigger] orders.contains_key(id) ==> orders[id].order_id == id
}

/// A side of a book is well formed.
pub open spec fn side_ok(levels: Seq<LevelModel>, side: Side, orders: Map<OrderId, OrderView>) -> bool {
    &&& side_sorted(levels, side)
    &&& forall|k: int| 0 <= k < levels.len() ==> level_ok(#[trigger] levels[k], side, orders)
}

/// The book is well formed: finitely many resting orders, each stored
/// under its own id, and both sides well formed.
pub open spec fn book_wf(b: BookModel) -> bool {
    &&& side_ok(b.bids, Side::Buy, b.orders)
    &&& side_ok(b.asks, Side::Sell, b.orders)
    &&& orders_ok(b.orders)
    &&& b.orders.dom().finite()
}

/// Index of the first id whose order belongs to a user other than `u`
/// (the length of `ids` when there is none).
pub open spec fn first_other(ids: Seq<OrderId>, u: UserId, orders: Map<OrderId, OrderView>) -> int
    decreases ids.len(),
{
    if ids.len() == 0 {
        0
    } else if orders[ids[0]].user_id != u {
        0
    } else {
        1 + first_other(ids.drop_first(), u, orders)
    }
}

/// `first_other` is the index before which every order belongs to `u` and
/// at which (if any) the order belongs to someone else.
pub proof fn lemma_first_other(ids: Seq<OrderId>, u: UserId, orders: Map<OrderId, OrderView>, i: int)
    requires
        0 <= i <= ids.len(),
        forall|k: int| 0 <= k < i ==> orders[#[trigger] ids[k]].user_id == u,
        i < ids.len() ==> orders[ids[i]].user_id != u,
    ensures
        first_other(ids, u, orders) == i,
    decreases ids.len(),
{
    if ids.len() > 0 && i > 0 {
        assert forall|k: int| 0 <= k < i - 1 implies orders[#[trigger] ids.drop_first()[k]].user_id
            == u by {
            assert(ids.drop_first()[k] == ids[k + 1]);
        }
        lemma_first_other(ids.drop_first(), u, orders, i - 1);
    }
}


pub proof fn lemma_ids_count_nonneg(levels: Seq<LevelModel>)
    ensures
        ids_count(levels) >= 0,
    decreases levels.len(),
{
    if levels.len() > 0 {
        lemma_ids_count_nonneg(levels.drop_last());
    }
}

pub proof fn lemma_ids_count_update(levels: Seq<LevelModel>, k: int, l: LevelModel)
    requires
        0 <= k < levels.len(),
    ensures
        ids_count(levels.update(k, l)) == ids_count(levels) - levels[k].ids.len() + l.ids.len(),
    decreases levels.len(),
{
    if k < levels.len() - 1 {
        assert(levels.update(k, l).drop_last() =~= levels.drop_last().update(k, l));
        lemma_ids_count_update(levels.drop_last(), k, l);
    } else {
        assert(levels.update(k, l).drop_last() =~= levels.drop_last());
    }
}

pub proof fn lemma_ids_count_remove(levels: Seq<LevelModel>, k: int)
    requires
        0 <= k < levels.len(),
    ensures
        ids_count(levels.remove(k)) == ids_count(levels) - levels[k].ids.len(),
    decreases levels.len(),
{
    if k < levels.len() - 1 {
        assert(levels.remove(k).drop_last() =~= levels.drop_last().remove(k));
        lemma_ids_count_remove(levels.drop_last(), k);
    } else {
        assert(levels.remove(k) =~= levels.drop_last());
    }
}

/// The orders after a fill of order `id` leaves it as `o`: gone when nothing
/// remains, updated otherwise.
pub open spec fn settle(orders: Map<OrderId, OrderView>, id: OrderId, o: OrderView) -> Map<OrderId, OrderView> {
    if o.remaining_quantity == 0 {
        orders.remove(id)
    } else {
        orders.insert(id, o)
    }
}

/// Level `l` without the order at position `i` when `gone`.
pub open spec fn drop_if(l: LevelModel, i: int, gone: bool) -> LevelModel {
    if gone {
        LevelModel { price: l.price, ids: l.ids.remove(i) }
    } else {
        l
    }
}

/// The side with level `k` replaced by `l`, or without level `k` when `l` is empty.
pub open spec fn put_level(levels: Seq<LevelModel>, k: int, l: LevelModel) -> Seq<LevelModel> {
    if l.ids.len() == 0 {
        levels.remove(k)
    } else {
        levels.update(k, l)
    }
}

pub proof fn lemma_first_other_bound(ids: Seq<OrderId>, u: UserId, orders: Map<OrderId, OrderView>)
    ensures
        0 <= first_other(ids, u, orders) <= ids.len(),
        forall|k: int| 0 <= k < first_other(ids, u, orders) ==> orders[#[trigger] ids[k]].user_id == u,
        first_other(ids, u, orders) < ids.len() ==> orders[ids[first_other(ids, u, orders)]].user_id != u,
    decreases ids.len(),
{
    if ids.len() > 0 && orders[ids[0]].user_id == u {
        lemma_first_other_bound(ids.drop_first(), u, orders);
        assert forall|k: int| 0 <= k < first_other(ids, u, orders) implies orders[#[trigger] ids[k]].user_id == u by {
            if k > 0 {
                assert(ids[k] == ids.drop_first()[k - 1]);
            }
        }
    }
}

/// A level keeps its shape when no order of it changes its map entry.
pub proof fn lemma_level_frame(
    l: LevelModel,
    side: Side,
    orders: Map<OrderId, OrderView>,
    orders2: Map<OrderId, OrderView>,
    id: OrderId,
)
    requires
        level_ok(l, side, orders),
        forall|x: int| 0 <= x < l.ids.len() ==> #[trigger] l.ids[x] != id,
        forall|x: OrderId|
            x != id && #[trigger] orders.contains_key(x) && orders[x].side == side
                ==> orders2.contains_key(x) && orders2[x] == orders[x],
    ensures
        level_ok(l, side, orders2),
{
    assert forall|x: int| 0 <= x < l.ids.len() implies (#[trigger] orders2.contains_key(l.ids[x])) && orders2[l.ids[x]].side == side && orders2[l.ids[x]].price == l.price by {
        assert(l.ids[x] != id);
        assert(orders.contains_key(l.ids[x]));
    }
}

/// The filled level keeps its shape (when not emptied).
pub proof fn lemma_level_after_fill(
    l: LevelModel,
    side: Side,
    orders: Map<OrderId, OrderView>,
    orders2: Map<OrderId, OrderView>,
    i: int,
    gone: bool,
)
    requires
        level_ok(l, side, orders),
        0 <= i < l.ids.len(),
        forall|x: OrderId|
            x != l.ids[i] && #[trigger] orders.contains_key(x) && orders[x].side == side
                ==> orders2.contains_key(x) && orders2[x] == orders[x],
        !gone ==> {
            &&& orders2.contains_key(l.ids[i])
            &&& orders2[l.ids[i]].side == side
            &&& orders2[l.ids[i]].price == orders[l.ids[i]].price
        },
        drop_if(l, i, gone).ids.len() > 0,
    ensures
        level_ok(drop_if(l, i, gone), side, orders2),
{
    let id = l.ids[i];
    let l2 = drop_if(l, i, gone);
    if gone {
        assert forall|a: int, c: int|
            0 <= a < l2.ids.len() && 0 <= c < l2.ids.len() && a != c implies l2.ids[a] != l2.ids[c] by {
            let a0 = if a < i { a } else { a + 1 };
            let c0 = if c < i { c } else { c + 1 };
            assert(l2.ids[a] == l.ids[a0]);
            assert(l2.ids[c] == l.ids[c0]);
        }
        assert(l2.ids.no_duplicates());
        assert forall|x: int| 0 <= x < l2.ids.len() implies (#[trigger] orders2.contains_key(l2.ids[x])) && orders2[l2.ids[x]].side == side && orders2[l2.ids[x]].price == l2.price by {
            let x0 = if x < i { x } else { x + 1 };
            assert(l2.ids[x] == l.ids[x0]);
            assert(orders.contains_key(l.ids[x0]));
            assert(l.ids[x0] != id);
        }
    } else {
        assert forall|x: int| 0 <= x < l2.ids.len() implies (#[trigger] orders2.contains_key(l2.ids[x])) && orders2[l2.ids[x]].side == side && orders2[l2.ids[x]].price == l2.price by {
            assert(orders.contains_key(l.ids[x]));
        }
        assert(l2.ids.no_duplicates());
    }
}

/// A side stays well formed when the order at position `i` of level `k`
/// is filled (and removed when `gone`), as long as every other order of
/// that side keeps its entry in the order map.
pub proof fn lemma_side_after_fill(
    levels: Seq<LevelModel>,
    side: Side,
    orders: Map<OrderId, OrderView>,
    orders2: Map<OrderId, OrderView>,
    k: int,
    i: int,
    gone: bool,
)
    requires
        side_ok(levels, side, orders),
        0 <= k < levels.len(),
        0 <= i < levels[k].ids.len(),
        forall|x: OrderId|
            x != levels[k].ids[i] && #[trigger] orders.contains_key(x) && orders[x].side == side
                ==> orders2.contains_key(x) && orders2[x] == orders[x],
        !gone ==> {
            &&& orders2.contains_key(levels[k].ids[i])
            &&& orders2[levels[k].ids[i]].side == side
            &&& orders2[levels[k].ids[i]].price == orders[levels[k].ids[i]].price
        },
    ensures
        side_ok(put_level(levels, k, drop_if(levels[k], i, gone)), side, orders2),
{
    let id = levels[k].ids[i];
    let l2 = drop_if(levels[k], i, gone);
    let res = put_level(levels, k, l2);
    assert(level_ok(levels[k], side, orders));
    assert forall|k2: int| 0 <= k2 < levels.len() && k2 != k implies level_ok(#[trigger] levels[k2], side, orders2) by {
        assert(level_ok(levels[k2], side, orders));
        assert forall|x: int| 0 <= x < levels[k2].ids.len() implies #[trigger] levels[k2].ids[x] != id by {
            assert(orders.contains_key(levels[k2].ids[x]));
            assert(orders.contains_key(levels[k].ids[i]));
            if k2 < k {
                assert(better(side, levels[k].price, levels[k2].price));
            } else {
                assert(better(side, levels[k2].price, levels[k].price));
            }
        }
        lemma_level_frame(levels[k2], side, orders, orders2, id);
    }
    if l2.ids.len() == 0 {
        assert forall|a: int| 0 <= a < res.len() implies level_ok(#[trigger] res[a], side, orders2) by {
            if a < k {
                assert(res[a] == levels[a]);
            } else {
                assert(res[a] == levels[a + 1]);
            }
        }
        assert forall|a: int, c: int| 0 <= a < c < res.len() implies #[trigger] better(side, res[c].price, res[a].price) by {
            let a0 = if a < k { a } else { a + 1 };
            let c0 = if c < k { c } else { c + 1 };
            assert(res[a] == levels[a0]);
            assert(res[c] == levels[c0]);
        }
    } else {
        lemma_level_after_fill(levels[k], side, orders, orders2, i, gone);
        assert forall|a: int| 0 <= a < res.len() implies level_ok(#[trigger] res[a], side, orders2) by {
            if a != k {
                assert(res[a] == levels[a]);
            }
        }
        assert forall|a: int, c: int| 0 <= a < c < res.len() implies #[trigger] better(side, res[c].price, res[a].price) by {
            assert(res[a].price == levels[a].price);
            assert(res[c].price == levels[c].price);
        }
    }
}

/// Every level of a side keeps its shape when no order of that side changes
/// its map entry.
pub proof fn lemma_side_frame(
    levels: Seq<LevelModel>,
    side: Side,
    orders: Map<OrderId, OrderView>,
    orders2: Map<OrderId, OrderView>,
)
    requires
        side_ok(levels, side, orders),
        forall|x: OrderId|
            #[trigger] orders.contains_key(x) && orders[x].side == side ==> orders2.contains_key(x)
                && orders2[x] == orders[x],
    ensures
        side_ok(levels, side, orders2),
{
    assert forall|k: int| 0 <= k < levels.len() implies level_ok(#[trigger] levels[k], side, orders2) by {
        assert(level_ok(levels[k], side, orders));
        assert forall|x: int| 0 <= x < levels[k].ids.len() implies (#[trigger] orders2.contains_key(levels[k].ids[x])) && orders2[levels[k].ids[x]].side == side && orders2[levels[k].ids[x]].price == levels[k].price by {
            assert(orders.contains_key(levels[k].ids[x]));
        }
    }
}

/// The levels of the side opposite to `side`.
pub open spec fn opposite(b: BookModel, side: Side) -> Seq<LevelModel> {
    match side {
        Side::Buy => b.asks,
        Side::Sell => b.bids,
    }
}

/// The side opposite to `side`.
pub open spec fn other_side(side: Side) -> Side {
    match side {
        Side::Buy => Side::Sell,
        Side::Sell => Side::Buy,
    }
}

/// The book with the side opposite to `side` replaced by `levels`.
pub open spec fn with_opposite(b: BookModel, side: Side, levels: Seq<LevelModel>, orders: Map<OrderId, OrderView>) -> BookModel {
    match side {
        Side::Buy => BookModel { bids: b.bids, asks: levels, orders },
        Side::Sell => BookModel { bids: levels, asks: b.asks, orders },
    }
}

/// A limit of `side` reaches a resting level priced `level_price`.
pub open spec fn crosses(side: Side, limit: Price, level_price: Price) -> bool {
    match side {
        Side::Buy => limit >= level_price,
        Side::Sell => limit <= level_price,
    }
}

/// State of the matching of an incoming order against the opposite side
/// (before it rests, if it is of a resting type): the book, how many best
/// opposite levels are passed over
/// because they only hold the aggressor's own orders, what is left of the
/// aggressor, and the fills so far.
pub struct IocState {
    pub book: BookModel,
    pub skip: nat,
    pub remaining: Quantity,
    pub fills: Seq<Fill>,
}

/// One step of the matching of the incoming order `a`: while something
/// remains and the best opposite level (not passed over) crosses `a`'s
/// limit, the first order there from another user trades the smaller of
/// the two quantities at its own price; a level holding only `a`'s user's
/// orders is passed over.
pub open spec fn ioc_step(st: IocState, a: OrderView) -> Option<IocState> {
    let r = opposite(st.book, a.side);
    if st.remaining == 0 || r.len() <= st.skip {
        None
    } else {
        let k = r.len() - 1 - st.skip;
        let l = r[k];
        if !crosses(a.side, a.price, l.price) {
            None
        } else {
            let j = first_other(l.ids, a.user_id, st.book.orders);
            if j >= l.ids.len() {
                Some(IocState { skip: st.skip + 1, ..st })
            } else {
                let rid = l.ids[j];
                let o = st.book.orders[rid];
                let q = min_q(st.remaining, o.remaining_quantity);
                let o2 = fill_view(o, q);
                Some(
                    IocState {
                        book: with_opposite(
                            st.book,
                            a.side,
                            put_level(r, k, drop_if(l, j, o2.remaining_quantity == 0)),
                            settle(st.book.orders, rid, o2),
                        ),
                        skip: st.skip,
                        remaining: (st.remaining - q) as Quantity,
                        fills: st.fills.push(
                            match a.side {
                                Side::Buy => Fill {
                                    bid_id: a.order_id,
                                    bid_user: a.user_id,
                                    ask_id: rid,
                                    ask_user: o.user_id,
                                    price: o.price,
                                    quantity: q,
                                },
                                Side::Sell => Fill {
                                    bid_id: rid,
                                    bid_user: o.user_id,
                                    ask_id: a.order_id,
                                    ask_user: a.user_id,
                                    price: o.price,
                                    quantity: q,
                                },
                            },
                        ),
                    },
                )
            }
        }
    }
}

pub open spec fn ioc_measure(st: IocState) -> int {
    2 * ids_count(st.book.bids) + 2 * ids_count(st.book.asks) + st.book.bids.len()
        + st.book.asks.len() - st.skip + if st.remaining > 0 {
        1int
    } else {
        0int
    }
}

pub proof fn lemma_ioc_step_decreases(st: IocState, a: OrderView)
    ensures
        ioc_step(st, a) matches Some(n) ==> 0 <= ioc_measure(n) < ioc_measure(st),
{
    lemma_ids_count_nonneg(st.book.bids);
    lemma_ids_count_nonneg(st.book.asks);
    if let Some(n) = ioc_step(st, a) {
        let r = opposite(st.book, a.side);
        let k = r.len() - 1 - st.skip;
        let l = r[k];
        let j = first_other(l.ids, a.user_id, st.book.orders);
        lemma_first_other_bound(l.ids, a.user_id, st.book.orders);
        if j < l.ids.len() {
            let rid = l.ids[j];
            let o = st.book.orders[rid];
            let q = min_q(st.remaining, o.remaining_quantity);
            let o2 = fill_view(o, q);
            let l2 = drop_if(l, j, o2.remaining_quantity == 0);
            if l2.ids.len() == 0 {
                lemma_ids_count_remove(r, k);
            } else {
                lemma_ids_count_update(r, k, l2);
            }
            lemma_ids_count_nonneg(n.book.bids);
            lemma_ids_count_nonneg(n.book.asks);
        }
    }
}

/// The matching of the incoming order `a`, run to completion.
pub open spec fn ioc_run(st: IocState, a: OrderView) -> IocState
    decreases ioc_measure(st),
{
    match ioc_step(st, a) {
        None => st,
        Some(n) => {
            proof {
                lemma_ioc_step_decreases(st, a);
            }
            ioc_run(n, a)
        },
    }
}

/// Each step of the matching of an incoming order keeps the book well formed.
pub proof fn lemma_ioc_step_wf(st: IocState, a: OrderView)
    requires
        book_wf(st.book),
    ensures
        ioc_step(st, a) matches Some(n) ==> book_wf(n.book),
{
    if let Some(n) = ioc_step(st, a) {
        let r = opposite(st.book, a.side);
        let k = r.len() - 1 - st.skip;
        let l = r[k];
        let j = first_other(l.ids, a.user_id, st.book.orders);
        lemma_first_other_bound(l.ids, a.user_id, st.book.orders);
        if j < l.ids.len() {
            let orders = st.book.orders;
            let rid = l.ids[j];
            let rs = other_side(a.side);
            assert(level_ok(r[k], rs, orders));
            assert(orders.contains_key(rid));
            let o = orders[rid];
            let q = min_q(st.remaining, o.remaining_quantity);
            let o2 = fill_view(o, q);
            let orders2 = settle(orders, rid, o2);
            lemma_side_after_fill(r, rs, orders, orders2, k, j, o2.remaining_quantity == 0);
            let same = match a.side {
                Side::Buy => st.book.bids,
                Side::Sell => st.book.asks,
            };
            lemma_side_frame(same, a.side, orders, orders2);
            assert forall|id: OrderId| #[trigger] orders2.contains_key(id) implies orders2[id].order_id == id by {
                assert(orders.contains_key(id));
            }
        }
    }
}

/// What the order with id `id` can trade against an order of user `u`.
pub open spec fn avail_part(orders: Map<OrderId, OrderView>, id: OrderId, u: UserId) -> int {
    if orders[id].user_id != u {
        orders[id].remaining_quantity as int
    } else {
        0
    }
}

/// Quantity the orders of a level can trade against an order of user `u`.
pub open spec fn level_avail(ids: Seq<OrderId>, orders: Map<OrderId, OrderView>, u: UserId) -> int
    decreases ids.len(),
{
    if ids.len() == 0 {
        0
    } else {
        level_avail(ids.drop_last(), orders, u) + avail_part(orders, ids.last(), u)
    }
}

/// Quantity the levels (best last) that cross the limit of `a` can trade
/// against it: the liquidity a fill-or-kill order may use.
pub open spec fn avail(levels: Seq<LevelModel>, orders: Map<OrderId, OrderView>, a: OrderView) -> int
    decreases levels.len(),
{
    if levels.len() == 0 {
        0
    } else if !crosses(a.side, a.price, levels.last().price) {
        0
    } else {
        level_avail(levels.last().ids, orders, a.user_id) + avail(levels.drop_last(), orders, a)
    }
}

pub proof fn lemma_level_avail_nonneg(ids: Seq<OrderId>, orders: Map<OrderId, OrderView>, u: UserId, n: int)
    requires
        0 <= n <= ids.len(),
    ensures
        0 <= level_avail(ids.take(n), orders, u) <= level_avail(ids, orders, u),
    decreases ids.len(),
{
    if n < ids.len() {
        lemma_level_avail_nonneg(ids.drop_last(), orders, u, n);
        assert(ids.drop_last().take(n) =~= ids.take(n));
        lemma_level_avail_nonneg(ids.drop_last(), orders, u, ids.len() - 1);
        assert(ids.drop_last().take(ids.len() - 1) =~= ids.drop_last());
    } else {
        assert(ids.take(n) =~= ids);
        if n > 0 {
            lemma_level_avail_nonneg(ids.drop_last(), orders, u, n - 1);
            assert(ids.drop_last().take(n - 1) =~= ids.drop_last());
        }
    }
}

pub proof fn lemma_avail_nonneg(levels: Seq<LevelModel>, orders: Map<OrderId, OrderView>, a: OrderView)
    ensures
        avail(levels, orders, a) >= 0,
    decreases levels.len(),
{
    if levels.len() > 0 {
        lemma_avail_nonneg(levels.drop_last(), orders, a);
        lemma_level_avail_nonneg(levels.last().ids, orders, a.user_id, 0);
    }
}

/// The liquidity of a level does not depend on orders outside it.
pub proof fn lemma_level_avail_frame(ids: Seq<OrderId>, o1: Map<OrderId, OrderView>, o2: Map<OrderId, OrderView>, u: UserId)
    requires
        forall|x: int| 0 <= x < ids.len() ==> o1[#[trigger] ids[x]] == o2[ids[x]],
    ensures
        level_avail(ids, o1, u) == level_avail(ids, o2, u),
    decreases ids.len(),
{
    if ids.len() > 0 {
        assert(o1[ids[ids.len() - 1]] == o2[ids[ids.len() - 1]]);
        lemma_level_avail_frame(ids.drop_last(), o1, o2, u);
    }
}

/// The liquidity of levels does not depend on orders outside them.
pub proof fn lemma_avail_frame(levels: Seq<LevelModel>, o1: Map<OrderId, OrderView>, o2: Map<OrderId, OrderView>, a: OrderView)
    requires
        forall|k: int, x: int| 0 <= k < levels.len() && 0 <= x < levels[k].ids.len() ==> o1[#[trigger] levels[k].ids[x]] == o2[levels[k].ids[x]],
    ensures
        avail(levels, o1, a) == avail(levels, o2, a),
    decreases levels.len(),
{
    if levels.len() > 0 {
        let l = levels.last();
        assert forall|x: int| 0 <= x < l.ids.len() implies o1[#[trigger] l.ids[x]] == o2[l.ids[x]] by {
            assert(levels[levels.len() - 1].ids[x] == l.ids[x]);
        }
        lemma_level_avail_frame(l.ids, o1, o2, u_of(a));
        assert forall|k: int, x: int| 0 <= k < levels.drop_last().len() && 0 <= x < levels.drop_last()[k].ids.len() implies o1[#[trigger] levels.drop_last()[k].ids[x]] == o2[levels.drop_last()[k].ids[x]] by {
            assert(levels.drop_last()[k] == levels[k]);
        }
        lemma_avail_frame(levels.drop_last(), o1, o2, a);
    }
}

spec fn u_of(a: OrderView) -> UserId {
    a.user_id
}

/// Changing the order at position `j` of a level changes its liquidity by
/// the change of that order's part.
pub proof fn lemma_level_avail_change(ids: Seq<OrderId>, o1: Map<OrderId, OrderView>, o2: Map<OrderId, OrderView>, u: UserId, j: int)
    requires
        0 <= j < ids.len(),
        ids.no_duplicates(),
        forall|x: int| 0 <= x < ids.len() && x != j ==> o1[#[trigger] ids[x]] == o2[ids[x]],
    ensures
        level_avail(ids, o2, u) == level_avail(ids, o1, u) - avail_part(o1, ids[j], u) + avail_part(o2, ids[j], u),
    decreases ids.len(),
{
    if j < ids.len() - 1 {
        lemma_level_avail_change(ids.drop_last(), o1, o2, u, j);
        assert(o1[ids[ids.len() - 1]] == o2[ids[ids.len() - 1]]);
    } else {
        lemma_level_avail_frame(ids.drop_last(), o1, o2, u);
    }
}

/// Removing the order at position `j` of a level removes its part.
pub proof fn lemma_level_avail_remove(ids: Seq<OrderId>, o: Map<OrderId, OrderView>, u: UserId, j: int)
    requires
        0 <= j < ids.len(),
    ensures
        level_avail(ids.remove(j), o, u) == level_avail(ids, o, u) - avail_part(o, ids[j], u),
    decreases ids.len(),
{
    if j < ids.len() - 1 {
        lemma_level_avail_remove(ids.drop_last(), o, u, j);
        assert(ids.remove(j).drop_last() =~= ids.drop_last().remove(j));
    } else {
        assert(ids.remove(j) =~= ids.drop_last());
    }
}

/// A level whose orders all belong to `u` offers `u` nothing.
pub proof fn lemma_level_avail_self(ids: Seq<OrderId>, o: Map<OrderId, OrderView>, u: UserId)
    requires
        forall|x: int| 0 <= x < ids.len() ==> o[#[trigger] ids[x]].user_id == u,
    ensures
        level_avail(ids, o, u) == 0,
    decreases ids.len(),
{
    if ids.len() > 0 {
        assert(o[ids[ids.len() - 1]].user_id == u);
        lemma_level_avail_self(ids.drop_last(), o, u);
    }
}

/// The levels of the side opposite to `a` that the matching has not passed over.
pub open spec fn active_opposite(st: IocState, a: OrderView) -> Seq<LevelModel> {
    let r = opposite(st.book, a.side);
    r.take(r.len() - st.skip)
}

/// When the liquidity that crosses the aggressor's limit covers what
/// remains of it, the matching fills it completely.
pub proof fn lemma_ioc_fills_all(st: IocState, a: OrderView)
    requires
        book_wf(st.book),
        st.skip <= opposite(st.book, a.side).len(),
        avail(active_opposite(st, a), st.book.orders, a) >= st.remaining,
    ensures
        ioc_run(st, a).remaining == 0,
    decreases ioc_measure(st),
{
    lemma_ioc_step_decreases(st, a);
    lemma_ioc_step_wf(st, a);
    let r = opposite(st.book, a.side);
    let act = active_opposite(st, a);
    let orders = st.book.orders;
    if st.remaining == 0 {
        return;
    }
    if r.len() <= st.skip {
        assert(act.len() == 0);
        return;
    }
    let k = r.len() - 1 - st.skip;
    let l = r[k];
    assert(act.last() == l);
    if !crosses(a.side, a.price, l.price) {
        return;
    }
    assert(act.drop_last() =~= r.take(k));
    let rs = other_side(a.side);
    assert(level_ok(l, rs, orders));
    let j = first_other(l.ids, a.user_id, orders);
    lemma_first_other_bound(l.ids, a.user_id, orders);
    let n = ioc_step(st, a).unwrap();
    if j >= l.ids.len() {
        lemma_level_avail_self(l.ids, orders, a.user_id);
        assert(active_opposite(n, a) =~= r.take(k));
        lemma_ioc_fills_all(n, a);
        return;
    }
    let rid = l.ids[j];
    assert(orders.contains_key(rid));
    let o = orders[rid];
    let q = min_q(st.remaining, o.remaining_quantity);
    let o2 = fill_view(o, q);
    let orders2 = settle(orders, rid, o2);
    let gone = o2.remaining_quantity == 0;
    let l2 = drop_if(l, j, gone);
    let r2 = put_level(r, k, l2);
    assert(opposite(n.book, a.side) == r2);
    assert(n.book.orders == orders2);
    // levels before k do not hold the filled order
    assert forall|k2: int, x: int| 0 <= k2 < r.take(k).len() && 0 <= x < r.take(k)[k2].ids.len() implies orders[#[trigger] r.take(k)[k2].ids[x]] == orders2[r.take(k)[k2].ids[x]] by {
        assert(r.take(k)[k2] == r[k2]);
        assert(level_ok(r[k2], rs, orders));
        assert(orders.contains_key(r[k2].ids[x]));
        assert(better(rs, r[k].price, r[k2].price));
        assert(r[k2].ids[x] != rid);
    }
    lemma_avail_frame(r.take(k), orders, orders2, a);
    assert(avail(act, orders, a) == level_avail(l.ids, orders, a.user_id) + avail(r.take(k), orders, a));
    if l2.ids.len() == 0 {
        assert(active_opposite(n, a) =~= r.take(k));
        assert(l.ids.len() == 1);
        assert(l.ids.drop_last().len() == 0);
        assert(j == 0);
        assert(l.ids.last() == rid);
        assert(level_avail(l.ids.drop_last(), orders, a.user_id) == 0);
        assert(avail_part(orders, rid, a.user_id) == o.remaining_quantity);
        assert(level_avail(l.ids, orders, a.user_id) == o.remaining_quantity);
    } else {
        assert(active_opposite(n, a) =~= r.take(k).push(l2));
        assert(active_opposite(n, a).drop_last() =~= r.take(k));
        if gone {
            assert forall|x: int| 0 <= x < l.ids.remove(j).len() implies orders[#[trigger] l.ids.remove(j)[x]] == orders2[l.ids.remove(j)[x]] by {
                let x0 = if x < j { x } else { x + 1 };
                assert(l.ids.remove(j)[x] == l.ids[x0]);
            }
            lemma_level_avail_frame(l.ids.remove(j), orders, orders2, a.user_id);
            lemma_level_avail_remove(l.ids, orders, a.user_id, j);
        } else {
            lemma_level_avail_change(l.ids, orders, orders2, a.user_id, j);
        }
    }
    lemma_ioc_fills_all(n, a);
}

/// A limit order of `side` at `price` can trade with the book's best opposite level.
pub open spec fn can_match(b: BookModel, side: Side, price: Price) -> bool {
    match side {
        Side::Buy => b.asks.len() > 0 && price >= b.asks.last().price,
        Side::Sell => b.bids.len() > 0 && price <= b.bids.last().price,
    }
}

/// Where a level priced `p` goes in a side: after every level that is not
/// better than `p`.
pub open spec fn place(levels: Seq<LevelModel>, side: Side, p: Price) -> int
    decreases levels.len(),
{
    if levels.len() == 0 {
        0
    } else if better(side, levels.last().price, p) {
        place(levels.drop_last(), side, p)
    } else {
        levels.len() as int
    }
}

/// The side with order `id` queued at price `p`: at the back of the level
/// priced `p`, or in a new level at its place.
pub open spec fn add_to_side(levels: Seq<LevelModel>, side: Side, p: Price, id: OrderId) -> Seq<LevelModel> {
    let k = place(levels, side, p);
    if k > 0 && levels[k - 1].price == p {
        levels.update(k - 1, LevelModel { price: p, ids: levels[k - 1].ids.push(id) })
    } else {
        levels.insert(k, LevelModel { price: p, ids: seq![id] })
    }
}

/// The book with order `o` resting in it.
pub open spec fn rest(b: BookModel, o: OrderView) -> BookModel {
    match o.side {
        Side::Buy => BookModel {
            bids: add_to_side(b.bids, Side::Buy, o.price, o.order_id),
            asks: b.asks,
            orders: b.orders.insert(o.order_id, o),
        },
        Side::Sell => BookModel {
            bids: b.bids,
            asks: add_to_side(b.asks, Side::Sell, o.price, o.order_id),
            orders: b.orders.insert(o.order_id, o),
        },
    }
}

proof fn lemma_place(levels: Seq<LevelModel>, side: Side, p: Price)
    requires
        side_sorted(levels, side),
    ensures
        0 <= place(levels, side, p) <= levels.len(),
        forall|k: int| place(levels, side, p) <= k < levels.len() ==> better(side, #[trigger] levels[k].price, p),
        forall|k: int| 0 <= k < place(levels, side, p) ==> !better(side, #[trigger] levels[k].price, p),
    decreases levels.len(),
{
    if levels.len() > 0 {
        let n = levels.len() - 1;
        if better(side, levels.last().price, p) {
            assert(side_sorted(levels.drop_last(), side)) by {
                assert forall|i: int, j: int| 0 <= i < j < levels.drop_last().len() implies #[trigger] better(side, levels.drop_last()[j].price, levels.drop_last()[i].price) by {
                    assert(better(side, levels[j].price, levels[i].price));
                }
            }
            lemma_place(levels.drop_last(), side, p);
            assert forall|k: int| place(levels, side, p) <= k < levels.len() implies better(side, #[trigger] levels[k].price, p) by {
                if k < n {
                    assert(levels[k] == levels.drop_last()[k]);
                }
            }
            assert forall|k: int| 0 <= k < place(levels, side, p) implies !better(side, #[trigger] levels[k].price, p) by {
                assert(levels[k] == levels.drop_last()[k]);
            }
        } else {
            assert forall|k: int| 0 <= k < levels.len() implies !better(side, #[trigger] levels[k].price, p) by {
                if k < n {
                    assert(better(side, levels[n].price, levels[k].price));
                }
            }
        }
    }
}

/// Queuing an order not yet in a level keeps the level well formed.
#[verifier::spinoff_prover]
pub proof fn lemma_level_push(l: LevelModel, side: Side, orders: Map<OrderId, OrderView>, id: OrderId)
    requires
        level_ok(l, side, orders),
        orders.contains_key(id),
        orders[id].side == side,
        orders[id].price == l.price,
        forall|x: int| 0 <= x < l.ids.len() ==> #[trigger] l.ids[x] != id,
    ensures
        level_ok(LevelModel { price: l.price, ids: l.ids.push(id) }, side, orders),
{
    let l2 = LevelModel { price: l.price, ids: l.ids.push(id) };
    assert forall|a: int, c: int| 0 <= a < l2.ids.len() && 0 <= c < l2.ids.len() && a != c implies l2.ids[a] != l2.ids[c] by {
        if a < l.ids.len() {
            assert(l2.ids[a] == l.ids[a]);
        }
        if c < l.ids.len() {
            assert(l2.ids[c] == l.ids[c]);
        }
    }
    assert(l2.ids.no_duplicates());
    assert forall|x: int| #![trigger l2.ids[x]] 0 <= x < l2.ids.len() implies orders.contains_key(l2.ids[x]) && orders[l2.ids[x]].side == side && orders[l2.ids[x]].price == l2.price by {
        if x < l.ids.len() {
            assert(l2.ids[x] == l.ids[x]);
            assert(orders.contains_key(l.ids[x]));
        } else {
            assert(l2.ids[x] == id);
        }
    }
    assert(level_ok(l2, side, orders));
}

/// Queuing a new order keeps a side well formed.
pub proof fn lemma_add_to_side(levels: Seq<LevelModel>, side: Side, orders: Map<OrderId, OrderView>, o: OrderView)
    requires
        side_ok(levels, side, orders),
        !orders.contains_key(o.order_id),
        o.side == side,
    ensures
        side_ok(add_to_side(levels, side, o.price, o.order_id), side, orders.insert(o.order_id, o)),
{
    let p = o.price;
    let id = o.order_id;
    let o2 = orders.insert(id, o);
    lemma_place(levels, side, p);
    let k = place(levels, side, p);
    let res = add_to_side(levels, side, p, id);
    assert forall|k2: int| 0 <= k2 < levels.len() implies level_ok(#[trigger] levels[k2], side, o2) by {
        assert(level_ok(levels[k2], side, orders));
        assert forall|x: int| 0 <= x < levels[k2].ids.len() implies #[trigger] levels[k2].ids[x] != id by {
            assert(orders.contains_key(levels[k2].ids[x]));
        }
        lemma_level_frame(levels[k2], side, orders, o2, id);
    }
    if k > 0 && levels[k - 1].price == p {
        let l = levels[k - 1];
        let l2 = LevelModel { price: p, ids: l.ids.push(id) };
        assert(level_ok(l, side, orders));
        assert forall|x: int| 0 <= x < l.ids.len() implies #[trigger] l.ids[x] != id by {
            assert(orders.contains_key(l.ids[x]));
        }
        lemma_level_push(l, side, o2, id);
        assert forall|a: int| 0 <= a < res.len() implies level_ok(#[trigger] res[a], side, o2) by {
            if a != k - 1 {
                assert(res[a] == levels[a]);
            }
        }
        assert forall|a: int, c: int| 0 <= a < c < res.len() implies #[trigger] better(side, res[c].price, res[a].price) by {
            assert(res[a].price == levels[a].price);
            assert(res[c].price == levels[c].price);
        }
    } else {
        let l2 = LevelModel { price: p, ids: seq![id] };
        assert(level_ok(l2, side, o2));
        assert forall|a: int| 0 <= a < res.len() implies level_ok(#[trigger] res[a], side, o2) by {
            if a < k {
                assert(res[a] == levels[a]);
            } else if a > k {
                assert(res[a] == levels[a - 1]);
            }
        }
        assert forall|a: int, c: int| 0 <= a < c < res.len() implies #[trigger] better(side, res[c].price, res[a].price) by {
            if c < k {
                assert(res[a] == levels[a]);
                assert(res[c] == levels[c]);
            } else if c == k {
                assert(res[a] == levels[a]);
                assert(!better(side, levels[a].price, p));
                if a < k - 1 {
                    assert(better(side, levels[k - 1].price, levels[a].price));
                    assert(!better(side, levels[k - 1].price, p));
                }
            } else if a == k {
                assert(res[c] == levels[c - 1]);
            } else if a < k {
                assert(res[a] == levels[a]);
                assert(res[c] == levels[c - 1]);
                assert(better(side, levels[c - 1].price, p));
            } else {
                assert(res[a] == levels[a - 1]);
                assert(res[c] == levels[c - 1]);
            }
        }
    }
}

/// Resting a new order keeps the book well formed.
pub proof fn lemma_rest_wf(b: BookModel, o: OrderView)
    requires
        book_wf(b),
        !b.orders.contains_key(o.order_id),
    ensures
        book_wf(rest(b, o)),
{
    let o2 = b.orders.insert(o.order_id, o);
    let other = match o.side {
        Side::Buy => b.asks,
        Side::Sell => b.bids,
    };
    lemma_add_to_side(match o.side {
        Side::Buy => b.bids,
        Side::Sell => b.asks,
    }, o.side, b.orders, o);
    assert forall|x: OrderId| #[trigger] b.orders.contains_key(x) && b.orders[x].side == other_side(o.side) implies o2.contains_key(x) && o2[x] == b.orders[x] by {}
    lemma_side_frame(other, other_side(o.side), b.orders, o2);
    assert forall|id: OrderId| #[trigger] o2.contains_key(id) implies o2[id].order_id == id by {
        if id != o.order_id {
            assert(b.orders.contains_key(id));
        }
    }
}

/// The side with order `id` taken out of the level priced `p` (the level
/// is dropped when it empties); unchanged when no level priced `p` holds `id`.
pub open spec fn unqueue(levels: Seq<LevelModel>, p: Price, id: OrderId) -> Seq<LevelModel> {
    if exists|k: int| 0 <= k < levels.len() && levels[k].price == p && levels[k].ids.contains(id) {
        let k = choose|k: int| 0 <= k < levels.len() && levels[k].price == p && levels[k].ids.contains(id);
        put_level(levels, k, drop_if(levels[k], levels[k].ids.index_of(id), true))
    } else {
        levels
    }
}

/// The book after the resting order `id` is cancelled, with the cancelled
/// order; `None` when no such order rests in the book.
pub open spec fn cancel_spec(b: BookModel, id: OrderId) -> Option<(BookModel, OrderView)> {
    if !b.orders.contains_key(id) {
        None
    } else {
        let o = b.orders[id];
        Some(
            (
                BookModel {
                    bids: if o.side == Side::Buy {
                        unqueue(b.bids, o.price, id)
                    } else {
                        b.bids
                    },
                    asks: if o.side == Side::Sell {
                        unqueue(b.asks, o.price, id)
                    } else {
                        b.asks
                    },
                    orders: b.orders.remove(id),
                },
                o,
            ),
        )
    }
}

/// The matching of an incoming order `o` against the book, from the start.
pub open spec fn ioc_from(b: BookModel, o: OrderView) -> IocState {
    ioc_run(IocState { book: b, skip: 0, remaining: o.remaining_quantity, fills: seq![] }, o)
}

/// The opposite levels that cross `o`'s limit hold at least its remaining
/// quantity in orders of other users.
pub open spec fn covered(b: BookModel, o: OrderView) -> bool {
    avail(opposite(b, o.side), b.orders, o) >= o.remaining_quantity
}

/// Order `o` after its matching left `rem` of it: unchanged when nothing
/// traded, else with `rem` remaining and the status of a filled or partly
/// filled order.
pub open spec fn after_fills(o: OrderView, rem: Quantity) -> OrderView {
    if rem == o.remaining_quantity {
        o
    } else {
        OrderView {
            remaining_quantity: rem,
            status: if rem == 0 {
                OrderStatus::Filled
            } else {
                OrderStatus::PartiallyFilled
            },
            ..o
        }
    }
}

/// What placing order `o` does to the book: `None` (and no change) when an
/// order with its id already rests, or when a fill-and-kill or fill-or-kill
/// order cannot reach the best opposite price, or when a fill-or-kill order
/// cannot be filled completely; otherwise the new book and the fills. The
/// incoming order walks the opposite side from the best price while it
/// crosses, trading with the oldest order of another user at each level
/// (see [`ioc_run`]). A fill-and-kill or fill-or-kill order never rests;
/// any other order rests with what remains of it, if anything.
pub open spec fn add_spec(b: BookModel, o: OrderView) -> Option<(BookModel, Seq<Fill>)> {
    if b.orders.contains_key(o.order_id) {
        None
    } else {
        match o.order_type {
            OrderType::FillAndKill => if !can_match(b, o.side, o.price) {
                None
            } else {
                Some((ioc_from(b, o).book, ioc_from(b, o).fills))
            },
            OrderType::FillOrKill => if !can_match(b, o.side, o.price) || !covered(b, o) {
                None
            } else {
                Some((ioc_from(b, o).book, ioc_from(b, o).fills))
            },
            _ => {
                let st = ioc_from(b, o);
                if st.remaining == 0 {
                    Some((st.book, st.fills))
                } else {
                    Some((rest(st.book, after_fills(o, st.remaining)), st.fills))
                }
            },
        }
    }
}

/// Removing an order that no level of a side holds keeps that side well formed.
pub proof fn lemma_side_remove_absent(levels: Seq<LevelModel>, side: Side, orders: Map<OrderId, OrderView>, id: OrderId)
    requires
        side_ok(levels, side, orders),
        forall|k: int| 0 <= k < levels.len() ==> !(#[trigger] levels[k].ids.contains(id)),
    ensures
        side_ok(levels, side, orders.remove(id)),
{
    assert forall|k: int| 0 <= k < levels.len() implies level_ok(#[trigger] levels[k], side, orders.remove(id)) by {
        assert(level_ok(levels[k], side, orders));
        assert forall|x: int| #![trigger levels[k].ids[x]] 0 <= x < levels[k].ids.len() implies orders.remove(id).contains_key(levels[k].ids[x]) && orders.remove(id)[levels[k].ids[x]].side == side && orders.remove(id)[levels[k].ids[x]].price == levels[k].price by {
            assert(orders.contains_key(levels[k].ids[x]));
            assert(!levels[k].ids.contains(id));
            assert(levels[k].ids[x] != id);
        }
    }
}

/// The side with only the ids that satisfy `keep`; emptied levels are dropped.
pub open spec fn strip(levels: Seq<LevelModel>, keep: spec_fn(OrderId) -> bool) -> Seq<LevelModel>
    decreases levels.len(),
{
    if levels.len() == 0 {
        levels
    } else {
        let rest = strip(levels.drop_last(), keep);
        let ids = levels.last().ids.filter(keep);
        if ids.len() == 0 {
            rest
        } else {
            rest.push(LevelModel { price: levels.last().price, ids })
        }
    }
}

/// The orders of `b` that belong to a user other than `u`.
pub open spec fn others_of(orders: Map<OrderId, OrderView>, u: UserId) -> Map<OrderId, OrderView> {
    orders.restrict(orders.dom().filter(|id: OrderId| orders[id].user_id != u))
}

/// Whether the order with id `id` belongs to a user other than `u`.
pub open spec fn not_of(orders: Map<OrderId, OrderView>, u: UserId) -> spec_fn(OrderId) -> bool {
    |id: OrderId| orders[id].user_id != u
}

/// The book after every order of user `u` is cancelled.
pub open spec fn without_user(b: BookModel, u: UserId) -> BookModel {
    BookModel {
        bids: strip(b.bids, not_of(b.orders, u)),
        asks: strip(b.asks, not_of(b.orders, u)),
        orders: others_of(b.orders, u),
    }
}

/// Filtering a queue keeps it free of duplicates.
pub proof fn lemma_filter_no_dup(ids: Seq<OrderId>, keep: spec_fn(OrderId) -> bool)
    requires
        ids.no_duplicates(),
    ensures
        ids.filter(keep).no_duplicates(),
        forall|x: OrderId| ids.filter(keep).contains(x) <==> ids.contains(x) && keep(x),
    decreases ids.len(),
{
    reveal(Seq::filter);
    broadcast use vstd::seq_lib::group_filter_ensures;
    if ids.len() > 0 {
        let d = ids.drop_last();
        assert(d.no_duplicates());
        lemma_filter_no_dup(d, keep);
        assert(!d.contains(ids.last())) by {
            if d.contains(ids.last()) {
                let x = choose|x: int| 0 <= x < d.len() && d[x] == ids.last();
                assert(ids[x] == ids[ids.len() - 1]);
            }
        }
        assert forall|x: OrderId| ids.contains(x) <==> d.contains(x) || x == ids.last() by {
            if ids.contains(x) {
                let i = choose|i: int| 0 <= i < ids.len() && ids[i] == x;
                if i < ids.len() - 1 {
                    assert(d[i] == x);
                }
            }
            if d.contains(x) {
                let i = choose|i: int| 0 <= i < d.len() && d[i] == x;
                assert(ids[i] == x);
            }
            if x == ids.last() {
                assert(ids[ids.len() - 1] == x);
            }
        }
        let f = d.filter(keep);
        if keep(ids.last()) {
            assert(ids.filter(keep) == f.push(ids.last()));
            assert forall|a: int, c: int| 0 <= a < f.push(ids.last()).len() && 0 <= c < f.push(ids.last()).len() && a != c implies f.push(ids.last())[a] != f.push(ids.last())[c] by {
                if a < f.len() && c < f.len() {
                } else if a < f.len() {
                    assert(f.contains(f[a]));
                } else if c < f.len() {
                    assert(f.contains(f[c]));
                }
            }
            assert forall|x: OrderId| f.push(ids.last()).contains(x) <==> f.contains(x) || x == ids.last() by {
                if f.push(ids.last()).contains(x) {
                    let i = choose|i: int| 0 <= i < f.push(ids.last()).len() && f.push(ids.last())[i] == x;
                    if i < f.len() {
                        assert(f[i] == x);
                    }
                }
                if f.contains(x) {
                    let i = choose|i: int| 0 <= i < f.len() && f[i] == x;
                    assert(f.push(ids.last())[i] == x);
                }
                if x == ids.last() {
                    assert(f.push(ids.last())[f.len() as int] == x);
                }
            }
        } else {
            assert(ids.filter(keep) == f);
        }
    }
}

/// Keeping only some orders keeps a side well formed, and no level of the
/// result is better than the best level of the side.
pub proof fn lemma_strip_ok(
    levels: Seq<LevelModel>,
    side: Side,
    orders: Map<OrderId, OrderView>,
    orders2: Map<OrderId, OrderView>,
    keep: spec_fn(OrderId) -> bool,
)
    requires
        side_ok(levels, side, orders),
        forall|x: OrderId| #[trigger] orders.contains_key(x) && keep(x) ==> orders2.contains_key(x) && orders2[x] == orders[x],
    ensures
        side_ok(strip(levels, keep), side, orders2),
        levels.len() > 0 ==> forall|j: int| 0 <= j < strip(levels, keep).len() ==> !better(side, #[trigger] strip(levels, keep)[j].price, levels.last().price),
        levels.len() == 0 ==> strip(levels, keep).len() == 0,
    decreases levels.len(),
{
    reveal(Seq::filter);
    broadcast use vstd::seq_lib::group_filter_ensures;
    if levels.len() > 0 {
        let d = levels.drop_last();
        assert(side_ok(d, side, orders)) by {
            assert forall|k: int| 0 <= k < d.len() implies level_ok(#[trigger] d[k], side, orders) by {
                assert(d[k] == levels[k]);
                assert(level_ok(levels[k], side, orders));
            }
            assert forall|i: int, j: int| 0 <= i < j < d.len() implies #[trigger] better(side, d[j].price, d[i].price) by {
                assert(better(side, levels[j].price, levels[i].price));
            }
        }
        lemma_strip_ok(d, side, orders, orders2, keep);
        let rest = strip(d, keep);
        let l = levels.last();
        assert(level_ok(levels[levels.len() - 1], side, orders));
        let ids = l.ids.filter(keep);
        lemma_filter_no_dup(l.ids, keep);
        if ids.len() > 0 {
            let nl = LevelModel { price: l.price, ids };
            assert forall|x: int| #![trigger ids[x]] 0 <= x < ids.len() implies orders2.contains_key(ids[x]) && orders2[ids[x]].side == side && orders2[ids[x]].price == nl.price by {
                assert(ids.contains(ids[x]));
                assert(l.ids.contains(ids[x]));
                let y = choose|y: int| 0 <= y < l.ids.len() && l.ids[y] == ids[x];
                assert(orders.contains_key(l.ids[y]));
                assert(keep(ids[x]));
            }
            assert(level_ok(nl, side, orders2));
            let res = rest.push(nl);
            assert forall|k: int| 0 <= k < res.len() implies level_ok(#[trigger] res[k], side, orders2) by {
                if k < rest.len() {
                    assert(res[k] == rest[k]);
                }
            }
            assert forall|i: int, j: int| 0 <= i < j < res.len() implies #[trigger] better(side, res[j].price, res[i].price) by {
                assert(res[i] == rest[i]);
                if j < rest.len() {
                    assert(res[j] == rest[j]);
                } else {
                    assert(d.len() > 0);
                    assert(!better(side, rest[i].price, d.last().price));
                    assert(better(side, levels[levels.len() - 1].price, levels[levels.len() - 2].price));
                }
            }
            assert forall|j: int| 0 <= j < res.len() implies !better(side, #[trigger] res[j].price, levels.last().price) by {
                if j < rest.len() {
                    assert(res[j] == rest[j]);
                    assert(!better(side, rest[j].price, d.last().price));
                    assert(better(side, levels[levels.len() - 1].price, levels[levels.len() - 2].price));
                }
            }
        } else {
            assert forall|j: int| 0 <= j < rest.len() implies !better(side, #[trigger] rest[j].price, levels.last().price) by {
                assert(!better(side, rest[j].price, d.last().price));
                assert(better(side, levels[levels.len() - 1].price, levels[levels.len() - 2].price));
            }
        }
    }
}

/// Cancelling every order of a user keeps the book well formed.
pub proof fn lemma_without_user_wf(b: BookModel, u: UserId)
    requires
        book_wf(b),
    ensures
        book_wf(without_user(b, u)),
{
    let keep = not_of(b.orders, u);
    let o2 = others_of(b.orders, u);
    assert forall|x: OrderId| #[trigger] b.orders.contains_key(x) && keep(x) implies o2.contains_key(x) && o2[x] == b.orders[x] by {
        assert(b.orders.dom().filter(|id: OrderId| b.orders[id].user_id != u).contains(x));
    }
    lemma_strip_ok(b.bids, Side::Buy, b.orders, o2, keep);
    lemma_strip_ok(b.asks, Side::Sell, b.orders, o2, keep);
    assert forall|id: OrderId| #[trigger] o2.contains_key(id) implies o2[id].order_id == id by {
        assert(b.orders.contains_key(id));
    }
    assert(o2.dom() =~= b.orders.dom().filter(|id: OrderId| b.orders[id].user_id != u));
    b.orders.dom().lemma_len_filter(|id: OrderId| b.orders[id].user_id != u);
}

/// The orders of user `u`, listed once each in `ids`, and the orders of the
/// other users together make up the book: their counts add up.
pub proof fn lemma_user_split_count(orders: Map<OrderId, OrderView>, u: UserId, ids: Seq<OrderId>)
    requires
        orders.dom().finite(),
        ids.no_duplicates(),
        forall|id: OrderId| #[trigger] ids.contains(id) <==> orders.contains_key(id) && orders[id].user_id == u,
    ensures
        others_of(orders, u).len() + ids.len() == orders.len(),
{
    let a = orders.dom().filter(|id: OrderId| orders[id].user_id != u);
    let c = ids.to_set();
    assert(others_of(orders, u).dom() =~= a);
    orders.dom().lemma_len_filter(|id: OrderId| orders[id].user_id != u);
    ids.unique_seq_to_set();
    vstd::seq_lib::seq_to_set_is_finite(ids);
    assert(a + c =~= orders.dom());
    assert(a.disjoint(c));
    vstd::set_lib::lemma_set_disjoint_lens(a, c);
}

/// Total quantity of a sequence of fills.
pub open spec fn fill_total(fills: Seq<Fill>) -> int
    decreases fills.len(),
{
    if fills.len() == 0 {
        0
    } else {
        fill_total(fills.drop_last()) + fills.last().quantity
    }
}

/// No fill pairs two orders of the same user.
pub open spec fn no_self_trade(fills: Seq<Fill>) -> bool {
    forall|k: int| 0 <= k < fills.len() ==> #[trigger] fills[k].bid_user != fills[k].ask_user
}

/// Every fill is at a price that reaches the limit of the incoming order `a`.
pub open spec fn within_limit(fills: Seq<Fill>, a: OrderView) -> bool {
    forall|k: int| 0 <= k < fills.len() ==> crosses(a.side, a.price, #[trigger] fills[k].price)
}

/// What the matching of an incoming order trades is what it no longer
/// has to fill: the remaining quantity plus the fills' total never changes.
pub proof fn lemma_ioc_conserves(st: IocState, a: OrderView)
    ensures
        ioc_run(st, a).remaining + fill_total(ioc_run(st, a).fills) == st.remaining + fill_total(st.fills),
    decreases ioc_measure(st),
{
    lemma_ioc_step_decreases(st, a);
    if let Some(n) = ioc_step(st, a) {
        lemma_ioc_conserves(n, a);
        if n.fills.len() > st.fills.len() {
            assert(n.fills.drop_last() =~= st.fills);
        }
    }
}

/// The matching of an incoming order never puts it in the book.
pub proof fn lemma_ioc_never_rests(st: IocState, a: OrderView)
    requires
        book_wf(st.book),
        !st.book.orders.contains_key(a.order_id),
    ensures
        !ioc_run(st, a).book.orders.contains_key(a.order_id),
    decreases ioc_measure(st),
{
    lemma_ioc_step_decreases(st, a);
    lemma_ioc_step_wf(st, a);
    if let Some(n) = ioc_step(st, a) {
        let r = opposite(st.book, a.side);
        let k = r.len() - 1 - st.skip;
        let l = r[k];
        let j = first_other(l.ids, a.user_id, st.book.orders);
        lemma_first_other_bound(l.ids, a.user_id, st.book.orders);
        if j < l.ids.len() {
            assert(level_ok(r[k], other_side(a.side), st.book.orders));
            assert(st.book.orders.contains_key(l.ids[j]));
        }
        lemma_ioc_never_rests(n, a);
    }
}

/// The matching of an incoming order never pairs it with an order of
/// its own user.
pub proof fn lemma_ioc_no_self_trade(st: IocState, a: OrderView)
    requires
        no_self_trade(st.fills),
    ensures
        no_self_trade(ioc_run(st, a).fills),
    decreases ioc_measure(st),
{
    lemma_ioc_step_decreases(st, a);
    if let Some(n) = ioc_step(st, a) {
        let r = opposite(st.book, a.side);
        let k = r.len() - 1 - st.skip;
        let l = r[k];
        lemma_first_other_bound(l.ids, a.user_id, st.book.orders);
        assert forall|x: int| 0 <= x < n.fills.len() implies #[trigger] n.fills[x].bid_user != n.fills[x].ask_user by {
            if x < st.fills.len() {
                assert(n.fills[x] == st.fills[x]);
            }
        }
        lemma_ioc_no_self_trade(n, a);
    }
}

/// Every fill of an incoming order is at a resting price that reaches
/// its limit.
pub proof fn lemma_ioc_within_limit(st: IocState, a: OrderView)
    requires
        book_wf(st.book),
        within_limit(st.fills, a),
    ensures
        within_limit(ioc_run(st, a).fills, a),
    decreases ioc_measure(st),
{
    lemma_ioc_step_decreases(st, a);
    lemma_ioc_step_wf(st, a);
    if let Some(n) = ioc_step(st, a) {
        let r = opposite(st.book, a.side);
        let k = r.len() - 1 - st.skip;
        let l = r[k];
        let j = first_other(l.ids, a.user_id, st.book.orders);
        lemma_first_other_bound(l.ids, a.user_id, st.book.orders);
        if j < l.ids.len() {
            assert(level_ok(r[k], other_side(a.side), st.book.orders));
            assert(st.book.orders.contains_key(l.ids[j]));
            assert(st.book.orders[l.ids[j]].price == l.price);
        }
        assert forall|x: int| 0 <= x < n.fills.len() implies crosses(a.side, a.price, #[trigger] n.fills[x].price) by {
            if x < st.fills.len() {
                assert(n.fills[x] == st.fills[x]);
            }
        }
        lemma_ioc_within_limit(n, a);
    }
}

/// A fill-or-kill order that the book accepts is filled completely and
/// does not rest; its fills never pair it with its own user's orders and
/// are all at prices within its limit.
pub proof fn lemma_fill_or_kill(b: BookModel, o: OrderView)
    requires
        book_wf(b),
        o.order_type == OrderType::FillOrKill,
    ensures
        add_spec(b, o) matches Some(res) ==> {
            &&& fill_total(res.1) == o.remaining_quantity
            &&& !res.0.orders.contains_key(o.order_id)
            &&& no_self_trade(res.1)
            &&& within_limit(res.1, o)
        },
{
    if let Some(res) = add_spec(b, o) {
        let st0 = IocState { book: b, skip: 0, remaining: o.remaining_quantity, fills: seq![] };
        assert(active_opposite(st0, o) =~= opposite(b, o.side));
        lemma_ioc_fills_all(st0, o);
        lemma_ioc_conserves(st0, o);
        lemma_ioc_never_rests(st0, o);
        lemma_ioc_no_self_trade(st0, o);
        lemma_ioc_within_limit(st0, o);
    }
}

/// A fill-and-kill order that the book accepts trades at most its quantity
/// and does not rest; its fills never pair it with its own user's orders
/// and are all at prices within its limit.
pub proof fn lemma_fill_and_kill(b: BookModel, o: OrderView)
    requires
        book_wf(b),
        o.order_type == OrderType::FillAndKill,
    ensures
        add_spec(b, o) matches Some(res) ==> {
            &&& fill_total(res.1) <= o.remaining_quantity
            &&& !res.0.orders.contains_key(o.order_id)
            &&& no_self_trade(res.1)
            &&& within_limit(res.1, o)
        },
{
    if let Some(res) = add_spec(b, o) {
        let st0 = IocState { book: b, skip: 0, remaining: o.remaining_quantity, fills: seq![] };
        lemma_ioc_conserves(st0, o);
        lemma_ioc_never_rests(st0, o);
        lemma_ioc_no_self_trade(st0, o);
        lemma_ioc_within_limit(st0, o);
    }
}

/// A resting order's placement never pairs two orders of the same user.
pub proof fn lemma_resting_no_self_trade(b: BookModel, o: OrderView)
    requires
        o.order_type != OrderType::FillAndKill,
        o.order_type != OrderType::FillOrKill,
    ensures
        add_spec(b, o) matches Some(res) ==> no_self_trade(res.1),
{
    lemma_ioc_no_self_trade(IocState { book: b, skip: 0, remaining: o.remaining_quantity, fills: seq![] }, o);
}
/// Every order of `orders` is in `limits` with the same side and limit price.
pub open spec fn limits_kept(orders: Map<OrderId, OrderView>, limits: Map<OrderId, OrderView>) -> bool {
    forall|id: OrderId| #[trigger] orders.contains_key(id) ==> {
        &&& limits.contains_key(id)
        &&& limits[id].side == orders[id].side
        &&& limits[id].price == orders[id].price
    }
}

/// Fill `f` pairs a buy order and a sell order of `limits` at a price no
/// lower than the sell's limit and no higher than the buy's.
pub open spec fn fair_fill(f: Fill, limits: Map<OrderId, OrderView>) -> bool {
    &&& limits.contains_key(f.bid_id)
    &&& limits.contains_key(f.ask_id)
    &&& limits[f.bid_id].side == Side::Buy
    &&& limits[f.ask_id].side == Side::Sell
    &&& limits[f.ask_id].price <= f.price <= limits[f.bid_id].price
}

/// Every fill is fair against the limits of the orders it pairs.
pub open spec fn fairly_priced(fills: Seq<Fill>, limits: Map<OrderId, OrderView>) -> bool {
    forall|k: int| 0 <= k < fills.len() ==> fair_fill(#[trigger] fills[k], limits)
}

/// Filling order `id` of `orders` by `q` keeps the limits of every order.
proof fn lemma_settle_kept(orders: Map<OrderId, OrderView>, limits: Map<OrderId, OrderView>, id: OrderId, q: Quantity)
    requires
        limits_kept(orders, limits),
        orders.contains_key(id),
    ensures
        limits_kept(settle(orders, id, fill_view(orders[id], q)), limits),
{
    let o2 = settle(orders, id, fill_view(orders[id], q));
    assert forall|x: OrderId| #[trigger] o2.contains_key(x) implies limits.contains_key(x) && limits[x].side
        == o2[x].side && limits[x].price == o2[x].price by {
        assert(orders.contains_key(x));
    }
}

/// The matching of an incoming order trades only at fair prices.
proof fn lemma_ioc_fair(st: IocState, a: OrderView, limits: Map<OrderId, OrderView>)
    requires
        book_wf(st.book),
        limits_kept(st.book.orders, limits),
        limits.contains_key(a.order_id),
        limits[a.order_id].side == a.side,
        limits[a.order_id].price == a.price,
        fairly_priced(st.fills, limits),
    ensures
        fairly_priced(ioc_run(st, a).fills, limits),
    decreases ioc_measure(st),
{
    lemma_ioc_step_decreases(st, a);
    lemma_ioc_step_wf(st, a);
    if let Some(n) = ioc_step(st, a) {
        let r = opposite(st.book, a.side);
        let k = r.len() - 1 - st.skip;
        let l = r[k];
        let j = first_other(l.ids, a.user_id, st.book.orders);
        lemma_first_other_bound(l.ids, a.user_id, st.book.orders);
        if j < l.ids.len() {
            let rid = l.ids[j];
            assert(level_ok(r[k], other_side(a.side), st.book.orders));
            assert(st.book.orders.contains_key(rid));
            let o = st.book.orders[rid];
            lemma_settle_kept(st.book.orders, limits, rid, min_q(st.remaining, o.remaining_quantity));
            assert(fair_fill(n.fills.last(), limits));
        }
        assert forall|x: int| 0 <= x < n.fills.len() implies fair_fill(#[trigger] n.fills[x], limits) by {
            if x < st.fills.len() {
                assert(n.fills[x] == st.fills[x]);
            }
        }
        lemma_ioc_fair(n, a, limits);
    }
}

/// Placing an order never trades at an unfair price: every fill pairs a
/// buy order and a sell order (the new one or orders already resting) at a
/// price no lower than the sell's limit and no higher than the buy's.
pub proof fn lemma_fair_prices(b: BookModel, o: OrderView)
    requires
        book_wf(b),
    ensures
        add_spec(b, o) matches Some(res) ==> fairly_priced(res.1, b.orders.insert(o.order_id, o)),
{
    if let Some(res) = add_spec(b, o) {
        let limits = b.orders.insert(o.order_id, o);
        let st0 = IocState { book: b, skip: 0, remaining: o.remaining_quantity, fills: seq![] };
        assert forall|id: OrderId| #[trigger] b.orders.contains_key(id) implies limits.contains_key(id)
            && limits[id].side == b.orders[id].side && limits[id].price == b.orders[id].price by {
            assert(id != o.order_id);
        }
        lemma_ioc_fair(st0, o, limits);
    }
}

/// For an incoming order of `side`, price `first` comes no later than price
/// `second` in price priority: a buy meets lower asks first, a sell higher
/// bids first.
pub open spec fn in_price_order(side: Side, first: Price, second: Price) -> bool {
    match side {
        Side::Buy => first <= second,
        Side::Sell => first >= second,
    }
}

/// The fills, in the order they happen, follow price priority for an
/// incoming order of `side`.
pub open spec fn price_ordered(fills: Seq<Fill>, side: Side) -> bool {
    forall|x: int, y: int|
        0 <= x < y < fills.len() ==> in_price_order(side, #[trigger] fills[x].price, #[trigger] fills[y].price)
}

/// Every fill so far comes, in price priority, no later than each of the
/// first `n` levels of `levels` (those not yet passed over).
spec fn fills_ahead(fills: Seq<Fill>, levels: Seq<LevelModel>, n: int, side: Side) -> bool {
    forall|x: int, k: int|
        0 <= x < fills.len() && 0 <= k < n ==> in_price_order(side, #[trigger] fills[x].price, #[trigger] levels[k].price)
}

/// Trading at the best level `kk` (the last one not passed over) of a
/// sorted resting side keeps the fills in price order and ahead of the
/// levels that remain.
proof fn lemma_trade_in_order(
    fills: Seq<Fill>,
    f: Fill,
    levels: Seq<LevelModel>,
    kk: int,
    l2: LevelModel,
    side: Side,
    orders: Map<OrderId, OrderView>,
)
    requires
        side_ok(levels, other_side(side), orders),
        0 <= kk < levels.len(),
        f.price == levels[kk].price,
        l2.price == levels[kk].price,
        price_ordered(fills, side),
        fills_ahead(fills, levels, kk + 1, side),
    ensures
        price_ordered(fills.push(f), side),
        fills_ahead(
            fills.push(f),
            put_level(levels, kk, l2),
            if l2.ids.len() == 0 { kk } else { kk + 1 },
            side,
        ),
{
    let fs = fills.push(f);
    let r2 = put_level(levels, kk, l2);
    assert forall|k: int| 0 <= k < kk implies in_price_order(side, levels[kk].price, #[trigger] levels[k].price) by {
        assert(better(other_side(side), levels[kk].price, levels[k].price));
    }
    assert forall|x: int, y: int| 0 <= x < y < fs.len() implies in_price_order(side, #[trigger] fs[x].price, #[trigger] fs[y].price) by {
        if y < fills.len() {
            assert(fs[x] == fills[x] && fs[y] == fills[y]);
        } else {
            assert(fs[x] == fills[x]);
            assert(in_price_order(side, fills[x].price, levels[kk].price));
        }
    }
    let n2 = if l2.ids.len() == 0 { kk } else { kk + 1 };
    assert forall|x: int, k: int| 0 <= x < fs.len() && 0 <= k < n2 implies in_price_order(side, #[trigger] fs[x].price, #[trigger] r2[k].price) by {
        assert(r2[k].price == levels[k].price);
        if x < fills.len() {
            assert(fs[x] == fills[x]);
            assert(in_price_order(side, fills[x].price, levels[k].price));
        }
    }
}

/// The matching of an incoming order fills in price priority.
proof fn lemma_ioc_price_order(st: IocState, a: OrderView)
    requires
        book_wf(st.book),
        price_ordered(st.fills, a.side),
        fills_ahead(st.fills, opposite(st.book, a.side), opposite(st.book, a.side).len() - st.skip, a.side),
    ensures
        price_ordered(ioc_run(st, a).fills, a.side),
    decreases ioc_measure(st),
{
    lemma_ioc_step_decreases(st, a);
    lemma_ioc_step_wf(st, a);
    if let Some(n) = ioc_step(st, a) {
        let r = opposite(st.book, a.side);
        let kk = r.len() - 1 - st.skip;
        let l = r[kk];
        let j = first_other(l.ids, a.user_id, st.book.orders);
        lemma_first_other_bound(l.ids, a.user_id, st.book.orders);
        if j < l.ids.len() {
            let rid = l.ids[j];
            assert(level_ok(r[kk], other_side(a.side), st.book.orders));
            assert(st.book.orders.contains_key(rid));
            let o = st.book.orders[rid];
            let q = min_q(st.remaining, o.remaining_quantity);
            let l2 = drop_if(l, j, fill_view(o, q).remaining_quantity == 0);
            lemma_trade_in_order(st.fills, n.fills.last(), r, kk, l2, a.side, st.book.orders);
            assert(n.fills =~= st.fills.push(n.fills.last()));
        }
        lemma_ioc_price_order(n, a);
    }
}

/// Price priority: the fills of one placement come best price first. In
/// the order they happen, their prices never get better for the placing
/// side: a buy's fill prices never fall and a sell's never rise.
pub proof fn lemma_price_priority(b: BookModel, o: OrderView)
    requires
        book_wf(b),
    ensures
        add_spec(b, o) matches Some(res) ==> price_ordered(res.1, o.side),
{
    if let Some(res) = add_spec(b, o) {
        lemma_ioc_price_order(IocState { book: b, skip: 0, remaining: o.remaining_quantity, fills: seq![] }, o);
    }
}

/// Every order of the levels of `levels` from index `from` on belongs to user `u`.
pub open spec fn own_from(levels: Seq<LevelModel>, from: int, orders: Map<OrderId, OrderView>, u: UserId) -> bool {
    forall|k: int, j: int|
        #![trigger levels[k].ids[j]]
        from <= k < levels.len() && 0 <= j < levels[k].ids.len() ==> orders[levels[k].ids[j]].user_id == u
}

/// Every order of `levels` at a price that a limit `limit` of `side` reaches
/// belongs to user `u`.
pub open spec fn crossing_own(levels: Seq<LevelModel>, side: Side, limit: Price, orders: Map<OrderId, OrderView>, u: UserId) -> bool {
    forall|k: int, j: int|
        #![trigger levels[k].ids[j]]
        0 <= k < levels.len() && 0 <= j < levels[k].ids.len() && crosses(side, limit, levels[k].price)
            ==> orders[levels[k].ids[j]].user_id == u
}

/// The opposite side of a well-formed book is well formed.
proof fn lemma_opposite_ok(b: BookModel, side: Side)
    requires
        book_wf(b),
    ensures
        side_ok(opposite(b, side), other_side(side), b.orders),
{
}

/// When the matching of `a` ends with something left, every opposite order
/// that `a`'s limit reaches belongs to `a`'s user (the levels passed over so
/// far only hold such orders).
proof fn lemma_ioc_blocked(st: IocState, a: OrderView)
    requires
        book_wf(st.book),
        own_from(opposite(st.book, a.side), opposite(st.book, a.side).len() - st.skip, st.book.orders, a.user_id),
    ensures
        ioc_run(st, a).remaining > 0 ==> crossing_own(
            opposite(ioc_run(st, a).book, a.side),
            a.side,
            a.price,
            ioc_run(st, a).book.orders,
            a.user_id,
        ),
    decreases ioc_measure(st),
{
    lemma_ioc_step_decreases(st, a);
    lemma_ioc_step_wf(st, a);
    let r = opposite(st.book, a.side);
    let rs = other_side(a.side);
    let orders = st.book.orders;
    lemma_opposite_ok(st.book, a.side);
    match ioc_step(st, a) {
        None => {
            if st.remaining > 0 && r.len() > st.skip {
                let kk = r.len() - 1 - st.skip;
                assert forall|k: int, j: int|
                    #![trigger r[k].ids[j]]
                    0 <= k < r.len() && 0 <= j < r[k].ids.len() && crosses(a.side, a.price, r[k].price)
                        implies orders[r[k].ids[j]].user_id == a.user_id by {
                    if k < kk {
                        assert(better(rs, r[kk].price, r[k].price));
                    }
                }
            }
        },
        Some(n) => {
            let kk = r.len() - 1 - st.skip;
            let l = r[kk];
            let j0 = first_other(l.ids, a.user_id, orders);
            lemma_first_other_bound(l.ids, a.user_id, orders);
            if j0 >= l.ids.len() {
                assert forall|k: int, j: int|
                    #![trigger r[k].ids[j]]
                    kk <= k < r.len() && 0 <= j < r[k].ids.len() implies orders[r[k].ids[j]].user_id == a.user_id by {
                    if k == kk {
                        assert(orders[l.ids[j]].user_id == a.user_id);
                    }
                }
            } else {
                let rid = l.ids[j0];
                assert(level_ok(r[kk], rs, orders));
                let o = orders[rid];
                let q = min_q(st.remaining, o.remaining_quantity);
                let o2 = fill_view(o, q);
                let l2 = drop_if(l, j0, o2.remaining_quantity == 0);
                let r2 = put_level(r, kk, l2);
                let orders2 = settle(orders, rid, o2);
                assert(opposite(n.book, a.side) == r2);
                assert(n.book.orders == orders2);
                let from2 = r2.len() - st.skip;
                assert forall|k: int, j: int|
                    #![trigger r2[k].ids[j]]
                    from2 <= k < r2.len() && 0 <= j < r2[k].ids.len() implies orders2[r2[k].ids[j]].user_id == a.user_id by {
                    let k1 = if l2.ids.len() == 0 { k + 1 } else { k };
                    assert(r2[k] == r[k1]);
                    assert(k1 > kk);
                    let id = r[k1].ids[j];
                    assert(orders[id].user_id == a.user_id);
                    assert(level_ok(r[k1], rs, orders));
                    assert(better(rs, r[k1].price, r[kk].price));
                    assert(id != rid);
                }
            }
            lemma_ioc_blocked(n, a);
        },
    }
}

/// The matching of an incoming order keeps the book well formed.
pub proof fn lemma_ioc_wf(st: IocState, a: OrderView)
    requires
        book_wf(st.book),
    ensures
        book_wf(ioc_run(st, a).book),
    decreases ioc_measure(st),
{
    lemma_ioc_step_decreases(st, a);
    lemma_ioc_step_wf(st, a);
    if let Some(n) = ioc_step(st, a) {
        lemma_ioc_wf(n, a);
    }
}

/// A placed order rests only when no order of another user crosses it:
/// every opposite order at a price that its limit reaches is its own
/// user's.
pub proof fn lemma_rests_uncrossed(b: BookModel, o: OrderView)
    requires
        book_wf(b),
    ensures
        add_spec(b, o) matches Some(res) ==> (res.0.orders.contains_key(o.order_id) ==> crossing_own(
            opposite(res.0, o.side),
            o.side,
            o.price,
            res.0.orders,
            o.user_id,
        )),
{
    if let Some(res) = add_spec(b, o) {
        let st0 = IocState { book: b, skip: 0, remaining: o.remaining_quantity, fills: seq![] };
        let st = ioc_run(st0, o);
        lemma_ioc_never_rests(st0, o);
        lemma_ioc_blocked(st0, o);
        lemma_ioc_wf(st0, o);
        if res.0.orders.contains_key(o.order_id) {
            let o2 = after_fills(o, st.remaining);
            assert(res.0 == rest(st.book, o2));
            let r = opposite(st.book, o.side);
            lemma_opposite_ok(st.book, o.side);
            assert(opposite(res.0, o.side) == r);
            assert forall|k: int, j: int|
                #![trigger r[k].ids[j]]
                0 <= k < r.len() && 0 <= j < r[k].ids.len() && crosses(o.side, o.price, r[k].price)
                    implies res.0.orders[r[k].ids[j]].user_id == o.user_id by {
                assert(level_ok(r[k], other_side(o.side), st.book.orders));
                assert(st.book.orders.contains_key(r[k].ids[j]));
            }
        }
    }
}

/// `f` places the ids of `a` in `b` in the same order: `a[i] == b[f(i)]`
/// with `f` strictly increasing.
pub open spec fn embeds(a: Seq<OrderId>, b: Seq<OrderId>, f: spec_fn(int) -> int) -> bool {
    &&& forall|i: int| 0 <= i < a.len() ==> 0 <= #[trigger] f(i) < b.len() && a[i] == b[f(i)]
    &&& forall|i: int, j: int| 0 <= i < j < a.len() ==> #[trigger] f(i) < #[trigger] f(j)
}

/// `a` is `b` with some ids taken out, the others keeping their order.
pub open spec fn order_kept(a: Seq<OrderId>, b: Seq<OrderId>) -> bool {
    exists|f: spec_fn(int) -> int| #[trigger] embeds(a, b, f)
}

/// Every level of `after` is a level of `before` at the same price, with
/// some of its orders taken out and the others in their order of arrival.
pub open spec fn levels_keep_order(after: Seq<LevelModel>, before: Seq<LevelModel>) -> bool {
    forall|k: int| 0 <= k < after.len() ==> level_from(#[trigger] after[k], before)
}

/// Level `lv` is a level of `before` at the same price, with some of its
/// orders taken out and the others in their order.
pub open spec fn level_from(lv: LevelModel, before: Seq<LevelModel>) -> bool {
    exists|k0: int| #![trigger before[k0]] 0 <= k0 < before.len() && before[k0].price == lv.price && order_kept(lv.ids, before[k0].ids)
}

proof fn lemma_order_kept_refl(a: Seq<OrderId>)
    ensures
        order_kept(a, a),
{
    let f = |i: int| i;
    assert(embeds(a, a, f));
}

proof fn lemma_order_kept_remove(a: Seq<OrderId>, j: int)
    requires
        0 <= j < a.len(),
    ensures
        order_kept(a.remove(j), a),
{
    let f = |i: int| if i < j { i } else { i + 1 };
    assert(embeds(a.remove(j), a, f));
}

proof fn lemma_order_kept_trans(a: Seq<OrderId>, b: Seq<OrderId>, c: Seq<OrderId>)
    requires
        order_kept(a, b),
        order_kept(b, c),
    ensures
        order_kept(a, c),
{
    let f = choose|f: spec_fn(int) -> int| embeds(a, b, f);
    let g = choose|g: spec_fn(int) -> int| embeds(b, c, g);
    let h = |i: int| g(f(i));
    assert forall|i: int| 0 <= i < a.len() implies 0 <= #[trigger] h(i) < c.len() && a[i] == c[h(i)] by {
        assert(0 <= f(i) < b.len());
    }
    assert forall|i: int, j: int| 0 <= i < j < a.len() implies #[trigger] h(i) < #[trigger] h(j) by {
        assert(f(i) < f(j));
        assert(0 <= f(j) < b.len());
    }
    assert(embeds(a, c, h));
}

proof fn lemma_levels_keep_order_refl(l: Seq<LevelModel>)
    ensures
        levels_keep_order(l, l),
{
    assert forall|k: int| 0 <= k < l.len() implies level_from(#[trigger] l[k], l) by {
        lemma_order_kept_refl(l[k].ids);
        let lk = l[k];
        assert(0 <= k < l.len() && l[k].price == lk.price && order_kept(lk.ids, l[k].ids));
    }
}

proof fn lemma_levels_keep_order_trans(a: Seq<LevelModel>, b: Seq<LevelModel>, c: Seq<LevelModel>)
    requires
        levels_keep_order(a, b),
        levels_keep_order(b, c),
    ensures
        levels_keep_order(a, c),
{
    assert forall|k: int| 0 <= k < a.len() implies level_from(#[trigger] a[k], c) by {
        assert(level_from(a[k], b));
        let k1 = choose|k1: int| #![trigger b[k1]] 0 <= k1 < b.len() && b[k1].price == a[k].price && order_kept(a[k].ids, b[k1].ids);
        assert(level_from(b[k1], c));
        let k0 = choose|k0: int| #![trigger c[k0]] 0 <= k0 < c.len() && c[k0].price == b[k1].price && order_kept(b[k1].ids, c[k0].ids);
        lemma_order_kept_trans(a[k].ids, b[k1].ids, c[k0].ids);
    }
}

/// Trading at level `kk` of a side keeps the order of every level.
proof fn lemma_put_level_keeps_order(r: Seq<LevelModel>, kk: int, j: int, gone: bool)
    requires
        0 <= kk < r.len(),
        0 <= j < r[kk].ids.len(),
    ensures
        levels_keep_order(put_level(r, kk, drop_if(r[kk], j, gone)), r),
{
    let l2 = drop_if(r[kk], j, gone);
    let r2 = put_level(r, kk, l2);
    if gone {
        lemma_order_kept_remove(r[kk].ids, j);
    } else {
        lemma_order_kept_refl(r[kk].ids);
    }
    assert forall|k: int| 0 <= k < r2.len() implies level_from(#[trigger] r2[k], r) by {
        let k0 = if l2.ids.len() == 0 && k >= kk { k + 1 } else { k };
        if k0 != kk {
            lemma_order_kept_refl(r[k0].ids);
        }
        assert(r[k0].price == r2[k].price);
        assert(order_kept(r2[k].ids, r[k0].ids));
    }
}

/// The matching of an incoming order keeps the time priority of the opposite
/// side: its levels only lose orders, the others keeping their order.
proof fn lemma_ioc_keeps_order(st: IocState, a: OrderView)
    ensures
        levels_keep_order(opposite(ioc_run(st, a).book, a.side), opposite(st.book, a.side)),
    decreases ioc_measure(st),
{
    lemma_ioc_step_decreases(st, a);
    let r = opposite(st.book, a.side);
    match ioc_step(st, a) {
        None => {
            lemma_levels_keep_order_refl(r);
        },
        Some(n) => {
            let kk = r.len() - 1 - st.skip;
            let l = r[kk];
            let j0 = first_other(l.ids, a.user_id, st.book.orders);
            lemma_first_other_bound(l.ids, a.user_id, st.book.orders);
            if j0 < l.ids.len() {
                let o = st.book.orders[l.ids[j0]];
                let q = min_q(st.remaining, o.remaining_quantity);
                lemma_put_level_keeps_order(r, kk, j0, fill_view(o, q).remaining_quantity == 0);
                assert(opposite(n.book, a.side) == put_level(r, kk, drop_if(l, j0, fill_view(o, q).remaining_quantity == 0)));
            } else {
                lemma_levels_keep_order_refl(r);
            }
            lemma_ioc_keeps_order(n, a);
            lemma_levels_keep_order_trans(opposite(ioc_run(n, a).book, a.side), opposite(n.book, a.side), r);
        },
    }
}

/// Time priority: placing an order keeps the time priority of the resting
/// orders it meets. Each level of the opposite side afterwards is a level
/// that was there before, at the same price, with some orders taken out
/// and the others in their order of arrival (a passed-over order of the
/// placing user keeps its place). The placing side only gains the order
/// itself, queued last at its price (see [`rest`]).
pub proof fn lemma_time_priority(b: BookModel, o: OrderView)
    ensures
        add_spec(b, o) matches Some(res) ==> levels_keep_order(opposite(res.0, o.side), opposite(b, o.side)),
{
    if let Some(res) = add_spec(b, o) {
        let st0 = IocState { book: b, skip: 0, remaining: o.remaining_quantity, fills: seq![] };
        lemma_ioc_keeps_order(st0, o);
        let st = ioc_run(st0, o);
        assert(opposite(rest(st.book, after_fills(o, st.remaining)), o.side) == opposite(st.book, o.side));
    }
}

/// Order `id` rests on the side `levels` at a level priced `p`.
pub open spec fn on_side(levels: Seq<LevelModel>, id: OrderId, p: Price) -> bool {
    exists|k: int, i: int|
        #![trigger levels[k].ids[i]]
        0 <= k < levels.len() && 0 <= i < levels[k].ids.len() && levels[k].ids[i] == id && levels[k].price == p
}

/// No resting bid and resting ask of different users cross: a bid priced at
/// or above an ask belongs to the ask's user.
pub open spec fn uncrossed(b: BookModel) -> bool {
    forall|x: OrderId, y: OrderId, p: Price, q: Price|
        #[trigger] on_side(b.bids, x, p) && #[trigger] on_side(b.asks, y, q) && p >= q
            ==> b.orders[x].user_id == b.orders[y].user_id
}

/// Every order resting on side `after` rests on side `before` at the same price.
pub open spec fn side_within(after: Seq<LevelModel>, before: Seq<LevelModel>) -> bool {
    forall|id: OrderId, p: Price| #[trigger] on_side(after, id, p) ==> on_side(before, id, p)
}

proof fn lemma_within_of_kept(after: Seq<LevelModel>, before: Seq<LevelModel>)
    requires
        levels_keep_order(after, before),
    ensures
        side_within(after, before),
{
    assert forall|id: OrderId, p: Price| #[trigger] on_side(after, id, p) implies on_side(before, id, p) by {
        let (k, i) = choose|k: int, i: int|
            #![trigger after[k].ids[i]]
            0 <= k < after.len() && 0 <= i < after[k].ids.len() && after[k].ids[i] == id && after[k].price == p;
        assert(level_from(after[k], before));
        let k0 = choose|k0: int| #![trigger before[k0]] 0 <= k0 < before.len() && before[k0].price == after[k].price && order_kept(after[k].ids, before[k0].ids);
        let f = choose|f: spec_fn(int) -> int| embeds(after[k].ids, before[k0].ids, f);
        assert(0 <= f(i) < before[k0].ids.len() && after[k].ids[i] == before[k0].ids[f(i)]);
        assert(before[k0].ids[f(i)] == id);
    }
}

/// The matching of an incoming order keeps its own side as it was, and the
/// orders it leaves in the book keep their users.
pub proof fn lemma_ioc_users(st: IocState, a: OrderView)
    requires
        book_wf(st.book),
    ensures
        forall|id: OrderId| #[trigger] ioc_run(st, a).book.orders.contains_key(id) ==> st.book.orders.contains_key(id)
            && ioc_run(st, a).book.orders[id].user_id == st.book.orders[id].user_id,
        (match a.side { Side::Buy => ioc_run(st, a).book.bids, Side::Sell => ioc_run(st, a).book.asks })
            == (match a.side { Side::Buy => st.book.bids, Side::Sell => st.book.asks }),
    decreases ioc_measure(st),
{
    lemma_ioc_step_decreases(st, a);
    lemma_ioc_step_wf(st, a);
    if let Some(n) = ioc_step(st, a) {
        let r = opposite(st.book, a.side);
        let kk = r.len() - 1 - st.skip;
        let l = r[kk];
        let j0 = first_other(l.ids, a.user_id, st.book.orders);
        lemma_first_other_bound(l.ids, a.user_id, st.book.orders);
        if j0 < l.ids.len() {
            let rid = l.ids[j0];
            lemma_opposite_ok(st.book, a.side);
            assert(level_ok(r[kk], other_side(a.side), st.book.orders));
            assert(st.book.orders.contains_key(rid));
            let o = st.book.orders[rid];
            let q = min_q(st.remaining, o.remaining_quantity);
            assert(n.book.orders == settle(st.book.orders, rid, fill_view(o, q)));
        }
        assert forall|id: OrderId| #[trigger] n.book.orders.contains_key(id) implies st.book.orders.contains_key(id)
            && n.book.orders[id].user_id == st.book.orders[id].user_id by {
        }
        lemma_ioc_users(n, a);
    }
}

/// Queuing order `id` at price `p` on a side adds only that order.
proof fn lemma_add_to_side_within(levels: Seq<LevelModel>, side: Side, p: Price, id: OrderId, x: OrderId, q: Price)
    requires
        side_sorted(levels, side),
        on_side(add_to_side(levels, side, p, id), x, q),
    ensures
        on_side(levels, x, q) || (x == id && q == p),
{
    lemma_place(levels, side, p);
    let k = place(levels, side, p);
    let l2 = add_to_side(levels, side, p, id);
    let (k2, i2) = choose|k2: int, i2: int|
        #![trigger l2[k2].ids[i2]]
        0 <= k2 < l2.len() && 0 <= i2 < l2[k2].ids.len() && l2[k2].ids[i2] == x && l2[k2].price == q;
    if k > 0 && levels[k - 1].price == p {
        if k2 != k - 1 || i2 < levels[k - 1].ids.len() {
            assert(levels[k2].ids[i2] == x);
        }
    } else {
        if k2 < k {
            assert(levels[k2].ids[i2] == x);
        } else if k2 > k {
            assert(levels[k2 - 1].ids[i2] == x);
        }
    }
}

/// Placing an order keeps the book uncrossed.
pub proof fn lemma_add_keeps_uncrossed(b: BookModel, o: OrderView)
    requires
        book_wf(b),
        uncrossed(b),
    ensures
        add_spec(b, o) matches Some(res) ==> uncrossed(res.0),
{
    if let Some(res) = add_spec(b, o) {
        let st0 = IocState { book: b, skip: 0, remaining: o.remaining_quantity, fills: seq![] };
        let st = ioc_run(st0, o);
        lemma_ioc_wf(st0, o);
        lemma_ioc_users(st0, o);
        lemma_ioc_keeps_order(st0, o);
        lemma_within_of_kept(opposite(st.book, o.side), opposite(b, o.side));
        lemma_ioc_never_rests(st0, o);
        lemma_ioc_blocked(st0, o);
        let sb = st.book;
        // the book after the matching is uncrossed
        assert forall|x: OrderId, y: OrderId, p: Price, q: Price|
            #[trigger] on_side(sb.bids, x, p) && #[trigger] on_side(sb.asks, y, q) && p >= q
                implies sb.orders[x].user_id == sb.orders[y].user_id by {
            assert(on_side(b.bids, x, p));
            assert(on_side(b.asks, y, q));
            let (k, i) = choose|k: int, i: int|
                #![trigger sb.bids[k].ids[i]]
                0 <= k < sb.bids.len() && 0 <= i < sb.bids[k].ids.len() && sb.bids[k].ids[i] == x && sb.bids[k].price == p;
            let (k2, i2) = choose|k: int, i: int|
                #![trigger sb.asks[k].ids[i]]
                0 <= k < sb.asks.len() && 0 <= i < sb.asks[k].ids.len() && sb.asks[k].ids[i] == y && sb.asks[k].price == q;
            assert(level_ok(sb.bids[k], Side::Buy, sb.orders));
            assert(level_ok(sb.asks[k2], Side::Sell, sb.orders));
            assert(sb.orders.contains_key(x) && sb.orders.contains_key(y));
        }
        if res.0.orders.contains_key(o.order_id) {
            let o2 = after_fills(o, st.remaining);
            let rb = rest(sb, o2);
            assert(res.0 == rb);
            let own = match o.side { Side::Buy => sb.bids, Side::Sell => sb.asks };
            assert(side_sorted(own, o.side));
            assert forall|x: OrderId, y: OrderId, p: Price, q: Price|
                #[trigger] on_side(rb.bids, x, p) && #[trigger] on_side(rb.asks, y, q) && p >= q
                    implies rb.orders[x].user_id == rb.orders[y].user_id by {
                match o.side {
                    Side::Buy => {
                        lemma_add_to_side_within(sb.bids, Side::Buy, o.price, o.order_id, x, p);
                        let (k2, i2) = choose|k: int, i: int|
                            #![trigger sb.asks[k].ids[i]]
                            0 <= k < sb.asks.len() && 0 <= i < sb.asks[k].ids.len() && sb.asks[k].ids[i] == y && sb.asks[k].price == q;
                        assert(level_ok(sb.asks[k2], Side::Sell, sb.orders));
                        assert(y != o.order_id);
                        if x == o.order_id && p == o.price {
                            assert(crosses(Side::Buy, o.price, sb.asks[k2].price));
                        } else {
                            let (k, i) = choose|k: int, i: int|
                                #![trigger sb.bids[k].ids[i]]
                                0 <= k < sb.bids.len() && 0 <= i < sb.bids[k].ids.len() && sb.bids[k].ids[i] == x && sb.bids[k].price == p;
                            assert(level_ok(sb.bids[k], Side::Buy, sb.orders));
                            assert(x != o.order_id);
                            assert(on_side(sb.bids, x, p));
                        }
                    },
                    Side::Sell => {
                        lemma_add_to_side_within(sb.asks, Side::Sell, o.price, o.order_id, y, q);
                        let (k, i) = choose|k: int, i: int|
                            #![trigger sb.bids[k].ids[i]]
                            0 <= k < sb.bids.len() && 0 <= i < sb.bids[k].ids.len() && sb.bids[k].ids[i] == x && sb.bids[k].price == p;
                        assert(level_ok(sb.bids[k], Side::Buy, sb.orders));
                        assert(x != o.order_id);
                        if y == o.order_id && q == o.price {
                            assert(crosses(Side::Sell, o.price, sb.bids[k].price));
                        } else {
                            let (k2, i2) = choose|k: int, i: int|
                                #![trigger sb.asks[k].ids[i]]
                                0 <= k < sb.asks.len() && 0 <= i < sb.asks[k].ids.len() && sb.asks[k].ids[i] == y && sb.asks[k].price == q;
                            assert(level_ok(sb.asks[k2], Side::Sell, sb.orders));
                            assert(y != o.order_id);
                            assert(on_side(sb.asks, y, q));
                        }
                    },
                }
            }
        }
    }
}

/// Cancelling an order keeps the book uncrossed (`c` is the book after the
/// cancel, well formed).
pub proof fn lemma_cancel_keeps_uncrossed(b: BookModel, c: BookModel, id: OrderId)
    requires
        book_wf(b),
        book_wf(c),
        uncrossed(b),
        cancel_spec(b, id) is Some,
        c == cancel_spec(b, id).unwrap().0,
    ensures
        uncrossed(c),
{
    if let Some(res) = cancel_spec(b, id) {
        let o = b.orders[id];
        assert forall|l: Seq<LevelModel>| #![trigger unqueue(l, o.price, id)] true implies side_within(unqueue(l, o.price, id), l) by {
            if exists|k: int| 0 <= k < l.len() && l[k].price == o.price && l[k].ids.contains(id) {
                let k = choose|k: int| 0 <= k < l.len() && l[k].price == o.price && l[k].ids.contains(id);
                lemma_put_level_keeps_order(l, k, l[k].ids.index_of(id), true);
                lemma_within_of_kept(unqueue(l, o.price, id), l);
            }
        }
        assert(side_within(c.bids, b.bids));
        assert(side_within(c.asks, b.asks));
        assert forall|x: OrderId, y: OrderId, p: Price, q: Price|
            #[trigger] on_side(c.bids, x, p) && #[trigger] on_side(c.asks, y, q) && p >= q
                implies c.orders[x].user_id == c.orders[y].user_id by {
            assert(on_side(b.bids, x, p) && on_side(b.asks, y, q));
            let (k, i) = choose|k: int, i: int|
                #![trigger c.bids[k].ids[i]]
                0 <= k < c.bids.len() && 0 <= i < c.bids[k].ids.len() && c.bids[k].ids[i] == x && c.bids[k].price == p;
            let (k2, i2) = choose|k: int, i: int|
                #![trigger c.asks[k].ids[i]]
                0 <= k < c.asks.len() && 0 <= i < c.asks[k].ids.len() && c.asks[k].ids[i] == y && c.asks[k].price == q;
            assert(level_ok(c.bids[k], Side::Buy, c.orders));
            assert(level_ok(c.asks[k2], Side::Sell, c.orders));
            assert(c.orders.contains_key(x) && c.orders.contains_key(y));
        }
    }
}

/// Taking out orders with `strip` only removes orders from a side.
proof fn lemma_strip_within(levels: Seq<LevelModel>, keep: spec_fn(OrderId) -> bool)
    ensures
        side_within(strip(levels, keep), levels),
    decreases levels.len(),
{
    if levels.len() > 0 {
        let d = levels.drop_last();
        lemma_strip_within(d, keep);
        let st = strip(levels, keep);
        let rest = strip(d, keep);
        assert forall|id: OrderId, p: Price| #[trigger] on_side(st, id, p) implies on_side(levels, id, p) by {
            let (k, i) = choose|k: int, i: int|
                #![trigger st[k].ids[i]]
                0 <= k < st.len() && 0 <= i < st[k].ids.len() && st[k].ids[i] == id && st[k].price == p;
            if k < rest.len() {
                assert(st[k] == rest[k]);
                assert(on_side(rest, id, p));
                assert(on_side(d, id, p));
                let (k1, i1) = choose|k1: int, i1: int|
                    #![trigger d[k1].ids[i1]]
                    0 <= k1 < d.len() && 0 <= i1 < d[k1].ids.len() && d[k1].ids[i1] == id && d[k1].price == p;
                assert(levels[k1] == d[k1]);
                assert(levels[k1].ids[i1] == id);
            } else {
                let l = levels.last();
                assert(st[k].ids == l.ids.filter(keep));
                assert(l.ids.filter(keep).contains(id));
                l.ids.lemma_filter_contains_rev(keep, id);
                let i1 = choose|i1: int| 0 <= i1 < l.ids.len() && l.ids[i1] == id;
                assert(levels[levels.len() - 1].ids[i1] == id);
            }
        }
    }
}

/// Cancelling every order of a user keeps the book uncrossed (`c` is the
/// book afterwards, well formed).
pub proof fn lemma_without_user_keeps_uncrossed(b: BookModel, c: BookModel, u: UserId)
    requires
        book_wf(c),
        uncrossed(b),
        c == without_user(b, u),
    ensures
        uncrossed(c),
{
    lemma_strip_within(b.bids, not_of(b.orders, u));
    lemma_strip_within(b.asks, not_of(b.orders, u));
    assert forall|x: OrderId, y: OrderId, p: Price, q: Price|
        #[trigger] on_side(c.bids, x, p) && #[trigger] on_side(c.asks, y, q) && p >= q
            implies c.orders[x].user_id == c.orders[y].user_id by {
        assert(on_side(b.bids, x, p) && on_side(b.asks, y, q));
        let (k, i) = choose|k: int, i: int|
            #![trigger c.bids[k].ids[i]]
            0 <= k < c.bids.len() && 0 <= i < c.bids[k].ids.len() && c.bids[k].ids[i] == x && c.bids[k].price == p;
        let (k2, i2) = choose|k: int, i: int|
            #![trigger c.asks[k].ids[i]]
            0 <= k < c.asks.len() && 0 <= i < c.asks[k].ids.len() && c.asks[k].ids[i] == y && c.asks[k].price == q;
        assert(level_ok(c.bids[k], Side::Buy, c.orders));
        assert(level_ok(c.asks[k2], Side::Sell, c.orders));
        assert(c.orders.contains_key(x) && c.orders.contains_key(y));
    }
}

/// Order `id` of user `u` is one side of fill `f`.
pub open spec fn party(f: Fill, id: OrderId, u: UserId) -> bool {
    (f.bid_id == id && f.bid_user == u) || (f.ask_id == id && f.ask_user == u)
}

/// The matching only appends fills.
proof fn lemma_ioc_fills_prefix(st: IocState, a: OrderView)
    ensures
        ioc_run(st, a).fills.len() >= st.fills.len(),
        forall|j: int| 0 <= j < st.fills.len() ==> #[trigger] ioc_run(st, a).fills[j] == st.fills[j],
    decreases ioc_measure(st),
{
    lemma_ioc_step_decreases(st, a);
    if let Some(n) = ioc_step(st, a) {
        lemma_ioc_fills_prefix(n, a);
        assert forall|j: int| 0 <= j < st.fills.len() implies #[trigger] ioc_run(st, a).fills[j] == st.fills[j] by {
            assert(ioc_run(n, a).fills[j] == n.fills[j]);
        }
    }
}

/// An order that the matching takes out of the book traded in one of the
/// fills, with its own user.
pub proof fn lemma_ioc_removed_traded(st: IocState, a: OrderView)
    requires
        book_wf(st.book),
    ensures
        forall|id: OrderId|
            #[trigger] st.book.orders.contains_key(id) && !ioc_run(st, a).book.orders.contains_key(id) ==> exists|i: int|
                0 <= i < ioc_run(st, a).fills.len() && #[trigger] party(ioc_run(st, a).fills[i], id, st.book.orders[id].user_id),
    decreases ioc_measure(st),
{
    lemma_ioc_step_decreases(st, a);
    lemma_ioc_step_wf(st, a);
    if let Some(n) = ioc_step(st, a) {
        lemma_ioc_removed_traded(n, a);
        lemma_ioc_fills_prefix(n, a);
        let fin = ioc_run(n, a);
        let r = opposite(st.book, a.side);
        let kk = r.len() - 1 - st.skip;
        let l = r[kk];
        let j0 = first_other(l.ids, a.user_id, st.book.orders);
        lemma_first_other_bound(l.ids, a.user_id, st.book.orders);
        assert forall|id: OrderId|
            #[trigger] st.book.orders.contains_key(id) && !fin.book.orders.contains_key(id) implies exists|i: int|
                0 <= i < fin.fills.len() && #[trigger] party(fin.fills[i], id, st.book.orders[id].user_id) by {
            if j0 < l.ids.len() {
                let rid = l.ids[j0];
                let o = st.book.orders[rid];
                let q = min_q(st.remaining, o.remaining_quantity);
                assert(n.book.orders == settle(st.book.orders, rid, fill_view(o, q)));
                if n.book.orders.contains_key(id) {
                    assert(n.book.orders[id].user_id == st.book.orders[id].user_id);
                } else {
                    assert(id == rid);
                    let i = st.fills.len() as int;
                    assert(n.fills[i] == n.fills.last());
                    assert(fin.fills[i] == n.fills[i]);
                    assert(party(fin.fills[i], id, st.book.orders[id].user_id));
                }
            } else {
                assert(n.book == st.book);
            }
        }
    }
}

/// The matching of an incoming order only updates or removes resting
/// orders: every order id it leaves in the book was there before.
proof fn lemma_ioc_orders_within(st: IocState, a: OrderView)
    requires
        book_wf(st.book),
    ensures
        ioc_run(st, a).book.orders.dom().subset_of(st.book.orders.dom()),
    decreases ioc_measure(st),
{
    lemma_ioc_step_decreases(st, a);
    lemma_ioc_step_wf(st, a);
    if let Some(n) = ioc_step(st, a) {
        lemma_ioc_orders_within(n, a);
        let r = opposite(st.book, a.side);
        let kk = r.len() - 1 - st.skip;
        let l = r[kk];
        let j0 = first_other(l.ids, a.user_id, st.book.orders);
        lemma_first_other_bound(l.ids, a.user_id, st.book.orders);
        if j0 < l.ids.len() {
            lemma_opposite_ok(st.book, a.side);
            assert(level_ok(r[kk], other_side(a.side), st.book.orders));
            assert(st.book.orders.contains_key(l.ids[j0]));
        }
    }
}

/// Placing an order adds at most that order to the book, and a fill-and-kill
/// or fill-or-kill order adds none: it only trades against resting orders.
pub proof fn lemma_add_size(b: BookModel, o: OrderView)
    requires
        book_wf(b),
        add_spec(b, o) is Some,
    ensures
        add_spec(b, o).unwrap().0.orders.len() <= b.orders.len() + 1,
        (o.order_type == OrderType::FillAndKill || o.order_type == OrderType::FillOrKill) ==> add_spec(b, o).unwrap().0.orders.len() <= b.orders.len(),
{
    let st0 = IocState { book: b, skip: 0, remaining: o.remaining_quantity, fills: seq![] };
    lemma_ioc_orders_within(st0, o);
    let st = ioc_from(b, o);
    vstd::set_lib::lemma_len_subset(st.book.orders.dom(), b.orders.dom());
    if !(o.order_type == OrderType::FillAndKill || o.order_type == OrderType::FillOrKill) && st.remaining != 0 {
        let n = after_fills(o, st.remaining);
        assert(rest(st.book, n).orders.dom() =~= st.book.orders.dom().insert(n.order_id));
    }
}

/// The matching never leaves more of an incoming order than it started with.
pub proof fn lemma_ioc_remaining_le(st: IocState, a: OrderView)
    ensures
        ioc_run(st, a).remaining <= st.remaining,
    decreases ioc_measure(st),
{
    lemma_ioc_step_decreases(st, a);
    if let Some(n) = ioc_step(st, a) {
        lemma_ioc_remaining_le(n, a);
    }
}

/// Order `o` with its timestamp cleared: what the matching rules read of it.
pub open spec fn unstamped(o: OrderView) -> OrderView {
    OrderView { timestamp: 0, ..o }
}

/// Two order maps hold the same orders under the same ids, up to their
/// timestamps.
pub open spec fn orders_match(o1: Map<OrderId, OrderView>, o2: Map<OrderId, OrderView>) -> bool {
    &&& o1.dom() == o2.dom()
    &&& forall|id: OrderId| #[trigger] o1.contains_key(id) ==> unstamped(o1[id]) == unstamped(o2[id])
}

/// Two books are the same up to the timestamps of their orders.
pub open spec fn books_match(b1: BookModel, b2: BookModel) -> bool {
    &&& b1.bids == b2.bids
    &&& b1.asks == b2.asks
    &&& orders_match(b1.orders, b2.orders)
}

/// The first order of another user than `u` is found at the same place in
/// two matching order maps.
proof fn lemma_first_other_match(ids: Seq<OrderId>, u: UserId, o1: Map<OrderId, OrderView>, o2: Map<OrderId, OrderView>)
    requires
        orders_match(o1, o2),
        forall|j: int| 0 <= j < ids.len() ==> o1.contains_key(#[trigger] ids[j]),
    ensures
        first_other(ids, u, o1) == first_other(ids, u, o2),
    decreases ids.len(),
{
    if ids.len() > 0 {
        assert(o1.contains_key(ids[0]));
        assert(unstamped(o1[ids[0]]) == unstamped(o2[ids[0]]));
        assert forall|j: int| 0 <= j < ids.drop_first().len() implies o1.contains_key(#[trigger] ids.drop_first()[j]) by {
            assert(ids.drop_first()[j] == ids[j + 1]);
        }
        lemma_first_other_match(ids.drop_first(), u, o1, o2);
    }
}

/// What the orders of a level can trade is the same in two matching order maps.
proof fn lemma_level_avail_match(ids: Seq<OrderId>, u: UserId, o1: Map<OrderId, OrderView>, o2: Map<OrderId, OrderView>)
    requires
        orders_match(o1, o2),
        forall|j: int| 0 <= j < ids.len() ==> o1.contains_key(#[trigger] ids[j]),
    ensures
        level_avail(ids, o1, u) == level_avail(ids, o2, u),
    decreases ids.len(),
{
    if ids.len() > 0 {
        let l = ids.len() - 1;
        assert(o1.contains_key(ids[l]));
        assert(unstamped(o1[ids[l]]) == unstamped(o2[ids[l]]));
        assert forall|j: int| 0 <= j < ids.drop_last().len() implies o1.contains_key(#[trigger] ids.drop_last()[j]) by {
            assert(ids.drop_last()[j] == ids[j]);
        }
        lemma_level_avail_match(ids.drop_last(), u, o1, o2);
    }
}

/// The liquidity an order may use is the same in two matching order maps,
/// whatever the order's timestamp.
proof fn lemma_avail_match(levels: Seq<LevelModel>, side: Side, o1: Map<OrderId, OrderView>, o2: Map<OrderId, OrderView>, a: OrderView, a2: OrderView)
    requires
        orders_match(o1, o2),
        side_ok(levels, side, o1),
        unstamped(a) == unstamped(a2),
    ensures
        avail(levels, o1, a) == avail(levels, o2, a2),
    decreases levels.len(),
{
    if levels.len() > 0 {
        let l = levels.last();
        assert(level_ok(levels[levels.len() - 1], side, o1));
        lemma_level_avail_match(l.ids, a.user_id, o1, o2);
        assert forall|k: int| 0 <= k < levels.drop_last().len() implies level_ok(#[trigger] levels.drop_last()[k], side, o1) by {
            assert(levels.drop_last()[k] == levels[k]);
        }
        assert forall|i: int, j: int| 0 <= i < j < levels.drop_last().len() implies #[trigger] better(side, levels.drop_last()[j].price, levels.drop_last()[i].price) by {
            assert(levels.drop_last()[j] == levels[j] && levels.drop_last()[i] == levels[i]);
        }
        lemma_avail_match(levels.drop_last(), side, o1, o2, a, a2);
    }
}

/// Two matching states of the matching of an order: the books match and
/// everything else is equal.
pub open spec fn ioc_match(s1: IocState, s2: IocState) -> bool {
    &&& books_match(s1.book, s2.book)
    &&& s1.skip == s2.skip
    &&& s1.remaining == s2.remaining
    &&& s1.fills == s2.fills
}

/// One step of the matching reads no timestamp: from matching states, for
/// orders that differ at most in their timestamps, it leads to matching states.
proof fn lemma_ioc_step_match(s1: IocState, s2: IocState, a1: OrderView, a2: OrderView)
    requires
        ioc_match(s1, s2),
        book_wf(s1.book),
        unstamped(a1) == unstamped(a2),
    ensures
        ioc_step(s1, a1) is None <==> ioc_step(s2, a2) is None,
        ioc_step(s1, a1) matches Some(n1) ==> ioc_match(n1, ioc_step(s2, a2).unwrap()),
{
    let r = opposite(s1.book, a1.side);
    assert(r == opposite(s2.book, a2.side));
    if !(s1.remaining == 0 || r.len() <= s1.skip) {
        let k = r.len() - 1 - s1.skip;
        let l = r[k];
        if crosses(a1.side, a1.price, l.price) {
            lemma_opposite_ok(s1.book, a1.side);
            assert(level_ok(r[k], other_side(a1.side), s1.book.orders));
            lemma_first_other_match(l.ids, a1.user_id, s1.book.orders, s2.book.orders);
            lemma_first_other_bound(l.ids, a1.user_id, s1.book.orders);
            let j = first_other(l.ids, a1.user_id, s1.book.orders);
            if j < l.ids.len() {
                let rid = l.ids[j];
                assert(s1.book.orders.contains_key(rid));
                let o1 = s1.book.orders[rid];
                let o2 = s2.book.orders[rid];
                assert(unstamped(o1) == unstamped(o2));
                let q = min_q(s1.remaining, o1.remaining_quantity);
                let f1 = fill_view(o1, q);
                let f2 = fill_view(o2, q);
                assert(unstamped(f1) == unstamped(f2));
                let m1 = settle(s1.book.orders, rid, f1);
                let m2 = settle(s2.book.orders, rid, f2);
                assert(m1.dom() =~= m2.dom());
                assert forall|id: OrderId| #[trigger] m1.contains_key(id) implies unstamped(m1[id]) == unstamped(m2[id]) by {
                    if id != rid {
                        assert(s1.book.orders.contains_key(id));
                    }
                }
                let n1 = ioc_step(s1, a1).unwrap();
                let n2 = ioc_step(s2, a2).unwrap();
                assert(n1.book.orders == m1);
                assert(n2.book.orders == m2);
                assert(n1.fills =~= n2.fills);
            }
        }
    }
}

/// The matching reads no timestamp: from matching states, for orders that
/// differ at most in their timestamps, it ends in matching states.
pub proof fn lemma_ioc_run_match(s1: IocState, s2: IocState, a1: OrderView, a2: OrderView)
    requires
        ioc_match(s1, s2),
        book_wf(s1.book),
        unstamped(a1) == unstamped(a2),
    ensures
        ioc_match(ioc_run(s1, a1), ioc_run(s2, a2)),
    decreases ioc_measure(s1),
{
    lemma_ioc_step_decreases(s1, a1);
    lemma_ioc_step_wf(s1, a1);
    lemma_ioc_step_match(s1, s2, a1, a2);
    if let Some(n1) = ioc_step(s1, a1) {
        let n2 = ioc_step(s2, a2).unwrap();
        lemma_ioc_run_match(n1, n2, a1, a2);
    }
}

/// Resting orders that differ at most in their timestamps in matching
/// books gives matching books.
proof fn lemma_rest_match(b1: BookModel, b2: BookModel, n1: OrderView, n2: OrderView)
    requires
        books_match(b1, b2),
        unstamped(n1) == unstamped(n2),
    ensures
        books_match(rest(b1, n1), rest(b2, n2)),
{
    let r1 = rest(b1, n1);
    let r2 = rest(b2, n2);
    assert(r1.orders.dom() =~= r2.orders.dom());
    assert forall|id: OrderId| #[trigger] r1.orders.contains_key(id) implies unstamped(r1.orders[id]) == unstamped(r2.orders[id]) by {
        if id != n1.order_id {
            assert(b1.orders.contains_key(id));
        }
    }
}

/// Placing an order reads no timestamp: in matching books, orders that
/// differ at most in their timestamps are refused alike, trade alike and
/// leave matching books.
pub proof fn lemma_add_match(b1: BookModel, b2: BookModel, o1: OrderView, o2: OrderView)
    requires
        books_match(b1, b2),
        book_wf(b1),
        unstamped(o1) == unstamped(o2),
    ensures
        add_spec(b1, o1) is None <==> add_spec(b2, o2) is None,
        add_spec(b1, o1) matches Some(r1) ==> books_match(r1.0, add_spec(b2, o2).unwrap().0) && r1.1 == add_spec(b2, o2).unwrap().1,
{
    let st1 = IocState { book: b1, skip: 0, remaining: o1.remaining_quantity, fills: seq![] };
    let st2 = IocState { book: b2, skip: 0, remaining: o2.remaining_quantity, fills: seq![] };
    lemma_ioc_run_match(st1, st2, o1, o2);
    lemma_opposite_ok(b1, o1.side);
    lemma_avail_match(opposite(b1, o1.side), other_side(o1.side), b1.orders, b2.orders, o1, o2);
    let e1 = ioc_from(b1, o1);
    let e2 = ioc_from(b2, o2);
    if e1.remaining != 0 {
        lemma_rest_match(e1.book, e2.book, after_fills(o1, e1.remaining), after_fills(o2, e2.remaining));
    }
}

/// Cancelling an order reads no timestamp: in matching books it fails alike
/// or leaves matching books, the cancelled orders differing at most in their
/// timestamps.
pub proof fn lemma_cancel_match(b1: BookModel, b2: BookModel, id: OrderId)
    requires
        books_match(b1, b2),
    ensures
        cancel_spec(b1, id) is None <==> cancel_spec(b2, id) is None,
        cancel_spec(b1, id) matches Some(r1) ==> books_match(r1.0, cancel_spec(b2, id).unwrap().0)
            && unstamped(r1.1) == unstamped(cancel_spec(b2, id).unwrap().1),
{
    if b1.orders.contains_key(id) {
        assert(unstamped(b1.orders[id]) == unstamped(b2.orders[id]));
        let r1 = cancel_spec(b1, id).unwrap().0;
        let r2 = cancel_spec(b2, id).unwrap().0;
        assert(r1.orders.dom() =~= r2.orders.dom());
        assert forall|x: OrderId| #[trigger] r1.orders.contains_key(x) implies unstamped(r1.orders[x]) == unstamped(r2.orders[x]) by {
            assert(b1.orders.contains_key(x));
        }
    }
}

/// Filtering a sequence of ids by two tests that agree on each of them gives
/// the same ids.
proof fn lemma_filter_agree(ids: Seq<OrderId>, k1: spec_fn(OrderId) -> bool, k2: spec_fn(OrderId) -> bool)
    requires
        forall|j: int| 0 <= j < ids.len() ==> k1(#[trigger] ids[j]) == k2(ids[j]),
    ensures
        ids.filter(k1) == ids.filter(k2),
    decreases ids.len(),
{
    reveal(Seq::filter);
    if ids.len() > 0 {
        assert forall|j: int| 0 <= j < ids.drop_last().len() implies k1(#[trigger] ids.drop_last()[j]) == k2(ids.drop_last()[j]) by {
            assert(ids.drop_last()[j] == ids[j]);
        }
        lemma_filter_agree(ids.drop_last(), k1, k2);
        assert(k1(ids[ids.len() - 1]) == k2(ids[ids.len() - 1]));
    }
}

/// Stripping the levels of a side by two tests that agree on each of its
/// ids gives the same levels.
proof fn lemma_strip_agree(levels: Seq<LevelModel>, k1: spec_fn(OrderId) -> bool, k2: spec_fn(OrderId) -> bool)
    requires
        forall|k: int, j: int| 0 <= k < levels.len() && 0 <= j < levels[k].ids.len() ==> k1(#[trigger] levels[k].ids[j]) == k2(levels[k].ids[j]),
    ensures
        strip(levels, k1) == strip(levels, k2),
    decreases levels.len(),
{
    if levels.len() > 0 {
        let last = levels.len() - 1;
        assert forall|k: int, j: int| 0 <= k < levels.drop_last().len() && 0 <= j < levels.drop_last()[k].ids.len() implies k1(
            #[trigger] levels.drop_last()[k].ids[j],
        ) == k2(levels.drop_last()[k].ids[j]) by {
            assert(levels.drop_last()[k] == levels[k]);
        }
        lemma_strip_agree(levels.drop_last(), k1, k2);
        assert forall|j: int| 0 <= j < levels[last].ids.len() implies k1(#[trigger] levels[last].ids[j]) == k2(levels[last].ids[j]) by {
            assert(k1(levels[last].ids[j]) == k2(levels[last].ids[j]));
        }
        lemma_filter_agree(levels.last().ids, k1, k2);
    }
}

/// Cancelling a user's orders reads no timestamp: matching books stay matching.
pub proof fn lemma_without_user_match(b1: BookModel, b2: BookModel, u: UserId)
    requires
        books_match(b1, b2),
        book_wf(b1),
    ensures
        books_match(without_user(b1, u), without_user(b2, u)),
{
    let k1 = not_of(b1.orders, u);
    let k2 = not_of(b2.orders, u);
    assert forall|k: int, j: int| 0 <= k < b1.bids.len() && 0 <= j < b1.bids[k].ids.len() implies k1(#[trigger] b1.bids[k].ids[j]) == k2(b1.bids[k].ids[j]) by {
        assert(level_ok(b1.bids[k], Side::Buy, b1.orders));
        assert(b1.orders.contains_key(b1.bids[k].ids[j]));
        assert(unstamped(b1.orders[b1.bids[k].ids[j]]) == unstamped(b2.orders[b1.bids[k].ids[j]]));
    }
    assert forall|k: int, j: int| 0 <= k < b1.asks.len() && 0 <= j < b1.asks[k].ids.len() implies k1(#[trigger] b1.asks[k].ids[j]) == k2(b1.asks[k].ids[j]) by {
        assert(level_ok(b1.asks[k], Side::Sell, b1.orders));
        assert(b1.orders.contains_key(b1.asks[k].ids[j]));
        assert(unstamped(b1.orders[b1.asks[k].ids[j]]) == unstamped(b2.orders[b1.asks[k].ids[j]]));
    }
    lemma_strip_agree(b1.bids, k1, k2);
    lemma_strip_agree(b1.asks, k1, k2);
    let m1 = others_of(b1.orders, u);
    let m2 = others_of(b2.orders, u);
    assert forall|x: OrderId| m1.contains_key(x) <==> m2.contains_key(x) by {
        if b1.orders.contains_key(x) {
            assert(unstamped(b1.orders[x]) == unstamped(b2.orders[x]));
        }
    }
    assert(m1.dom() =~= m2.dom());
    assert forall|x: OrderId| #[trigger] m1.contains_key(x) implies unstamped(m1[x]) == unstamped(m2[x]) by {
        assert(b1.orders.contains_key(x));
    }
}

/// Taking order `id` (of `side`, priced `p`) out of its side keeps the side
/// well formed over the orders without it.
proof fn lemma_unqueue_ok(levels: Seq<LevelModel>, side: Side, orders: Map<OrderId, OrderView>, p: Price, id: OrderId)
    requires
        side_ok(levels, side, orders),
        orders.contains_key(id),
        orders[id].side == side,
        orders[id].price == p,
    ensures
        side_ok(unqueue(levels, p, id), side, orders.remove(id)),
{
    if exists|k: int| 0 <= k < levels.len() && levels[k].price == p && levels[k].ids.contains(id) {
        let k = choose|k: int| 0 <= k < levels.len() && levels[k].price == p && levels[k].ids.contains(id);
        let i = levels[k].ids.index_of(id);
        assert(0 <= i < levels[k].ids.len() && levels[k].ids[i] == id);
        lemma_side_after_fill(levels, side, orders, orders.remove(id), k, i, true);
    } else {
        assert forall|k: int| 0 <= k < levels.len() implies !(#[trigger] levels[k].ids.contains(id)) by {
            if levels[k].ids.contains(id) {
                let j = choose|j: int| 0 <= j < levels[k].ids.len() && levels[k].ids[j] == id;
                assert(level_ok(levels[k], side, orders));
                assert(orders.contains_key(levels[k].ids[j]));
            }
        }
        lemma_side_remove_absent(levels, side, orders, id);
    }
}

/// Cancelling an order keeps the book well formed.
pub proof fn lemma_cancel_wf(b: BookModel, id: OrderId)
    requires
        book_wf(b),
    ensures
        cancel_spec(b, id) matches Some(r) ==> book_wf(r.0),
{
    if b.orders.contains_key(id) {
        let o = b.orders[id];
        let m = b.orders.remove(id);
        if o.side == Side::Buy {
            lemma_unqueue_ok(b.bids, Side::Buy, b.orders, o.price, id);
            lemma_side_frame(b.asks, Side::Sell, b.orders, m);
        } else {
            lemma_unqueue_ok(b.asks, Side::Sell, b.orders, o.price, id);
            lemma_side_frame(b.bids, Side::Buy, b.orders, m);
        }
    }
}

/// Placing an order keeps the book well formed.
pub proof fn lemma_add_wf(b: BookModel, o: OrderView)
    requires
        book_wf(b),
    ensures
        add_spec(b, o) matches Some(r) ==> book_wf(r.0),
{
    if !b.orders.contains_key(o.order_id) {
        let st0 = IocState { book: b, skip: 0, remaining: o.remaining_quantity, fills: seq![] };
        lemma_ioc_wf(st0, o);
        lemma_ioc_never_rests(st0, o);
        let st = ioc_from(b, o);
        if st.remaining != 0 {
            lemma_rest_wf(st.book, after_fills(o, st.remaining));
        }
    }
}

} // verus!
