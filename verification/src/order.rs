//! A single limit order in the exchange.
use vstd::prelude::*;

use crate::redis::{dec_text, u64_text};
use crate::types::{OrderId, OrderStatus, OrderType, Price, Quantity, Side, UserId};

verus! {

/// Nanoseconds since the Unix epoch, as reported by the system clock.
/// Calls `SystemTime::now` and `duration_since(UNIX_EPOCH)`; nothing is
/// promised of the value (the clock may move in either direction). A clock
/// set before the epoch reads as `0`.
#[verifier::external_body]
pub(crate) fn clock_nanos() -> u64 {
    std::time::SystemTime::now().duration_since(std::time::UNIX_EPOCH).unwrap_or_default().as_nanos() as u64
}

/// Mathematical content of an [`Order`].
pub struct OrderView {
    pub order_id: OrderId,
    pub order_type: OrderType,
    pub side: Side,
    pub status: OrderStatus,
    pub price: Price,
    pub initial_quantity: Quantity,
    pub remaining_quantity: Quantity,
    pub timestamp: u64,
    pub user_id: UserId,
}

/// A single limit order.
///
/// The order's identity (id, type, side, price, user, initial quantity and
/// timestamp) never changes; only `remaining_quantity` and `status` change,
/// through [`Order::fills`].
#[derive(Debug, Clone, Copy)]
pub struct Order {
    order_id: OrderId,
    order_type: OrderType,
    side: Side,
    status: OrderStatus,
    price: Price,
    initial_quantity: Quantity,
    remaining_quantity: Quantity,
    timestamp: u64,
    user_id: UserId,
}

impl View for Order {
    type V = OrderView;

    closed spec fn view(&self) -> OrderView {
        OrderView {
            order_id: self.order_id,
            order_type: self.order_type,
            side: self.side,
            status: self.status,
            price: self.price,
            initial_quantity: self.initial_quantity,
            remaining_quantity: self.remaining_quantity,
            timestamp: self.timestamp,
            user_id: self.user_id,
        }
    }
}

/// `a` is `b` with possibly another remaining quantity and status: the
/// order's identity is unchanged.
pub open spec fn same_order(a: OrderView, b: OrderView) -> bool {
    &&& a.order_id == b.order_id
    &&& a.order_type == b.order_type
    &&& a.side == b.side
    &&& a.price == b.price
    &&& a.initial_quantity == b.initial_quantity
    &&& a.timestamp == b.timestamp
    &&& a.user_id == b.user_id
}

/// The order's fill bookkeeping is consistent: no more remains than was placed.
pub open spec fn order_wf(o: OrderView) -> bool {
    o.remaining_quantity <= o.initial_quantity
}

impl Order {
    /// Every order keeps no more remaining than it was placed with.
    #[verifier::type_invariant]
    pub open spec fn quantities_ok(self) -> bool {
        order_wf(self@)
    }

    /// Creates a new order with `quantity` both initial and remaining, stamped
    /// with the current time.
    pub fn new(
        order_id: OrderId,
        order_type: OrderType,
        side: Side,
        status: OrderStatus,
        price: Price,
        quantity: Quantity,
        user_id: UserId,
    ) -> (o: Order)
        ensures
            o@.order_id == order_id,
            o@.order_type == order_type,
            o@.side == side,
            o@.status == status,
            o@.price == price,
            o@.initial_quantity == quantity,
            o@.remaining_quantity == quantity,
            o@.user_id == user_id,
    {
        let ts = clock_nanos();
        Order {
            order_id,
            order_type,
            side,
            status,
            price,
            initial_quantity: quantity,
            remaining_quantity: quantity,
            timestamp: ts,
            user_id,
        }
    }

    /// An order with every field given, as read back from a log.
    pub fn from_parts(
        order_id: OrderId,
        order_type: OrderType,
        side: Side,
        status: OrderStatus,
        price: Price,
        initial_quantity: Quantity,
        remaining_quantity: Quantity,
        timestamp: u64,
        user_id: UserId,
    ) -> (o: Order)
        requires
            remaining_quantity <= initial_quantity,
        ensures
            o@ == (OrderView {
                order_id,
                order_type,
                side,
                status,
                price,
                initial_quantity,
                remaining_quantity,
                timestamp,
                user_id,
            }),
    {
        Order {
            order_id,
            order_type,
            side,
            status,
            price,
            initial_quantity,
            remaining_quantity,
            timestamp,
            user_id,
        }
    }

    /// Returns the order id.
    pub fn get_order_id(&self) -> (r: OrderId)
        ensures
            r == self@.order_id,
    {
        self.order_id
    }

    /// Returns the order type.
    pub fn get_type(&self) -> (r: OrderType)
        ensures
            r == self@.order_type,
    {
        self.order_type
    }

    /// Returns the side.
    pub fn get_side(&self) -> (r: Side)
        ensures
            r == self@.side,
    {
        self.side
    }

    /// Returns the lifecycle status.
    pub fn get_status(&self) -> (r: OrderStatus)
        ensures
            r == self@.status,
    {
        self.status
    }

    /// Returns the limit price.
    pub fn get_price(&self) -> (r: Price)
        ensures
            r == self@.price,
    {
        self.price
    }

    /// Returns the quantity the order was placed with.
    pub fn get_initial_quantity(&self) -> (r: Quantity)
        ensures
            r == self@.initial_quantity,
    {
        self.initial_quantity
    }

    /// Returns the quantity yet to be matched.
    pub fn get_remaining_quantity(&self) -> (r: Quantity)
        ensures
            r == self@.remaining_quantity,
    {
        self.remaining_quantity
    }

    /// Returns the quantity matched so far (`initial - remaining`).
    pub fn get_filled_quantity(&self) -> (r: Quantity)
        ensures
            r == self@.initial_quantity - self@.remaining_quantity,
    {
        proof {
            use_type_invariant(self);
        }
        self.initial_quantity - self.remaining_quantity
    }

    /// Returns `true` when nothing remains to be matched.
    pub fn is_filled(&self) -> (r: bool)
        ensures
            r == (self@.remaining_quantity == 0),
    {
        self.remaining_quantity == 0
    }

    /// Returns the creation timestamp (nanoseconds since the Unix epoch).
    pub fn get_timestamp(&self) -> (r: u64)
        ensures
            r == self@.timestamp,
    {
        self.timestamp
    }

    /// Returns the owner of the order.
    pub fn get_user_id(&self) -> (r: UserId)
        ensures
            r == self@.user_id,
    {
        self.user_id
    }

    /// Applies a fill of `quantity`.
    ///
    /// A zero fill changes nothing. A fill larger than the remaining quantity
    /// is refused and changes nothing. Otherwise the remaining quantity drops
    /// by `quantity` and the status becomes `Filled` when nothing remains, else
    /// `PartiallyFilled`.
    pub fn fills(&mut self, quantity: Quantity) -> (r: Result<(), String>)
        ensures
            same_order(final(self)@, old(self)@),
            r is Err <==> quantity > old(self)@.remaining_quantity,
            r matches Err(m) ==> m@ == overfill_text(old(self)@.order_id),
            r is Err || quantity == 0 ==> final(self)@ == old(self)@,
            r is Ok && quantity > 0 ==> {
                &&& final(self)@.remaining_quantity == old(self)@.remaining_quantity - quantity
                &&& final(self)@.status == (if final(self)@.remaining_quantity == 0 {
                    OrderStatus::Filled
                } else {
                    OrderStatus::PartiallyFilled
                })
            },
    {
        proof {
            use_type_invariant(&*self);
        }
        if quantity == 0 {
            return Ok(());
        }
        if quantity > self.remaining_quantity {
            return Err(overfill_message(self.order_id));
        }
        self.remaining_quantity = self.remaining_quantity - quantity;
        if self.remaining_quantity == 0 {
            self.status = OrderStatus::Filled;
        } else {
            self.status = OrderStatus::PartiallyFilled;
        }
        Ok(())
    }
}

/// The text of the error returned for an overfill of order `id`.
pub open spec fn overfill_text(id: OrderId) -> Seq<char> {
    "Order "@ + dec_text(id as nat) + " cannot be filled for more than its remaining quantity"@
}

/// Builds the overfill error text of order `id` (see [`overfill_text`]).
fn overfill_message(id: OrderId) -> (s: String)
    ensures
        s@ == overfill_text(id),
{
    let mut s = "Order ".to_owned();
    let digits = u64_text(id);
    s.append(digits.as_str());
    s.append(" cannot be filled for more than its remaining quantity");
    s
}

/// A queue of orders at a single price level, oldest first.
pub type OrderPointers = Vec<Order>;

} // verus!
