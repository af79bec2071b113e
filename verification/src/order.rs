//! Limit orders and their status state machine.

use vstd::prelude::*;

use crate::clock::now_millis;
use crate::error::MatchingEngineError;
use crate::price::Price;
use crate::quantity::Quantity;
use crate::types::{OrderId, UserId};

verus! {

/// The side of an order: a bid (Buy) or an ask (Sell).
#[derive(Debug, Clone, Copy, PartialEq, Eq, Structural)]
pub enum OrderSide {
    Buy,
    Sell,
}

impl OrderSide {
    /// The opposing side, against which an order of this side matches.
    pub open spec fn opposite(self) -> OrderSide {
        if self is Buy {
            OrderSide::Sell
        } else {
            OrderSide::Buy
        }
    }
}

/// The lifecycle state of an order.
///
/// `Active` and `PartiallyFilled` orders can match; `Filled` and `Cancelled`
/// are terminal.
#[derive(Debug, Clone, Copy, PartialEq, Eq, Structural)]
pub enum OrderStatus {
    Active,
    PartiallyFilled,
    Filled,
    Cancelled,
}

/// The mathematical view of an order: every field as a plain value.
#[verifier::ext_equal]
pub struct OrderV {
    pub id: u128,
    pub user_id: Seq<char>,
    pub side: OrderSide,
    pub price: int,
    pub original: int,
    pub remaining: int,
    pub status: OrderStatus,
    pub created_at: int,
    pub updated_at: int,
}

impl OrderV {
    /// Well-formedness: positive price, positive original quantity, a
    /// residual within bounds, a status in step with the residual, and
    /// timestamps in order.
    pub open spec fn wf(self) -> bool {
        &&& self.price >= 1
        &&& self.original >= 1
        &&& 0 <= self.remaining <= self.original
        &&& (self.status is Filled <==> self.remaining == 0)
        &&& self.created_at <= self.updated_at
    }

    /// An order can take part in matching while it is active or partially
    /// filled.
    pub open spec fn is_active(self) -> bool {
        self.status is Active || self.status is PartiallyFilled
    }

    /// The order after a fill of `x` units at time `now`: the residual
    /// shrinks, the status follows the residual, and the update time
    /// advances (a clock that stepped backwards cannot rewind it).
    pub open spec fn filled(self, x: int, now: int) -> OrderV {
        OrderV {
            remaining: self.remaining - x,
            status: if self.remaining - x == 0 {
                OrderStatus::Filled
            } else {
                OrderStatus::PartiallyFilled
            },
            updated_at: if now >= self.updated_at {
                now
            } else {
                self.updated_at
            },
            ..self
        }
    }

    /// The order after cancellation at time `now`.
    pub open spec fn cancelled(self, now: int) -> OrderV {
        OrderV {
            status: OrderStatus::Cancelled,
            updated_at: if now >= self.updated_at {
                now
            } else {
                self.updated_at
            },
            ..self
        }
    }

    /// Two orders cross when they sit on opposite sides, both can match,
    /// and the buy price reaches the sell price.
    pub open spec fn can_match(self, other: OrderV) -> bool {
        &&& self.side != other.side
        &&& self.is_active()
        &&& other.is_active()
        &&& if self.side is Buy {
            self.price >= other.price
        } else {
            self.price <= other.price
        }
    }
}

/// A limit order.
#[derive(Debug, PartialEq)]
pub struct Order {
    /// Unique order identifier.
    pub id: OrderId,
    /// The user who placed the order.
    pub user_id: UserId,
    /// Buy or sell side.
    pub side: OrderSide,
    /// Limit price.
    pub price: Price,
    /// Quantity at submission.
    pub original_quantity: Quantity,
    /// Quantity still open; shrinks as the order is filled.
    pub remaining_quantity: Quantity,
    /// Lifecycle state.
    pub status: OrderStatus,
    /// When the order was created, in milliseconds since the Unix epoch.
    pub created_at: i64,
    /// When the order last changed, in milliseconds since the Unix epoch.
    pub updated_at: i64,
}

impl View for Order {
    type V = OrderV;

    open spec fn view(&self) -> OrderV {
        OrderV {
            id: self.id.0,
            user_id: self.user_id@,
            side: self.side,
            price: self.price.cents as int,
            original: self.original_quantity.0 as int,
            remaining: self.remaining_quantity.0 as int,
            status: self.status,
            created_at: self.created_at as int,
            updated_at: self.updated_at as int,
        }
    }
}

impl Clone for Order {
    /// Copies the order, keeping every field.
    fn clone(&self) -> (r: Self)
        ensures
            r@ == self@,
    {
        Order {
            id: self.id,
            user_id: self.user_id.clone(),
            side: self.side,
            price: self.price,
            original_quantity: self.original_quantity,
            remaining_quantity: self.remaining_quantity,
            status: self.status,
            created_at: self.created_at,
            updated_at: self.updated_at,
        }
    }
}

impl Order {
    /// Builds a new active order with both timestamps at `now`.
    pub fn new_at(
        id: OrderId,
        user_id: UserId,
        side: OrderSide,
        price: Price,
        quantity: Quantity,
        now: i64,
    ) -> (r: Order)
        ensures
            r == (Order {
                id,
                user_id,
                side,
                price,
                original_quantity: quantity,
                remaining_quantity: quantity,
                status: OrderStatus::Active,
                created_at: now,
                updated_at: now,
            }),
    {
        Order {
            id,
            user_id,
            side,
            price,
            original_quantity: quantity,
            remaining_quantity: quantity,
            status: OrderStatus::Active,
            created_at: now,
            updated_at: now,
        }
    }

    /// Builds a new active order, stamped with the current wall-clock time.
    pub fn new(
        id: OrderId,
        user_id: UserId,
        side: OrderSide,
        price: Price,
        quantity: Quantity,
    ) -> (r: Order)
        ensures
            r.id == id,
            r.user_id@ == user_id@,
            r.side == side,
            r.price == price,
            r.original_quantity == quantity,
            r.remaining_quantity == quantity,
            r.status is Active,
            r.created_at == r.updated_at,
    {
        let now = now_millis();
        Self::new_at(id, user_id, side, price, quantity, now)
    }

    /// True when this order could execute against `other`.
    pub fn can_match(&self, other: &Order) -> (r: bool)
        ensures
            r == self@.can_match(other@),
    {
        if self.side == other.side {
            return false;
        }
        if !self.is_active() || !other.is_active() {
            return false;
        }
        match self.side {
            OrderSide::Buy => self.price.cents >= other.price.cents,
            OrderSide::Sell => self.price.cents <= other.price.cents,
        }
    }

    /// Takes `x` units off the residual at time `now`; the engine's internal
    /// fill step.
    pub(crate) fn fill_units(&mut self, x: u64, now: i64)
        requires
            1 <= x <= old(self).remaining_quantity.0,
        ensures
            final(self)@ == old(self)@.filled(x as int, now as int),
            final(self).user_id == old(self).user_id,
    {
        self.remaining_quantity = Quantity::new_allow_zero(self.remaining_quantity.0 - x);
        if now >= self.updated_at {
            self.updated_at = now;
        }
        if self.remaining_quantity.0 == 0 {
            self.status = OrderStatus::Filled;
        } else {
            self.status = OrderStatus::PartiallyFilled;
        }
        assert(self@ =~= old(self)@.filled(x as int, now as int));
    }

    /// Fills a portion of the order at time `now`, failing when the residual
    /// cannot cover it.
    pub fn fill_at(&mut self, quantity: Quantity, now: i64) -> (r: Result<
        (),
        MatchingEngineError,
    >)
        requires
            old(self)@.wf(),
            !(old(self).status is Cancelled),
            quantity.0 >= 1,
        ensures
            quantity.0 <= old(self).remaining_quantity.0 ==> (r is Ok && final(self)@ == old(
                self,
            )@.filled(quantity.0 as int, now as int)),
            quantity.0 > old(self).remaining_quantity.0 ==> (r matches Err(e) && e == (
            MatchingEngineError::InsufficientQuantity {
                requested: quantity.0,
                available: old(self).remaining_quantity.0,
            }) && *final(self) == *old(self)),
            final(self)@.wf(),
            final(self).user_id == old(self).user_id,
    {
        if !quantity.can_be_satisfied_by(&self.remaining_quantity) {
            return Err(MatchingEngineError::InsufficientQuantity {
                requested: quantity.0,
                available: self.remaining_quantity.0,
            });
        }
        self.fill_units(quantity.0, now);
        Ok(())
    }

    /// Fills a portion of the order, stamped with the current wall-clock
    /// time.
    pub fn fill(&mut self, quantity: Quantity) -> (r: Result<(), MatchingEngineError>)
        requires
            old(self)@.wf(),
            !(old(self).status is Cancelled),
            quantity.0 >= 1,
        ensures
            quantity.0 <= old(self).remaining_quantity.0 ==> (r is Ok
                && final(self).remaining_quantity.0 == old(self).remaining_quantity.0
                - quantity.0 && final(self).status == (if final(self).remaining_quantity.0 == 0 {
                OrderStatus::Filled
            } else {
                OrderStatus::PartiallyFilled
            })),
            quantity.0 > old(self).remaining_quantity.0 ==> (r matches Err(e) && e == (
            MatchingEngineError::InsufficientQuantity {
                requested: quantity.0,
                available: old(self).remaining_quantity.0,
            }) && *final(self) == *old(self)),
            final(self).id == old(self).id,
            final(self).user_id == old(self).user_id,
            final(self).side == old(self).side,
            final(self).price == old(self).price,
            final(self).original_quantity == old(self).original_quantity,
            final(self).created_at == old(self).created_at,
            final(self).updated_at >= old(self).updated_at,
            final(self)@.wf(),
    {
        let now = now_millis();
        self.fill_at(quantity, now)
    }

    /// Cancels the order at time `now`.
    pub fn cancel_at(&mut self, now: i64)
        requires
            old(self)@.is_active(),
        ensures
            final(self)@ == old(self)@.cancelled(now as int),
            final(self).user_id == old(self).user_id,
    {
        self.status = OrderStatus::Cancelled;
        if now >= self.updated_at {
            self.updated_at = now;
        }
        assert(self@ =~= old(self)@.cancelled(now as int));
    }

    /// Cancels the order, stamped with the current wall-clock time.
    pub fn cancel(&mut self)
        requires
            old(self)@.is_active(),
        ensures
            final(self).status is Cancelled,
            final(self).id == old(self).id,
            final(self).user_id == old(self).user_id,
            final(self).side == old(self).side,
            final(self).price == old(self).price,
            final(self).original_quantity == old(self).original_quantity,
            final(self).remaining_quantity == old(self).remaining_quantity,
            final(self).created_at == old(self).created_at,
            final(self).updated_at >= old(self).updated_at,
    {
        let now = now_millis();
        self.cancel_at(now);
    }

    /// True while the order can take part in matching.
    pub fn is_active(&self) -> (r: bool)
        ensures
            r == self@.is_active(),
    {
        match self.status {
            OrderStatus::Active => true,
            OrderStatus::PartiallyFilled => true,
            _ => false,
        }
    }

    /// True once the order is completely filled.
    pub fn is_filled(&self) -> (r: bool)
        ensures
            r == (self.status is Filled),
    {
        match self.status {
            OrderStatus::Filled => true,
            _ => false,
        }
    }

    /// How much of the order has executed so far.
    pub fn filled_quantity(&self) -> (r: Quantity)
        requires
            self.remaining_quantity.0 <= self.original_quantity.0,
        ensures
            r.0 == self.original_quantity.0 - self.remaining_quantity.0,
    {
        Quantity::new_allow_zero(self.original_quantity.0 - self.remaining_quantity.0)
    }
}

/// The priority ordering of two orders on the same side: for bids the
/// higher price comes first, for asks the lower; at equal prices the
/// earlier creation time wins (FIFO).
pub open spec fn priority_cmp(a: OrderV, b: OrderV) -> core::cmp::Ordering {
    let price_cmp = if a.side is Buy {
        spec_cmp(b.price, a.price)
    } else {
        spec_cmp(a.price, b.price)
    };
    if price_cmp is Equal {
        spec_cmp(a.created_at, b.created_at)
    } else {
        price_cmp
    }
}

/// Three-way comparison of two integers.
pub open spec fn spec_cmp(a: int, b: int) -> core::cmp::Ordering {
    if a < b {
        core::cmp::Ordering::Less
    } else if a == b {
        core::cmp::Ordering::Equal
    } else {
        core::cmp::Ordering::Greater
    }
}

fn cmp_i64(a: i64, b: i64) -> (r: core::cmp::Ordering)
    ensures
        r == spec_cmp(a as int, b as int),
{
    if a < b {
        core::cmp::Ordering::Less
    } else if a == b {
        core::cmp::Ordering::Equal
    } else {
        core::cmp::Ordering::Greater
    }
}

impl PartialOrd for Order {
    /// Orders compare by matching priority: price first (side-dependent),
    /// creation time second.
    fn partial_cmp(&self, other: &Self) -> (r: Option<core::cmp::Ordering>) {
        let price_cmp = match self.side {
            OrderSide::Buy => cmp_i64(other.price.cents, self.price.cents),
            OrderSide::Sell => cmp_i64(self.price.cents, other.price.cents),
        };
        match price_cmp {
            core::cmp::Ordering::Equal => Some(cmp_i64(self.created_at, other.created_at)),
            _ => Some(price_cmp),
        }
    }
}

impl vstd::std_specs::cmp::PartialOrdSpecImpl for Order {
    open spec fn obeys_partial_cmp_spec() -> bool {
        true
    }

    open spec fn partial_cmp_spec(&self, other: &Self) -> Option<core::cmp::Ordering> {
        Some(priority_cmp(self@, other@))
    }
}

} // verus!
