//! Orders and the fills that matching produces.

use crate::amount::{Amount, MAX_UNITS};
use vstd::prelude::*;

verus! {

/// The side of the book an order belongs to.
#[derive(Clone, Copy, Debug, PartialEq, Eq, Structural)]
pub enum OrderSide {
    Buy,
    Sell,
}

impl OrderSide {
    /// The side an order of this side trades against.
    pub open spec fn opposite(self) -> OrderSide {
        match self {
            OrderSide::Buy => OrderSide::Sell,
            OrderSide::Sell => OrderSide::Buy,
        }
    }
}

/// A limit order: `filled` of its `quantity` has traded so far.
#[derive(Debug)]
pub struct Order {
    pub price: Amount,
    pub quantity: Amount,
    pub order_id: String,
    pub filled: Amount,
    pub side: OrderSide,
    pub user_id: String,
}

/// An order as plain values: amounts in units, names as character sequences.
pub struct OrderView {
    pub price: nat,
    pub quantity: nat,
    pub order_id: Seq<char>,
    pub filled: nat,
    pub side: OrderSide,
    pub user_id: Seq<char>,
}

impl OrderView {
    /// The quantity that has not traded yet.
    pub open spec fn remaining(self) -> nat {
        (self.quantity - self.filled) as nat
    }

    /// Price and quantity are positive and within range, and no more than
    /// the quantity is filled.
    pub open spec fn valid(self) -> bool {
        &&& 0 < self.price <= MAX_UNITS
        &&& 0 < self.quantity <= MAX_UNITS
        &&& self.filled <= self.quantity
    }

    /// A valid order with quantity left to trade.
    pub open spec fn resting(self) -> bool {
        self.valid() && self.filled < self.quantity
    }

    /// The order with `qty` more of it filled.
    pub open spec fn fill(self, qty: nat) -> OrderView {
        OrderView { filled: self.filled + qty, ..self }
    }
}

impl View for Order {
    type V = OrderView;

    open spec fn view(&self) -> OrderView {
        OrderView {
            price: self.price@,
            quantity: self.quantity@,
            order_id: self.order_id@,
            filled: self.filled@,
            side: self.side,
            user_id: self.user_id@,
        }
    }
}

impl Clone for Order {
    fn clone(&self) -> (copy: Self)
        ensures
            copy == *self,
    {
        Order {
            price: self.price,
            quantity: self.quantity,
            order_id: self.order_id.clone(),
            filled: self.filled,
            side: self.side,
            user_id: self.user_id.clone(),
        }
    }
}

impl Order {
    /// The quantity that has not traded yet.
    pub fn remaining(&self) -> (left: Amount)
        requires
            self@.valid(),
        ensures
            left@ == self@.remaining(),
            left.wf(),
    {
        Amount { units: self.quantity.units - self.filled.units }
    }
}

/// One match between an incoming order and a resting one, at the resting
/// order's price.
#[derive(Debug)]
pub struct Fill {
    pub price: Amount,
    pub qty: Amount,
    pub trade_id: u64,
    pub other_user_id: String,
    pub marker_order_id: String,
}

/// A fill as plain values.
pub struct FillView {
    pub price: nat,
    pub qty: nat,
    pub trade_id: nat,
    pub other_user_id: Seq<char>,
    pub marker_order_id: Seq<char>,
}

impl View for Fill {
    type V = FillView;

    open spec fn view(&self) -> FillView {
        FillView {
            price: self.price@,
            qty: self.qty@,
            trade_id: self.trade_id as nat,
            other_user_id: self.other_user_id@,
            marker_order_id: self.marker_order_id@,
        }
    }
}

impl Clone for Fill {
    fn clone(&self) -> (copy: Self)
        ensures
            copy == *self,
    {
        Fill {
            price: self.price,
            qty: self.qty,
            trade_id: self.trade_id,
            other_user_id: self.other_user_id.clone(),
            marker_order_id: self.marker_order_id.clone(),
        }
    }
}

/// The views of a sequence of orders.
pub open spec fn order_views(orders: Seq<Order>) -> Seq<OrderView> {
    orders.map_values(|o: Order| o@)
}

/// The views of a sequence of fills.
pub open spec fn fill_views(fills: Seq<Fill>) -> Seq<FillView> {
    fills.map_values(|f: Fill| f@)
}

/// Whether all the fills hold amounts within range.
pub open spec fn fills_wf(fills: Seq<Fill>) -> bool {
    forall|i: int| 0 <= i < fills.len() ==> (#[trigger] fills[i]).price.wf() && fills[i].qty.wf()
}

/// The quantity traded by a sequence of fills.
pub open spec fn filled_quantity(fills: Seq<FillView>) -> nat
    decreases fills.len(),
{
    if fills.len() == 0 {
        0
    } else {
        filled_quantity(fills.drop_last()) + fills.last().qty
    }
}

} // verus!
