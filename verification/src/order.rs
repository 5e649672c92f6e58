//! The immutable limit order record and its total order.

use vstd::prelude::*;

verus! {

/// The side of the book an order rests on: `Bid` buys, `Ask` sells.
#[derive(Debug, Clone, Copy, PartialEq, Eq, Structural)]
pub enum OrderDirection {
    Bid,
    Ask,
}

/// An immutable resting limit order.
///
/// `parent` is set only on an order that represents the residual of a
/// partially filled predecessor, and then holds the predecessor's id.
/// `price` and `size` are exact fixed-point values; both are strictly
/// positive for every order held by a book. `timestamp` is in milliseconds.
#[derive(Debug, Clone, Copy, PartialEq, Eq)]
pub struct LimitOrder {
    pub id: u128,
    pub parent: Option<u128>,
    pub owner: u128,
    pub price: i64,
    pub size: i64,
    pub direction: OrderDirection,
    pub timestamp: i64,
}

/// The strict total order on orders: by price, then arrival time, then id.
/// Within one price level this is time priority with the id as a
/// deterministic tie-breaker.
pub open spec fn order_before(a: LimitOrder, b: LimitOrder) -> bool {
    ||| a.price < b.price
    ||| (a.price == b.price && a.timestamp < b.timestamp)
    ||| (a.price == b.price && a.timestamp == b.timestamp && a.id < b.id)
}

/// `order_before` is a strict total order: two orders are comparable unless
/// they agree on the whole key `(price, timestamp, id)`.
pub proof fn lemma_order_trichotomy(a: LimitOrder, b: LimitOrder)
    ensures
        order_before(a, b) || order_before(b, a) || (a.price == b.price && a.timestamp
            == b.timestamp && a.id == b.id),
{
}

/// Decides `order_before` on two concrete orders.
pub fn order_precedes(a: &LimitOrder, b: &LimitOrder) -> (r: bool)
    ensures
        r == order_before(*a, *b),
{
    if a.price != b.price {
        a.price < b.price
    } else if a.timestamp != b.timestamp {
        a.timestamp < b.timestamp
    } else {
        a.id < b.id
    }
}

} // verus!
