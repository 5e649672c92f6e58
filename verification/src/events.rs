//! Requests accepted by the engine and the events it emits.

use vstd::prelude::*;
use crate::order::{LimitOrder, OrderDirection};

verus! {

/// A request to open a new limit order. The engine assigns `uuid` and
/// `timestamp` on entry; values supplied by the caller are ignored.
#[derive(Debug, Clone, Copy, PartialEq, Eq)]
pub struct OpenEvent {
    pub owner: u128,
    pub price: i64,
    pub size: i64,
    pub direction: OrderDirection,
    pub timestamp: i64,
    pub uuid: Option<u128>,
}

impl OpenEvent {
    /// A fresh open request; the engine fills in the id and timestamp.
    pub fn new(owner: u128, price: i64, size: i64, direction: OrderDirection) -> (e: OpenEvent)
        ensures
            e == (OpenEvent { owner, price, size, direction, timestamp: 0, uuid: None }),
    {
        OpenEvent { owner, price, size, direction, timestamp: 0, uuid: None }
    }
}

/// A request to cancel the resting order with the given id. Only the id is
/// consulted; the owner is carried through to the resulting event.
#[derive(Debug, Clone, Copy, PartialEq, Eq)]
pub struct CancelEvent {
    pub id: u128,
    pub owner: u128,
    pub timestamp: i64,
}

/// A request submitted to the engine.
#[derive(Debug, Clone, Copy, PartialEq, Eq)]
pub enum BookRequest {
    Open(OpenEvent),
    Cancel(CancelEvent),
}

/// An order was placed on the book. `parent` is set when the order is the
/// residual of a partially filled predecessor.
#[derive(Debug, Clone, Copy, PartialEq, Eq)]
pub struct OpenedEvent {
    pub id: u128,
    pub parent: Option<u128>,
    pub owner: u128,
    pub price: i64,
    pub size: i64,
    pub direction: OrderDirection,
    pub timestamp: i64,
}

/// Part or all of an order was matched. `price` is the order's limit price
/// and `size` the matched quantity.
#[derive(Debug, Clone, Copy, PartialEq, Eq)]
pub struct FilledEvent {
    pub id: u128,
    pub owner: u128,
    pub parent: Option<u128>,
    pub price: i64,
    pub size: i64,
    pub timestamp: i64,
}

/// A resting order was removed by a cancel request.
#[derive(Debug, Clone, Copy, PartialEq, Eq)]
pub struct CanceledEvent {
    pub id: u128,
    pub owner: u128,
    pub parent: Option<u128>,
    pub timestamp: i64,
}

/// Why a request was rejected.
#[derive(Debug, Clone, Copy, PartialEq, Eq, Structural)]
pub enum BounceReason {
    /// A cancel named an id absent from both sides of the book.
    OrderNotFound,
    /// An open carried a non-positive price or size.
    InvalidOrder,
}

/// A request was rejected; no book state changed.
#[derive(Debug, Clone, Copy, PartialEq, Eq)]
pub struct BounceEvent {
    pub id: Option<u128>,
    pub owner: u128,
    pub reason: BounceReason,
    pub timestamp: i64,
}

/// One event emitted by the engine.
#[derive(Debug, Clone, Copy, PartialEq, Eq)]
pub enum BookResult {
    Opened(OpenedEvent),
    Filled(FilledEvent),
    Canceled(CanceledEvent),
    Bounce(BounceEvent),
}

/// The `Opened` event describing `o` as it rests on the book.
pub open spec fn opened_result(o: LimitOrder) -> BookResult {
    BookResult::Opened(OpenedEvent {
        id: o.id,
        parent: o.parent,
        owner: o.owner,
        price: o.price,
        size: o.size,
        direction: o.direction,
        timestamp: o.timestamp,
    })
}

/// The `Filled` event recording that `size` of order `o` matched at time `ts`.
pub open spec fn filled_result(o: LimitOrder, size: i64, ts: i64) -> BookResult {
    BookResult::Filled(FilledEvent {
        id: o.id,
        owner: o.owner,
        parent: o.parent,
        price: o.price,
        size: size,
        timestamp: ts,
    })
}

/// Builds the `Opened` event for `o`; the executable mirror of `opened_result`.
pub fn make_opened(o: &LimitOrder) -> (r: BookResult)
    ensures
        r == opened_result(*o),
{
    BookResult::Opened(OpenedEvent {
        id: o.id,
        parent: o.parent,
        owner: o.owner,
        price: o.price,
        size: o.size,
        direction: o.direction,
        timestamp: o.timestamp,
    })
}

/// Builds the `Filled` event for `o`; the executable mirror of `filled_result`.
pub fn make_filled(o: &LimitOrder, size: i64, ts: i64) -> (r: BookResult)
    ensures
        r == filled_result(*o, size, ts),
{
    BookResult::Filled(FilledEvent {
        id: o.id,
        owner: o.owner,
        parent: o.parent,
        price: o.price,
        size: size,
        timestamp: ts,
    })
}

} // verus!
