//! Concrete-value tests for the engine's laws: event shapes, volume
//! conservation, priority, replay determinism, and rejection of malformed
//! requests.

use orderbook::book::Book;
use orderbook::engine::OrderBook;
use orderbook::events::{BookRequest, BookResult, BounceReason, CancelEvent, OpenEvent};
use orderbook::level::BookLevel;
use orderbook::order::{LimitOrder, OrderDirection};

fn open(owner: u128, price: i64, size: i64, direction: OrderDirection) -> BookRequest {
    BookRequest::Open(OpenEvent::new(owner, price, size, direction))
}

fn cancel(id: u128, owner: u128) -> BookRequest {
    BookRequest::Cancel(CancelEvent { id, owner, timestamp: 0 })
}

#[test]
fn invalid_price_bounces() {
    let mut orderbook = OrderBook::new();
    let events = orderbook.process_request(open(7, 0, 1, OrderDirection::Bid));
    assert_eq!(events.len(), 1);
    match events[0] {
        BookResult::Bounce(b) => {
            assert_eq!(b.reason, BounceReason::InvalidOrder);
            assert_eq!(b.owner, 7);
            assert_eq!(b.id, None);
        }
        _ => panic!("Expected bounce for non-positive price"),
    }
}

#[test]
fn invalid_size_bounces() {
    let mut orderbook = OrderBook::new();
    let events = orderbook.process_request(open(7, 10, -3, OrderDirection::Ask));
    assert_eq!(events.len(), 1);
    match events[0] {
        BookResult::Bounce(b) => {
            assert_eq!(b.reason, BounceReason::InvalidOrder);
        }
        _ => panic!("Expected bounce for non-positive size"),
    }
    // the book is untouched: a later exact match still works
    let events = orderbook.process_request(open(1, 10, 1, OrderDirection::Bid));
    assert_eq!(events.len(), 1);
    let events = orderbook.process_request(open(2, 10, 1, OrderDirection::Ask));
    assert_eq!(events.len(), 3);
}

#[test]
fn no_match_above_limit() {
    // an ask above the best bid does not cross: exactly one Opened each
    let mut orderbook = OrderBook::new();
    let events = orderbook.process_request(open(1, 10, 1, OrderDirection::Bid));
    assert_eq!(events.len(), 1);
    let events = orderbook.process_request(open(2, 11, 1, OrderDirection::Ask));
    assert_eq!(events.len(), 1);
    assert!(matches!(events[0], BookResult::Opened(_)));
}

#[test]
fn volume_conservation_across_levels() {
    // volume conservation: the incoming Filled size equals the sum of the
    // match-side Filled sizes
    let mut orderbook = OrderBook::new();
    orderbook.process_request(open(1, 9, 2, OrderDirection::Bid));
    orderbook.process_request(open(1, 10, 3, OrderDirection::Bid));
    let events = orderbook.process_request(open(2, 9, 4, OrderDirection::Ask));

    let fills: Vec<i64> = events
        .iter()
        .filter_map(|ev| match ev {
            BookResult::Filled(f) => Some(f.size),
            _ => None,
        })
        .collect();
    // the last Filled belongs to the incoming ask; the ones before it are
    // the consumed bids
    let incoming_fill = *fills.last().expect("the ask matched");
    let match_side_total: i64 = fills[..fills.len() - 1].iter().sum();
    assert_eq!(match_side_total, 4);
    assert_eq!(incoming_fill, 4);
}

#[test]
fn priority_within_level_by_arrival() {
    // price-time priority: two bids at one price are consumed in arrival
    // order
    let mut orderbook = OrderBook::new();
    let first = match orderbook.process_request(open(1, 10, 2, OrderDirection::Bid))[0] {
        BookResult::Opened(o) => o.id,
        _ => panic!("Expected Opened"),
    };
    let second = match orderbook.process_request(open(2, 10, 2, OrderDirection::Bid))[0] {
        BookResult::Opened(o) => o.id,
        _ => panic!("Expected Opened"),
    };
    let events = orderbook.process_request(open(3, 10, 3, OrderDirection::Ask));
    // Opened(ask), Filled(first, 2), Filled(second, 1 partial),
    // Opened(second residual), Filled(ask, 3)
    assert_eq!(events.len(), 5);
    match events[1] {
        BookResult::Filled(f) => {
            assert_eq!(f.id, first);
            assert_eq!(f.size, 2);
        }
        _ => panic!("Expected Filled for the earlier bid"),
    }
    match events[2] {
        BookResult::Filled(f) => {
            assert_eq!(f.id, second);
            assert_eq!(f.size, 1);
        }
        _ => panic!("Expected Filled for the later bid"),
    }
    match events[3] {
        BookResult::Opened(o) => {
            assert_eq!(o.parent, Some(second));
            assert_eq!(o.size, 1);
        }
        _ => panic!("Expected Opened for the later bid's residual"),
    }
}

#[test]
fn residual_is_cancelable_and_parent_is_gone() {
    // index consistency and id uniqueness, observed from outside: after a
    // partial fill the residual id resolves, the
    // consumed id no longer exists anywhere
    let mut orderbook = OrderBook::new();
    let bid_id = match orderbook.process_request(open(1, 10, 5, OrderDirection::Bid))[0] {
        BookResult::Opened(o) => o.id,
        _ => panic!("Expected Opened"),
    };
    let events = orderbook.process_request(open(2, 10, 2, OrderDirection::Ask));
    // Opened(ask), Filled(bid, 2), Opened(bid residual, 3), Filled(ask, 2)
    assert_eq!(events.len(), 4);
    let residual_id = match events[2] {
        BookResult::Opened(o) => {
            assert_eq!(o.parent, Some(bid_id));
            assert_eq!(o.size, 3);
            o.id
        }
        _ => panic!("Expected Opened for the bid residual"),
    };

    // the consumed original id is gone from both sides
    let events = orderbook.process_request(cancel(bid_id, 1));
    assert!(matches!(events[0], BookResult::Bounce(_)));

    // the residual cancels cleanly
    let events = orderbook.process_request(cancel(residual_id, 1));
    match events[0] {
        BookResult::Canceled(c) => {
            assert_eq!(c.id, residual_id);
            assert_eq!(c.owner, 1);
            assert_eq!(c.parent, Some(bid_id));
        }
        _ => panic!("Expected Canceled for the residual"),
    }

    // and afterwards it too is gone
    let events = orderbook.process_request(cancel(residual_id, 1));
    assert!(matches!(events[0], BookResult::Bounce(_)));
}

#[test]
fn cancel_ignores_owner() {
    // only the id selects the order; the emitted owner is the resting one
    let mut orderbook = OrderBook::new();
    let id = match orderbook.process_request(open(1, 10, 1, OrderDirection::Ask))[0] {
        BookResult::Opened(o) => o.id,
        _ => panic!("Expected Opened"),
    };
    let events = orderbook.process_request(cancel(id, 99));
    match events[0] {
        BookResult::Canceled(c) => {
            assert_eq!(c.id, id);
            assert_eq!(c.owner, 1);
        }
        _ => panic!("Expected Canceled"),
    }
}

#[test]
fn replay_determinism_fixed_clock() {
    // replay determinism: with the clock fixed per request, two replays
    // of one request log give identical event logs
    let log: Vec<(BookRequest, i64)> = vec![
        (open(1, 10, 3, OrderDirection::Bid), 100),
        (open(2, 11, 1, OrderDirection::Bid), 101),
        (open(3, 10, 2, OrderDirection::Ask), 102),
        (cancel(5, 1), 103),
        (open(4, 12, 7, OrderDirection::Ask), 104),
    ];

    let mut first = OrderBook::new();
    let mut second = OrderBook::new();
    let run_a: Vec<Vec<BookResult>> =
        log.iter().map(|(req, ts)| first.process_at(*req, *ts)).collect();
    let run_b: Vec<Vec<BookResult>> =
        log.iter().map(|(req, ts)| second.process_at(*req, *ts)).collect();

    assert_eq!(run_a, run_b);
    // and the stamped timestamps are exactly the fixed samples
    match run_a[0][0] {
        BookResult::Opened(o) => assert_eq!(o.timestamp, 100),
        _ => panic!("Expected Opened"),
    }
}

#[test]
fn level_insert_and_remove_keep_aggregate() {
    // size conservation on one level: the aggregate tracks the queued sizes
    let mut level = BookLevel::new(10);
    let a = LimitOrder {
        id: 1,
        parent: None,
        owner: 5,
        price: 10,
        size: 3,
        direction: OrderDirection::Bid,
        timestamp: 50,
    };
    let b = LimitOrder { id: 2, timestamp: 60, size: 4, ..a };
    level.open_order(a);
    level.open_order(b);
    assert_eq!(level.aggregate_size(), 7);
    assert_eq!(level.iter().len(), 2);
    // earliest first
    assert_eq!(level.iter()[0].id, 1);
    assert_eq!(level.iter()[1].id, 2);

    let removed = level.remove_order(1).expect("order 1 is queued");
    assert_eq!(removed.size, 3);
    assert_eq!(level.aggregate_size(), 4);
    assert_eq!(level.iter().len(), 1);
    assert!(level.remove_order(1).is_none());
}

#[test]
fn side_book_cancel_by_id() {
    let mut side = Book::new();
    let a = LimitOrder {
        id: 1,
        parent: None,
        owner: 5,
        price: 10,
        size: 3,
        direction: OrderDirection::Bid,
        timestamp: 50,
    };
    let b = LimitOrder { id: 2, price: 11, ..a };
    side.open_order(a);
    side.open_order(b);

    let removed = side.cancel_order(CancelEvent { id: 2, owner: 5, timestamp: 0 });
    assert_eq!(removed.map(|o| o.id), Some(2));
    let missing = side.cancel_order(CancelEvent { id: 2, owner: 5, timestamp: 0 });
    assert!(missing.is_none());
}

#[test]
fn timestamp_is_sampled() {
    // one clock sample per request stamps every event of the request
    let t0 = orderbook::clock::timestamp();
    let mut book = OrderBook::new();
    let events = book.process_request(open(1, 10, 1, OrderDirection::Bid));
    let t1 = orderbook::clock::timestamp();
    match events[0] {
        BookResult::Opened(o) => {
            assert!(t0 <= o.timestamp && o.timestamp <= t1);
        }
        _ => panic!("Expected Opened"),
    }
}

#[test]
fn levels_skip_empty_and_order_by_price() {
    let mut side = Book::new();
    let a = LimitOrder {
        id: 1,
        parent: None,
        owner: 5,
        price: 10,
        size: 3,
        direction: OrderDirection::Bid,
        timestamp: 50,
    };
    let b = LimitOrder { id: 2, price: 12, size: 1, ..a };
    let c = LimitOrder { id: 3, price: 11, size: 2, ..a };
    side.open_order(a);
    side.open_order(b);
    side.open_order(c);
    // empty the middle level: it must be skipped by both walks
    side.cancel_order(CancelEvent { id: 3, owner: 5, timestamp: 0 });

    let asc: Vec<i64> = side.levels_ascending().iter().map(|p| p.0).collect();
    assert_eq!(asc, vec![10, 12]);
    let desc: Vec<i64> = side.levels_descending().iter().map(|p| p.0).collect();
    assert_eq!(desc, vec![12, 10]);
    let asc_pairs = side.levels_ascending();
    assert_eq!(asc_pairs[0].1.aggregate_size(), 3);
    assert_eq!(asc_pairs[1].1.aggregate_size(), 1);
}
