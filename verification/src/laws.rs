//! Engine-wide laws: the invariants every request preserves and the
//! guarantees the matching walk gives, stated once, by themselves.

use vstd::prelude::*;
use crate::order::{LimitOrder, OrderDirection};
use crate::events::{
    BookRequest, BookResult, BounceEvent, BounceReason, OpenEvent, CancelEvent, opened_result,
    filled_result,
};
use crate::level::{LevelModel, sum_sizes};
use crate::book::{side_wf, count_in_side, side_level_of_id};
use crate::engine::{
    BookModel, book_wf, level_eligible, side_candidates, cands_asc, cands_desc, walk_fills,
    fills_total, fill_events, walk_partial, stamped_order, valid_open, open_model, cancel_model,
    process_model, Fill, lemma_walk_fills_props,
};

verus! {

/// Conservation of size per level: on a well-formed side, every level's
/// aggregate equals the sum of the sizes of the orders it queues. Holds of
/// both sides of the book after every `process_at`, which keeps `book_wf`.
pub proof fn lemma_size_conservation(ls: Seq<LevelModel>, i: int)
    requires
        side_wf(ls),
        0 <= i < ls.len(),
    ensures
        ls[i].size == sum_sizes(ls[i].orders),
{
}

/// Id-index consistency: on a well-formed side, the id index of every level
/// holds exactly the ids of the orders queued there, position by position.
pub proof fn lemma_id_index_consistency(ls: Seq<LevelModel>, i: int)
    requires
        side_wf(ls),
        0 <= i < ls.len(),
    ensures
        ls[i].ids.len() == ls[i].orders.len(),
        forall|k: int| 0 <= k < ls[i].orders.len() ==> ls[i].ids[k] == (#[trigger] ls[i].orders[k]).id,
{
}

/// Uniqueness: in a well-formed book every id appears at most once over both
/// sides, counting every level of every side.
pub proof fn lemma_id_uniqueness(b: BookModel, x: u128)
    requires
        book_wf(b),
    ensures
        count_in_side(b.bid, x) + count_in_side(b.ask, x) <= 1,
{
    assert(count_in_side(b.bid, x) + count_in_side(b.ask, x) <= 1);
}

/// Where the orders of level `li` start inside the ascending candidate
/// sequence, assuming the level is eligible.
pub open spec fn block_off_asc(ls: Seq<LevelModel>, limit: int, li: int) -> int
    decreases li,
{
    if li <= 0 {
        0
    } else {
        (if level_eligible(ls[0], OrderDirection::Bid, limit) {
            ls[0].orders.len() as int
        } else {
            0
        }) + block_off_asc(ls.skip(1), limit, li - 1)
    }
}

/// Where the orders of level `li` start inside the descending candidate
/// sequence, assuming the level is eligible.
pub open spec fn block_off_desc(ls: Seq<LevelModel>, limit: int, li: int) -> int
    decreases ls.len(),
{
    if ls.len() == 0 || li >= ls.len() - 1 {
        0
    } else {
        (if level_eligible(ls.last(), OrderDirection::Ask, limit) {
            ls.last().orders.len() as int
        } else {
            0
        }) + block_off_desc(ls.drop_last(), limit, li)
    }
}

/// Where the orders of level `li` start among the candidates for direction
/// `dir`.
pub open spec fn block_off(ls: Seq<LevelModel>, dir: OrderDirection, limit: int, li: int) -> int {
    match dir {
        OrderDirection::Bid => block_off_asc(ls, limit, li),
        OrderDirection::Ask => block_off_desc(ls, limit, li),
    }
}

proof fn lemma_cands_block_asc(ls: Seq<LevelModel>, limit: int, li: int)
    requires
        0 <= li < ls.len(),
        level_eligible(ls[li], OrderDirection::Bid, limit),
    ensures
        ({
            let cands = cands_asc(ls, limit);
            let off = block_off_asc(ls, limit, li);
            &&& 0 <= off
            &&& off + ls[li].orders.len() <= cands.len()
            &&& forall|k: int|
                0 <= k < ls[li].orders.len() ==> cands[off + k] == (#[trigger] ls[li].orders[k])
        }),
    decreases li,
{
    let cands = cands_asc(ls, limit);
    let head = if level_eligible(ls[0], OrderDirection::Bid, limit) {
        ls[0].orders
    } else {
        Seq::<LimitOrder>::empty()
    };
    let rest = cands_asc(ls.skip(1), limit);
    assert(cands == head + rest);
    if li == 0 {
        assert forall|k: int| 0 <= k < ls[0].orders.len() implies cands[k] == (
        #[trigger] ls[0].orders[k]) by {
            assert(cands[k] == head[k]);
        }
    } else {
        assert(ls.skip(1)[li - 1] == ls[li]);
        lemma_cands_block_asc(ls.skip(1), limit, li - 1);
        let off1 = block_off_asc(ls.skip(1), limit, li - 1);
        let off = block_off_asc(ls, limit, li);
        assert(off == head.len() + off1);
        assert forall|k: int| 0 <= k < ls[li].orders.len() implies cands[off + k] == (
        #[trigger] ls[li].orders[k]) by {
            assert(cands[off + k] == rest[off1 + k]);
            assert(rest[off1 + k] == ls.skip(1)[li - 1].orders[k]);
        }
    }
}

proof fn lemma_cands_block_desc(ls: Seq<LevelModel>, limit: int, li: int)
    requires
        0 <= li < ls.len(),
        level_eligible(ls[li], OrderDirection::Ask, limit),
    ensures
        ({
            let cands = cands_desc(ls, limit);
            let off = block_off_desc(ls, limit, li);
            &&& 0 <= off
            &&& off + ls[li].orders.len() <= cands.len()
            &&& forall|k: int|
                0 <= k < ls[li].orders.len() ==> cands[off + k] == (#[trigger] ls[li].orders[k])
        }),
    decreases ls.len(),
{
    let cands = cands_desc(ls, limit);
    let head = if level_eligible(ls.last(), OrderDirection::Ask, limit) {
        ls.last().orders
    } else {
        Seq::<LimitOrder>::empty()
    };
    let rest = cands_desc(ls.drop_last(), limit);
    assert(cands == head + rest);
    if li == ls.len() - 1 {
        assert(ls.last() == ls[li]);
        assert forall|k: int| 0 <= k < ls[li].orders.len() implies cands[k] == (
        #[trigger] ls[li].orders[k]) by {
            assert(cands[k] == head[k]);
        }
    } else {
        assert(ls.drop_last()[li] == ls[li]);
        lemma_cands_block_desc(ls.drop_last(), limit, li);
        let off1 = block_off_desc(ls.drop_last(), limit, li);
        let off = block_off_desc(ls, limit, li);
        assert(off == head.len() + off1);
        assert forall|k: int| 0 <= k < ls[li].orders.len() implies cands[off + k] == (
        #[trigger] ls[li].orders[k]) by {
            assert(cands[off + k] == rest[off1 + k]);
            assert(rest[off1 + k] == ls.drop_last()[li].orders[k]);
        }
    }
}

/// In a well-formed level the queue order refines arrival time: an order
/// with an earlier timestamp stands at an earlier queue position, so
/// `lemma_price_time_priority` applies to it as the earlier of the two.
pub proof fn lemma_earlier_time_earlier_position(l: LevelModel, i: int, j: int)
    requires
        crate::level::level_wf(l),
        0 <= i < l.orders.len(),
        0 <= j < l.orders.len(),
        l.orders[i].timestamp < l.orders[j].timestamp,
    ensures
        i < j,
{
    if i == j {
    } else if i > j {
        assert(crate::order::order_before(l.orders[j], l.orders[i]));
    }
}

/// Price-time priority: take two orders resting in the same level of a
/// well-formed side, the first queued before the second (`a < b` in queue
/// position, so earlier by time or id tie-break), and an incoming crossing
/// order walking that side with any remainder. Both orders stand among the
/// candidates, the earlier strictly before the later, and whenever the walk
/// reaches the later order it has already consumed the earlier one whole.
pub proof fn lemma_price_time_priority(
    ls: Seq<LevelModel>,
    dir: OrderDirection,
    limit: int,
    rem: i64,
    li: int,
    a: int,
    b: int,
)
    requires
        side_wf(ls),
        0 <= rem,
        0 <= li < ls.len(),
        level_eligible(ls[li], dir, limit),
        0 <= a < b < ls[li].orders.len(),
    ensures
        ({
            let cands = side_candidates(ls, dir, limit);
            let off = block_off(ls, dir, limit, li);
            let fs = walk_fills(cands, rem);
            &&& 0 <= off + a < off + b < cands.len()
            &&& cands[off + a] == ls[li].orders[a]
            &&& cands[off + b] == ls[li].orders[b]
            &&& fs.len() > off + b ==> fs[off + a] == (Fill {
                order: ls[li].orders[a],
                size: ls[li].orders[a].size,
            })
        }),
{
    match dir {
        OrderDirection::Bid => lemma_cands_block_asc(ls, limit, li),
        OrderDirection::Ask => lemma_cands_block_desc(ls, limit, li),
    }
    let cands = side_candidates(ls, dir, limit);
    let off = block_off(ls, dir, limit, li);
    let fs = walk_fills(cands, rem);
    crate::engine::lemma_cands_props(ls, dir, limit);
    lemma_walk_fills_props(cands, rem);
    if fs.len() > off + b {
        assert(fs[off + a].order == cands[off + a]);
        assert(fs[off + a].size == cands[off + a].size);
    }
}

/// Whether an event is an `Opened`.
pub open spec fn is_opened(ev: BookResult) -> bool {
    match ev {
        BookResult::Opened(_) => true,
        _ => false,
    }
}

/// Whether an event is a `Filled`.
pub open spec fn is_filled(ev: BookResult) -> bool {
    match ev {
        BookResult::Filled(_) => true,
        _ => false,
    }
}

/// Event-sequence shape of a valid open: the events lead with `Opened` for
/// the incoming order; then one `Filled` per consumed resting order, in walk
/// order; then at most one `Opened` for the resting residual; then, exactly
/// when anything matched, one `Filled` for the incoming order; then at most
/// one `Opened` for the incoming residual. An open that crosses nothing
/// emits exactly the one `Opened`.
pub proof fn lemma_event_shape_open(b: BookModel, e: OpenEvent, ts: i64)
    requires
        book_wf(b),
        valid_open(e),
    ensures
        ({
            let o = stamped_order(e, b.counter as u128, ts);
            let opp = if e.direction == OrderDirection::Bid {
                b.ask
            } else {
                b.bid
            };
            let fills = walk_fills(side_candidates(opp, o.direction, o.price as int), o.size);
            let partial = walk_partial(fills);
            let matched = fills.len() > 0;
            let rem = o.size - fills_total(fills);
            let evs = open_model(b, e, ts).1;
            &&& evs.len() == 1 + fills.len() + (if partial {
                1int
            } else {
                0int
            }) + (if matched {
                1int
            } else {
                0int
            }) + (if matched && rem > 0 {
                1int
            } else {
                0int
            })
            &&& evs[0] == opened_result(o)
            &&& forall|j: int| 1 <= j <= fills.len() ==> is_filled(#[trigger] evs[j])
            &&& (partial ==> is_opened(evs[1 + fills.len() as int]))
            &&& (matched ==> is_filled(
                evs[1 + fills.len() as int + (if partial {
                    1int
                } else {
                    0int
                })],
            ))
            &&& (matched && rem > 0 ==> is_opened(evs[evs.len() - 1]))
            &&& (!matched ==> evs =~= seq![opened_result(o)])
        }),
{
    let o = stamped_order(e, b.counter as u128, ts);
    let opp = if e.direction == OrderDirection::Bid {
        b.ask
    } else {
        b.bid
    };
    let fills = walk_fills(side_candidates(opp, o.direction, o.price as int), o.size);
    let evs = open_model(b, e, ts).1;
    assert forall|j: int| 1 <= j <= fills.len() implies is_filled(#[trigger] evs[j]) by {
        assert(evs[j] == fill_events(fills, ts)[j - 1]);
        assert(fill_events(fills, ts)[j - 1] == filled_result(fills[j - 1].order, fills[j - 1].size,
            ts));
    }
}

/// Event-sequence shape of a cancel: exactly one `Canceled` when either side
/// holds the id, the bid side consulted first; exactly one
/// `Bounce(OrderNotFound)` otherwise, and the book unchanged.
pub proof fn lemma_event_shape_cancel(b: BookModel, e: CancelEvent, ts: i64)
    requires
        book_wf(b),
    ensures
        cancel_model(b, e, ts).1.len() == 1,
        side_level_of_id(b.bid, e.id) != -1 || side_level_of_id(b.ask, e.id) != -1 ==> (
        cancel_model(b, e, ts).1[0] is Canceled),
        side_level_of_id(b.bid, e.id) == -1 && side_level_of_id(b.ask, e.id) == -1 ==> {
            &&& cancel_model(b, e, ts).1[0] == BookResult::Bounce(
                BounceEvent {
                    id: Some(e.id),
                    owner: e.owner,
                    reason: BounceReason::OrderNotFound,
                    timestamp: ts,
                },
            )
            &&& cancel_model(b, e, ts).0 == b
        },
{
}

/// The sum of the sizes of the `Filled` events of a walk.
pub open spec fn sum_filled_sizes(evs: Seq<BookResult>) -> int
    decreases evs.len(),
{
    if evs.len() == 0 {
        0
    } else {
        sum_filled_sizes(evs.drop_last()) + (match evs.last() {
            BookResult::Filled(f) => f.size as int,
            _ => 0,
        })
    }
}

proof fn lemma_sum_fill_events(fs: Seq<Fill>, ts: i64)
    ensures
        sum_filled_sizes(fill_events(fs, ts)) == fills_total(fs),
    decreases fs.len(),
{
    if fs.len() == 0 {
        assert(fill_events(fs, ts) =~= Seq::<BookResult>::empty());
    } else {
        let evs = fill_events(fs, ts);
        assert(evs.len() == fs.len());
        assert(evs.drop_last() =~= fill_events(fs.drop_last(), ts));
        assert(evs.last() == filled_result(fs.last().order, fs.last().size, ts));
        lemma_sum_fill_events(fs.drop_last(), ts);
    }
}

/// Volume conservation per match: in every valid open that matches, the sum
/// of the match-side `Filled` sizes equals the size on the incoming order's
/// own `Filled` event; both equal the total the walk consumed.
pub proof fn lemma_volume_conservation(b: BookModel, e: OpenEvent, ts: i64)
    requires
        book_wf(b),
        valid_open(e),
    ensures
        ({
            let o = stamped_order(e, b.counter as u128, ts);
            let opp = if e.direction == OrderDirection::Bid {
                b.ask
            } else {
                b.bid
            };
            let fills = walk_fills(side_candidates(opp, o.direction, o.price as int), o.size);
            let matched = fills.len() > 0;
            let evs = open_model(b, e, ts).1;
            matched ==> {
                &&& sum_filled_sizes(fill_events(fills, ts)) == fills_total(fills)
                &&& evs[1 + fills.len() as int + (if walk_partial(fills) {
                    1int
                } else {
                    0int
                })] == filled_result(o, fills_total(fills) as i64, ts)
            }
        }),
{
    let o = stamped_order(e, b.counter as u128, ts);
    let opp = if e.direction == OrderDirection::Bid {
        b.ask
    } else {
        b.bid
    };
    let fills = walk_fills(side_candidates(opp, o.direction, o.price as int), o.size);
    lemma_sum_fill_events(fills, ts);
}

/// The event logs of a whole replay: each request of the log, taken with
/// its clock sample, is run through `process_model` in order.
pub open spec fn replay_events(b: BookModel, log: Seq<(BookRequest, i64)>) -> Seq<Seq<BookResult>>
    decreases log.len(),
{
    if log.len() == 0 {
        Seq::empty()
    } else {
        let step = process_model(b, log[0].0, log[0].1);
        seq![step.1] + replay_events(step.0, log.skip(1))
    }
}

/// A replay emits one event vector per request, in arrival order: the
/// events of a request precede every event of the next one.
pub proof fn lemma_replay_structure(b: BookModel, log: Seq<(BookRequest, i64)>)
    ensures
        replay_events(b, log).len() == log.len(),
        log.len() > 0 ==> replay_events(b, log)[0] == process_model(b, log[0].0, log[0].1).1,
        log.len() > 0 ==> replay_events(b, log).skip(1) == replay_events(
            process_model(b, log[0].0, log[0].1).0,
            log.skip(1),
        ),
    decreases log.len(),
{
    if log.len() > 0 {
        let step = process_model(b, log[0].0, log[0].1);
        lemma_replay_structure(step.0, log.skip(1));
        assert(replay_events(b, log) == seq![step.1] + replay_events(step.0, log.skip(1)));
        assert((seq![step.1] + replay_events(step.0, log.skip(1))).skip(1) =~= replay_events(
            step.0,
            log.skip(1),
        ));
    }
}

/// Replay determinism: two replays of equal request logs with equal clock
/// samples from equal starting books give equal event logs. The engine's
/// `process_at` equates every call with `process_model`, so this carries to
/// executions: state, requests and clock samples determine every event.
pub proof fn lemma_replay_deterministic(
    a: BookModel,
    b: BookModel,
    log_a: Seq<(BookRequest, i64)>,
    log_b: Seq<(BookRequest, i64)>,
)
    requires
        a == b,
        log_a == log_b,
    ensures
        replay_events(a, log_a) == replay_events(b, log_b),
{
}

} // verus!
