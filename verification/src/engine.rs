//! The matching engine: request intake, the book walk under price-time
//! priority, and event emission.

use vstd::prelude::*;
use crate::order::{LimitOrder, OrderDirection};
use crate::events::{
    BookRequest, BookResult, OpenEvent, CancelEvent, CanceledEvent, BounceEvent, BounceReason,
    opened_result, filled_result, make_filled,
};
use crate::level::{
    LevelModel, count_id, find_index, lemma_count_nonneg, lemma_count_member, lemma_count_two,
    lemma_count_zero,
};
use crate::book::{
    Book, side_wf, count_in_side, side_open_spec, side_cancel_spec, canceled_order_spec,
    side_level_of_id, lemma_count_side_nonneg,
};
use crate::clock;

verus! {

/// Whether a resting level takes part in the walk of an incoming order with
/// direction `dir` and limit `limit`: it holds size and its price crosses.
pub open spec fn level_eligible(l: LevelModel, dir: OrderDirection, limit: int) -> bool {
    l.size > 0 && match dir {
        OrderDirection::Bid => l.price <= limit,
        OrderDirection::Ask => l.price >= limit,
    }
}

/// The candidate orders for an incoming bid: eligible ask levels in
/// ascending price order, each level's queue earliest-first.
pub open spec fn cands_asc(ls: Seq<LevelModel>, limit: int) -> Seq<LimitOrder>
    decreases ls.len(),
{
    if ls.len() == 0 {
        Seq::empty()
    } else {
        (if level_eligible(ls[0], OrderDirection::Bid, limit) {
            ls[0].orders
        } else {
            Seq::empty()
        }) + cands_asc(ls.skip(1), limit)
    }
}

/// The candidate orders for an incoming ask: eligible bid levels in
/// descending price order, each level's queue earliest-first.
pub open spec fn cands_desc(ls: Seq<LevelModel>, limit: int) -> Seq<LimitOrder>
    decreases ls.len(),
{
    if ls.len() == 0 {
        Seq::empty()
    } else {
        (if level_eligible(ls.last(), OrderDirection::Ask, limit) {
            ls.last().orders
        } else {
            Seq::empty()
        }) + cands_desc(ls.drop_last(), limit)
    }
}

/// The orders of the opposite side that an incoming order may match, in the
/// exact order the walk visits them: best price first, earliest first within
/// a price.
pub open spec fn side_candidates(ls: Seq<LevelModel>, dir: OrderDirection, limit: int) -> Seq<
    LimitOrder,
> {
    match dir {
        OrderDirection::Bid => cands_asc(ls, limit),
        OrderDirection::Ask => cands_desc(ls, limit),
    }
}

proof fn lemma_cands_asc_snoc(ls: Seq<LevelModel>, l: LevelModel, limit: int)
    ensures
        cands_asc(ls.push(l), limit) == cands_asc(ls, limit) + (if level_eligible(
            l,
            OrderDirection::Bid,
            limit,
        ) {
            l.orders
        } else {
            Seq::<LimitOrder>::empty()
        }),
    decreases ls.len(),
{
    let tail = if level_eligible(l, OrderDirection::Bid, limit) {
        l.orders
    } else {
        Seq::<LimitOrder>::empty()
    };
    if ls.len() == 0 {
        assert(ls.push(l)[0] == l);
        assert(ls.push(l).skip(1) =~= Seq::<LevelModel>::empty());
        assert(cands_asc(ls.push(l).skip(1), limit) == Seq::<LimitOrder>::empty());
        assert(cands_asc(ls.push(l), limit) == tail + Seq::<LimitOrder>::empty());
        assert(cands_asc(ls, limit) == Seq::<LimitOrder>::empty());
        assert(tail + Seq::<LimitOrder>::empty() =~= Seq::<LimitOrder>::empty() + tail);
    } else {
        assert(ls.push(l)[0] == ls[0]);
        assert(ls.push(l).skip(1) =~= ls.skip(1).push(l));
        lemma_cands_asc_snoc(ls.skip(1), l, limit);
        let head = if level_eligible(ls[0], OrderDirection::Bid, limit) {
            ls[0].orders
        } else {
            Seq::<LimitOrder>::empty()
        };
        assert(cands_asc(ls.push(l), limit) == head + (cands_asc(ls.skip(1), limit) + tail));
        assert(head + (cands_asc(ls.skip(1), limit) + tail) =~= (head + cands_asc(ls.skip(1), limit))
            + tail);
    }
}

proof fn lemma_cands_desc_cons(ls: Seq<LevelModel>, l: LevelModel, limit: int)
    ensures
        cands_desc(ls.insert(0, l), limit) == cands_desc(ls, limit) + (if level_eligible(
            l,
            OrderDirection::Ask,
            limit,
        ) {
            l.orders
        } else {
            Seq::<LimitOrder>::empty()
        }),
    decreases ls.len(),
{
    let tail = if level_eligible(l, OrderDirection::Ask, limit) {
        l.orders
    } else {
        Seq::<LimitOrder>::empty()
    };
    let t = ls.insert(0, l);
    ls.insert_ensures(0, l);
    if ls.len() == 0 {
        assert(t.last() == l);
        assert(t.drop_last() =~= Seq::<LevelModel>::empty());
        assert(cands_desc(t.drop_last(), limit) == Seq::<LimitOrder>::empty());
        assert(cands_desc(t, limit) == tail + Seq::<LimitOrder>::empty());
        assert(cands_desc(ls, limit) == Seq::<LimitOrder>::empty());
        assert(tail + Seq::<LimitOrder>::empty() =~= Seq::<LimitOrder>::empty() + tail);
    } else {
        assert(t.last() == ls.last());
        assert(t.drop_last() =~= ls.drop_last().insert(0, l));
        lemma_cands_desc_cons(ls.drop_last(), l, limit);
        let head = if level_eligible(ls.last(), OrderDirection::Ask, limit) {
            ls.last().orders
        } else {
            Seq::<LimitOrder>::empty()
        };
        assert(cands_desc(t, limit) == head + (cands_desc(ls.drop_last(), limit) + tail));
        assert(head + (cands_desc(ls.drop_last(), limit) + tail) =~= (head + cands_desc(
            ls.drop_last(),
            limit,
        )) + tail);
    }
}

/// Candidates inherit the levels' guarantees: positive sizes, prices that
/// cross the limit, and ids counted no more often than on the whole side.
pub proof fn lemma_cands_props(ls: Seq<LevelModel>, dir: OrderDirection, limit: int)
    requires
        side_wf(ls),
    ensures
        forall|k: int|
            0 <= k < side_candidates(ls, dir, limit).len() ==> {
                let o = #[trigger] side_candidates(ls, dir, limit)[k];
                &&& 0 < o.size
                &&& 0 < o.price
                &&& level_eligible(
                    LevelModel {
                        price: o.price as int,
                        size: 1,
                        orders: Seq::empty(),
                        ids: Seq::empty(),
                    },
                    dir,
                    limit,
                )
            },
        forall|x: u128|
            #[trigger] count_id(side_candidates(ls, dir, limit), x) <= count_in_side(ls, x),
    decreases ls.len(),
{
    lemma_cands_props_rec(ls, dir, limit);
}

proof fn lemma_count_concat(a: Seq<LimitOrder>, b: Seq<LimitOrder>, x: u128)
    ensures
        count_id(a + b, x) == count_id(a, x) + count_id(b, x),
    decreases b.len(),
{
    if b.len() == 0 {
        assert(a + b =~= a);
    } else {
        assert((a + b).drop_last() =~= a + b.drop_last());
        assert((a + b).last() == b.last());
        lemma_count_concat(a, b.drop_last(), x);
    }
}

proof fn lemma_count_side_cons(ls: Seq<LevelModel>, x: u128)
    requires
        ls.len() > 0,
    ensures
        count_in_side(ls, x) == count_id(ls[0].orders, x) + count_in_side(ls.skip(1), x),
    decreases ls.len(),
{
    if ls.len() == 1 {
        assert(ls.drop_last() =~= Seq::<LevelModel>::empty());
        assert(ls.skip(1) =~= Seq::<LevelModel>::empty());
        assert(ls.last() == ls[0]);
    } else {
        lemma_count_side_cons(ls.drop_last(), x);
        assert(ls.drop_last()[0] == ls[0]);
        assert(ls.skip(1).drop_last() =~= ls.drop_last().skip(1));
        assert(ls.skip(1).last() == ls.last());
    }
}

proof fn lemma_cands_props_rec(ls: Seq<LevelModel>, dir: OrderDirection, limit: int)
    requires
        forall|i: int| 0 <= i < ls.len() ==> crate::level::level_wf(#[trigger] ls[i]),
    ensures
        forall|k: int|
            0 <= k < side_candidates(ls, dir, limit).len() ==> {
                let o = #[trigger] side_candidates(ls, dir, limit)[k];
                &&& 0 < o.size
                &&& 0 < o.price
                &&& level_eligible(
                    LevelModel {
                        price: o.price as int,
                        size: 1,
                        orders: Seq::empty(),
                        ids: Seq::empty(),
                    },
                    dir,
                    limit,
                )
            },
        forall|x: u128|
            #[trigger] count_id(side_candidates(ls, dir, limit), x) <= count_in_side(ls, x),
    decreases ls.len(),
{
    let cs = side_candidates(ls, dir, limit);
    if ls.len() == 0 {
        assert forall|x: u128| #[trigger] count_id(cs, x) <= count_in_side(ls, x) by {
            lemma_count_nonneg(cs, x);
        }
    } else {
        match dir {
            OrderDirection::Bid => {
                let head_level = ls[0];
                let head = if level_eligible(head_level, OrderDirection::Bid, limit) {
                    head_level.orders
                } else {
                    Seq::<LimitOrder>::empty()
                };
                let rest = ls.skip(1);
                assert(forall|i: int| 0 <= i < rest.len() ==> rest[i] == (#[trigger] ls[i + 1]));
                lemma_cands_props_rec(rest, dir, limit);
                let rcs = side_candidates(rest, dir, limit);
                assert(cs == head + rcs);
                assert forall|k: int| 0 <= k < cs.len() implies {
                    let o = #[trigger] cs[k];
                    &&& 0 < o.size
                    &&& 0 < o.price
                    &&& level_eligible(
                        LevelModel {
                            price: o.price as int,
                            size: 1,
                            orders: Seq::empty(),
                            ids: Seq::empty(),
                        },
                        dir,
                        limit,
                    )
                } by {
                    if k < head.len() {
                        assert(cs[k] == head[k]);
                        assert(head_level.orders[k].price == head_level.price);
                    } else {
                        assert(cs[k] == rcs[k - head.len()]);
                    }
                }
                assert forall|x: u128| #[trigger] count_id(cs, x) <= count_in_side(ls, x) by {
                    lemma_count_concat(head, rcs, x);
                    lemma_count_side_cons(ls, x);
                    lemma_count_nonneg(head_level.orders, x);
                    lemma_count_nonneg(head, x);
                }
            },
            OrderDirection::Ask => {
                let last_level = ls.last();
                let head = if level_eligible(last_level, OrderDirection::Ask, limit) {
                    last_level.orders
                } else {
                    Seq::<LimitOrder>::empty()
                };
                let rest = ls.drop_last();
                assert(forall|i: int| 0 <= i < rest.len() ==> rest[i] == (#[trigger] ls[i]));
                lemma_cands_props_rec(rest, dir, limit);
                let rcs = side_candidates(rest, dir, limit);
                assert(cs == head + rcs);
                assert forall|k: int| 0 <= k < cs.len() implies {
                    let o = #[trigger] cs[k];
                    &&& 0 < o.size
                    &&& 0 < o.price
                    &&& level_eligible(
                        LevelModel {
                            price: o.price as int,
                            size: 1,
                            orders: Seq::empty(),
                            ids: Seq::empty(),
                        },
                        dir,
                        limit,
                    )
                } by {
                    if k < head.len() {
                        assert(cs[k] == head[k]);
                        assert(last_level.orders[k].price == last_level.price);
                    } else {
                        assert(cs[k] == rcs[k - head.len()]);
                    }
                }
                assert forall|x: u128| #[trigger] count_id(cs, x) <= count_in_side(ls, x) by {
                    lemma_count_concat(head, rcs, x);
                    lemma_count_nonneg(last_level.orders, x);
                    lemma_count_nonneg(head, x);
                }
            },
        }
    }
}

/// Copies the candidate orders of `book` for an incoming order with the
/// given direction and limit price, in walk order.
fn collect_candidates(book: &Book, dir: OrderDirection, limit: i64) -> (v: Vec<LimitOrder>)
    requires
        side_wf(book@),
    ensures
        v@ == side_candidates(book@, dir, limit as int),
{
    let ghost ls = book@;
    let n = book.levels.len();
    let mut v: Vec<LimitOrder> = Vec::new();
    if matches!(dir, OrderDirection::Bid) {
        let mut i: usize = 0;
        while i < n
            invariant
                ls == book@,
                n == book.levels.len(),
                i <= n,
                v@ == cands_asc(ls.take(i as int), limit as int),
            decreases n - i,
        {
            proof {
                assert(ls[i as int] == book.levels@[i as int]@);
            }
            let eligible = book.levels[i].size > 0 && book.levels[i].price <= limit;
            if eligible {
                let ghost before = v@;
                let orders = &book.levels[i].orders;
                let m = orders.len();
                let mut k: usize = 0;
                while k < m
                    invariant
                        m == orders.len(),
                        k <= m,
                        v@ == before + orders@.take(k as int),
                    decreases m - k,
                {
                    v.push(orders[k]);
                    proof {
                        assert(orders@.take(k as int + 1) =~= orders@.take(k as int).push(
                            orders@[k as int]));
                        assert(v@ =~= before + orders@.take(k as int + 1));
                    }
                    k += 1;
                }
                proof {
                    assert(orders@.take(m as int) =~= orders@);
                }
            }
            proof {
                assert(ls.take(i as int + 1) =~= ls.take(i as int).push(ls[i as int]));
                lemma_cands_asc_snoc(ls.take(i as int), ls[i as int], limit as int);
                if eligible {
                    assert(level_eligible(ls[i as int], OrderDirection::Bid, limit as int));
                    assert(v@ =~= cands_asc(ls.take(i as int + 1), limit as int));
                } else {
                    assert(!level_eligible(ls[i as int], OrderDirection::Bid, limit as int));
                    assert(v@ =~= cands_asc(ls.take(i as int + 1), limit as int));
                }
            }
            i += 1;
        }
        proof {
            assert(ls.take(n as int) =~= ls);
        }
    } else {
        let mut i: usize = n;
        while i > 0
            invariant
                ls == book@,
                n == book.levels.len(),
                i <= n,
                v@ == cands_desc(ls.skip(i as int), limit as int),
            decreases i,
        {
            i -= 1;
            proof {
                assert(ls[i as int] == book.levels@[i as int]@);
            }
            let eligible = book.levels[i].size > 0 && book.levels[i].price >= limit;
            if eligible {
                let ghost before = v@;
                let orders = &book.levels[i].orders;
                let m = orders.len();
                let mut k: usize = 0;
                while k < m
                    invariant
                        m == orders.len(),
                        k <= m,
                        v@ == before + orders@.take(k as int),
                    decreases m - k,
                {
                    v.push(orders[k]);
                    proof {
                        assert(orders@.take(k as int + 1) =~= orders@.take(k as int).push(
                            orders@[k as int]));
                        assert(v@ =~= before + orders@.take(k as int + 1));
                    }
                    k += 1;
                }
                proof {
                    assert(orders@.take(m as int) =~= orders@);
                }
            }
            proof {
                assert(ls.skip(i as int) =~= ls.skip(i as int + 1).insert(0, ls[i as int]));
                lemma_cands_desc_cons(ls.skip(i as int + 1), ls[i as int], limit as int);
                if eligible {
                    assert(level_eligible(ls[i as int], OrderDirection::Ask, limit as int));
                    assert(v@ =~= cands_desc(ls.skip(i as int), limit as int));
                } else {
                    assert(!level_eligible(ls[i as int], OrderDirection::Ask, limit as int));
                    assert(v@ =~= cands_desc(ls.skip(i as int), limit as int));
                }
            }
        }
        proof {
            assert(ls.skip(0) =~= ls);
        }
    }
    v
}

/// One match made by a walk: the resting order and the quantity taken from
/// it.
pub ghost struct Fill {
    pub order: LimitOrder,
    pub size: i64,
}

/// The matches an incoming order makes against the candidates, in walk
/// order. Each candidate is consumed whole while the remainder covers it;
/// the first candidate larger than the remainder is matched partially and
/// the walk stops, as it does once the remainder reaches zero.
pub open spec fn walk_fills(cands: Seq<LimitOrder>, rem: i64) -> Seq<Fill>
    decreases cands.len(),
{
    if rem <= 0 || cands.len() == 0 {
        Seq::empty()
    } else if cands[0].size <= rem {
        seq![Fill { order: cands[0], size: cands[0].size }] + walk_fills(
            cands.skip(1),
            (rem - cands[0].size) as i64,
        )
    } else {
        seq![Fill { order: cands[0], size: rem }]
    }
}

/// The total quantity matched.
pub open spec fn fills_total(fs: Seq<Fill>) -> int
    decreases fs.len(),
{
    if fs.len() == 0 {
        0
    } else {
        fills_total(fs.drop_last()) + fs.last().size
    }
}

/// The ids of the matched resting orders, in walk order.
pub open spec fn fill_ids(fs: Seq<Fill>) -> Seq<u128> {
    fs.map_values(|f: Fill| f.order.id)
}

/// The `Filled` events the walk emits, in walk order.
pub open spec fn fill_events(fs: Seq<Fill>, ts: i64) -> Seq<BookResult> {
    fs.map_values(|f: Fill| filled_result(f.order, f.size, ts))
}

/// Whether the walk ended by matching its last candidate partially.
pub open spec fn walk_partial(fs: Seq<Fill>) -> bool {
    fs.len() > 0 && fs.last().size < fs.last().order.size
}

/// The residual of a partially matched resting order: a fresh id, the
/// remaining size, and the original's price, owner, direction and timestamp,
/// with `parent` naming the original.
pub open spec fn match_residual_spec(fs: Seq<Fill>, id: u128) -> LimitOrder {
    let last = fs.last();
    LimitOrder {
        id: id,
        parent: Some(last.order.id),
        owner: last.order.owner,
        price: last.order.price,
        size: (last.order.size - last.size) as i64,
        direction: last.order.direction,
        timestamp: last.order.timestamp,
    }
}

proof fn lemma_fills_total_singleton(f: Fill)
    ensures
        fills_total(seq![f]) == f.size,
{
    assert(seq![f].drop_last() =~= Seq::<Fill>::empty());
    assert(fills_total(Seq::<Fill>::empty()) == 0);
    assert(seq![f].last() == f);
}

proof fn lemma_fills_total_concat(a: Seq<Fill>, b: Seq<Fill>)
    ensures
        fills_total(a + b) == fills_total(a) + fills_total(b),
    decreases b.len(),
{
    if b.len() == 0 {
        assert(a + b =~= a);
    } else {
        assert((a + b).drop_last() =~= a + b.drop_last());
        assert((a + b).last() == b.last());
        lemma_fills_total_concat(a, b.drop_last());
    }
}

/// The shape of a walk's matches: they consume an exact prefix of the
/// candidates, all but possibly the last are consumed whole, the total never
/// exceeds the remainder, and the walk runs the candidates dry unless it
/// used the remainder up.
pub proof fn lemma_walk_fills_props(cands: Seq<LimitOrder>, rem: i64)
    requires
        0 <= rem,
        forall|k: int| 0 <= k < cands.len() ==> 0 < (#[trigger] cands[k]).size,
    ensures
        walk_fills(cands, rem).len() <= cands.len(),
        forall|j: int|
            0 <= j < walk_fills(cands, rem).len() ==> (#[trigger] walk_fills(cands, rem)[j]).order
                == cands[j],
        forall|j: int|
            0 <= j < walk_fills(cands, rem).len() ==> 0 < (#[trigger] walk_fills(cands, rem)[j]).size
                <= walk_fills(cands, rem)[j].order.size,
        forall|j: int|
            0 <= j < walk_fills(cands, rem).len() - 1 ==> (#[trigger] walk_fills(cands, rem)[j]).size
                == cands[j].size,
        0 <= fills_total(walk_fills(cands, rem)) <= rem,
        walk_partial(walk_fills(cands, rem)) ==> fills_total(walk_fills(cands, rem)) == rem,
        fills_total(walk_fills(cands, rem)) == rem || walk_fills(cands, rem).len() == cands.len(),
    decreases cands.len(),
{
    let fs = walk_fills(cands, rem);
    if rem <= 0 || cands.len() == 0 {
    } else if cands[0].size <= rem {
        let f = Fill { order: cands[0], size: cands[0].size };
        let rem2 = (rem - cands[0].size) as i64;
        let rest = cands.skip(1);
        assert(forall|k: int| 0 <= k < rest.len() ==> rest[k] == (#[trigger] cands[k + 1]));
        lemma_walk_fills_props(rest, rem2);
        let fsr = walk_fills(rest, rem2);
        assert(fs == seq![f] + fsr);
        assert(fs[0] == f);
        assert(forall|j: int| 1 <= j < fs.len() ==> fs[j] == (#[trigger] fsr[j - 1]));
        lemma_fills_total_concat(seq![f], fsr);
        lemma_fills_total_singleton(f);
        if fsr.len() > 0 {
            assert(fs.last() == fsr.last());
        } else {
            assert(fs =~= seq![f]);
            assert(fs.last() == f);
        }
        assert forall|j: int| 0 <= j < fs.len() implies (#[trigger] fs[j]).order == cands[j] by {
            if j >= 1 {
                assert(fs[j] == fsr[j - 1]);
                assert(fsr[j - 1].order == rest[j - 1]);
            }
        }
        assert forall|j: int| 0 <= j < fs.len() - 1 implies (#[trigger] fs[j]).size
            == cands[j].size by {
            if j >= 1 {
                assert(fs[j] == fsr[j - 1]);
                assert(fsr[j - 1].size == rest[j - 1].size);
            }
        }
    } else {
        assert(fs =~= seq![Fill { order: cands[0], size: rem }]);
        assert(fs.last() == Fill { order: cands[0], size: rem });
        lemma_fills_total_singleton(Fill { order: cands[0], size: rem });
        assert(fills_total(fs) == rem);
    }
}

/// Walks the candidates with the given remainder: emits one `Filled` event
/// per match in walk order, records each matched id for removal, and returns
/// the unmatched remainder together with the residual of a partially matched
/// candidate, if any, which takes `counter` as its fresh id.
fn do_fills(
    cands: &Vec<LimitOrder>,
    j: usize,
    rem: i64,
    counter: u128,
    ts: i64,
    events: &mut Vec<BookResult>,
    removals: &mut Vec<u128>,
) -> (r: (i64, Option<LimitOrder>))
    requires
        j <= cands@.len(),
        0 < rem,
        forall|k: int| 0 <= k < cands@.len() ==> 0 < (#[trigger] cands@[k]).size,
    ensures
        ({
            let fs = walk_fills(cands@.skip(j as int), rem);
            &&& final(events)@ == old(events)@ + fill_events(fs, ts)
            &&& final(removals)@ == old(removals)@ + fill_ids(fs)
            &&& r.0 == rem - fills_total(fs)
            &&& r.1 == (if walk_partial(fs) {
                Some(match_residual_spec(fs, counter))
            } else {
                None::<LimitOrder>
            })
        }),
    decreases cands@.len() - j,
{
    let n = cands.len();
    if j == n {
        proof {
            let fs = walk_fills(cands@.skip(j as int), rem);
            assert(cands@.skip(j as int) =~= Seq::<LimitOrder>::empty());
            assert(fs == Seq::<Fill>::empty());
            assert(fill_events(fs, ts) =~= Seq::<BookResult>::empty());
            assert(fill_ids(fs) =~= Seq::<u128>::empty());
            assert(events@ =~= events@ + fill_events(fs, ts));
            assert(removals@ =~= removals@ + fill_ids(fs));
        }
        return (rem, None);
    }
    let m = cands[j];
    let ghost suffix = cands@.skip(j as int);
    proof {
        assert(suffix[0] == m);
        assert(suffix.skip(1) =~= cands@.skip(j as int + 1));
    }
    if m.size <= rem {
        let ghost before_events = events@;
        let ghost before_removals = removals@;
        let ev = make_filled(&m, m.size, ts);
        events.push(ev);
        removals.push(m.id);
        let rem2 = rem - m.size;
        let ghost f = Fill { order: m, size: m.size };
        if rem2 == 0 {
            proof {
                let fs = walk_fills(suffix, rem);
                assert(walk_fills(suffix.skip(1), 0) == Seq::<Fill>::empty());
                assert(fs == seq![f] + Seq::<Fill>::empty());
                assert(fs =~= seq![f]);
                assert(fill_events(fs, ts) =~= seq![filled_result(m, m.size, ts)]);
                assert(fill_ids(fs) =~= seq![m.id]);
                assert(events@ =~= before_events + fill_events(fs, ts));
                assert(removals@ =~= before_removals + fill_ids(fs));
                lemma_fills_total_singleton(f);
                assert(fills_total(fs) == m.size);
                assert(fs.last() == f);
                assert(!walk_partial(fs));
            }
            (0, None)
        } else {
            let r = do_fills(cands, j + 1, rem2, counter, ts, events, removals);
            proof {
                let fs = walk_fills(suffix, rem);
                let fsr = walk_fills(cands@.skip(j as int + 1), rem2);
                assert(fs == seq![f] + fsr);
                assert(fill_events(fs, ts) =~= seq![filled_result(m, m.size, ts)] + fill_events(
                    fsr,
                    ts,
                ));
                assert(fill_ids(fs) =~= seq![m.id] + fill_ids(fsr));
                assert(events@ =~= before_events + fill_events(fs, ts));
                assert(removals@ =~= before_removals + fill_ids(fs));
                lemma_fills_total_concat(seq![f], fsr);
                lemma_fills_total_singleton(f);
                if fsr.len() > 0 {
                    assert(fs.last() == fsr.last());
                    assert(walk_partial(fs) == walk_partial(fsr));
                    if walk_partial(fsr) {
                        assert(match_residual_spec(fs, counter) == match_residual_spec(fsr,
                            counter));
                    }
                } else {
                    assert(fs =~= seq![f]);
                    assert(fs.last() == f);
                    assert(!walk_partial(fs));
                    assert(!walk_partial(fsr));
                }
            }
            r
        }
    } else {
        let ghost before_events = events@;
        let ghost before_removals = removals@;
        let ev = make_filled(&m, rem, ts);
        events.push(ev);
        removals.push(m.id);
        let res = LimitOrder {
            id: counter,
            parent: Some(m.id),
            owner: m.owner,
            price: m.price,
            size: m.size - rem,
            direction: m.direction,
            timestamp: m.timestamp,
        };
        proof {
            let f = Fill { order: m, size: rem };
            let fs = walk_fills(suffix, rem);
            assert(fs == seq![f]);
            assert(fill_events(fs, ts) =~= seq![filled_result(m, rem, ts)]);
            assert(fill_ids(fs) =~= seq![m.id]);
            assert(events@ =~= before_events + fill_events(fs, ts));
            assert(removals@ =~= before_removals + fill_ids(fs));
            lemma_fills_total_singleton(f);
            assert(fills_total(fs) == rem);
            assert(fs.last() == f);
            assert(walk_partial(fs));
            assert(match_residual_spec(fs, counter) == res);
        }
        (0, Some(res))
    }
}


/// The side after removing each id in `ids`, first to last.
pub open spec fn remove_ids_spec(ls: Seq<LevelModel>, ids: Seq<u128>) -> Seq<LevelModel>
    decreases ids.len(),
{
    if ids.len() == 0 {
        ls
    } else {
        remove_ids_spec(side_cancel_spec(ls, ids[0]), ids.skip(1))
    }
}

/// A side holds no order with id `x` exactly when no level is found for it.
pub proof fn lemma_side_count_zero(ls: Seq<LevelModel>, x: u128)
    ensures
        (side_level_of_id(ls, x) == -1) <==> (count_in_side(ls, x) == 0),
    decreases ls.len(),
{
    if ls.len() == 0 {
    } else {
        lemma_count_side_cons(ls, x);
        crate::level::lemma_find_index_props(ls[0].orders, x);
        lemma_count_nonneg(ls[0].orders, x);
        lemma_count_side_nonneg(ls.skip(1), x);
        if find_index(ls[0].orders, x) != -1 {
            lemma_count_member(ls[0].orders, find_index(ls[0].orders, x));
        } else {
            lemma_count_zero(ls[0].orders, x);
            lemma_side_count_zero(ls.skip(1), x);
        }
    }
}

proof fn lemma_contains_take_push(ids: Seq<u128>, j: int, x: u128)
    requires
        0 <= j < ids.len(),
    ensures
        ids.take(j + 1).contains(x) <==> (ids.take(j).contains(x) || ids[j] == x),
{
    assert(ids.take(j + 1) =~= ids.take(j).push(ids[j]));
    if ids.take(j + 1).contains(x) {
        let i = choose|i: int| 0 <= i < j + 1 && #[trigger] ids.take(j + 1)[i] == x;
        if i < j {
            assert(ids.take(j)[i] == x);
        }
    }
    if ids.take(j).contains(x) {
        let i = choose|i: int| 0 <= i < j && #[trigger] ids.take(j)[i] == x;
        assert(ids.take(j + 1)[i] == x);
    }
    if ids[j] == x {
        assert(ids.take(j + 1)[j] == x);
    }
}

/// Deletes every id in `ids` from the side: each is looked up through the
/// id indexes and removed from its level. The ids must be distinct and all
/// present.
fn remove_all(book: &mut Book, ids: &Vec<u128>)
    requires
        side_wf(old(book)@),
        forall|a: int, b: int| 0 <= a < b < ids@.len() ==> (#[trigger] ids@[a]) != (#[trigger] ids@[b]),
        forall|k: int| 0 <= k < ids@.len() ==> count_in_side(old(book)@, #[trigger] ids@[k]) >= 1,
    ensures
        side_wf(final(book)@),
        final(book)@ == remove_ids_spec(old(book)@, ids@),
        forall|x: u128|
            count_in_side(final(book)@, x) == count_in_side(old(book)@, x) - (if ids@.contains(x) {
                1int
            } else {
                0int
            }),
{
    let ghost orig = book@;
    proof {
        assert(ids@.skip(0) =~= ids@);
    }
    let n = ids.len();
    let mut j: usize = 0;
    while j < n
        invariant
            side_wf(book@),
            n == ids@.len(),
            j <= n,
            forall|a: int, b: int| 0 <= a < b < ids@.len() ==> (#[trigger] ids@[a]) != (#[trigger] ids@[b]),
            remove_ids_spec(orig, ids@) == remove_ids_spec(book@, ids@.skip(j as int)),
            forall|x: u128|
                count_in_side(book@, x) == count_in_side(orig, x) - (if ids@.take(
                    j as int,
                ).contains(x) {
                    1int
                } else {
                    0int
                }),
            forall|k: int| j <= k < ids@.len() ==> count_in_side(book@, #[trigger] ids@[k]) >= 1,
        decreases n - j,
    {
        let ghost cur = book@;
        let id = ids[j];
        proof {
            lemma_side_count_zero(cur, id);
        }
        book.remove_id(id);
        proof {
            assert(ids@.skip(j as int)[0] == id);
            assert(ids@.skip(j as int).skip(1) =~= ids@.skip(j as int + 1));
            assert(remove_ids_spec(cur, ids@.skip(j as int)) == remove_ids_spec(
                side_cancel_spec(cur, id),
                ids@.skip(j as int + 1),
            ));
            assert forall|x: u128|
                count_in_side(book@, x) == count_in_side(orig, x) - (if ids@.take(
                    j as int + 1,
                ).contains(x) {
                    1int
                } else {
                    0int
                }) by {
                lemma_contains_take_push(ids@, j as int, x);
                if x == id {
                    if ids@.take(j as int).contains(x) {
                        let a = choose|a: int|
                            0 <= a < j && #[trigger] ids@.take(j as int)[a] == x;
                        assert(ids@[a] == ids@[j as int]);
                        assert(false);
                    }
                }
            }
            assert forall|k: int|
                j + 1 <= k < ids@.len() implies count_in_side(book@, #[trigger] ids@[k])
                >= 1 by {
                assert(ids@[k] != id);
            }
        }
        j += 1;
    }
    proof {
        assert(ids@.take(n as int) =~= ids@);
        assert(ids@.skip(n as int) =~= Seq::<u128>::empty());
    }
}


/// The mathematical content of a whole order book: both sides and the id
/// counter the engine mints from.
pub ghost struct BookModel {
    pub bid: Seq<LevelModel>,
    pub ask: Seq<LevelModel>,
    pub counter: int,
}

/// Id discipline over both sides: every id occurs at most once in the whole
/// book, and every id present was minted below the counter.
pub open spec fn books_counts_ok(bid: Seq<LevelModel>, ask: Seq<LevelModel>, c: int) -> bool {
    forall|x: u128|
        #![trigger count_in_side(bid, x)]
        #![trigger count_in_side(ask, x)]
        {
            &&& count_in_side(bid, x) + count_in_side(ask, x) <= 1
            &&& (count_in_side(bid, x) + count_in_side(ask, x) >= 1 ==> (x as int) < c)
        }
}

/// A well-formed order book: both sides well formed, ids unique across the
/// book, and all ids below the counter.
pub open spec fn book_wf(b: BookModel) -> bool {
    &&& side_wf(b.bid)
    &&& side_wf(b.ask)
    &&& 0 <= b.counter <= u128::MAX
    &&& books_counts_ok(b.bid, b.ask, b.counter)
}

pub proof fn lemma_counts_ok_sym(a: Seq<LevelModel>, b: Seq<LevelModel>, c: int)
    requires
        books_counts_ok(a, b, c),
    ensures
        books_counts_ok(b, a, c),
{
    assert forall|x: u128|
        {
            &&& #[trigger] count_in_side(b, x) + #[trigger] count_in_side(a, x) <= 1
            &&& (count_in_side(b, x) + count_in_side(a, x) >= 1 ==> (x as int) < c)
        } by {
        assert(count_in_side(a, x) + count_in_side(b, x) <= 1);
    }
}

proof fn lemma_fills_total_pos(fs: Seq<Fill>)
    requires
        fs.len() > 0,
        forall|j: int| 0 <= j < fs.len() ==> 0 < (#[trigger] fs[j]).size,
    ensures
        fills_total(fs) > 0,
    decreases fs.len(),
{
    assert(fs.last() == fs[fs.len() - 1]);
    assert(fs[fs.len() - 1].size > 0);
    if fs.len() == 1 {
        assert(fs.drop_last() =~= Seq::<Fill>::empty());
        assert(fills_total(Seq::<Fill>::empty()) == 0);
    } else {
        assert(forall|j: int| 0 <= j < fs.len() - 1 ==> fs.drop_last()[j] == (#[trigger] fs[j]));
        lemma_fills_total_pos(fs.drop_last());
    }
}

/// The incoming order an open request stamps: the minted id, the engine's
/// timestamp, and the request's owner, price, size and direction.
pub open spec fn stamped_order(e: OpenEvent, id: u128, ts: i64) -> LimitOrder {
    LimitOrder {
        id: id,
        parent: None,
        owner: e.owner,
        price: e.price,
        size: e.size,
        direction: e.direction,
        timestamp: ts,
    }
}

/// The residual of a partially matched incoming order: a fresh id, the
/// unmatched remainder, the engine's timestamp, and `parent` naming the
/// incoming order.
pub open spec fn own_residual_spec(o: LimitOrder, rem: int, id: u128, ts: i64) -> LimitOrder {
    LimitOrder {
        id: id,
        parent: Some(o.id),
        owner: o.owner,
        price: o.price,
        size: rem as i64,
        direction: o.direction,
        timestamp: ts,
    }
}

/// What one open does, with the stamped order `o` already minted and `c` the
/// next free id: the order rests on its own side (`.0`), the walk consumes
/// the opposite side (`.1`), ids are minted up to `.2`, and `.3` is the
/// emitted event sequence, in order: `Opened` for the incoming order, one
/// `Filled` per consumed resting order in walk order, at most one `Opened`
/// for the resting residual, a `Filled` for the incoming order when anything
/// matched, and at most one `Opened` for the incoming residual.
pub open spec fn fill_sides_spec(
    own: Seq<LevelModel>,
    opp: Seq<LevelModel>,
    o: LimitOrder,
    ts: i64,
    c: int,
) -> (Seq<LevelModel>, Seq<LevelModel>, int, Seq<BookResult>) {
    let own0 = side_open_spec(own, o);
    let cands = side_candidates(opp, o.direction, o.price as int);
    let fills = walk_fills(cands, o.size);
    let total = fills_total(fills);
    let rem = o.size - total;
    let partial = walk_partial(fills);
    let c1 = if partial {
        c + 1
    } else {
        c
    };
    let opp1 = remove_ids_spec(opp, fill_ids(fills));
    let opp2 = if partial {
        side_open_spec(opp1, match_residual_spec(fills, c as u128))
    } else {
        opp1
    };
    let matched = fills.len() > 0;
    let own1 = if matched {
        side_cancel_spec(own0, o.id)
    } else {
        own0
    };
    let own_res = own_residual_spec(o, rem, c1 as u128, ts);
    let own2 = if matched && rem > 0 {
        side_open_spec(own1, own_res)
    } else {
        own1
    };
    let c2 = if matched && rem > 0 {
        c1 + 1
    } else {
        c1
    };
    let events = seq![opened_result(o)] + fill_events(fills, ts) + (if partial {
        seq![opened_result(match_residual_spec(fills, c as u128))]
    } else {
        Seq::<BookResult>::empty()
    }) + (if matched {
        seq![filled_result(o, total as i64, ts)]
    } else {
        Seq::<BookResult>::empty()
    }) + (if matched && rem > 0 {
        seq![opened_result(own_res)]
    } else {
        Seq::<BookResult>::empty()
    });
    (own2, opp2, c2, events)
}

/// A valid open request: strictly positive price and size.
pub open spec fn valid_open(e: OpenEvent) -> bool {
    0 < e.price && 0 < e.size
}

/// What one valid open request does to the whole book.
pub open spec fn open_model(b: BookModel, e: OpenEvent, ts: i64) -> (BookModel, Seq<BookResult>) {
    let o = stamped_order(e, b.counter as u128, ts);
    if o.direction == OrderDirection::Bid {
        let r = fill_sides_spec(b.bid, b.ask, o, ts, b.counter + 1);
        (BookModel { bid: r.0, ask: r.1, counter: r.2 }, r.3)
    } else {
        let r = fill_sides_spec(b.ask, b.bid, o, ts, b.counter + 1);
        (BookModel { bid: r.1, ask: r.0, counter: r.2 }, r.3)
    }
}

/// What one cancel request does: the bid side is consulted first, then the
/// ask side; an id found nowhere bounces with `OrderNotFound`.
pub open spec fn cancel_model(b: BookModel, e: CancelEvent, ts: i64) -> (
    BookModel,
    Seq<BookResult>,
) {
    if side_level_of_id(b.bid, e.id) != -1 {
        let co = canceled_order_spec(b.bid, e.id);
        (
            BookModel { bid: side_cancel_spec(b.bid, e.id), ask: b.ask, counter: b.counter },
            seq![
                BookResult::Canceled(
                    CanceledEvent { id: co.id, owner: co.owner, parent: co.parent, timestamp: ts },
                ),
            ],
        )
    } else if side_level_of_id(b.ask, e.id) != -1 {
        let co = canceled_order_spec(b.ask, e.id);
        (
            BookModel { bid: b.bid, ask: side_cancel_spec(b.ask, e.id), counter: b.counter },
            seq![
                BookResult::Canceled(
                    CanceledEvent { id: co.id, owner: co.owner, parent: co.parent, timestamp: ts },
                ),
            ],
        )
    } else {
        (
            b,
            seq![
                BookResult::Bounce(
                    BounceEvent {
                        id: Some(e.id),
                        owner: e.owner,
                        reason: BounceReason::OrderNotFound,
                        timestamp: ts,
                    },
                ),
            ],
        )
    }
}

/// What one request does to the book at clock sample `ts`: the returned pair
/// is the next book state and the emitted events.
pub open spec fn process_model(b: BookModel, req: BookRequest, ts: i64) -> (
    BookModel,
    Seq<BookResult>,
) {
    match req {
        BookRequest::Open(e) => if valid_open(e) {
            open_model(b, e, ts)
        } else {
            (
                b,
                seq![
                    BookResult::Bounce(
                        BounceEvent {
                            id: None,
                            owner: e.owner,
                            reason: BounceReason::InvalidOrder,
                            timestamp: ts,
                        },
                    ),
                ],
            )
        },
        BookRequest::Cancel(e) => cancel_model(b, e, ts),
    }
}


/// Executes one stamped incoming order `o` against the pair of sides:
/// `own` is the side `o` rests on, `opp` the side it matches against, and
/// `counter` the engine's id mint, already past `o.id`. Returns the events
/// in emission order; the whole effect equals `fill_sides_spec`.
fn fill_order(
    own: &mut Book,
    opp: &mut Book,
    counter: &mut u128,
    o: LimitOrder,
    ts: i64,
) -> (events: Vec<BookResult>)
    requires
        side_wf(old(own)@),
        side_wf(old(opp)@),
        books_counts_ok(old(own)@, old(opp)@, *old(counter) - 1),
        o.id as int == *old(counter) - 1,
        0 < o.price,
        0 < o.size,
        *old(counter) + 2 <= u128::MAX,
    ensures
        ({
            let r = fill_sides_spec(old(own)@, old(opp)@, o, ts, *old(counter) as int);
            &&& final(own)@ == r.0
            &&& final(opp)@ == r.1
            &&& *final(counter) as int == r.2
            &&& events@ == r.3
            &&& side_wf(final(own)@)
            &&& side_wf(final(opp)@)
            &&& books_counts_ok(final(own)@, final(opp)@, *final(counter) as int)
        }),
{
    let ghost own_s = own@;
    let ghost opp_s = opp@;
    let ghost c0 = *counter;
    proof {
        lemma_count_side_nonneg(own_s, o.id);
        lemma_count_side_nonneg(opp_s, o.id);
        if count_in_side(own_s, o.id) + count_in_side(opp_s, o.id) >= 1 {
            assert((o.id as int) < c0 - 1);
            assert(false);
        }
    }
    let mut events: Vec<BookResult> = Vec::new();
    let ev0 = own.open_order(o);
    events.push(ev0);
    let ghost own_0 = own@;
    let cands = collect_candidates(opp, o.direction, o.price);
    proof {
        lemma_cands_props(opp_s, o.direction, o.price as int);
        lemma_walk_fills_props(cands@, o.size);
        assert(events@ =~= seq![opened_result(o)]);
    }
    let ghost fills = walk_fills(cands@, o.size);
    let mut removals: Vec<u128> = Vec::new();
    let r = do_fills(&cands, 0, o.size, *counter, ts, &mut events, &mut removals);
    let remainder = r.0;
    let match_res = r.1;
    proof {
        assert(cands@.skip(0) =~= cands@);
        assert(events@ == seq![opened_result(o)] + fill_events(fills, ts));
        assert(removals@ == Seq::<u128>::empty() + fill_ids(fills));
        assert(removals@ =~= fill_ids(fills));
        // each removed id names a candidate, so it is present on `opp`
        assert forall|k: int|
            0 <= k < removals@.len() implies count_in_side(opp_s, #[trigger] removals@[k])
            >= 1 by {
            assert(removals@[k] == fills[k].order.id);
            assert(fills[k].order == cands@[k]);
            lemma_count_member(cands@, k);
        }
        // the walk consumes distinct resting orders
        assert forall|a: int, b: int|
            0 <= a < b < removals@.len() implies (#[trigger] removals@[a]) != (
        #[trigger] removals@[b]) by {
            assert(removals@[a] == fills[a].order.id && fills[a].order == cands@[a]);
            assert(removals@[b] == fills[b].order.id && fills[b].order == cands@[b]);
            if cands@[a].id == cands@[b].id {
                lemma_count_two(cands@, a, b);
                lemma_count_side_nonneg(own_s, cands@[a].id);
                assert(count_in_side(opp_s, cands@[a].id) <= 1);
                assert(false);
            }
        }
    }
    remove_all(opp, &removals);
    let ghost opp_1 = opp@;
    match match_res {
        Some(res) => {
            proof {
                assert(walk_partial(fills));
                assert(res == match_residual_spec(fills, c0));
                assert(fills.last() == fills[fills.len() - 1]);
                assert(fills.last().order == cands@[fills.len() - 1]);
                assert(0 < res.size);
                assert(0 < res.price);
                // the residual id is fresh: it was never minted before
                lemma_count_side_nonneg(own_s, res.id);
                lemma_count_side_nonneg(opp_s, res.id);
                if count_in_side(own_s, res.id) + count_in_side(opp_s, res.id) >= 1 {
                    assert((res.id as int) < c0 - 1);
                    assert(false);
                }
                lemma_count_side_nonneg(opp_1, res.id);
                assert(count_in_side(opp_1, res.id) == 0);
            }
            let ev = opp.open_order(res);
            events.push(ev);
            *counter = *counter + 1;
        },
        None => {},
    }
    let ghost opp_2 = opp@;
    let ghost c1 = *counter;
    if remainder < o.size {
        proof {
            lemma_fills_total_pos(fills);
            if fills.len() == 0 {
                assert(fills_total(fills) == 0);
            }
        }
        own.remove_id(o.id);
        let ghost own_1 = own@;
        let ev = make_filled(&o, o.size - remainder, ts);
        events.push(ev);
        if remainder > 0 {
            let res_own = LimitOrder {
                id: *counter,
                parent: Some(o.id),
                owner: o.owner,
                price: o.price,
                size: remainder,
                direction: o.direction,
                timestamp: ts,
            };
            proof {
                // the incoming residual id is fresh on its own side
                lemma_count_side_nonneg(own_s, res_own.id);
                lemma_count_side_nonneg(opp_s, res_own.id);
                if count_in_side(own_s, res_own.id) + count_in_side(opp_s, res_own.id) >= 1 {
                    assert((res_own.id as int) < c0 - 1);
                    assert(false);
                }
                assert(res_own.id != o.id);
                lemma_count_side_nonneg(own_1, res_own.id);
                assert(count_in_side(own_1, res_own.id) == 0);
                assert(res_own == own_residual_spec(o, remainder as int, c1, ts));
            }
            let ev2 = own.open_order(res_own);
            events.push(ev2);
            *counter = *counter + 1;
        }
    } else {
        proof {
            // nothing matched: the remainder is untouched exactly when the
            // walk made no fill
            if fills.len() > 0 {
                lemma_fills_total_pos(fills);
            }
            assert(fills.len() == 0);
            assert(!walk_partial(fills));
        }
    }
    proof {
        let rr = fill_sides_spec(own_s, opp_s, o, ts, c0 as int);
        let total = fills_total(fills);
        let rem = o.size - total;
        let partial = walk_partial(fills);
        let matched = fills.len() > 0;
        assert(remainder == rem);
        if matched {
            lemma_fills_total_pos(fills);
        }
        assert(matched <==> remainder < o.size);
        assert(partial ==> matched);
        assert(own@ == rr.0);
        assert(opp@ == rr.1);
        assert(*counter as int == rr.2);
        assert(events@ =~= rr.3);
        // id discipline over the final sides, pointwise per id
        assert forall|x: u128|
            {
                &&& #[trigger] count_in_side(own@, x) + #[trigger] count_in_side(opp@, x) <= 1
                &&& (count_in_side(own@, x) + count_in_side(opp@, x) >= 1 ==> (x as int) < (
                *counter as int))
            } by {
            lemma_count_side_nonneg(own_s, x);
            lemma_count_side_nonneg(opp_s, x);
            assert(count_in_side(own_s, x) + count_in_side(opp_s, x) <= 1);
            let in_removals: bool = removals@.contains(x);
            if in_removals {
                let k = choose|k: int| 0 <= k < removals@.len() && #[trigger] removals@[k] == x;
                assert(count_in_side(opp_s, x) >= 1);
            }
            lemma_count_side_nonneg(opp_1, x);
            lemma_count_side_nonneg(own@, x);
            lemma_count_side_nonneg(opp@, x);
        }
    }
    events
}


/// The matching engine for one asset: both sides of the book and the
/// counter it mints order ids from. Ids are minted in increasing order, so
/// they are unique and totally ordered within one engine instance.
#[derive(Debug)]
pub struct OrderBook {
    pub bid_book: Book,
    pub ask_book: Book,
    pub counter: u128,
}

impl View for OrderBook {
    type V = BookModel;

    open spec fn view(&self) -> BookModel {
        BookModel { bid: self.bid_book@, ask: self.ask_book@, counter: self.counter as int }
    }
}

impl OrderBook {
    /// An empty book.
    pub fn new() -> (b: OrderBook)
        ensures
            book_wf(b@),
            b@.bid.len() == 0,
            b@.ask.len() == 0,
            b@.counter == 0,
    {
        let b = OrderBook { bid_book: Book::new(), ask_book: Book::new(), counter: 0 };
        proof {
            assert forall|x: u128|
                {
                    &&& #[trigger] count_in_side(b@.bid, x) + #[trigger] count_in_side(b@.ask, x)
                        <= 1
                    &&& (count_in_side(b@.bid, x) + count_in_side(b@.ask, x) >= 1 ==> (x as int)
                        < 0)
                } by {
                assert(count_in_side(b@.bid, x) == 0);
                assert(count_in_side(b@.ask, x) == 0);
            }
        }
        b
    }

    /// Mints the next order id.
    fn get_counter(&mut self) -> (c: u128)
        requires
            old(self).counter < u128::MAX,
        ensures
            c == old(self).counter,
            final(self).counter == old(self).counter + 1,
            final(self).bid_book == old(self).bid_book,
            final(self).ask_book == old(self).ask_book,
    {
        let c = self.counter;
        self.counter = self.counter + 1;
        c
    }

    /// Executes a stamped incoming bid: it rests on the bid side and walks
    /// the ask side.
    fn fill_bid(&mut self, bid: LimitOrder, ts: i64) -> (events: Vec<BookResult>)
        requires
            side_wf(old(self)@.bid),
            side_wf(old(self)@.ask),
            books_counts_ok(old(self)@.bid, old(self)@.ask, old(self)@.counter - 1),
            bid.id as int == old(self)@.counter - 1,
            bid.direction == OrderDirection::Bid,
            0 < bid.price,
            0 < bid.size,
            old(self)@.counter + 2 <= u128::MAX,
        ensures
            ({
                let r = fill_sides_spec(old(self)@.bid, old(self)@.ask, bid, ts, old(self)@.counter);
                &&& final(self)@.bid == r.0
                &&& final(self)@.ask == r.1
                &&& final(self)@.counter == r.2
                &&& events@ == r.3
                &&& side_wf(final(self)@.bid)
                &&& side_wf(final(self)@.ask)
                &&& books_counts_ok(final(self)@.bid, final(self)@.ask, final(self)@.counter)
            }),
    {
        fill_order(&mut self.bid_book, &mut self.ask_book, &mut self.counter, bid, ts)
    }

    /// Executes a stamped incoming ask: it rests on the ask side and walks
    /// the bid side.
    fn fill_ask(&mut self, ask: LimitOrder, ts: i64) -> (events: Vec<BookResult>)
        requires
            side_wf(old(self)@.bid),
            side_wf(old(self)@.ask),
            books_counts_ok(old(self)@.bid, old(self)@.ask, old(self)@.counter - 1),
            ask.id as int == old(self)@.counter - 1,
            ask.direction == OrderDirection::Ask,
            0 < ask.price,
            0 < ask.size,
            old(self)@.counter + 2 <= u128::MAX,
        ensures
            ({
                let r = fill_sides_spec(old(self)@.ask, old(self)@.bid, ask, ts, old(self)@.counter);
                &&& final(self)@.ask == r.0
                &&& final(self)@.bid == r.1
                &&& final(self)@.counter == r.2
                &&& events@ == r.3
                &&& side_wf(final(self)@.bid)
                &&& side_wf(final(self)@.ask)
                &&& books_counts_ok(final(self)@.bid, final(self)@.ask, final(self)@.counter)
            }),
    {
        proof {
            lemma_counts_ok_sym(self@.bid, self@.ask, self@.counter - 1);
        }
        let events = fill_order(&mut self.ask_book, &mut self.bid_book, &mut self.counter, ask, ts);
        proof {
            lemma_counts_ok_sym(self@.ask, self@.bid, self@.counter as int);
        }
        events
    }

    /// Dispatches a stamped order to its own side.
    fn place_order(&mut self, order: LimitOrder, ts: i64) -> (events: Vec<BookResult>)
        requires
            side_wf(old(self)@.bid),
            side_wf(old(self)@.ask),
            books_counts_ok(old(self)@.bid, old(self)@.ask, old(self)@.counter - 1),
            order.id as int == old(self)@.counter - 1,
            0 < order.price,
            0 < order.size,
            old(self)@.counter + 2 <= u128::MAX,
        ensures
            ({
                let r = if order.direction == OrderDirection::Bid {
                    fill_sides_spec(old(self)@.bid, old(self)@.ask, order, ts, old(self)@.counter)
                } else {
                    fill_sides_spec(old(self)@.ask, old(self)@.bid, order, ts, old(self)@.counter)
                };
                &&& (if order.direction == OrderDirection::Bid {
                    final(self)@.bid == r.0 && final(self)@.ask == r.1
                } else {
                    final(self)@.ask == r.0 && final(self)@.bid == r.1
                })
                &&& final(self)@.counter == r.2
                &&& events@ == r.3
                &&& side_wf(final(self)@.bid)
                &&& side_wf(final(self)@.ask)
                &&& books_counts_ok(final(self)@.bid, final(self)@.ask, final(self)@.counter)
            }),
    {
        match order.direction {
            OrderDirection::Bid => self.fill_bid(order, ts),
            OrderDirection::Ask => self.fill_ask(order, ts),
        }
    }

    /// Cancels by id at clock sample `ts`: the bid side is consulted first,
    /// then the ask side; an id found on neither bounces with
    /// `OrderNotFound`. The owner on the request is never a predicate; the
    /// emitted `Canceled` carries the removed order's owner.
    fn cancel_order(&mut self, cancel_event: CancelEvent, ts: i64) -> (events: Vec<BookResult>)
        requires
            book_wf(old(self)@),
        ensures
            book_wf(final(self)@),
            final(self)@ == cancel_model(old(self)@, cancel_event, ts).0,
            events@ == cancel_model(old(self)@, cancel_event, ts).1,
    {
        let ghost b0 = self@;
        let id = cancel_event.id;
        let mut events: Vec<BookResult> = Vec::new();
        proof {
            lemma_side_count_zero(b0.bid, id);
            lemma_side_count_zero(b0.ask, id);
            lemma_count_side_nonneg(b0.bid, id);
            lemma_count_side_nonneg(b0.ask, id);
        }
        if let Some(co) = self.bid_book.cancel_order(cancel_event) {
            events.push(
                BookResult::Canceled(
                    CanceledEvent { id: co.id, owner: co.owner, parent: co.parent, timestamp: ts },
                ),
            );
            proof {
                assert(side_level_of_id(b0.bid, id) != -1);
                assert(events@ =~= cancel_model(b0, cancel_event, ts).1);
                assert forall|x: u128|
                    {
                        &&& #[trigger] count_in_side(self@.bid, x) + #[trigger] count_in_side(
                            self@.ask,
                            x,
                        ) <= 1
                        &&& (count_in_side(self@.bid, x) + count_in_side(self@.ask, x) >= 1 ==> (
                        x as int) < self@.counter)
                    } by {
                    assert(count_in_side(b0.bid, x) + count_in_side(b0.ask, x) <= 1);
                    lemma_count_side_nonneg(self@.bid, x);
                    lemma_count_side_nonneg(self@.ask, x);
                }
            }
            return events;
        }
        if let Some(co) = self.ask_book.cancel_order(cancel_event) {
            events.push(
                BookResult::Canceled(
                    CanceledEvent { id: co.id, owner: co.owner, parent: co.parent, timestamp: ts },
                ),
            );
            proof {
                assert(side_level_of_id(b0.bid, id) == -1);
                assert(side_level_of_id(b0.ask, id) != -1);
                assert(events@ =~= cancel_model(b0, cancel_event, ts).1);
                assert forall|x: u128|
                    {
                        &&& #[trigger] count_in_side(self@.bid, x) + #[trigger] count_in_side(
                            self@.ask,
                            x,
                        ) <= 1
                        &&& (count_in_side(self@.bid, x) + count_in_side(self@.ask, x) >= 1 ==> (
                        x as int) < self@.counter)
                    } by {
                    assert(count_in_side(b0.bid, x) + count_in_side(b0.ask, x) <= 1);
                    lemma_count_side_nonneg(self@.bid, x);
                    lemma_count_side_nonneg(self@.ask, x);
                }
            }
            return events;
        }
        events.push(
            BookResult::Bounce(
                BounceEvent {
                    id: Some(cancel_event.id),
                    owner: cancel_event.owner,
                    reason: BounceReason::OrderNotFound,
                    timestamp: ts,
                },
            ),
        );
        proof {
            assert(side_level_of_id(b0.bid, id) == -1);
            assert(side_level_of_id(b0.ask, id) == -1);
            assert(events@ =~= cancel_model(b0, cancel_event, ts).1);
        }
        events
    }

    /// Processes one request against the book at the given clock sample.
    /// The whole effect, state and events alike, equals `process_model`: the
    /// engine is a pure function of its state, the request and the clock.
    pub fn process_at(&mut self, book_msg: BookRequest, ts: i64) -> (events: Vec<BookResult>)
        requires
            book_wf(old(self)@),
            old(self)@.counter + 3 <= u128::MAX,
        ensures
            book_wf(final(self)@),
            final(self)@ == process_model(old(self)@, book_msg, ts).0,
            events@ == process_model(old(self)@, book_msg, ts).1,
    {
        let ghost b0 = self@;
        match book_msg {
            BookRequest::Open(e) => {
                if e.price <= 0 || e.size <= 0 {
                    let mut events: Vec<BookResult> = Vec::new();
                    events.push(
                        BookResult::Bounce(
                            BounceEvent {
                                id: None,
                                owner: e.owner,
                                reason: BounceReason::InvalidOrder,
                                timestamp: ts,
                            },
                        ),
                    );
                    proof {
                        assert(events@ =~= process_model(b0, book_msg, ts).1);
                    }
                    events
                } else {
                    let c = self.get_counter();
                    let o = LimitOrder {
                        id: c,
                        parent: None,
                        owner: e.owner,
                        price: e.price,
                        size: e.size,
                        direction: e.direction,
                        timestamp: ts,
                    };
                    proof {
                        assert(o == stamped_order(e, b0.counter as u128, ts));
                    }
                    let events = self.place_order(o, ts);
                    proof {
                        assert(final(self)@ == process_model(b0, book_msg, ts).0);
                    }
                    events
                }
            },
            BookRequest::Cancel(e) => self.cancel_order(e, ts),
        }
    }

    /// Processes one request: samples the wall clock once and runs the book
    /// at that sample. For some clock value `ts` the effect equals
    /// `process_model`; everything but the timestamps carried in the events
    /// is independent of the clock.
    pub fn process_request(&mut self, book_msg: BookRequest) -> (events: Vec<BookResult>)
        requires
            book_wf(old(self)@),
            old(self)@.counter + 3 <= u128::MAX,
        ensures
            book_wf(final(self)@),
            exists|ts: i64|
                final(self)@ == process_model(old(self)@, book_msg, ts).0 && events@
                    == #[trigger] process_model(old(self)@, book_msg, ts).1,
    {
        let ts = clock::timestamp();
        let events = self.process_at(book_msg, ts);
        proof {
            assert(final(self)@ == process_model(old(self)@, book_msg, ts).0 && events@
                == process_model(old(self)@, book_msg, ts).1);
        }
        events
    }
}


} // verus!
