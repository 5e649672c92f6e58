//! One side of the order book: the price-ascending list of levels, with the
//! per-level id indexes used to serve cancels.

use vstd::prelude::*;
use crate::order::LimitOrder;
use crate::events::{BookResult, CancelEvent, opened_result};
use crate::level::{
    BookLevel, LevelModel, level_wf, count_id, insert_pos, find_index, lemma_count_nonneg,
    lemma_count_insert, lemma_count_remove, lemma_insert_pos_props, lemma_find_index_props,
};

verus! {

/// A well-formed side: every level is well formed and the levels are strictly
/// ascending by price, so each price occurs at most once.
pub open spec fn side_wf(ls: Seq<LevelModel>) -> bool {
    &&& forall|i: int| 0 <= i < ls.len() ==> level_wf(#[trigger] ls[i])
    &&& forall|i: int, j: int|
        0 <= i < j < ls.len() ==> (#[trigger] ls[i]).price < (#[trigger] ls[j]).price
}

/// How many orders on the side carry the id `x`, over all levels.
pub open spec fn count_in_side(ls: Seq<LevelModel>, x: u128) -> int
    decreases ls.len(),
{
    if ls.len() == 0 {
        0
    } else {
        count_in_side(ls.drop_last(), x) + count_id(ls.last().orders, x)
    }
}

/// The position of the level priced `price`, or `-1` if none exists.
pub open spec fn find_level(ls: Seq<LevelModel>, price: int) -> int
    decreases ls.len(),
{
    if ls.len() == 0 {
        -1
    } else if ls[0].price == price {
        0
    } else {
        let r = find_level(ls.skip(1), price);
        if r < 0 {
            -1
        } else {
            1 + r
        }
    }
}

/// Where a level priced `price` belongs among the ascending levels.
pub open spec fn level_insert_pos(ls: Seq<LevelModel>, price: int) -> int
    decreases ls.len(),
{
    if ls.len() == 0 {
        0
    } else if price < ls[0].price {
        0
    } else {
        1 + level_insert_pos(ls.skip(1), price)
    }
}

/// The first level holding an order with id `x`, or `-1` if no level does.
pub open spec fn side_level_of_id(ls: Seq<LevelModel>, x: u128) -> int
    decreases ls.len(),
{
    if ls.len() == 0 {
        -1
    } else if find_index(ls[0].orders, x) != -1 {
        0
    } else {
        let r = side_level_of_id(ls.skip(1), x);
        if r < 0 {
            -1
        } else {
            1 + r
        }
    }
}

/// `l` with `o` queued at its place in the time order.
pub open spec fn level_with_order(l: LevelModel, o: LimitOrder) -> LevelModel {
    LevelModel {
        price: l.price,
        size: l.size + o.size,
        orders: l.orders.insert(insert_pos(l.orders, o), o),
        ids: l.ids.insert(insert_pos(l.orders, o), o.id),
    }
}

/// A fresh level holding only `o`.
pub open spec fn singleton_level(o: LimitOrder) -> LevelModel {
    LevelModel {
        price: o.price as int,
        size: o.size as int,
        orders: seq![o],
        ids: seq![o.id],
    }
}

/// `l` with its first order carrying id `x` removed.
pub open spec fn level_without_id(l: LevelModel, x: u128) -> LevelModel {
    let k = find_index(l.orders, x);
    LevelModel {
        price: l.price,
        size: l.size - l.orders[k].size,
        orders: l.orders.remove(k),
        ids: l.ids.remove(k),
    }
}

/// The side after opening `o`: the order joins the level at its price, which
/// is created at its ascending position if absent.
pub open spec fn side_open_spec(ls: Seq<LevelModel>, o: LimitOrder) -> Seq<LevelModel> {
    let li = find_level(ls, o.price as int);
    if li < 0 {
        ls.insert(level_insert_pos(ls, o.price as int), singleton_level(o))
    } else {
        ls.update(li, level_with_order(ls[li], o))
    }
}

/// The side after canceling id `x`: the first order carrying it leaves its
/// level; nothing changes when the side does not hold it.
pub open spec fn side_cancel_spec(ls: Seq<LevelModel>, x: u128) -> Seq<LevelModel> {
    let li = side_level_of_id(ls, x);
    if li < 0 {
        ls
    } else {
        ls.update(li, level_without_id(ls[li], x))
    }
}

/// The order that a cancel of `x` removes; meaningful when some level holds it.
pub open spec fn canceled_order_spec(ls: Seq<LevelModel>, x: u128) -> LimitOrder {
    let li = side_level_of_id(ls, x);
    ls[li].orders[find_index(ls[li].orders, x)]
}

pub proof fn lemma_count_side_nonneg(ls: Seq<LevelModel>, x: u128)
    ensures
        count_in_side(ls, x) >= 0,
    decreases ls.len(),
{
    if ls.len() > 0 {
        lemma_count_side_nonneg(ls.drop_last(), x);
        lemma_count_nonneg(ls.last().orders, x);
    }
}

/// Each single level's count is bounded by the side's count.
pub proof fn lemma_count_side_level(ls: Seq<LevelModel>, i: int, x: u128)
    requires
        0 <= i < ls.len(),
    ensures
        count_id(ls[i].orders, x) <= count_in_side(ls, x),
    decreases ls.len(),
{
    lemma_count_nonneg(ls.last().orders, x);
    lemma_count_side_nonneg(ls.drop_last(), x);
    if i < ls.len() - 1 {
        assert(ls.drop_last()[i] == ls[i]);
        lemma_count_side_level(ls.drop_last(), i, x);
    }
}

pub proof fn lemma_count_side_update(ls: Seq<LevelModel>, i: int, l: LevelModel, x: u128)
    requires
        0 <= i < ls.len(),
    ensures
        count_in_side(ls.update(i, l), x) == count_in_side(ls, x) - count_id(ls[i].orders, x)
            + count_id(l.orders, x),
    decreases ls.len(),
{
    if i == ls.len() - 1 {
        assert(ls.update(i, l).drop_last() =~= ls.drop_last());
        assert(ls.update(i, l).last() == l);
    } else {
        assert(ls.update(i, l).drop_last() =~= ls.drop_last().update(i, l));
        assert(ls.update(i, l).last() == ls.last());
        lemma_count_side_update(ls.drop_last(), i, l, x);
    }
}

pub proof fn lemma_count_side_insert(ls: Seq<LevelModel>, i: int, l: LevelModel, x: u128)
    requires
        0 <= i <= ls.len(),
    ensures
        count_in_side(ls.insert(i, l), x) == count_in_side(ls, x) + count_id(l.orders, x),
    decreases ls.len(),
{
    ls.insert_ensures(i, l);
    if i == ls.len() {
        assert(ls.insert(i, l).drop_last() =~= ls);
        assert(ls.insert(i, l).last() == l);
    } else {
        assert(ls.insert(i, l).drop_last() =~= ls.drop_last().insert(i, l));
        assert(ls.insert(i, l).last() == ls.last());
        lemma_count_side_insert(ls.drop_last(), i, l, x);
    }
}

/// Characterizes `find_level` at a position whose price is not seen earlier.
pub proof fn lemma_find_level_found(ls: Seq<LevelModel>, i: int)
    requires
        0 <= i < ls.len(),
        forall|k: int| 0 <= k < i ==> (#[trigger] ls[k]).price != ls[i].price,
    ensures
        find_level(ls, ls[i].price) == i,
    decreases ls.len(),
{
    if ls[0].price == ls[i].price {
        assert(i == 0);
    } else {
        assert(i >= 1);
        assert(forall|k: int| 0 <= k < ls.len() - 1 ==> ls.skip(1)[k] == (#[trigger] ls[k + 1]));
        assert forall|k: int| 0 <= k < i - 1 implies (#[trigger] ls.skip(1)[k]).price != ls.skip(
            1,
        )[i - 1].price by {
            assert(ls.skip(1)[k] == ls[k + 1]);
            assert(ls.skip(1)[i - 1] == ls[i]);
        }
        assert(ls.skip(1)[i - 1] == ls[i]);
        lemma_find_level_found(ls.skip(1), i - 1);
    }
}

pub proof fn lemma_find_level_none(ls: Seq<LevelModel>, price: int)
    requires
        forall|k: int| 0 <= k < ls.len() ==> (#[trigger] ls[k]).price != price,
    ensures
        find_level(ls, price) == -1,
    decreases ls.len(),
{
    if ls.len() > 0 {
        assert(forall|k: int| 0 <= k < ls.len() - 1 ==> ls.skip(1)[k] == (#[trigger] ls[k + 1]));
        lemma_find_level_none(ls.skip(1), price);
    }
}

/// `find_level` lands on a level with the price it was asked for.
pub proof fn lemma_find_level_props(ls: Seq<LevelModel>, price: int)
    ensures
        find_level(ls, price) != -1 ==> {
            &&& 0 <= find_level(ls, price) < ls.len()
            &&& ls[find_level(ls, price)].price == price
        },
    decreases ls.len(),
{
    if ls.len() > 0 && ls[0].price != price {
        lemma_find_level_props(ls.skip(1), price);
        let r = find_level(ls.skip(1), price);
        if r >= 0 {
            assert(ls.skip(1)[r] == ls[1 + r]);
        }
    }
}

pub proof fn lemma_level_insert_pos_char(ls: Seq<LevelModel>, price: int, i: int)
    requires
        0 <= i <= ls.len(),
        forall|k: int| 0 <= k < i ==> (#[trigger] ls[k]).price < price,
        i < ls.len() ==> price < ls[i].price,
    ensures
        level_insert_pos(ls, price) == i,
    decreases ls.len(),
{
    if ls.len() == 0 {
    } else if price < ls[0].price {
        assert(i == 0);
    } else {
        assert(i >= 1);
        assert(forall|k: int| 0 <= k < ls.len() - 1 ==> ls.skip(1)[k] == (#[trigger] ls[k + 1]));
        assert forall|k: int| 0 <= k < i - 1 implies (#[trigger] ls.skip(1)[k]).price < price by {
            assert(ls.skip(1)[k] == ls[k + 1]);
        }
        if i - 1 < ls.len() - 1 {
            assert(ls.skip(1)[i - 1] == ls[i]);
        }
        lemma_level_insert_pos_char(ls.skip(1), price, i - 1);
    }
}

/// Characterizes `side_level_of_id` as the first level holding `x`.
pub proof fn lemma_side_level_of_id_char(ls: Seq<LevelModel>, x: u128, i: int)
    requires
        0 <= i < ls.len(),
        forall|k: int| 0 <= k < i ==> find_index((#[trigger] ls[k]).orders, x) == -1,
        find_index(ls[i].orders, x) != -1,
    ensures
        side_level_of_id(ls, x) == i,
    decreases ls.len(),
{
    if find_index(ls[0].orders, x) != -1 {
        assert(i == 0);
    } else {
        assert(i >= 1);
        assert(forall|k: int| 0 <= k < ls.len() - 1 ==> ls.skip(1)[k] == (#[trigger] ls[k + 1]));
        assert forall|k: int| 0 <= k < i - 1 implies find_index(
            (#[trigger] ls.skip(1)[k]).orders,
            x,
        ) == -1 by {
            assert(ls.skip(1)[k] == ls[k + 1]);
        }
        assert(ls.skip(1)[i - 1] == ls[i]);
        lemma_side_level_of_id_char(ls.skip(1), x, i - 1);
    }
}

pub proof fn lemma_side_level_of_id_none(ls: Seq<LevelModel>, x: u128)
    requires
        forall|k: int| 0 <= k < ls.len() ==> find_index((#[trigger] ls[k]).orders, x) == -1,
    ensures
        side_level_of_id(ls, x) == -1,
    decreases ls.len(),
{
    if ls.len() > 0 {
        assert(forall|k: int| 0 <= k < ls.len() - 1 ==> ls.skip(1)[k] == (#[trigger] ls[k + 1]));
        lemma_side_level_of_id_none(ls.skip(1), x);
    }
}

/// Updating one level in place, without changing its price, keeps the side
/// well formed.
pub proof fn lemma_side_update_wf(ls: Seq<LevelModel>, i: int, l: LevelModel)
    requires
        side_wf(ls),
        0 <= i < ls.len(),
        level_wf(l),
        l.price == ls[i].price,
    ensures
        side_wf(ls.update(i, l)),
{
    let t = ls.update(i, l);
    assert forall|a: int, b: int| 0 <= a < b < t.len() implies (#[trigger] t[a]).price < (
    #[trigger] t[b]).price by {
        assert(ls[a].price < ls[b].price);
    }
}

/// Inserting a well-formed level at its price boundary keeps the side well
/// formed.
pub proof fn lemma_side_insert_wf(ls: Seq<LevelModel>, i: int, l: LevelModel)
    requires
        side_wf(ls),
        0 <= i <= ls.len(),
        level_wf(l),
        forall|k: int| 0 <= k < i ==> (#[trigger] ls[k]).price < l.price,
        i < ls.len() ==> l.price < ls[i].price,
    ensures
        side_wf(ls.insert(i, l)),
{
    let t = ls.insert(i, l);
    ls.insert_ensures(i, l);
    assert forall|a: int, b: int| 0 <= a < b < t.len() implies (#[trigger] t[a]).price < (
    #[trigger] t[b]).price by {
        if a < i && b == i {
            assert(t[a] == ls[a] && t[b] == l);
        } else if a == i && b > i {
            assert(t[a] == l && t[b] == ls[b - 1]);
            assert(b - 1 >= i);
            if b - 1 > i {
                assert(ls[i].price < ls[b - 1].price);
            }
        } else if a < i && b > i {
            assert(t[a] == ls[a] && t[b] == ls[b - 1]);
            if b - 1 > i {
                assert(ls[i].price < ls[b - 1].price);
            }
        } else if a > i && b > i {
            assert(t[a] == ls[a - 1] && t[b] == ls[b - 1]);
        } else {
            assert(a < i && b < i);
            assert(t[a] == ls[a] && t[b] == ls[b]);
        }
    }
}


/// The levels that matching may visit, ascending by price: every level with
/// a positive aggregate, empty ones skipped.
pub open spec fn live_asc(ls: Seq<LevelModel>) -> Seq<LevelModel>
    decreases ls.len(),
{
    if ls.len() == 0 {
        Seq::empty()
    } else {
        (if ls[0].size > 0 {
            seq![ls[0]]
        } else {
            Seq::empty()
        }) + live_asc(ls.skip(1))
    }
}

/// The levels that matching may visit, descending by price.
pub open spec fn live_desc(ls: Seq<LevelModel>) -> Seq<LevelModel>
    decreases ls.len(),
{
    if ls.len() == 0 {
        Seq::empty()
    } else {
        (if ls.last().size > 0 {
            seq![ls.last()]
        } else {
            Seq::empty()
        }) + live_desc(ls.drop_last())
    }
}

proof fn lemma_live_asc_snoc(ls: Seq<LevelModel>, l: LevelModel)
    ensures
        live_asc(ls.push(l)) == live_asc(ls) + (if l.size > 0 {
            seq![l]
        } else {
            Seq::<LevelModel>::empty()
        }),
    decreases ls.len(),
{
    let tail = if l.size > 0 {
        seq![l]
    } else {
        Seq::<LevelModel>::empty()
    };
    if ls.len() == 0 {
        assert(ls.push(l)[0] == l);
        assert(ls.push(l).skip(1) =~= Seq::<LevelModel>::empty());
        assert(live_asc(ls.push(l).skip(1)) == Seq::<LevelModel>::empty());
        assert(live_asc(ls.push(l)) == tail + Seq::<LevelModel>::empty());
        assert(live_asc(ls) == Seq::<LevelModel>::empty());
        assert(tail + Seq::<LevelModel>::empty() =~= Seq::<LevelModel>::empty() + tail);
    } else {
        assert(ls.push(l)[0] == ls[0]);
        assert(ls.push(l).skip(1) =~= ls.skip(1).push(l));
        lemma_live_asc_snoc(ls.skip(1), l);
        let head = if ls[0].size > 0 {
            seq![ls[0]]
        } else {
            Seq::<LevelModel>::empty()
        };
        assert(live_asc(ls.push(l)) == head + (live_asc(ls.skip(1)) + tail));
        assert(head + (live_asc(ls.skip(1)) + tail) =~= (head + live_asc(ls.skip(1))) + tail);
    }
}

proof fn lemma_live_desc_cons(ls: Seq<LevelModel>, l: LevelModel)
    ensures
        live_desc(ls.insert(0, l)) == live_desc(ls) + (if l.size > 0 {
            seq![l]
        } else {
            Seq::<LevelModel>::empty()
        }),
    decreases ls.len(),
{
    let tail = if l.size > 0 {
        seq![l]
    } else {
        Seq::<LevelModel>::empty()
    };
    let t = ls.insert(0, l);
    ls.insert_ensures(0, l);
    if ls.len() == 0 {
        assert(t.last() == l);
        assert(t.drop_last() =~= Seq::<LevelModel>::empty());
        assert(live_desc(t.drop_last()) == Seq::<LevelModel>::empty());
        assert(live_desc(t) == tail + Seq::<LevelModel>::empty());
        assert(live_desc(ls) == Seq::<LevelModel>::empty());
        assert(tail + Seq::<LevelModel>::empty() =~= Seq::<LevelModel>::empty() + tail);
    } else {
        assert(t.last() == ls.last());
        assert(t.drop_last() =~= ls.drop_last().insert(0, l));
        lemma_live_desc_cons(ls.drop_last(), l);
        let head = if ls.last().size > 0 {
            seq![ls.last()]
        } else {
            Seq::<LevelModel>::empty()
        };
        assert(live_desc(t) == head + (live_desc(ls.drop_last()) + tail));
        assert(head + (live_desc(ls.drop_last()) + tail) =~= (head + live_desc(ls.drop_last()))
            + tail);
    }
}

/// One side of the book. Levels are kept strictly ascending by price.
#[derive(Debug)]
pub struct Book {
    pub levels: Vec<BookLevel>,
}

impl View for Book {
    type V = Seq<LevelModel>;

    open spec fn view(&self) -> Seq<LevelModel> {
        self.levels@.map_values(|l: BookLevel| l@)
    }
}

/// `level_insert_pos` itself satisfies the boundary description.
pub proof fn lemma_level_insert_pos_props(ls: Seq<LevelModel>, price: int)
    ensures
        0 <= level_insert_pos(ls, price) <= ls.len(),
        forall|k: int|
            0 <= k < level_insert_pos(ls, price) ==> (#[trigger] ls[k]).price <= price,
        level_insert_pos(ls, price) < ls.len() ==> price < ls[level_insert_pos(ls, price)].price,
    decreases ls.len(),
{
    if ls.len() == 0 {
    } else if price < ls[0].price {
    } else {
        lemma_level_insert_pos_props(ls.skip(1), price);
        let p = level_insert_pos(ls, price);
        assert(forall|k: int| 0 <= k < ls.len() - 1 ==> ls.skip(1)[k] == (#[trigger] ls[k + 1]));
        assert forall|k: int| 0 <= k < p implies (#[trigger] ls[k]).price <= price by {
            if k > 0 {
                assert(ls.skip(1)[k - 1] == ls[k]);
            }
        }
        if p < ls.len() {
            assert(ls.skip(1)[p - 1] == ls[p]);
        }
    }
}

impl Book {
    /// An empty side.
    pub fn new() -> (b: Book)
        ensures
            side_wf(b@),
            b@.len() == 0,
    {
        Book { levels: Vec::new() }
    }

    /// Where `price` sits among the ascending levels: `Ok(i)` when level `i`
    /// carries this price, `Err(i)` when none does and `i` is the position
    /// where such a level belongs.
    fn locate_price(&self, price: i64) -> (r: Result<usize, usize>)
        requires
            side_wf(self@),
        ensures
            match r {
                Ok(i) => i < self@.len() && find_level(self@, price as int) == i,
                Err(i) => {
                    &&& i <= self@.len()
                    &&& find_level(self@, price as int) == -1
                    &&& level_insert_pos(self@, price as int) == i
                    &&& forall|k: int| 0 <= k < i ==> (#[trigger] self@[k]).price < price
                    &&& i < self@.len() ==> (price as int) < self@[i as int].price
                },
            },
    {
        let ghost ls = self@;
        let n = self.levels.len();
        let mut i: usize = 0;
        while i < n && self.levels[i].price < price
            invariant
                ls == self@,
                n == self.levels.len(),
                i <= n,
                forall|k: int| 0 <= k < i ==> (#[trigger] ls[k]).price < price,
            decreases n - i,
        {
            proof {
                assert(ls[i as int] == self.levels@[i as int]@);
            }
            i += 1;
        }
        if i < n && self.levels[i].price == price {
            proof {
                assert(ls[i as int] == self.levels@[i as int]@);
                lemma_find_level_found(ls, i as int);
            }
            Ok(i)
        } else {
            proof {
                if i < n {
                    assert(ls[i as int] == self.levels@[i as int]@);
                }
                assert forall|k: int| 0 <= k < ls.len() implies (#[trigger] ls[k]).price
                    != price by {
                    if k == i {
                        assert(ls[i as int].price > price);
                    } else if k > i {
                        assert(ls[i as int].price < ls[k].price);
                    }
                }
                lemma_find_level_none(ls, price as int);
                lemma_level_insert_pos_char(ls, price as int, i as int);
                if i < n {
                    assert((price as int) < ls[i as int].price);
                }
            }
            Err(i)
        }
    }

    /// Places `order` on this side: the level at its price is found or
    /// created at its ascending position, the id joins that level's index,
    /// and the order joins the level's queue. Returns the `Opened` event
    /// describing the resting order.
    pub fn open_order(&mut self, order: LimitOrder) -> (r: BookResult)
        requires
            side_wf(old(self)@),
            0 < order.price,
            0 < order.size,
            count_in_side(old(self)@, order.id) == 0,
        ensures
            side_wf(final(self)@),
            final(self)@ == side_open_spec(old(self)@, order),
            forall|x: u128|
                count_in_side(final(self)@, x) == count_in_side(old(self)@, x) + if x == order.id {
                    1int
                } else {
                    0int
                },
            r == opened_result(order),
    {
        let ghost ls = self@;
        match self.locate_price(order.price) {
            Ok(i) => {
                proof {
                    lemma_find_level_props(ls, order.price as int);
                    assert(ls[i as int].price == order.price);
                    lemma_count_side_level(ls, i as int, order.id);
                    lemma_count_nonneg(ls[i as int].orders, order.id);
                }
                let mut lvl = self.levels.remove(i);
                proof {
                    assert(lvl@ == ls[i as int]);
                }
                let r = lvl.open_order(order);
                proof {
                    assert(lvl@ == level_with_order(ls[i as int], order));
                }
                self.levels.insert(i, lvl);
                proof {
                    assert(self@ =~= ls.update(i as int, level_with_order(ls[i as int], order)));
                    lemma_side_update_wf(ls, i as int, level_with_order(ls[i as int], order));
                    assert forall|x: u128|
                        count_in_side(self@, x) == count_in_side(ls, x) + (if x == order.id {
                            1int
                        } else {
                            0int
                        }) by {
                        lemma_insert_pos_props(ls[i as int].orders, order);
                        lemma_count_side_update(ls, i as int, level_with_order(ls[i as int], order),
                            x);
                        lemma_count_insert(ls[i as int].orders, insert_pos(ls[i as int].orders,
                            order), order, x);
                    }
                }
                r
            },
            Err(i) => {
                let mut lvl = BookLevel::new(order.price);
                let ghost l0 = lvl@;
                let r = lvl.open_order(order);
                proof {
                    assert(l0.orders.insert(0, order) =~= seq![order]);
                    assert(l0.ids.insert(0, order.id) =~= seq![order.id]);
                    assert(lvl@ == singleton_level(order));
                }
                self.levels.insert(i, lvl);
                proof {
                    assert(self@ =~= ls.insert(i as int, singleton_level(order)));
                    lemma_side_insert_wf(ls, i as int, singleton_level(order));
                    assert forall|x: u128|
                        count_in_side(self@, x) == count_in_side(ls, x) + (if x == order.id {
                            1int
                        } else {
                            0int
                        }) by {
                        lemma_count_side_insert(ls, i as int, singleton_level(order), x);
                        lemma_count_insert(Seq::<LimitOrder>::empty(), 0, order, x);
                        assert(singleton_level(order).orders =~= Seq::<LimitOrder>::empty().insert(
                            0, order));
                    }
                }
                r
            },
        }
    }

    /// The first level, in ascending price order, whose id index holds `id`.
    fn find_level_with_id(&self, id: u128) -> (r: Option<usize>)
        requires
            side_wf(self@),
        ensures
            match r {
                Some(i) => {
                    &&& i < self@.len()
                    &&& side_level_of_id(self@, id) == i
                    &&& find_index(self@[i as int].orders, id) != -1
                },
                None => side_level_of_id(self@, id) == -1,
            },
    {
        let ghost ls = self@;
        let n = self.levels.len();
        let mut i: usize = 0;
        while i < n && !self.levels[i].contains_id(id)
            invariant
                ls == self@,
                side_wf(ls),
                n == self.levels.len(),
                i <= n,
                forall|k: int| 0 <= k < n ==> (#[trigger] self.levels@[k])@ == ls[k],
                forall|k: int| 0 <= k < i ==> find_index((#[trigger] ls[k]).orders, id) == -1,
            decreases n - i,
        {
            proof {
                assert(ls[i as int] == self.levels@[i as int]@);
            }
            i += 1;
        }
        if i < n {
            proof {
                assert(ls[i as int] == self.levels@[i as int]@);
                lemma_side_level_of_id_char(ls, id, i as int);
            }
            Some(i)
        } else {
            proof {
                lemma_side_level_of_id_none(ls, id);
            }
            None
        }
    }

    /// Cancels the order with the given id; see [`Book::remove_id`].
    pub fn cancel_order(&mut self, cancel_event: CancelEvent) -> (r: Option<LimitOrder>)
        requires
            side_wf(old(self)@),
        ensures
            side_wf(final(self)@),
            final(self)@ == side_cancel_spec(old(self)@, cancel_event.id),
            side_level_of_id(old(self)@, cancel_event.id) == -1 ==> r == None::<LimitOrder>
                && *final(self) == *old(self),
            side_level_of_id(old(self)@, cancel_event.id) != -1 ==> r == Some(
                canceled_order_spec(old(self)@, cancel_event.id),
            ),
            forall|x: u128|
                count_in_side(final(self)@, x) == count_in_side(old(self)@, x) - if x
                    == cancel_event.id && side_level_of_id(old(self)@, cancel_event.id) != -1 {
                    1int
                } else {
                    0int
                },
    {
        self.remove_id(cancel_event.id)
    }

    /// Removes the order with the given id: the levels are scanned in
    /// ascending price order, each level's id index is consulted, and the
    /// first match is removed from both the index and the queue. Returns the
    /// removed order, or `None` when no level holds the id.
    pub fn remove_id(&mut self, id: u128) -> (r: Option<LimitOrder>)
        requires
            side_wf(old(self)@),
        ensures
            side_wf(final(self)@),
            final(self)@ == side_cancel_spec(old(self)@, id),
            side_level_of_id(old(self)@, id) == -1 ==> r == None::<LimitOrder> && *final(self)
                == *old(self),
            side_level_of_id(old(self)@, id) != -1 ==> r == Some(
                canceled_order_spec(old(self)@, id),
            ),
            forall|x: u128|
                count_in_side(final(self)@, x) == count_in_side(old(self)@, x) - if x == id
                    && side_level_of_id(old(self)@, id) != -1 {
                    1int
                } else {
                    0int
                },
    {
        let ghost ls = self@;
        match self.find_level_with_id(id) {
            None => {
                proof {
                    assert(self@ == side_cancel_spec(ls, id));
                }
                None
            },
            Some(i) => {
                proof {
                    lemma_find_index_props(ls[i as int].orders, id);
                }
                let mut lvl = self.levels.remove(i);
                proof {
                    assert(lvl@ == ls[i as int]);
                }
                let r = lvl.remove_order(id);
                proof {
                    assert(lvl@ == level_without_id(ls[i as int], id));
                }
                self.levels.insert(i, lvl);
                proof {
                    let li = i as int;
                    let k = find_index(ls[li].orders, id);
                    assert(self@ =~= ls.update(li, level_without_id(ls[li], id)));
                    lemma_side_update_wf(ls, li, level_without_id(ls[li], id));
                    assert forall|x: u128|
                        count_in_side(self@, x) == count_in_side(ls, x) - (if x == id {
                            1int
                        } else {
                            0int
                        }) by {
                        lemma_count_side_update(ls, li, level_without_id(ls[li], id), x);
                        lemma_count_remove(ls[li].orders, k, x);
                    }
                }
                r
            },
        }
    }

    /// The `(price, level)` pairs a walk may visit, in ascending price
    /// order, levels with zero aggregate size skipped.
    pub fn levels_ascending(&self) -> (v: Vec<(i64, &BookLevel)>)
        ensures
            v@.len() == live_asc(self@).len(),
            forall|i: int|
                0 <= i < v@.len() ==> (#[trigger] v@[i]).0 == live_asc(self@)[i].price && v@[i].1@
                    == live_asc(self@)[i],
    {
        let ghost ls = self@;
        let n = self.levels.len();
        let mut v: Vec<(i64, &BookLevel)> = Vec::new();
        let mut i: usize = 0;
        while i < n
            invariant
                ls == self@,
                n == self.levels.len(),
                i <= n,
                v@.len() == live_asc(ls.take(i as int)).len(),
                forall|k: int|
                    0 <= k < v@.len() ==> (#[trigger] v@[k]).0 == live_asc(ls.take(i as int))[k].price
                        && v@[k].1@ == live_asc(ls.take(i as int))[k],
            decreases n - i,
        {
            proof {
                assert(ls[i as int] == self.levels@[i as int]@);
            }
            if self.levels[i].size > 0 {
                let lvl = &self.levels[i];
                v.push((lvl.price, lvl));
            }
            proof {
                assert(ls.take(i as int + 1) =~= ls.take(i as int).push(ls[i as int]));
                lemma_live_asc_snoc(ls.take(i as int), ls[i as int]);
            }
            i += 1;
        }
        proof {
            assert(ls.take(n as int) =~= ls);
        }
        v
    }

    /// The `(price, level)` pairs a walk may visit, in descending price
    /// order, levels with zero aggregate size skipped.
    pub fn levels_descending(&self) -> (v: Vec<(i64, &BookLevel)>)
        ensures
            v@.len() == live_desc(self@).len(),
            forall|i: int|
                0 <= i < v@.len() ==> (#[trigger] v@[i]).0 == live_desc(self@)[i].price && v@[i].1@
                    == live_desc(self@)[i],
    {
        let ghost ls = self@;
        let n = self.levels.len();
        let mut v: Vec<(i64, &BookLevel)> = Vec::new();
        let mut i: usize = n;
        while i > 0
            invariant
                ls == self@,
                n == self.levels.len(),
                i <= n,
                v@.len() == live_desc(ls.skip(i as int)).len(),
                forall|k: int|
                    0 <= k < v@.len() ==> (#[trigger] v@[k]).0 == live_desc(ls.skip(i as int))[k].price
                        && v@[k].1@ == live_desc(ls.skip(i as int))[k],
            decreases i,
        {
            i -= 1;
            proof {
                assert(ls[i as int] == self.levels@[i as int]@);
            }
            if self.levels[i].size > 0 {
                let lvl = &self.levels[i];
                v.push((lvl.price, lvl));
            }
            proof {
                assert(ls.skip(i as int) =~= ls.skip(i as int + 1).insert(0, ls[i as int]));
                lemma_live_desc_cons(ls.skip(i as int + 1), ls[i as int]);
            }
        }
        proof {
            assert(ls.skip(0) =~= ls);
        }
        v
    }
}

} // verus!
