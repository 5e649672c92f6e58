//! One price level: the time-ordered queue of orders at a single price,
//! together with its aggregate size and the mirror index of order ids.

use vstd::prelude::*;
use crate::order::{LimitOrder, order_before, order_precedes};
use crate::events::{BookResult, opened_result, make_opened};

verus! {

/// The mathematical content of a price level.
pub ghost struct LevelModel {
    pub price: int,
    pub size: int,
    pub orders: Seq<LimitOrder>,
    pub ids: Seq<u128>,
}

/// The sum of the sizes of a queue of orders.
pub open spec fn sum_sizes(s: Seq<LimitOrder>) -> int
    decreases s.len(),
{
    if s.len() == 0 {
        0
    } else {
        sum_sizes(s.drop_last()) + s.last().size
    }
}

/// How many orders in `s` carry the id `x`.
pub open spec fn count_id(s: Seq<LimitOrder>, x: u128) -> int
    decreases s.len(),
{
    if s.len() == 0 {
        0
    } else {
        count_id(s.drop_last(), x) + if s.last().id == x {
            1int
        } else {
            0int
        }
    }
}

/// The position where `o` belongs in the queue `s` under `order_before`:
/// after every entry not strictly after `o`, before the rest.
pub open spec fn insert_pos(s: Seq<LimitOrder>, o: LimitOrder) -> int
    decreases s.len(),
{
    if s.len() == 0 {
        0
    } else if order_before(o, s[0]) {
        0
    } else {
        1 + insert_pos(s.skip(1), o)
    }
}

/// The position of the order with id `x` in `s`, or `-1` if none holds it.
pub open spec fn find_index(s: Seq<LimitOrder>, x: u128) -> int
    decreases s.len(),
{
    if s.len() == 0 {
        -1
    } else if s[0].id == x {
        0
    } else {
        let r = find_index(s.skip(1), x);
        if r < 0 {
            -1
        } else {
            1 + r
        }
    }
}

/// A well-formed price level: every order carries the level's price and a
/// positive size, the queue is strictly sorted under the total order (so
/// earliest-first, with ids breaking ties), the aggregate equals the sum of
/// the sizes, and the id index mirrors the queue exactly.
pub open spec fn level_wf(l: LevelModel) -> bool {
    &&& 0 < l.price <= i64::MAX
    &&& forall|k: int|
        0 <= k < l.orders.len() ==> (#[trigger] l.orders[k]).price == l.price && 0 < l.orders[k].size
    &&& forall|i: int, j: int|
        0 <= i < j < l.orders.len() ==> order_before(#[trigger] l.orders[i], #[trigger] l.orders[j])
    &&& l.size == sum_sizes(l.orders)
    &&& l.ids.len() == l.orders.len()
    &&& forall|k: int| 0 <= k < l.orders.len() ==> l.ids[k] == (#[trigger] l.orders[k]).id
}

pub proof fn lemma_sum_insert(s: Seq<LimitOrder>, i: int, o: LimitOrder)
    requires
        0 <= i <= s.len(),
    ensures
        sum_sizes(s.insert(i, o)) == sum_sizes(s) + o.size,
    decreases s.len(),
{
    s.insert_ensures(i, o);
    if i == s.len() {
        assert(s.insert(i, o).drop_last() =~= s);
    } else {
        assert(s.insert(i, o).drop_last() =~= s.drop_last().insert(i, o));
        lemma_sum_insert(s.drop_last(), i, o);
    }
}

pub proof fn lemma_sum_remove(s: Seq<LimitOrder>, i: int)
    requires
        0 <= i < s.len(),
    ensures
        sum_sizes(s.remove(i)) == sum_sizes(s) - s[i].size,
    decreases s.len(),
{
    s.remove_ensures(i);
    if i == s.len() - 1 {
        assert(s.remove(i) =~= s.drop_last());
    } else {
        assert(s.remove(i).drop_last() =~= s.drop_last().remove(i));
        lemma_sum_remove(s.drop_last(), i);
    }
}

pub proof fn lemma_sum_nonneg(s: Seq<LimitOrder>)
    requires
        forall|k: int| 0 <= k < s.len() ==> 0 < (#[trigger] s[k]).size,
    ensures
        sum_sizes(s) >= 0,
    decreases s.len(),
{
    if s.len() > 0 {
        lemma_sum_nonneg(s.drop_last());
    }
}

pub proof fn lemma_sum_le_len(s: Seq<LimitOrder>)
    ensures
        sum_sizes(s) <= s.len() * (i64::MAX as int),
    decreases s.len(),
{
    if s.len() > 0 {
        lemma_sum_le_len(s.drop_last());
        assert(s.len() * (i64::MAX as int) == (s.len() - 1) * (i64::MAX as int) + (
        i64::MAX as int)) by (nonlinear_arith);
    }
}

pub proof fn lemma_count_insert(s: Seq<LimitOrder>, i: int, o: LimitOrder, x: u128)
    requires
        0 <= i <= s.len(),
    ensures
        count_id(s.insert(i, o), x) == count_id(s, x) + if o.id == x {
            1int
        } else {
            0int
        },
    decreases s.len(),
{
    s.insert_ensures(i, o);
    if i == s.len() {
        assert(s.insert(i, o).drop_last() =~= s);
    } else {
        assert(s.insert(i, o).drop_last() =~= s.drop_last().insert(i, o));
        lemma_count_insert(s.drop_last(), i, o, x);
    }
}

pub proof fn lemma_count_remove(s: Seq<LimitOrder>, i: int, x: u128)
    requires
        0 <= i < s.len(),
    ensures
        count_id(s.remove(i), x) == count_id(s, x) - if s[i].id == x {
            1int
        } else {
            0int
        },
    decreases s.len(),
{
    s.remove_ensures(i);
    if i == s.len() - 1 {
        assert(s.remove(i) =~= s.drop_last());
    } else {
        assert(s.remove(i).drop_last() =~= s.drop_last().remove(i));
        lemma_count_remove(s.drop_last(), i, x);
    }
}

/// A queue holds no order with id `x` exactly when its count of `x` is zero.
pub proof fn lemma_count_zero(s: Seq<LimitOrder>, x: u128)
    ensures
        count_id(s, x) == 0 <==> forall|k: int| 0 <= k < s.len() ==> (#[trigger] s[k]).id != x,
    decreases s.len(),
{
    if s.len() > 0 {
        lemma_count_zero(s.drop_last(), x);
        lemma_count_nonneg(s, x);
        lemma_count_nonneg(s.drop_last(), x);
        if count_id(s, x) == 0 {
            assert(forall|k: int| 0 <= k < s.len() - 1 ==> s.drop_last()[k] == (#[trigger] s[k]));
        } else {
            if s.last().id != x {
                let k0 = choose|k: int| 0 <= k < s.len() - 1 && (#[trigger] s.drop_last()[k]).id == x;
                assert(s[k0].id == x);
            } else {
                assert(s[s.len() - 1].id == x);
            }
        }
    }
}

pub proof fn lemma_count_nonneg(s: Seq<LimitOrder>, x: u128)
    ensures
        count_id(s, x) >= 0,
    decreases s.len(),
{
    if s.len() > 0 {
        lemma_count_nonneg(s.drop_last(), x);
    }
}

/// An order present at position `i` contributes to the count of its id.
pub proof fn lemma_count_member(s: Seq<LimitOrder>, i: int)
    requires
        0 <= i < s.len(),
    ensures
        count_id(s, s[i].id) >= 1,
    decreases s.len(),
{
    lemma_count_nonneg(s.drop_last(), s[i].id);
    if i < s.len() - 1 {
        assert(s.drop_last()[i] == s[i]);
        lemma_count_member(s.drop_last(), i);
    }
}

/// Two distinct positions with the same id make the count at least two.
pub proof fn lemma_count_two(s: Seq<LimitOrder>, i: int, j: int)
    requires
        0 <= i < j < s.len(),
        s[i].id == s[j].id,
    ensures
        count_id(s, s[i].id) >= 2,
{
    let x = s[i].id;
    lemma_count_remove(s, j, x);
    s.remove_ensures(j);
    assert(s.remove(j)[i] == s[i]);
    lemma_count_member(s.remove(j), i);
}

/// `insert_pos` is the unique boundary between the entries that precede `o`
/// and those that follow it.
pub proof fn lemma_insert_pos_char(s: Seq<LimitOrder>, o: LimitOrder, i: int)
    requires
        0 <= i <= s.len(),
        forall|k: int| 0 <= k < i ==> !order_before(o, #[trigger] s[k]),
        i < s.len() ==> order_before(o, s[i]),
    ensures
        insert_pos(s, o) == i,
    decreases s.len(),
{
    if s.len() == 0 {
    } else if order_before(o, s[0]) {
        assert(i == 0);
    } else {
        assert(!order_before(o, s[0]));
        assert(i >= 1);
        assert(forall|k: int| 0 <= k < i - 1 ==> s.skip(1)[k] == (#[trigger] s[k + 1]));
        assert forall|k: int| 0 <= k < i - 1 implies !order_before(o, #[trigger] s.skip(1)[k]) by {
            assert(s.skip(1)[k] == s[k + 1]);
        }
        if i - 1 < s.skip(1).len() {
            assert(s.skip(1)[i - 1] == s[i]);
        }
        lemma_insert_pos_char(s.skip(1), o, i - 1);
    }
}

/// `insert_pos` itself satisfies the boundary description it is unique for.
pub proof fn lemma_insert_pos_props(s: Seq<LimitOrder>, o: LimitOrder)
    ensures
        0 <= insert_pos(s, o) <= s.len(),
        forall|k: int| 0 <= k < insert_pos(s, o) ==> !order_before(o, #[trigger] s[k]),
        insert_pos(s, o) < s.len() ==> order_before(o, s[insert_pos(s, o)]),
    decreases s.len(),
{
    if s.len() == 0 {
    } else if order_before(o, s[0]) {
    } else {
        lemma_insert_pos_props(s.skip(1), o);
        let p = insert_pos(s, o);
        assert(forall|k: int| 0 <= k < s.len() - 1 ==> s.skip(1)[k] == (#[trigger] s[k + 1]));
        assert forall|k: int| 0 <= k < p implies !order_before(o, #[trigger] s[k]) by {
            if k > 0 {
                assert(s.skip(1)[k - 1] == s[k]);
            }
        }
        if p < s.len() {
            assert(s.skip(1)[p - 1] == s[p]);
        }
    }
}

/// Inserting an order with a fresh id at its boundary position keeps the
/// level well formed and grows the aggregate by the order's size.
pub proof fn lemma_level_insert_wf(l: LevelModel, o: LimitOrder)
    requires
        level_wf(l),
        o.price == l.price,
        0 < o.size,
        count_id(l.orders, o.id) == 0,
    ensures
        level_wf(
            LevelModel {
                price: l.price,
                size: l.size + o.size,
                orders: l.orders.insert(insert_pos(l.orders, o), o),
                ids: l.ids.insert(insert_pos(l.orders, o), o.id),
            },
        ),
{
    let s = l.orders;
    let p = insert_pos(s, o);
    lemma_insert_pos_props(s, o);
    s.insert_ensures(p, o);
    l.ids.insert_ensures(p, o.id);
    lemma_sum_insert(s, p, o);
    lemma_count_zero(s, o.id);
    let t = s.insert(p, o);
    assert forall|a: int, b: int| 0 <= a < b < t.len() implies order_before(
        #[trigger] t[a],
        #[trigger] t[b],
    ) by {
        if a < p && b == p {
            assert(t[a] == s[a] && t[b] == o);
            crate::order::lemma_order_trichotomy(s[a], o);
        } else if a < p && b > p {
            assert(t[a] == s[a] && t[b] == s[b - 1]);
        } else if a == p && b > p {
            assert(t[a] == o && t[b] == s[b - 1]);
        } else if a > p && b > p {
            assert(t[a] == s[a - 1] && t[b] == s[b - 1]);
        } else {
            assert(a < p && b < p);
            assert(t[a] == s[a] && t[b] == s[b]);
        }
    }
}

/// What `find_index` returns: either `-1` with no occurrence of `x`, or the
/// first position holding `x`.
pub proof fn lemma_find_index_props(s: Seq<LimitOrder>, x: u128)
    ensures
        find_index(s, x) == -1 ==> forall|k: int| 0 <= k < s.len() ==> (#[trigger] s[k]).id != x,
        find_index(s, x) != -1 ==> {
            &&& 0 <= find_index(s, x) < s.len()
            &&& s[find_index(s, x)].id == x
            &&& forall|k: int| 0 <= k < find_index(s, x) ==> (#[trigger] s[k]).id != x
        },
    decreases s.len(),
{
    if s.len() == 0 {
    } else if s[0].id == x {
    } else {
        lemma_find_index_props(s.skip(1), x);
        assert(forall|k: int| 0 <= k < s.len() - 1 ==> s.skip(1)[k] == (#[trigger] s[k + 1]));
        let r = find_index(s.skip(1), x);
        if r < 0 {
            assert forall|k: int| 0 <= k < s.len() implies (#[trigger] s[k]).id != x by {
                if k > 0 {
                    assert(s.skip(1)[k - 1] == s[k]);
                }
            }
        } else {
            assert(s[1 + r] == s.skip(1)[r]);
            assert forall|k: int| 0 <= k < 1 + r implies (#[trigger] s[k]).id != x by {
                if k > 0 {
                    assert(s.skip(1)[k - 1] == s[k]);
                }
            }
        }
    }
}

/// A price level on one side of the book.
///
/// `size` is the aggregate of the sizes of the queued orders; `ids` mirrors
/// the ids of `orders`, position by position, and serves as the cancel
/// lookup index.
#[derive(Debug)]
pub struct BookLevel {
    pub price: i64,
    pub size: i128,
    pub orders: Vec<LimitOrder>,
    pub ids: Vec<u128>,
}

impl View for BookLevel {
    type V = LevelModel;

    open spec fn view(&self) -> LevelModel {
        LevelModel {
            price: self.price as int,
            size: self.size as int,
            orders: self.orders@,
            ids: self.ids@,
        }
    }
}

impl BookLevel {
    /// An empty level at the given price.
    pub fn new(price: i64) -> (l: BookLevel)
        requires
            0 < price,
        ensures
            level_wf(l@),
            l@.price == price,
            l@.orders.len() == 0,
            l@.size == 0,
    {
        BookLevel { price, size: 0, orders: Vec::new(), ids: Vec::new() }
    }

    /// Queues `order` at its place in the time order and grows the aggregate
    /// by its size. The order must carry this level's price, a positive size,
    /// and an id not already present.
    pub fn open_order(&mut self, order: LimitOrder) -> (r: BookResult)
        requires
            level_wf(old(self)@),
            order.price == old(self)@.price,
            0 < order.size,
            count_id(old(self)@.orders, order.id) == 0,
        ensures
            level_wf(final(self)@),
            final(self)@.price == old(self)@.price,
            final(self)@.orders == old(self)@.orders.insert(
                insert_pos(old(self)@.orders, order),
                order,
            ),
            final(self)@.ids == old(self)@.ids.insert(
                insert_pos(old(self)@.orders, order),
                order.id,
            ),
            final(self)@.size == old(self)@.size + order.size,
            r == opened_result(order),
    {
        let ghost s = self@.orders;
        let ghost l = self@;
        let n = self.orders.len();
        let mut i: usize = 0;
        while i < n && !order_precedes(&order, &self.orders[i])
            invariant
                *self == *old(self),
                s == self@.orders,
                n == self.orders.len(),
                i <= n,
                forall|k: int| 0 <= k < i ==> !order_before(order, #[trigger] s[k]),
            decreases n - i,
        {
            i += 1;
        }
        proof {
            lemma_insert_pos_char(s, order, i as int);
            lemma_level_insert_wf(l, order);
            lemma_sum_nonneg(s);
            lemma_sum_le_len(s);
            assert(s.len() <= usize::MAX);
            assert(usize::MAX as int <= u64::MAX as int);
            assert((u64::MAX as int) * (i64::MAX as int) + (i64::MAX as int) < i128::MAX)
                by (nonlinear_arith);
            assert(s.len() * (i64::MAX as int) <= (u64::MAX as int) * (i64::MAX as int))
                by (nonlinear_arith)
                requires
                    s.len() <= u64::MAX as int,
            ;
            lemma_sum_insert(s, i as int, order);
        }
        self.orders.insert(i, order);
        self.ids.insert(i, order.id);
        self.size = self.size + (order.size as i128);
        make_opened(&order)
    }

    /// Whether an order with id `id` is queued here, answered from the id
    /// index alone.
    pub fn contains_id(&self, id: u128) -> (r: bool)
        requires
            level_wf(self@),
        ensures
            r == (find_index(self@.orders, id) != -1),
    {
        let ghost s = self@.orders;
        let mut i: usize = 0;
        while i < self.ids.len()
            invariant
                level_wf(self@),
                s == self@.orders,
                i <= self.ids.len(),
                forall|k: int| 0 <= k < i ==> (#[trigger] s[k]).id != id,
            decreases self.ids.len() - i,
        {
            if self.ids[i] == id {
                proof {
                    assert(s[i as int].id == id);
                    lemma_find_index_props(s, id);
                    if find_index(s, id) == -1 {
                        assert(s[i as int].id != id);
                    }
                }
                return true;
            }
            i += 1;
        }
        proof {
            lemma_find_index_props(s, id);
            if find_index(s, id) != -1 {
                assert(s[find_index(s, id)].id != id);
            }
        }
        false
    }

    /// The position of the order with id `id`, if one is queued here.
    fn position_of_id(&self, id: u128) -> (r: Option<usize>)
        requires
            level_wf(self@),
        ensures
            match r {
                Some(k) => k == find_index(self@.orders, id) && k < self@.orders.len(),
                None => find_index(self@.orders, id) == -1,
            },
    {
        let ghost s = self@.orders;
        let mut i: usize = 0;
        while i < self.orders.len()
            invariant
                level_wf(self@),
                s == self@.orders,
                i <= self.orders.len(),
                forall|k: int| 0 <= k < i ==> (#[trigger] s[k]).id != id,
            decreases self.orders.len() - i,
        {
            if self.orders[i].id == id {
                proof {
                    lemma_find_index_props(s, id);
                    if find_index(s, id) == -1 {
                        assert(s[i as int].id != id);
                    }
                    if find_index(s, id) < i {
                        assert(s[find_index(s, id)].id != id);
                    }
                    if find_index(s, id) > i {
                        assert(s[i as int].id != id);
                    }
                }
                return Some(i);
            }
            i += 1;
        }
        proof {
            lemma_find_index_props(s, id);
            if find_index(s, id) != -1 {
                assert(s[find_index(s, id)].id != id);
            }
        }
        None
    }

    /// Removes and returns the order with id `id`, shrinking the aggregate by
    /// its size; `None` and no change when no such order is queued here.
    pub fn remove_order(&mut self, id: u128) -> (r: Option<LimitOrder>)
        requires
            level_wf(old(self)@),
        ensures
            level_wf(final(self)@),
            final(self)@.price == old(self)@.price,
            find_index(old(self)@.orders, id) == -1 ==> r == None::<LimitOrder> && *final(self)
                == *old(self),
            find_index(old(self)@.orders, id) != -1 ==> {
                let k = find_index(old(self)@.orders, id);
                &&& r == Some(old(self)@.orders[k])
                &&& final(self)@.orders == old(self)@.orders.remove(k)
                &&& final(self)@.ids == old(self)@.ids.remove(k)
                &&& final(self)@.size == old(self)@.size - old(self)@.orders[k].size
            },
    {
        let ghost s = self@.orders;
        match self.position_of_id(id) {
            None => None,
            Some(k) => {
                proof {
                    lemma_find_index_props(s, id);
                    lemma_sum_remove(s, k as int);
                    s.remove_ensures(k as int);
                    lemma_sum_nonneg(s.remove(k as int));
                }
                let removed = self.orders.remove(k);
                self.ids.remove(k);
                self.size = self.size - (removed.size as i128);
                Some(removed)
            },
        }
    }

    /// The invariant-maintained aggregate: the sum of the queued sizes.
    pub fn aggregate_size(&self) -> (s: i128)
        ensures
            s == self@.size,
    {
        self.size
    }

    /// The queued orders, earliest-first.
    pub fn iter(&self) -> (r: &Vec<LimitOrder>)
        ensures
            r@ == self@.orders,
    {
        &self.orders
    }
}

} // verus!
