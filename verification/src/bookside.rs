//! One side of the book: resting orders in price-time priority, best first.

use crate::decimal::{Decimal, DecimalView};
use crate::order::{Order, OrderView};
use std::collections::VecDeque;
use std::marker::PhantomData;
use vstd::prelude::*;

verus! {

/// Which price is the better one on a side.
pub trait PricePriority {
    /// Whether the higher price comes first.
    spec fn high_first() -> bool;

    /// Whether the higher price comes first.
    fn is_high_first() -> (b: bool)
        ensures
            b == Self::high_first(),
    ;
}

/// The lowest price comes first: the selling side.
#[derive(Debug)]
pub struct MinPricePriority;

/// The highest price comes first: the buying side.
#[derive(Debug)]
pub struct MaxPricePriority;

impl PricePriority for MinPricePriority {
    open spec fn high_first() -> bool {
        false
    }

    fn is_high_first() -> (b: bool) {
        false
    }
}

impl PricePriority for MaxPricePriority {
    open spec fn high_first() -> bool {
        true
    }

    fn is_high_first() -> (b: bool) {
        true
    }
}

/// The mathematical content of a [`BookSideKey`].
pub struct KeyView {
    pub price: DecimalView,
    pub priority: u64,
}

impl KeyView {
    /// Whether this key comes strictly before `other`: by the better price,
    /// and at numerically equal prices by the earlier priority.
    pub open spec fn before(self, other: KeyView, high_first: bool) -> bool {
        if self.price.units() == other.price.units() {
            self.priority < other.priority
        } else if high_first {
            self.price.units() > other.price.units()
        } else {
            self.price.units() < other.price.units()
        }
    }

    /// Whether the two keys have numerically equal prices and the same
    /// priority.
    pub open spec fn same(self, other: KeyView) -> bool {
        self.price.units() == other.price.units() && self.priority == other.priority
    }
}

impl OrderView {
    /// The key under which the order rests.
    pub open spec fn key(self) -> KeyView {
        KeyView { price: self.price, priority: self.priority }
    }
}

/// The key under which an order rests on a side: its price, then its
/// priority.
#[derive(Debug)]
pub struct BookSideKey<P: PricePriority> {
    price: Decimal,
    priority: u64,
    _marker: PhantomData<P>,
}

impl<P: PricePriority> View for BookSideKey<P> {
    type V = KeyView;

    closed spec fn view(&self) -> KeyView {
        KeyView { price: self.price@, priority: self.priority }
    }
}

impl<P: PricePriority> BookSideKey<P> {
    /// The key of an order with this price and priority.
    pub fn new(price: Decimal, priority: u64) -> (key: Self)
        ensures
            key@ == (KeyView { price: price@, priority }),
    {
        BookSideKey { price, priority, _marker: PhantomData }
    }

    /// Whether this key comes strictly before `other` on the side.
    pub fn precedes(&self, other: &Self) -> (b: bool)
        ensures
            b == self@.before(other@, P::high_first()),
    {
        let o = self.price.compare(&other.price);
        if o == 0 {
            self.priority < other.priority
        } else if P::is_high_first() {
            o > 0
        } else {
            o < 0
        }
    }

    /// Whether the two keys have numerically equal prices and the same
    /// priority.
    pub fn same(&self, other: &Self) -> (b: bool)
        ensures
            b == self@.same(other@),
    {
        self.price.compare(&other.price) == 0 && self.priority == other.priority
    }
}

/// The orders stand in strictly ascending key order, best first.
pub open spec fn sorted(s: Seq<OrderView>, high_first: bool) -> bool {
    forall|i: int, j: int|
        0 <= i < j < s.len() ==> #[trigger] s[i].key().before(s[j].key(), high_first)
}

/// How many orders at the front of `s` come strictly before `key`. In a
/// sorted sequence this is where `key` belongs.
pub open spec fn rank(s: Seq<OrderView>, key: KeyView, high_first: bool) -> nat
    decreases s.len(),
{
    if s.len() == 0 || !s[0].key().before(key, high_first) {
        0
    } else {
        1 + rank(s.drop_first(), key, high_first)
    }
}

/// Whether an order with this key is in the sorted sequence `s`.
pub open spec fn holds_key(s: Seq<OrderView>, key: KeyView, high_first: bool) -> bool {
    let i = rank(s, key, high_first) as int;
    i < s.len() && s[i].key().same(key)
}

/// The sorted sequence `s` with `order` placed under its key: the orders
/// before the key, then `order`, then the orders after the key. An order
/// that had the same key is replaced.
pub open spec fn inserted(s: Seq<OrderView>, order: OrderView, high_first: bool) -> Seq<
    OrderView,
> {
    let i = rank(s, order.key(), high_first) as int;
    let j = if holds_key(s, order.key(), high_first) {
        i + 1
    } else {
        i
    };
    s.take(i).push(order) + s.skip(j)
}

/// The sorted sequence `s` without the order under `key`; `s` itself where
/// no order has that key.
pub open spec fn removed(s: Seq<OrderView>, key: KeyView, high_first: bool) -> Seq<OrderView> {
    if holds_key(s, key, high_first) {
        s.remove(rank(s, key, high_first) as int)
    } else {
        s
    }
}

/// The rank of `key` is `i` where the orders before `i` come before the key
/// and the order at `i`, if any, does not.
pub proof fn lemma_rank_is(s: Seq<OrderView>, key: KeyView, high_first: bool, i: int)
    requires
        0 <= i <= s.len(),
        forall|j: int| 0 <= j < i ==> (#[trigger] s[j]).key().before(key, high_first),
        i < s.len() ==> !s[i].key().before(key, high_first),
    ensures
        rank(s, key, high_first) == i,
    decreases s.len(),
{
    if i > 0 {
        let t = s.drop_first();
        assert forall|j: int| 0 <= j < i - 1 implies (#[trigger] t[j]).key().before(
            key,
            high_first,
        ) by {
            assert(t[j] == s[j + 1]);
        }
        lemma_rank_is(t, key, high_first, i - 1);
    }
}

/// In a sorted sequence the rank of `key` splits the orders: those in front
/// of it come before the key, and the others do not.
pub proof fn lemma_rank_splits(s: Seq<OrderView>, key: KeyView, high_first: bool)
    requires
        sorted(s, high_first),
    ensures
        rank(s, key, high_first) <= s.len(),
        forall|j: int|
            0 <= j < rank(s, key, high_first) ==> (#[trigger] s[j]).key().before(key, high_first),
        forall|j: int|
            rank(s, key, high_first) <= j < s.len() ==> !(#[trigger] s[j]).key().before(
                key,
                high_first,
            ),
    decreases s.len(),
{
    if s.len() == 0 {
    } else if !s[0].key().before(key, high_first) {
        assert forall|j: int| 0 <= j < s.len() implies !(#[trigger] s[j]).key().before(
            key,
            high_first,
        ) by {
            if j > 0 {
                assert(s[0].key().before(s[j].key(), high_first));
            }
        }
    } else {
        let t = s.drop_first();
        assert(sorted(t, high_first)) by {
            assert forall|i: int, j: int| 0 <= i < j < t.len() implies #[trigger] t[i].key().before(
                t[j].key(),
                high_first,
            ) by {
                assert(t[i] == s[i + 1] && t[j] == s[j + 1]);
            }
        }
        lemma_rank_splits(t, key, high_first);
        let r = rank(t, key, high_first);
        assert forall|j: int| 0 <= j < r + 1 implies (#[trigger] s[j]).key().before(
            key,
            high_first,
        ) by {
            if j > 0 {
                assert(t[j - 1] == s[j]);
            }
        }
        assert forall|j: int| r + 1 <= j < s.len() implies !(#[trigger] s[j]).key().before(
            key,
            high_first,
        ) by {
            assert(t[j - 1] == s[j]);
        }
    }
}

/// Placing an order into a sorted sequence leaves it sorted.
pub proof fn lemma_inserted_sorted(s: Seq<OrderView>, order: OrderView, high_first: bool)
    requires
        sorted(s, high_first),
    ensures
        sorted(inserted(s, order, high_first), high_first),
{
    lemma_rank_splits(s, order.key(), high_first);
    let i = rank(s, order.key(), high_first) as int;
    let j = if holds_key(s, order.key(), high_first) {
        i + 1
    } else {
        i
    };
    let t = inserted(s, order, high_first);
    assert forall|a: int, b: int| 0 <= a < b < t.len() implies #[trigger] t[a].key().before(
        t[b].key(),
        high_first,
    ) by {
        let a0 = a - i - 1 + j;
        let b0 = b - i - 1 + j;
        if b < i {
            assert(t[a] == s[a] && t[b] == s[b]);
            assert(s[a].key().before(s[b].key(), high_first));
        } else if b == i {
            assert(t[a] == s[a] && t[b] == order);
        } else if a < i {
            assert(t[a] == s[a] && t[b] == s[b0]);
            assert(s[a].key().before(s[b0].key(), high_first));
        } else if a == i {
            assert(t[a] == order && t[b] == s[b0]);
            if b0 > i {
                assert(s[i].key().before(s[b0].key(), high_first));
            }
        } else {
            assert(t[a] == s[a0] && t[b] == s[b0]);
            assert(s[a0].key().before(s[b0].key(), high_first));
        }
    }
}

/// Taking an order out of a sorted sequence leaves it sorted.
pub proof fn lemma_removed_sorted(s: Seq<OrderView>, key: KeyView, high_first: bool)
    requires
        sorted(s, high_first),
    ensures
        sorted(removed(s, key, high_first), high_first),
{
    lemma_rank_splits(s, key, high_first);
    if holds_key(s, key, high_first) {
        let i = rank(s, key, high_first) as int;
        let t = s.remove(i);
        assert forall|a: int, b: int| 0 <= a < b < t.len() implies #[trigger] t[a].key().before(
            t[b].key(),
            high_first,
        ) by {
            let a0 = if a < i {
                a
            } else {
                a + 1
            };
            let b0 = if b < i {
                b
            } else {
                b + 1
            };
            assert(t[a] == s[a0] && t[b] == s[b0]);
            assert(s[a0].key().before(s[b0].key(), high_first));
        }
    }
}

/// The resting orders of one side, best first.
#[derive(Debug)]
pub struct BookSide<P: PricePriority> {
    orders: VecDeque<Order>,
    _marker: PhantomData<P>,
}

impl<P: PricePriority> View for BookSide<P> {
    type V = Seq<OrderView>;

    closed spec fn view(&self) -> Seq<OrderView> {
        self.orders@.map_values(|o: Order| o@)
    }
}

impl<P: PricePriority> BookSide<P> {
    /// The orders are sorted by key, best first, and hold decimals that can
    /// be held.
    pub open spec fn wf(&self) -> bool {
        &&& sorted(self@, P::high_first())
        &&& forall|i: int| 0 <= i < self@.len() ==> (#[trigger] self@[i]).wf()
    }

    /// A side with no orders.
    pub fn new() -> (side: Self)
        ensures
            side.wf(),
            side@ == Seq::<OrderView>::empty(),
    {
        let side = BookSide { orders: VecDeque::new(), _marker: PhantomData };
        assert(side@ =~= Seq::<OrderView>::empty());
        side
    }

    /// The number of resting orders.
    pub fn len(&self) -> (n: usize)
        ensures
            n == self@.len(),
    {
        self.orders.len()
    }

    /// The order at place `i`, counted from the best.
    pub fn get(&self, i: usize) -> (order: &Order)
        requires
            i < self@.len(),
        ensures
            order@ == self@[i as int],
    {
        &self.orders[i]
    }

    /// Where `key` belongs among the orders.
    fn position(&self, key: &BookSideKey<P>) -> (i: usize)
        requires
            self.wf(),
        ensures
            i == rank(self@, key@, P::high_first()),
            i <= self@.len(),
    {
        let mut lo: usize = 0;
        let mut hi: usize = self.orders.len();
        while lo < hi
            invariant
                lo <= hi <= self@.len(),
                self@.len() == self.orders@.len(),
                self.wf(),
                forall|j: int| 0 <= j < lo ==> (#[trigger] self@[j]).key().before(key@, P::high_first()),
                forall|j: int|
                    hi <= j < self@.len() ==> !(#[trigger] self@[j]).key().before(
                        key@,
                        P::high_first(),
                    ),
            decreases hi - lo,
        {
            let mid = lo + (hi - lo) / 2;
            let order = &self.orders[mid];
            let at_mid = BookSideKey::<P>::new(order.price, order.priority);
            assert(at_mid@ == self@[mid as int].key());
            if at_mid.precedes(key) {
                assert forall|j: int| 0 <= j < mid + 1 implies (#[trigger] self@[j]).key().before(
                    key@,
                    P::high_first(),
                ) by {
                    if j < mid {
                        assert(self@[j].key().before(self@[mid as int].key(), P::high_first()));
                    }
                }
                lo = mid + 1;
            } else {
                assert forall|j: int| mid <= j < self@.len() implies !(#[trigger] self@[j]).key().before(
                    key@,
                    P::high_first(),
                ) by {
                    if mid < j {
                        assert(self@[mid as int].key().before(self@[j].key(), P::high_first()));
                    }
                }
                hi = mid;
            }
        }
        proof {
            lemma_rank_is(self@, key@, P::high_first(), lo as int);
        }
        lo
    }

    /// Places `order` under its key. An order that rested under the same key
    /// is replaced.
    pub fn add(&mut self, order: Order)
        requires
            old(self).wf(),
        ensures
            final(self).wf(),
            final(self)@ == inserted(old(self)@, order@, P::high_first()),
    {
        let key = BookSideKey::<P>::new(order.price, order.priority);
        let i = self.position(&key);
        let ghost before = self@;
        let ghost held = holds_key(before, key@, P::high_first());
        if i < self.orders.len() {
            let there = &self.orders[i];
            let at_i = BookSideKey::<P>::new(there.price, there.priority);
            if at_i.same(&key) {
                self.orders.remove(i);
            }
        }
        assert(self@ =~= if held {
            before.remove(i as int)
        } else {
            before
        });
        self.orders.insert(i, order);
        proof {
            use_type_invariant(&order.price);
            use_type_invariant(&order.quantity);
            lemma_inserted_sorted(before, order@, P::high_first());
            assert(self@ =~= inserted(before, order@, P::high_first()));
        }
    }

    /// Takes out the order that rests under this price and priority, if there
    /// is one.
    pub fn remove(&mut self, price: Decimal, priority: u64)
        requires
            old(self).wf(),
        ensures
            final(self).wf(),
            final(self)@ == removed(
                old(self)@,
                KeyView { price: price@, priority },
                P::high_first(),
            ),
    {
        let key = BookSideKey::<P>::new(price, priority);
        let i = self.position(&key);
        let ghost before = self@;
        if i < self.orders.len() {
            let there = &self.orders[i];
            let at_i = BookSideKey::<P>::new(there.price, there.priority);
            if at_i.same(&key) {
                self.orders.remove(i);
            }
        }
        proof {
            lemma_removed_sorted(before, key@, P::high_first());
            assert(self@ =~= removed(before, key@, P::high_first()));
        }
    }

    /// The best order of the side, if there is one.
    pub fn get_highest_priority(&self) -> (best: Option<&Order>)
        ensures
            best is Some <==> self@.len() > 0,
            best matches Some(order) ==> order@ == self@[0],
    {
        if self.orders.len() > 0 {
            Some(&self.orders[0])
        } else {
            None
        }
    }

    /// Takes out the best order of the side, if there is one.
    pub fn pop_highest_priority(&mut self)
        requires
            old(self).wf(),
        ensures
            final(self).wf(),
            final(self)@ == (if old(self)@.len() > 0 {
                old(self)@.drop_first()
            } else {
                old(self)@
            }),
    {
        let ghost before = self@;
        self.orders.pop_front();
        proof {
            if before.len() > 0 {
                assert(self@ =~= before.drop_first());
            } else {
                assert(self@ =~= before);
            }
            assert forall|i: int, j: int| 0 <= i < j < self@.len() implies #[trigger] self@[i].key().before(
                self@[j].key(),
                P::high_first(),
            ) by {
                assert(self@[i] == before[i + 1] && self@[j] == before[j + 1]);
            }
            assert forall|i: int| 0 <= i < self@.len() implies (#[trigger] self@[i]).wf() by {
                assert(self@[i] == before[i + 1]);
            }
        }
    }

    /// Gives the best order of the side another quantity.
    pub fn set_highest_priority_quantity(&mut self, quantity: Decimal)
        requires
            old(self).wf(),
            old(self)@.len() > 0,
        ensures
            final(self).wf(),
            final(self)@ == old(self)@.update(0, old(self)@[0].with_quantity(quantity@)),
    {
        let ghost before = self@;
        match self.orders.pop_front() {
            Some(best) => {
                self.orders.push_front(Order { quantity, ..best });
            },
            None => {},
        }
        proof {
            use_type_invariant(&quantity);
            assert(self@ =~= before.update(0, before[0].with_quantity(quantity@)));
            assert forall|i: int, j: int| 0 <= i < j < self@.len() implies #[trigger] self@[i].key().before(
                self@[j].key(),
                P::high_first(),
            ) by {
                assert(self@[j] == before[j]);
                assert(self@[i].key() == before[i].key());
            }
            assert forall|i: int| 0 <= i < self@.len() implies (#[trigger] self@[i]).wf() by {
                assert(before[i].wf());
            }
        }
    }

    /// The resting orders, best first.
    pub fn iter(&self) -> (orders: Vec<Order>)
        ensures
            orders@.map_values(|o: Order| o@) == self@,
    {
        let mut orders: Vec<Order> = Vec::new();
        let mut i: usize = 0;
        while i < self.orders.len()
            invariant
                i <= self.orders@.len(),
                orders@ == self.orders@.take(i as int),
            decreases self.orders@.len() - i,
        {
            orders.push(self.orders[i]);
            assert(orders@ =~= self.orders@.take(i + 1));
            i = i + 1;
        }
        assert(orders@ =~= self.orders@);
        orders
    }
}

} // verus!
