//! What an order book is, mathematically: the resting orders of both sides,
//! what holds of them while the book is at rest, and how the index of
//! identifiers agrees with them.

use crate::bookside::{
    holds_key, inserted, lemma_inserted_sorted, lemma_rank_is, lemma_rank_splits, rank, removed,
    sorted, KeyView,
};
use crate::decimal::{lemma_sum_units, lemma_units_bounds, DecimalView};
use crate::matching::{limit_admits, Taker};
use crate::order::{OrderView, Side};
use vstd::prelude::*;

verus! {

/// What the index keeps of a resting order: where to find it.
pub struct HandleView {
    pub side: Side,
    pub price: DecimalView,
    pub priority: u64,
}

impl OrderView {
    /// What the index keeps of the order.
    pub open spec fn handle(self) -> HandleView {
        HandleView { side: self.side, price: self.price, priority: self.priority }
    }
}

/// Whether an order with the identifier `id` is among `orders`.
pub open spec fn holds_id(orders: Seq<OrderView>, id: u128) -> bool {
    exists|i: int| 0 <= i < orders.len() && (#[trigger] orders[i]).id == id
}

/// The place of the first order with the identifier `id` among `orders`;
/// their number where there is none.
pub open spec fn position_of(orders: Seq<OrderView>, id: u128) -> int
    decreases orders.len(),
{
    if orders.len() == 0 || orders[0].id == id {
        0
    } else {
        1 + position_of(orders.drop_first(), id)
    }
}

/// `orders` without the order that has the identifier `id`.
pub open spec fn without_id(orders: Seq<OrderView>, id: u128) -> Seq<OrderView> {
    if holds_id(orders, id) {
        orders.remove(position_of(orders, id))
    } else {
        orders
    }
}

/// Every order of `orders` is in the index, under its identifier and with
/// its own side, price and priority.
pub open spec fn indexed(index: Map<u128, HandleView>, orders: Seq<OrderView>) -> bool {
    forall|i: int|
        0 <= i < orders.len() ==> index.contains_key((#[trigger] orders[i]).id)
            && index[orders[i].id] == orders[i].handle()
}

/// The index and the two sides agree: every resting order is in the index,
/// and every identifier in the index is that of a resting order. Together
/// with the sides' order this puts each identifier on exactly one side.
pub open spec fn index_agrees(
    index: Map<u128, HandleView>,
    bids: Seq<OrderView>,
    asks: Seq<OrderView>,
) -> bool {
    &&& indexed(index, bids)
    &&& indexed(index, asks)
    &&& forall|id: u128| #[trigger]
        index.contains_key(id) ==> holds_id(bids, id) || holds_id(asks, id)
}

/// The orders of one side are in order, best first, belong to that side,
/// have something left to trade, and were admitted before `next_priority`.
pub open spec fn side_wf(orders: Seq<OrderView>, side: Side, next_priority: u64) -> bool {
    &&& sorted(orders, side == Side::Buy)
    &&& forall|i: int|
        0 <= i < orders.len() ==> {
            &&& (#[trigger] orders[i]).wf()
            &&& orders[i].side == side
            &&& orders[i].quantity.mantissa > 0
            &&& orders[i].priority < next_priority
        }
}

/// The two orders have priorities of their own.
pub open spec fn priority_differs(a: OrderView, b: OrderView) -> bool {
    a.priority != b.priority
}

/// No two of `orders` have the same priority.
pub open spec fn priorities_differ(orders: Seq<OrderView>) -> bool {
    forall|i: int, j: int|
        0 <= i < j < orders.len() ==> #[trigger] priority_differs(orders[i], orders[j])
}

/// No order of `a` has the priority of an order of `b`.
pub open spec fn priorities_apart(a: Seq<OrderView>, b: Seq<OrderView>) -> bool {
    forall|i: int, j: int|
        0 <= i < a.len() && 0 <= j < b.len() ==> #[trigger] priority_differs(a[i], b[j])
}

/// No two resting orders have the same priority.
pub open spec fn priorities_distinct(bids: Seq<OrderView>, asks: Seq<OrderView>) -> bool {
    &&& priorities_differ(bids)
    &&& priorities_differ(asks)
    &&& priorities_apart(bids, asks)
}

/// The best bid is below the best ask.
pub open spec fn not_crossed(bids: Seq<OrderView>, asks: Seq<OrderView>) -> bool {
    bids.len() > 0 && asks.len() > 0 ==> bids[0].price.units() < asks[0].price.units()
}

/// `after` is what a taker's walk leaves of the side `before`: its orders
/// from some place on, with the identifiers, sides, prices and priorities
/// they had; only the quantities may differ.
pub open spec fn tail_of(after: Seq<OrderView>, before: Seq<OrderView>) -> bool {
    &&& after.len() <= before.len()
    &&& forall|i: int|
        0 <= i < after.len() ==> {
            let b = before[i + (before.len() - after.len())];
            &&& (#[trigger] after[i]).id == b.id
            &&& after[i].side == b.side
            &&& after[i].price == b.price
            &&& after[i].priority == b.priority
        }
}

/// The quantity at one price level: `total` and what the orders at the front
/// of `orders` have left, as far as their price is numerically `price`.
pub open spec fn level_quantity(
    orders: Seq<OrderView>,
    price: DecimalView,
    total: DecimalView,
) -> DecimalView
    decreases orders.len(),
{
    if orders.len() == 0 || orders[0].price.units() != price.units() {
        total
    } else {
        level_quantity(orders.drop_first(), price, total.sum(orders[0].quantity))
    }
}

/// Every step of [`level_quantity`] can be computed exactly.
pub open spec fn level_fits(orders: Seq<OrderView>, price: DecimalView, total: DecimalView) -> bool
    decreases orders.len(),
{
    orders.len() > 0 && orders[0].price.units() == price.units() ==> {
        &&& total.add_fits(orders[0].quantity)
        &&& level_fits(orders.drop_first(), price, total.sum(orders[0].quantity))
    }
}

/// The mathematical content of an [`OrderBook`]: the resting orders of each
/// side, best first, and the priority that the next resting order gets.
pub struct BookView {
    pub bids: Seq<OrderView>,
    pub asks: Seq<OrderView>,
    pub next_priority: u64,
}

impl BookView {
    /// The book with `own` on `side`, `opposite` on the other side, and
    /// `next_priority`.
    pub open spec fn of_sides(
        side: Side,
        own: Seq<OrderView>,
        opposite: Seq<OrderView>,
        next_priority: u64,
    ) -> BookView {
        match side {
            Side::Buy => BookView { bids: own, asks: opposite, next_priority },
            Side::Sell => BookView { bids: opposite, asks: own, next_priority },
        }
    }

    /// The taker that an order of `side` for `quantity`, with this limit if
    /// any, is at the end of its walk over the opposing side.
    pub open spec fn taker(
        self,
        side: Side,
        limit: Option<DecimalView>,
        quantity: DecimalView,
    ) -> Taker {
        Taker::start(side, limit, quantity).walk(self.side(side.spec_opposite()))
    }

    /// The order that a limit order leaves to rest, where it has something
    /// left after its walk.
    pub open spec fn rest(
        self,
        id: u128,
        side: Side,
        price: DecimalView,
        quantity: DecimalView,
    ) -> OrderView {
        OrderView {
            id,
            side,
            price,
            quantity: self.taker(side, Some(price), quantity).remaining,
            priority: self.next_priority,
        }
    }

    /// Whether a limit order has something left after its walk, and so comes
    /// to rest.
    pub open spec fn rests(self, side: Side, price: DecimalView, quantity: DecimalView) -> bool {
        self.taker(side, Some(price), quantity).remaining.mantissa != 0
    }

    /// The book after a limit order: the opposing side is what the walk left
    /// of it, and what the order has left rests on its own side, under the
    /// next priority.
    pub open spec fn after_limit(
        self,
        id: u128,
        side: Side,
        price: DecimalView,
        quantity: DecimalView,
    ) -> BookView {
        let left = Taker::start(side, Some(price), quantity).makers_left(
            self.side(side.spec_opposite()),
        );
        if self.rests(side, price, quantity) {
            BookView::of_sides(
                side,
                inserted(self.side(side), self.rest(id, side, price, quantity), side == Side::Buy),
                left,
                (self.next_priority + 1) as u64,
            )
        } else {
            BookView::of_sides(side, self.side(side), left, self.next_priority)
        }
    }

    /// The book after a market order: the opposing side is what the walk left
    /// of it, and nothing else has changed.
    pub open spec fn after_market(self, side: Side, quantity: DecimalView) -> BookView {
        BookView::of_sides(
            side,
            self.side(side),
            Taker::start(side, None, quantity).makers_left(self.side(side.spec_opposite())),
            self.next_priority,
        )
    }

    /// A limit order can be worked through: every step of its walk can be
    /// computed exactly, and a priority is left for it if it comes to rest.
    pub open spec fn limit_order_fits(
        self,
        side: Side,
        price: DecimalView,
        quantity: DecimalView,
    ) -> bool {
        &&& Taker::start(side, Some(price), quantity).match_fits(self.side(side.spec_opposite()))
        &&& self.rests(side, price, quantity) ==> self.next_priority < u64::MAX
    }

    /// A market order can be worked through: every step of its walk can be
    /// computed exactly.
    pub open spec fn market_order_fits(self, side: Side, quantity: DecimalView) -> bool {
        Taker::start(side, None, quantity).match_fits(self.side(side.spec_opposite()))
    }

    /// The cost of a market order can be quoted: every step of the taker's
    /// totals can be computed exactly.
    pub open spec fn market_cost_fits(self, side: Side, quantity: DecimalView) -> bool {
        Taker::start(side, None, quantity).walk_fits(self.side(side.spec_opposite()))
    }

    /// The best price of `side` and all that rests at it, if the side has
    /// orders.
    pub open spec fn best_level(self, side: Side) -> Option<(DecimalView, DecimalView)> {
        let orders = self.side(side);
        if orders.len() == 0 {
            None
        } else {
            Some((orders[0].price, level_quantity(orders, orders[0].price, DecimalView::zero())))
        }
    }

    /// What rests at the best price of `side` can be added up exactly.
    pub open spec fn best_level_fits(self, side: Side) -> bool {
        let orders = self.side(side);
        orders.len() > 0 ==> level_fits(orders, orders[0].price, DecimalView::zero())
    }

    /// The resting orders of `side`, best first.
    pub open spec fn side(self, side: Side) -> Seq<OrderView> {
        match side {
            Side::Buy => self.bids,
            Side::Sell => self.asks,
        }
    }

    /// Whether an order with the identifier `id` is resting.
    pub open spec fn is_resting(self, id: u128) -> bool {
        holds_id(self.bids, id) || holds_id(self.asks, id)
    }

    /// What holds of the resting orders of every book at rest.
    pub open spec fn wf(self) -> bool {
        &&& side_wf(self.bids, Side::Buy, self.next_priority)
        &&& side_wf(self.asks, Side::Sell, self.next_priority)
        &&& priorities_distinct(self.bids, self.asks)
        &&& not_crossed(self.bids, self.asks)
    }

    /// The book after the order with the identifier `id` has been taken out.
    pub open spec fn after_cancel(self, id: u128) -> BookView {
        BookView { bids: without_id(self.bids, id), asks: without_id(self.asks, id), ..self }
    }
}

/// In a sorted sequence the key of the order at place `i` has rank `i`.
pub proof fn lemma_rank_of_member(s: Seq<OrderView>, high_first: bool, i: int)
    requires
        sorted(s, high_first),
        0 <= i < s.len(),
    ensures
        rank(s, s[i].key(), high_first) == i,
        holds_key(s, s[i].key(), high_first),
{
    assert forall|j: int| 0 <= j < i implies (#[trigger] s[j]).key().before(
        s[i].key(),
        high_first,
    ) by {
        assert(s[j].key().before(s[i].key(), high_first));
    }
    lemma_rank_is(s, s[i].key(), high_first, i);
}

/// Orders of one sorted side that are indexed have identifiers of their own.
pub proof fn lemma_ids_differ(
    index: Map<u128, HandleView>,
    s: Seq<OrderView>,
    high_first: bool,
    i: int,
    j: int,
)
    requires
        sorted(s, high_first),
        indexed(index, s),
        0 <= i < s.len(),
        0 <= j < s.len(),
        i != j,
    ensures
        s[i].id != s[j].id,
{
    if s[i].id == s[j].id {
        assert(s[i].handle() == s[j].handle());
        if i < j {
            assert(s[i].key().before(s[j].key(), high_first));
        } else {
            assert(s[j].key().before(s[i].key(), high_first));
        }
    }
}

/// The first order with the identifier `id` stands at place `i` where the
/// order at `i` has it and none before `i` has.
pub proof fn lemma_position_is(s: Seq<OrderView>, id: u128, i: int)
    requires
        0 <= i < s.len(),
        s[i].id == id,
        forall|j: int| 0 <= j < i ==> (#[trigger] s[j]).id != id,
    ensures
        position_of(s, id) == i,
    decreases s.len(),
{
    if i > 0 {
        let t = s.drop_first();
        assert(s[0].id != id);
        assert forall|j: int| 0 <= j < i - 1 implies (#[trigger] t[j]).id != id by {
            assert(t[j] == s[j + 1]);
        }
        assert(t[i - 1] == s[i]);
        lemma_position_is(t, id, i - 1);
    }
}

/// A side that loses the order at place `i` stays well-formed.
pub proof fn lemma_side_wf_remove(s: Seq<OrderView>, side: Side, next_priority: u64, i: int)
    requires
        side_wf(s, side, next_priority),
        0 <= i < s.len(),
    ensures
        side_wf(s.remove(i), side, next_priority),
{
    let t = s.remove(i);
    let high_first = side == Side::Buy;
    assert forall|a: int, b: int| 0 <= a < b < t.len() implies #[trigger] t[a].key().before(
        t[b].key(),
        high_first,
    ) by {
        let a0 = if a < i {
            a
        } else {
            a + 1
        };
        let b0 = if b < i {
            b
        } else {
            b + 1
        };
        assert(t[a] == s[a0] && t[b] == s[b0]);
        assert(s[a0].key().before(s[b0].key(), high_first));
    }
    assert forall|a: int| 0 <= a < t.len() implies {
        &&& (#[trigger] t[a]).wf()
        &&& t[a].side == side
        &&& t[a].quantity.mantissa > 0
        &&& t[a].priority < next_priority
    } by {
        let a0 = if a < i {
            a
        } else {
            a + 1
        };
        assert(t[a] == s[a0]);
    }
}

/// Orders that keep their priorities distinct still do when one leaves.
pub proof fn lemma_priorities_differ_remove(s: Seq<OrderView>, i: int)
    requires
        priorities_differ(s),
        0 <= i < s.len(),
    ensures
        priorities_differ(s.remove(i)),
{
    let t = s.remove(i);
    assert forall|a: int, b: int| 0 <= a < b < t.len() implies #[trigger] priority_differs(
        t[a],
        t[b],
    ) by {
        let a0 = if a < i {
            a
        } else {
            a + 1
        };
        let b0 = if b < i {
            b
        } else {
            b + 1
        };
        assert(t[a] == s[a0] && t[b] == s[b0]);
        assert(priority_differs(s[a0], s[b0]));
    }
}

/// Taking the order at place `i` out of an indexed side: it is the order
/// under its own key and the only one under its identifier, and the side and
/// the index without it still agree.
pub proof fn lemma_side_loses(
    index: Map<u128, HandleView>,
    s: Seq<OrderView>,
    side: Side,
    next_priority: u64,
    i: int,
)
    requires
        side_wf(s, side, next_priority),
        indexed(index, s),
        0 <= i < s.len(),
    ensures
        removed(s, s[i].key(), side == Side::Buy) == s.remove(i),
        without_id(s, s[i].id) == s.remove(i),
        side_wf(s.remove(i), side, next_priority),
        indexed(index.remove(s[i].id), s.remove(i)),
        !holds_id(s.remove(i), s[i].id),
{
    let high_first = side == Side::Buy;
    let id = s[i].id;
    lemma_rank_of_member(s, high_first, i);
    assert forall|j: int| 0 <= j < s.len() && j != i implies (#[trigger] s[j]).id != id by {
        lemma_ids_differ(index, s, high_first, i, j);
    }
    lemma_position_is(s, id, i);
    lemma_side_wf_remove(s, side, next_priority, i);
    let t = s.remove(i);
    assert forall|a: int| 0 <= a < t.len() implies (#[trigger] t[a]).id != id
        && index.remove(id).contains_key(t[a].id) && index.remove(id)[t[a].id]
        == t[a].handle() by {
        let a0 = if a < i {
            a
        } else {
            a + 1
        };
        assert(t[a] == s[a0]);
    }
}

/// An identifier that rests on one side is not on the other, which stays as
/// it is, and indexed, when the identifier leaves.
pub proof fn lemma_other_side_keeps(
    index: Map<u128, HandleView>,
    other: Seq<OrderView>,
    side: Side,
    next_priority: u64,
    id: u128,
)
    requires
        side_wf(other, side, next_priority),
        indexed(index, other),
        index.contains_key(id),
        index[id].side != side,
    ensures
        !holds_id(other, id),
        without_id(other, id) == other,
        indexed(index.remove(id), other),
{
    assert forall|j: int| 0 <= j < other.len() implies (#[trigger] other[j]).id != id by {
        if other[j].id == id {
            assert(index[id] == other[j].handle());
        }
    }
}

/// A side that loses an order does not get a better best order.
pub proof fn lemma_best_after_remove(s: Seq<OrderView>, high_first: bool, i: int)
    requires
        sorted(s, high_first),
        0 <= i < s.len(),
        s.remove(i).len() > 0,
    ensures
        high_first ==> s.remove(i)[0].price.units() <= s[0].price.units(),
        !high_first ==> s.remove(i)[0].price.units() >= s[0].price.units(),
{
    if i == 0 {
        assert(s.remove(i)[0] == s[1]);
        assert(s[0].key().before(s[1].key(), high_first));
    } else {
        assert(s.remove(i)[0] == s[0]);
    }
}

/// An order that is among `s`, and not at place `i`, is among `s` without the
/// order at `i`.
pub proof fn lemma_holds_id_after_remove(s: Seq<OrderView>, i: int, id: u128)
    requires
        0 <= i < s.len(),
        holds_id(s, id),
        s[i].id != id,
    ensures
        holds_id(s.remove(i), id),
{
    let j = choose|j: int| 0 <= j < s.len() && (#[trigger] s[j]).id == id;
    let j1 = if j < i {
        j
    } else {
        j - 1
    };
    assert(s.remove(i)[j1] == s[j]);
}

/// An identifier is in the index exactly when an order with it is resting.
pub proof fn lemma_resting_is_indexed(index: Map<u128, HandleView>, book: BookView, id: u128)
    requires
        index_agrees(index, book.bids, book.asks),
    ensures
        index.contains_key(id) <==> book.is_resting(id),
{
    if holds_id(book.bids, id) {
        let i = choose|i: int| 0 <= i < book.bids.len() && (#[trigger] book.bids[i]).id == id;
        assert(index.contains_key(book.bids[i].id));
    }
    if holds_id(book.asks, id) {
        let i = choose|i: int| 0 <= i < book.asks.len() && (#[trigger] book.asks[i]).id == id;
        assert(index.contains_key(book.asks[i].id));
    }
}

/// Cancelling an indexed identifier: the order leaves the side that the index
/// names, from under the key that the index names; the other side stays; and
/// the book and the index without the identifier are at rest again.
pub proof fn lemma_cancel(index: Map<u128, HandleView>, book: BookView, id: u128)
    requires
        book.wf(),
        index_agrees(index, book.bids, book.asks),
        index.contains_key(id),
    ensures
        ({
            let key = KeyView { price: index[id].price, priority: index[id].priority };
            match index[id].side {
                Side::Buy => book.after_cancel(id) == (BookView {
                    bids: removed(book.bids, key, true),
                    ..book
                }),
                Side::Sell => book.after_cancel(id) == (BookView {
                    asks: removed(book.asks, key, false),
                    ..book
                }),
            }
        }),
        book.after_cancel(id).wf(),
        index_agrees(index.remove(id), book.after_cancel(id).bids, book.after_cancel(id).asks),
        !book.after_cancel(id).is_resting(id),
{
    let bids = book.bids;
    let asks = book.asks;
    let next = book.next_priority;
    let after = book.after_cancel(id);
    match index[id].side {
        Side::Buy => {
            lemma_other_side_keeps(index, asks, Side::Sell, next, id);
            let i = choose|i: int| 0 <= i < bids.len() && (#[trigger] bids[i]).id == id;
            lemma_side_loses(index, bids, Side::Buy, next, i);
            assert(bids[i].key() == (KeyView {
                price: index[id].price,
                priority: index[id].priority,
            }));
            lemma_priorities_differ_remove(bids, i);
            assert forall|a: int, b: int|
                0 <= a < bids.remove(i).len() && 0 <= b < asks.len() implies #[trigger] priority_differs(
                bids.remove(i)[a],
                asks[b],
            ) by {
                let a0 = if a < i {
                    a
                } else {
                    a + 1
                };
                assert(bids.remove(i)[a] == bids[a0]);
                assert(priority_differs(bids[a0], asks[b]));
            }
            if bids.remove(i).len() > 0 {
                lemma_best_after_remove(bids, true, i);
            }
            assert(after.bids == bids.remove(i) && after.asks == asks);
            assert forall|other: u128| #[trigger]
                index.remove(id).contains_key(other) implies holds_id(after.bids, other)
                || holds_id(after.asks, other) by {
                if holds_id(bids, other) {
                    lemma_holds_id_after_remove(bids, i, other);
                }
            }
        },
        Side::Sell => {
            lemma_other_side_keeps(index, bids, Side::Buy, next, id);
            let i = choose|i: int| 0 <= i < asks.len() && (#[trigger] asks[i]).id == id;
            lemma_side_loses(index, asks, Side::Sell, next, i);
            assert(asks[i].key() == (KeyView {
                price: index[id].price,
                priority: index[id].priority,
            }));
            lemma_priorities_differ_remove(asks, i);
            assert forall|a: int, b: int|
                0 <= a < bids.len() && 0 <= b < asks.remove(i).len() implies #[trigger] priority_differs(
                bids[a],
                asks.remove(i)[b],
            ) by {
                let b0 = if b < i {
                    b
                } else {
                    b + 1
                };
                assert(asks.remove(i)[b] == asks[b0]);
                assert(priority_differs(bids[a], asks[b0]));
            }
            if asks.remove(i).len() > 0 {
                lemma_best_after_remove(asks, false, i);
            }
            assert(after.asks == asks.remove(i) && after.bids == bids);
            assert forall|other: u128| #[trigger]
                index.remove(id).contains_key(other) implies holds_id(after.bids, other)
                || holds_id(after.asks, other) by {
                if holds_id(asks, other) {
                    lemma_holds_id_after_remove(asks, i, other);
                }
            }
        },
    }
}

/// The best order of an indexed side leaves: the rest of the side is
/// well-formed, and agrees with the index without that order.
pub proof fn lemma_best_leaves(
    index: Map<u128, HandleView>,
    own: Seq<OrderView>,
    makers: Seq<OrderView>,
    own_side: Side,
    next_priority: u64,
)
    requires
        side_wf(own, own_side, next_priority),
        side_wf(makers, own_side.spec_opposite(), next_priority),
        index_agrees(index, own, makers),
        makers.len() > 0,
    ensures
        side_wf(makers.drop_first(), own_side.spec_opposite(), next_priority),
        index_agrees(index.remove(makers[0].id), own, makers.drop_first()),
{
    let id = makers[0].id;
    let opposite = own_side.spec_opposite();
    assert(makers.drop_first() =~= makers.remove(0));
    lemma_side_loses(index, makers, opposite, next_priority, 0);
    assert(index[id] == makers[0].handle());
    lemma_other_side_keeps(index, own, own_side, next_priority, id);
    assert forall|other: u128| #[trigger]
        index.remove(id).contains_key(other) implies holds_id(own, other) || holds_id(
        makers.drop_first(),
        other,
    ) by {
        if holds_id(makers, other) {
            lemma_holds_id_after_remove(makers, 0, other);
        }
    }
}

/// The best order of an indexed side trades a part: the side with the
/// order's new quantity is well-formed, and agrees with the index as before.
pub proof fn lemma_best_shrinks(
    index: Map<u128, HandleView>,
    own: Seq<OrderView>,
    makers: Seq<OrderView>,
    side: Side,
    next_priority: u64,
    left: DecimalView,
)
    requires
        side_wf(makers, side, next_priority),
        index_agrees(index, own, makers),
        makers.len() > 0,
        left.wf(),
        left.mantissa > 0,
    ensures
        side_wf(makers.update(0, makers[0].with_quantity(left)), side, next_priority),
        index_agrees(index, own, makers.update(0, makers[0].with_quantity(left))),
{
    let after = makers.update(0, makers[0].with_quantity(left));
    let high_first = side == Side::Buy;
    assert forall|a: int, b: int| 0 <= a < b < after.len() implies #[trigger] after[a].key().before(
        after[b].key(),
        high_first,
    ) by {
        assert(after[a].key() == makers[a].key() && after[b].key() == makers[b].key());
        assert(makers[a].key().before(makers[b].key(), high_first));
    }
    assert forall|i: int| 0 <= i < after.len() implies {
        &&& (#[trigger] after[i]).wf()
        &&& after[i].side == side
        &&& after[i].quantity.mantissa > 0
        &&& after[i].priority < next_priority
        &&& index.contains_key(after[i].id)
        &&& index[after[i].id] == after[i].handle()
    } by {
        assert(after[i].handle() == makers[i].handle());
        assert(makers[i].wf());
    }
    assert forall|id: u128| #[trigger] index.contains_key(id) implies holds_id(own, id)
        || holds_id(after, id) by {
        if holds_id(makers, id) {
            let j = choose|j: int| 0 <= j < makers.len() && (#[trigger] makers[j]).id == id;
            assert(after[j].id == id);
        }
    }
}

/// A side is a tail of itself.
pub proof fn lemma_tail_of_self(s: Seq<OrderView>)
    ensures
        tail_of(s, s),
{
}

/// A tail without its best order is a tail.
pub proof fn lemma_tail_drops(after: Seq<OrderView>, before: Seq<OrderView>)
    requires
        tail_of(after, before),
        after.len() > 0,
    ensures
        tail_of(after.drop_first(), before),
{
    let t = after.drop_first();
    assert forall|i: int| 0 <= i < t.len() implies {
        let b = before[i + (before.len() - t.len())];
        &&& (#[trigger] t[i]).id == b.id
        &&& t[i].side == b.side
        &&& t[i].price == b.price
        &&& t[i].priority == b.priority
    } by {
        assert(t[i] == after[i + 1]);
    }
}

/// A tail whose best order has another quantity is a tail.
pub proof fn lemma_tail_shrinks(after: Seq<OrderView>, before: Seq<OrderView>, left: DecimalView)
    requires
        tail_of(after, before),
        after.len() > 0,
    ensures
        tail_of(after.update(0, after[0].with_quantity(left)), before),
{
    let t = after.update(0, after[0].with_quantity(left));
    assert forall|i: int| 0 <= i < t.len() implies {
        let b = before[i + (before.len() - t.len())];
        &&& (#[trigger] t[i]).id == b.id
        &&& t[i].side == b.side
        &&& t[i].price == b.price
        &&& t[i].priority == b.priority
    } by {
        assert(t[i].handle() == after[i].handle());
        assert(t[i].id == after[i].id);
    }
}

/// The orders of a tail keep their priorities apart from each other and from
/// those of the other side, and the best of them is no better than the best
/// of the whole side was.
pub proof fn lemma_tail_keeps(
    after: Seq<OrderView>,
    before: Seq<OrderView>,
    other: Seq<OrderView>,
    high_first: bool,
)
    requires
        tail_of(after, before),
        sorted(before, high_first),
        priorities_differ(before),
        priorities_apart(before, other),
    ensures
        priorities_differ(after),
        priorities_apart(after, other),
        after.len() > 0 && high_first ==> after[0].price.units() <= before[0].price.units(),
        after.len() > 0 && !high_first ==> after[0].price.units() >= before[0].price.units(),
{
    let k = before.len() - after.len();
    assert forall|i: int, j: int| 0 <= i < j < after.len() implies #[trigger] priority_differs(
        after[i],
        after[j],
    ) by {
        assert(after[i].priority == before[i + k].priority);
        assert(after[j].priority == before[j + k].priority);
        assert(priority_differs(before[i + k], before[j + k]));
    }
    assert forall|i: int, j: int|
        0 <= i < after.len() && 0 <= j < other.len() implies #[trigger] priority_differs(
        after[i],
        other[j],
    ) by {
        assert(after[i].priority == before[i + k].priority);
        assert(priority_differs(before[i + k], other[j]));
    }
    if after.len() > 0 {
        assert(after[0].price == before[k].price);
        if k > 0 {
            assert(before[0].key().before(before[k].key(), high_first));
        }
    }
}

/// A new order comes to rest on its side, under the next priority: the side
/// stays well-formed, the new order keeps its priority apart, and every
/// order of the side after is the new one or one of the side before.
pub proof fn lemma_rests(own: Seq<OrderView>, side: Side, next_priority: u64, order: OrderView)
    requires
        side_wf(own, side, next_priority),
        order.wf(),
        order.side == side,
        order.quantity.mantissa > 0,
        order.priority == next_priority,
        next_priority < u64::MAX,
    ensures
        ({
            let after = inserted(own, order, side == Side::Buy);
            let i = rank(own, order.key(), side == Side::Buy) as int;
            &&& 0 <= i <= own.len()
            &&& after == own.insert(i, order)
            &&& side_wf(after, side, (next_priority + 1) as u64)
            &&& priorities_differ(own) ==> priorities_differ(after)
        }),
{
    let high_first = side == Side::Buy;
    let after = inserted(own, order, high_first);
    let i = rank(own, order.key(), high_first) as int;
    lemma_rank_splits(own, order.key(), high_first);
    lemma_inserted_sorted(own, order, high_first);
    assert(!holds_key(own, order.key(), high_first)) by {
        if i < own.len() {
            assert(own[i].priority < next_priority);
        }
    }
    assert(after =~= own.insert(i, order));
    assert forall|a: int| 0 <= a < after.len() implies {
        &&& (#[trigger] after[a]).wf()
        &&& after[a].side == side
        &&& after[a].quantity.mantissa > 0
        &&& after[a].priority < next_priority + 1
    } by {
        if a < i {
            assert(after[a] == own[a]);
        } else if a > i {
            assert(after[a] == own[a - 1]);
        }
    }
    if priorities_differ(own) {
        assert forall|a: int, b: int| 0 <= a < b < after.len() implies #[trigger] priority_differs(
            after[a],
            after[b],
        ) by {
            let a0 = if a < i {
                a
            } else {
                a - 1
            };
            let b0 = if b < i {
                b
            } else {
                b - 1
            };
            if a != i {
                assert(after[a] == own[a0]);
                assert(own[a0].priority < next_priority);
            }
            if b != i {
                assert(after[b] == own[b0]);
                assert(own[b0].priority < next_priority);
            }
            if a != i && b != i {
                assert(priority_differs(own[a0], own[b0]));
            }
        }
    }
}

/// What holds of a sequence with one more order at place `i`: its orders are
/// the new one and the old ones.
pub proof fn lemma_insert_members(s: Seq<OrderView>, i: int, order: OrderView)
    requires
        0 <= i <= s.len(),
    ensures
        s.insert(i, order).len() == s.len() + 1,
        s.insert(i, order)[i] == order,
        forall|a: int|
            0 <= a < s.len() + 1 && a != i ==> #[trigger] s.insert(i, order)[a] == s[if a < i {
                a
            } else {
                a - 1
            }],
        forall|j: int|
            0 <= j < s.len() ==> #[trigger] s[j] == s.insert(i, order)[if j < i {
                j
            } else {
                j + 1
            }],
{
}

/// The end of a taker's walk. `side` is the taker's side with its orders
/// `own`; the walk has left `makers` of the opposing side `makers0`, in
/// agreement with `index`; and `rest`, if there is one, is what the taker
/// has left, which no maker that is left admits. Then the book with `rest` on
/// the taker's side is at rest, and agrees with the index that has `rest`.
pub proof fn lemma_settled(
    index: Map<u128, HandleView>,
    side: Side,
    own: Seq<OrderView>,
    makers0: Seq<OrderView>,
    makers: Seq<OrderView>,
    next_priority: u64,
    rest: Option<OrderView>,
)
    requires
        BookView::of_sides(side, own, makers0, next_priority).wf(),
        side_wf(makers, side.spec_opposite(), next_priority),
        index_agrees(index, own, makers),
        tail_of(makers, makers0),
        rest matches Some(order) ==> {
            &&& !index.contains_key(order.id)
            &&& order.wf()
            &&& order.side == side
            &&& order.quantity.mantissa > 0
            &&& order.priority == next_priority
            &&& next_priority < u64::MAX
            &&& makers.len() > 0 ==> !limit_admits(side, Some(order.price), makers[0].price)
        },
    ensures
        ({
            let after = match rest {
                Some(order) => BookView::of_sides(
                    side,
                    inserted(own, order, side == Side::Buy),
                    makers,
                    (next_priority + 1) as u64,
                ),
                None => BookView::of_sides(side, own, makers, next_priority),
            };
            let index_after = match rest {
                Some(order) => index.insert(order.id, order.handle()),
                None => index,
            };
            &&& after.wf()
            &&& index_agrees(index_after, after.bids, after.asks)
        }),
{
    let opposite = side.spec_opposite();
    let high_first = opposite == Side::Buy;
    assert(side_wf(own, side, next_priority));
    assert(side_wf(makers0, opposite, next_priority));
    assert(priorities_differ(own) && priorities_differ(makers0));
    lemma_apart_both_ways(own, makers0);
    lemma_tail_keeps(makers, makers0, own, high_first);
    lemma_apart_both_ways(makers, own);
    assert(not_crossed_sides(side, own, makers)) by {
        if own.len() > 0 && makers.len() > 0 {
            assert(makers0.len() > 0);
        }
    }
    match rest {
        None => {},
        Some(order) => {
            lemma_rests(own, side, next_priority, order);
            let i = rank(own, order.key(), side == Side::Buy) as int;
            let own_after = own.insert(i, order);
            lemma_insert_members(own, i, order);
            let next_after = (next_priority + 1) as u64;
            let index_after = index.insert(order.id, order.handle());
            assert(side_wf(makers, opposite, next_after));
            assert(priorities_apart(own_after, makers)) by {
                assert forall|a: int, b: int|
                    0 <= a < own_after.len() && 0 <= b < makers.len() implies #[trigger] priority_differs(
                    own_after[a],
                    makers[b],
                ) by {
                    assert(makers[b].priority < next_priority);
                    if a != i {
                        let a0 = if a < i {
                            a
                        } else {
                            a - 1
                        };
                        assert(own_after[a] == own[a0]);
                        assert(priority_differs(own[a0], makers[b]));
                    }
                }
            }
            lemma_apart_both_ways(own_after, makers);
            assert(not_crossed_sides(side, own_after, makers)) by {
                if makers.len() > 0 {
                    if i == 0 {
                        assert(own_after[0] == order);
                    } else {
                        assert(own_after[0] == own[0]);
                    }
                }
            }
            assert(indexed(index_after, own_after)) by {
                assert forall|a: int| 0 <= a < own_after.len() implies index_after.contains_key(
                    (#[trigger] own_after[a]).id,
                ) && index_after[own_after[a].id] == own_after[a].handle() by {
                    if a != i {
                        let a0 = if a < i {
                            a
                        } else {
                            a - 1
                        };
                        assert(own_after[a] == own[a0]);
                        assert(index.contains_key(own[a0].id));
                    }
                }
            }
            assert(indexed(index_after, makers)) by {
                assert forall|a: int| 0 <= a < makers.len() implies index_after.contains_key(
                    (#[trigger] makers[a]).id,
                ) && index_after[makers[a].id] == makers[a].handle() by {
                    assert(index.contains_key(makers[a].id));
                }
            }
            assert forall|id: u128| #[trigger] index_after.contains_key(id) implies holds_id(
                own_after,
                id,
            ) || holds_id(makers, id) by {
                if id == order.id {
                    assert(own_after[i].id == id);
                } else {
                    assert(index.contains_key(id));
                    if holds_id(own, id) {
                        let k = choose|k: int| 0 <= k < own.len() && (#[trigger] own[k]).id == id;
                        let k1 = if k < i {
                            k
                        } else {
                            k + 1
                        };
                        assert(own_after[k1] == own[k]);
                    }
                }
            }
        },
    }
}

/// In a well-formed side, what rests at a price level on top of a total above
/// zero is above zero and can be held.
pub proof fn lemma_level_positive(
    orders: Seq<OrderView>,
    price: DecimalView,
    total: DecimalView,
    side: Side,
    next_priority: u64,
    k: int,
)
    requires
        0 <= k <= orders.len(),
        side_wf(orders, side, next_priority),
        total.wf(),
        total.mantissa >= 0,
        level_fits(orders.skip(k), price, total),
    ensures
        level_quantity(orders.skip(k), price, total).wf(),
        level_quantity(orders.skip(k), price, total).mantissa >= 0,
        total.mantissa > 0 ==> level_quantity(orders.skip(k), price, total).mantissa > 0,
        k < orders.len() && orders[k].price.units() == price.units() ==> level_quantity(
            orders.skip(k),
            price,
            total,
        ).mantissa > 0,
    decreases orders.len() - k,
{
    let rest = orders.skip(k);
    if rest.len() > 0 && rest[0].price.units() == price.units() {
        assert(rest[0] == orders[k]);
        assert(orders[k].wf() && orders[k].quantity.mantissa > 0);
        assert(rest.drop_first() =~= orders.skip(k + 1));
        let then = total.sum(rest[0].quantity);
        lemma_sum_units(total, rest[0].quantity);
        lemma_units_bounds(total);
        lemma_units_bounds(rest[0].quantity);
        lemma_units_bounds(then);
        lemma_level_positive(orders, price, then, side, next_priority, k + 1);
    }
}

/// Priorities that are apart one way round are apart the other way round.
pub proof fn lemma_apart_both_ways(a: Seq<OrderView>, b: Seq<OrderView>)
    ensures
        priorities_apart(a, b) == priorities_apart(b, a),
{
    if priorities_apart(a, b) {
        assert forall|i: int, j: int|
            0 <= i < b.len() && 0 <= j < a.len() implies #[trigger] priority_differs(b[i], a[j]) by {
            assert(priority_differs(a[j], b[i]));
        }
    }
    if priorities_apart(b, a) {
        assert forall|i: int, j: int|
            0 <= i < a.len() && 0 <= j < b.len() implies #[trigger] priority_differs(a[i], b[j]) by {
            assert(priority_differs(b[j], a[i]));
        }
    }
}

/// The best order of the taker's side `own` and the best of the opposing
/// side `makers` do not cross.
pub open spec fn not_crossed_sides(
    side: Side,
    own: Seq<OrderView>,
    makers: Seq<OrderView>,
) -> bool {
    match side {
        Side::Buy => not_crossed(own, makers),
        Side::Sell => not_crossed(makers, own),
    }
}

} // verus!
