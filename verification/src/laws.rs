//! What holds of every order book, stated over the mathematical content of
//! books, takers and fills, and proved.

use crate::book::{
    holds_id, index_agrees, lemma_best_leaves, lemma_best_shrinks, lemma_cancel,
    lemma_resting_is_indexed, lemma_settled, lemma_tail_drops, lemma_tail_of_self,
    lemma_tail_shrinks, side_wf, tail_of, BookView, HandleView,
};
use crate::decimal::{lemma_units_bounds, pow10, DecimalView, MAX_MANTISSA};
use crate::matching::{lemma_trade, FillView, Taker};
use crate::order::{OrderView, Side};
use vstd::prelude::*;

verus! {

/// The costs of `fills`, added up, in units of `10^-28`.
pub open spec fn total_cost(fills: Seq<FillView>) -> int
    decreases fills.len(),
{
    if fills.len() == 0 {
        0
    } else {
        fills[0].cost.units() + total_cost(fills.drop_first())
    }
}

/// The quantities of `fills`, added up, in units of `10^-28`.
pub open spec fn total_quantity(fills: Seq<FillView>) -> int
    decreases fills.len(),
{
    if fills.len() == 0 {
        0
    } else {
        fills[0].quantity.units() + total_quantity(fills.drop_first())
    }
}

/// The makers are orders that can be held and have something left to trade.
pub open spec fn makers_wf(makers: Seq<OrderView>) -> bool {
    forall|i: int|
        0 <= i < makers.len() ==> (#[trigger] makers[i]).wf() && makers[i].quantity.mantissa > 0
}

/// The totals of fills with one more fill at the end.
pub proof fn lemma_totals_push(fills: Seq<FillView>, last: FillView)
    ensures
        total_cost(fills.push(last)) == total_cost(fills) + last.cost.units(),
        total_quantity(fills.push(last)) == total_quantity(fills) + last.quantity.units(),
    decreases fills.len(),
{
    if fills.len() == 0 {
        assert(fills.push(last).drop_first() =~= fills);
    } else {
        assert(fills.push(last).drop_first() =~= fills.drop_first().push(last));
        lemma_totals_push(fills.drop_first(), last);
    }
}

/// A walk whose every step, makers included, can be computed exactly has
/// totals that can.
pub proof fn lemma_match_fits_walk_fits(t: Taker, makers: Seq<OrderView>)
    requires
        t.match_fits(makers),
    ensures
        t.walk_fits(makers),
    decreases makers.len(),
{
    if t.active(makers) {
        lemma_match_fits_walk_fits(t.trade(makers[0]), makers.drop_first());
    }
}

/// The totals of a walk. What the makers traded is what the taker traded;
/// what the makers paid and what the taker paid cancel; the taker has traded
/// something exactly if a maker has; and what it has left is not below zero.
pub proof fn lemma_walk_totals(t: Taker, makers: Seq<OrderView>)
    requires
        t.wf(),
        t.remaining.mantissa >= 0,
        makers_wf(makers),
        t.walk_fits(makers),
    ensures
        t.walk(makers).wf(),
        t.walk(makers).remaining.mantissa >= 0,
        t.walk(makers).filled.units() == t.filled.units() + total_quantity(
            t.maker_records(makers),
        ),
        t.walk(makers).cost.units() + total_cost(t.maker_records(makers)) == t.cost.units(),
        t.walk(makers).remaining.units() + total_quantity(t.maker_records(makers))
            == t.remaining.units(),
        total_quantity(t.maker_records(makers)) >= 0,
        t.maker_records(makers).len() > 0 <==> total_quantity(t.maker_records(makers)) > 0,
    decreases makers.len(),
{
    if t.active(makers) {
        let maker = makers[0];
        let then = t.trade(maker);
        let rest = makers.drop_first();
        lemma_trade(t, maker);
        assert forall|i: int| 0 <= i < rest.len() implies (#[trigger] rest[i]).wf()
            && rest[i].quantity.mantissa > 0 by {
            assert(rest[i] == makers[i + 1]);
        }
        lemma_walk_totals(then, rest);
        let records = t.maker_records(makers);
        assert(records.drop_first() =~= then.maker_records(rest));
        assert(records[0] == t.maker_record(maker));
        lemma_units_bounds(t.fill(maker));
    }
}

/// Cash is conserved. Whatever the book and the order, the costs of all
/// fills of one walk add up to exactly zero: what the taker pays, the makers
/// receive.
pub proof fn law_cash_is_conserved(
    makers: Seq<OrderView>,
    id: u128,
    side: Side,
    limit: Option<DecimalView>,
    quantity: DecimalView,
)
    requires
        makers_wf(makers),
        quantity.wf(),
        quantity.mantissa > 0,
        limit matches Some(price) ==> price.wf(),
        Taker::start(side, limit, quantity).walk_fits(makers),
    ensures
        total_cost(Taker::start(side, limit, quantity).fills(makers, id)) == 0,
{
    let start = Taker::start(side, limit, quantity);
    lemma_units_bounds(DecimalView::zero());
    lemma_walk_totals(start, makers);
    let end = start.walk(makers);
    lemma_units_bounds(end.filled);
    lemma_totals_push(start.maker_records(makers), end.record(id));
    if end.filled.mantissa == 0 {
        assert(start.maker_records(makers).len() == 0);
    }
}

/// Quantity is conserved. The quantities of the makers' fills add up to the
/// quantity of the taker's own fill, and where no maker traded there is no
/// fill at all.
pub proof fn law_quantity_is_conserved(
    makers: Seq<OrderView>,
    id: u128,
    side: Side,
    limit: Option<DecimalView>,
    quantity: DecimalView,
)
    requires
        makers_wf(makers),
        quantity.wf(),
        quantity.mantissa > 0,
        limit matches Some(price) ==> price.wf(),
        Taker::start(side, limit, quantity).walk_fits(makers),
    ensures
        ({
            let start = Taker::start(side, limit, quantity);
            let fills = start.fills(makers, id);
            &&& fills.len() == 0 <==> start.maker_records(makers).len() == 0
            &&& fills.len() > 0 ==> {
                &&& fills.drop_last() == start.maker_records(makers)
                &&& fills.last().order == id
                &&& total_quantity(fills.drop_last()) == fills.last().quantity.units()
                &&& fills.last().quantity.units() + start.walk(makers).remaining.units()
                    == quantity.units()
            }
        }),
{
    let start = Taker::start(side, limit, quantity);
    lemma_units_bounds(DecimalView::zero());
    lemma_walk_totals(start, makers);
    let end = start.walk(makers);
    let records = start.maker_records(makers);
    lemma_units_bounds(end.filled);
    if end.filled.mantissa != 0 {
        assert(records.push(end.record(id)).drop_last() =~= records);
    }
}

/// A side of a book at rest holds makers that a taker can walk over.
pub proof fn lemma_side_is_makers(orders: Seq<OrderView>, side: Side, next_priority: u64)
    requires
        side_wf(orders, side, next_priority),
    ensures
        makers_wf(orders),
{
}

/// What a walk leaves of a side is a tail of the side.
pub proof fn lemma_makers_left_is_tail(t: Taker, makers: Seq<OrderView>)
    ensures
        tail_of(t.makers_left(makers), makers),
    decreases makers.len(),
{
    if !t.active(makers) {
        lemma_tail_of_self(makers);
    } else if t.maker_left(makers[0]).mantissa != 0 {
        lemma_tail_of_self(makers);
        lemma_tail_shrinks(makers, makers, t.maker_left(makers[0]));
    } else {
        let rest = makers.drop_first();
        lemma_makers_left_is_tail(t.trade(makers[0]), rest);
        lemma_tail_of_self(makers);
        lemma_tail_drops(makers, makers);
        lemma_tail_of_tail(t.trade(makers[0]).makers_left(rest), rest, makers);
    }
}

/// A tail of a tail is a tail.
pub proof fn lemma_tail_of_tail(a: Seq<OrderView>, b: Seq<OrderView>, c: Seq<OrderView>)
    requires
        tail_of(a, b),
        tail_of(b, c),
    ensures
        tail_of(a, c),
{
    assert forall|i: int| 0 <= i < a.len() implies {
        let x = c[i + (c.len() - a.len())];
        &&& (#[trigger] a[i]).id == x.id
        &&& a[i].side == x.side
        &&& a[i].price == x.price
        &&& a[i].priority == x.priority
    } by {
        let j = i + (b.len() - a.len());
        assert(b[j].id == c[j + (c.len() - b.len())].id);
    }
}

/// An identifier that is not on a side is not on a tail of it.
pub proof fn lemma_tail_has_no_new_id(after: Seq<OrderView>, before: Seq<OrderView>, id: u128)
    requires
        tail_of(after, before),
        !holds_id(before, id),
    ensures
        !holds_id(after, id),
{
    if holds_id(after, id) {
        let i = choose|i: int| 0 <= i < after.len() && (#[trigger] after[i]).id == id;
        assert(before[i + (before.len() - after.len())].id == id);
    }
}

/// The index and the sides agree on who rests where: an identifier is in
/// the index exactly if an order with it rests, and then on one side only.
pub proof fn law_each_order_on_one_side(index: Map<u128, HandleView>, book: BookView, id: u128)
    requires
        book.wf(),
        index_agrees(index, book.bids, book.asks),
    ensures
        index.contains_key(id) <==> book.is_resting(id),
        !(holds_id(book.bids, id) && holds_id(book.asks, id)),
        index.contains_key(id) ==> holds_id(book.side(index[id].side), id),
{
    lemma_resting_is_indexed(index, book, id);
    if holds_id(book.bids, id) {
        let i = choose|i: int| 0 <= i < book.bids.len() && (#[trigger] book.bids[i]).id == id;
        assert(index[id] == book.bids[i].handle());
    }
    if holds_id(book.asks, id) {
        let i = choose|i: int| 0 <= i < book.asks.len() && (#[trigger] book.asks[i]).id == id;
        assert(index[id] == book.asks[i].handle());
    }
}

/// The index after a walk: the index before it, without the makers that
/// traded all they had.
pub open spec fn index_left(
    index: Map<u128, HandleView>,
    t: Taker,
    makers: Seq<OrderView>,
) -> Map<u128, HandleView>
    decreases makers.len(),
{
    if !t.active(makers) || t.maker_left(makers[0]).mantissa != 0 {
        index
    } else {
        index_left(index.remove(makers[0].id), t.trade(makers[0]), makers.drop_first())
    }
}

/// The index after a limit order: the index after its walk, with what the
/// order has left if it comes to rest.
pub open spec fn index_after_limit(
    index: Map<u128, HandleView>,
    book: BookView,
    id: u128,
    side: Side,
    price: DecimalView,
    quantity: DecimalView,
) -> Map<u128, HandleView> {
    let left = index_left(
        index,
        Taker::start(side, Some(price), quantity),
        book.side(side.spec_opposite()),
    );
    if book.rests(side, price, quantity) {
        left.insert(id, book.rest(id, side, price, quantity).handle())
    } else {
        left
    }
}

/// A walk leaves the opposing side well-formed and in agreement with the
/// index that is left; it ends where the taker does not trade with the best
/// maker that is left; and it brings no identifier into the index.
pub proof fn lemma_walk_settles(
    index: Map<u128, HandleView>,
    own: Seq<OrderView>,
    next_priority: u64,
    t: Taker,
    makers: Seq<OrderView>,
)
    requires
        side_wf(own, t.side, next_priority),
        side_wf(makers, t.side.spec_opposite(), next_priority),
        index_agrees(index, own, makers),
        t.wf(),
        t.remaining.mantissa >= 0,
        t.match_fits(makers),
    ensures
        side_wf(t.makers_left(makers), t.side.spec_opposite(), next_priority),
        index_agrees(index_left(index, t, makers), own, t.makers_left(makers)),
        index_left(index, t, makers).dom().subset_of(index.dom()),
        !t.walk(makers).active(t.makers_left(makers)),
        t.walk(makers).wf(),
        t.walk(makers).remaining.mantissa >= 0,
        t.walk(makers).side == t.side,
        t.walk(makers).limit == t.limit,
    decreases makers.len(),
{
    if t.active(makers) {
        let maker = makers[0];
        let then = t.trade(maker);
        let rest = makers.drop_first();
        assert(maker.wf() && maker.quantity.mantissa > 0);
        lemma_trade(t, maker);
        if t.maker_left(maker).mantissa != 0 {
            lemma_best_shrinks(
                index,
                own,
                makers,
                t.side.spec_opposite(),
                next_priority,
                t.maker_left(maker),
            );
            assert(!then.active(rest));
            assert(!then.active(t.makers_left(makers)));
        } else {
            lemma_best_leaves(index, own, makers, t.side, next_priority);
            lemma_walk_settles(index.remove(maker.id), own, next_priority, then, rest);
        }
    }
}

/// A limit order leaves the book at rest: its sides in order, not crossed,
/// every resting order with something left to trade and a priority of its
/// own below the next one, and the index in agreement with the sides.
pub proof fn law_limit_order_leaves_book_at_rest(
    index: Map<u128, HandleView>,
    book: BookView,
    id: u128,
    side: Side,
    price: DecimalView,
    quantity: DecimalView,
)
    requires
        book.wf(),
        index_agrees(index, book.bids, book.asks),
        price.wf(),
        quantity.wf(),
        quantity.mantissa > 0,
        !book.is_resting(id),
        book.limit_order_fits(side, price, quantity),
    ensures
        book.after_limit(id, side, price, quantity).wf(),
        index_agrees(
            index_after_limit(index, book, id, side, price, quantity),
            book.after_limit(id, side, price, quantity).bids,
            book.after_limit(id, side, price, quantity).asks,
        ),
{
    let own = book.side(side);
    let makers = book.side(side.spec_opposite());
    let next = book.next_priority;
    let start = Taker::start(side, Some(price), quantity);
    let left = start.makers_left(makers);
    let index_then = index_left(index, start, makers);
    lemma_units_bounds(DecimalView::zero());
    lemma_resting_is_indexed(index, book, id);
    assert(index_agrees(index, own, makers));
    assert(book == BookView::of_sides(side, own, makers, next));
    lemma_walk_settles(index, own, next, start, makers);
    lemma_makers_left_is_tail(start, makers);
    assert(!index_then.contains_key(id));
    if book.rests(side, price, quantity) {
        let order = book.rest(id, side, price, quantity);
        assert(left.len() > 0 ==> !start.walk(makers).crosses(left[0].price));
        lemma_settled(index_then, side, own, makers, left, next, Some(order));
    } else {
        lemma_settled(index_then, side, own, makers, left, next, None);
    }
}

/// A market order leaves the book at rest, and the index without the makers
/// that traded all they had in agreement with its sides.
pub proof fn law_market_order_leaves_book_at_rest(
    index: Map<u128, HandleView>,
    book: BookView,
    side: Side,
    quantity: DecimalView,
)
    requires
        book.wf(),
        index_agrees(index, book.bids, book.asks),
        quantity.wf(),
        quantity.mantissa > 0,
        book.market_order_fits(side, quantity),
    ensures
        book.after_market(side, quantity).wf(),
        index_agrees(
            index_left(index, Taker::start(side, None, quantity), book.side(side.spec_opposite())),
            book.after_market(side, quantity).bids,
            book.after_market(side, quantity).asks,
        ),
{
    let own = book.side(side);
    let makers = book.side(side.spec_opposite());
    let next = book.next_priority;
    let start = Taker::start(side, None, quantity);
    lemma_units_bounds(DecimalView::zero());
    assert(index_agrees(index, own, makers));
    assert(book == BookView::of_sides(side, own, makers, next));
    lemma_walk_settles(index, own, next, start, makers);
    lemma_makers_left_is_tail(start, makers);
    lemma_settled(
        index_left(index, start, makers),
        side,
        own,
        makers,
        start.makers_left(makers),
        next,
        None,
    );
}

/// A cancel leaves the book at rest, and the index without the cancelled
/// identifier in agreement with its sides.
pub proof fn law_cancel_leaves_book_at_rest(index: Map<u128, HandleView>, book: BookView, id: u128)
    requires
        book.wf(),
        index_agrees(index, book.bids, book.asks),
        book.is_resting(id),
    ensures
        book.after_cancel(id).wf(),
        index_agrees(index.remove(id), book.after_cancel(id).bids, book.after_cancel(id).asks),
{
    lemma_resting_is_indexed(index, book, id);
    lemma_cancel(index, book, id);
}

/// The best order stands first. On the buying side no order has a higher
/// price than the first, on the selling side none a lower one, and of the
/// orders at the first one's price none has an earlier priority.
pub proof fn law_best_order_is_first(book: BookView, side: Side, i: int)
    requires
        book.wf(),
        0 <= i < book.side(side).len(),
    ensures
        side == Side::Buy ==> book.bids[0].price.units() >= book.bids[i].price.units(),
        side == Side::Sell ==> book.asks[0].price.units() <= book.asks[i].price.units(),
        book.side(side)[0].price.units() == book.side(side)[i].price.units() ==> book.side(
            side,
        )[0].priority <= book.side(side)[i].priority,
{
    let orders = book.side(side);
    let high_first = side == Side::Buy;
    if i > 0 {
        assert(orders[0].key().before(orders[i].key(), high_first));
    }
}

/// The next priority never falls: no operation moves it but a limit order
/// that comes to rest, which takes it and moves it up by one. It is above
/// the priority of every resting order.
pub proof fn law_next_priority_never_falls(
    book: BookView,
    id: u128,
    side: Side,
    price: DecimalView,
    quantity: DecimalView,
)
    requires
        book.wf(),
        book.limit_order_fits(side, price, quantity),
    ensures
        book.after_cancel(id).next_priority == book.next_priority,
        book.after_market(side, quantity).next_priority == book.next_priority,
        !book.rests(side, price, quantity) ==> book.after_limit(
            id,
            side,
            price,
            quantity,
        ).next_priority == book.next_priority,
        book.rests(side, price, quantity) ==> {
            &&& book.rest(id, side, price, quantity).priority == book.next_priority
            &&& book.after_limit(id, side, price, quantity).next_priority == book.next_priority
                + 1
        },
        forall|i: int|
            0 <= i < book.bids.len() ==> (#[trigger] book.bids[i]).priority < book.next_priority,
        forall|i: int|
            0 <= i < book.asks.len() ==> (#[trigger] book.asks[i]).priority < book.next_priority,
{
}

/// Priorities grow. Of two limit orders that come to rest, the second on a
/// book whose next priority is no lower than it was after the first, the
/// second has the higher priority.
pub proof fn law_priorities_grow(
    book: BookView,
    first: OrderView,
    later: BookView,
    second: OrderView,
)
    requires
        book.limit_order_fits(first.side, first.price, first.quantity),
        book.rests(first.side, first.price, first.quantity),
        later.next_priority >= book.after_limit(
            first.id,
            first.side,
            first.price,
            first.quantity,
        ).next_priority,
        later.rests(second.side, second.price, second.quantity),
    ensures
        later.rest(second.id, second.side, second.price, second.quantity).priority > book.rest(
            first.id,
            first.side,
            first.price,
            first.quantity,
        ).priority,
{
}

/// A cancelled order is gone: after the order with the identifier `id` has
/// been taken out of a book at rest, no order with it is resting, so that a
/// second cancel finds none.
pub proof fn law_cancelled_is_gone(index: Map<u128, HandleView>, book: BookView, id: u128)
    requires
        book.wf(),
        index_agrees(index, book.bids, book.asks),
    ensures
        !book.after_cancel(id).is_resting(id),
{
    lemma_resting_is_indexed(index, book, id);
    if index.contains_key(id) {
        lemma_cancel(index, book, id);
    }
}

/// A quote is what the market order would get. The quantity and the cost
/// that a quote names for `side` and `quantity` are those of the taker's own
/// fill, the last one, of a market order for the same side and quantity on
/// the same book, wherever that order trades at all; where it does not, it
/// has no fills, and the quote names zero for both.
pub proof fn law_quote_is_market_fill(book: BookView, id: u128, side: Side, quantity: DecimalView)
    requires
        book.wf(),
        quantity.wf(),
        quantity.mantissa > 0,
        book.market_order_fits(side, quantity),
    ensures
        book.market_cost_fits(side, quantity),
        ({
            let quote = book.taker(side, None, quantity);
            let fills = Taker::start(side, None, quantity).fills(
                book.side(side.spec_opposite()),
                id,
            );
            &&& fills.len() > 0 ==> fills.last() == (FillView {
                order: id,
                quantity: quote.filled,
                cost: quote.cost,
            })
            &&& fills.len() == 0 ==> quote.filled == DecimalView::zero() && quote.cost
                == DecimalView::zero()
            &&& fills.len() == 0 <==> book.side(side.spec_opposite()).len() == 0
        }),
{
    let start = Taker::start(side, None, quantity);
    let makers = book.side(side.spec_opposite());
    lemma_match_fits_walk_fits(start, makers);
    lemma_side_is_makers(makers, side.spec_opposite(), book.next_priority);
    lemma_units_bounds(DecimalView::zero());
    lemma_walk_totals(start, makers);
    lemma_units_bounds(start.walk(makers).filled);
    if makers.len() > 0 {
        assert(start.active(makers));
    }
}

/// The limit that admits every price: the largest decimal for a buyer, the
/// smallest for a seller.
pub open spec fn extreme_price(side: Side) -> DecimalView {
    match side {
        Side::Buy => DecimalView { mantissa: MAX_MANTISSA as int, scale: 0 },
        Side::Sell => DecimalView { mantissa: -MAX_MANTISSA as int, scale: 0 },
    }
}

/// A market order is a limit order at the extreme price. A taker whose limit
/// is the extreme price of its side walks as a taker without a limit does:
/// the same trades, the same totals, the same makers left, and the same steps
/// to compute.
pub proof fn law_extreme_limit_is_no_limit(t: Taker, makers: Seq<OrderView>)
    requires
        makers_wf(makers),
        t.limit == Some(extreme_price(t.side)),
    ensures
        ({
            let free = Taker { limit: None, ..t };
            &&& t.walk(makers) == (Taker { limit: t.limit, ..free.walk(makers) })
            &&& t.maker_records(makers) == free.maker_records(makers)
            &&& t.makers_left(makers) == free.makers_left(makers)
            &&& t.match_fits(makers) == free.match_fits(makers)
            &&& t.walk_fits(makers) == free.walk_fits(makers)
        }),
    decreases makers.len(),
{
    let free = Taker { limit: None, ..t };
    if makers.len() > 0 {
        let maker = makers[0];
        let rest = makers.drop_first();
        assert(maker.wf());
        lemma_units_bounds(maker.price);
        lemma_units_bounds(extreme_price(t.side));
        assert(t.crosses(maker.price)) by {
            let p = pow10(28);
            assert(extreme_price(Side::Buy).units() == MAX_MANTISSA * p);
            assert(extreme_price(Side::Sell).units() == (-MAX_MANTISSA) * p);
        }
        assert(t.active(makers) == free.active(makers));
        if t.active(makers) {
            assert forall|i: int| 0 <= i < rest.len() implies (#[trigger] rest[i]).wf()
                && rest[i].quantity.mantissa > 0 by {
                assert(rest[i] == makers[i + 1]);
            }
            assert(free.trade(maker) == (Taker { limit: None, ..t.trade(maker) }));
            law_extreme_limit_is_no_limit(t.trade(maker), rest);
        }
    }
}

/// A market order never rests: where no order with the identifier `id` was
/// resting before a market order, none is resting after it.
pub proof fn law_market_order_never_rests(
    book: BookView,
    id: u128,
    side: Side,
    quantity: DecimalView,
)
    requires
        !book.is_resting(id),
    ensures
        !book.after_market(side, quantity).is_resting(id),
{
    let start = Taker::start(side, None, quantity);
    let makers = book.side(side.spec_opposite());
    lemma_makers_left_is_tail(start, makers);
    lemma_tail_has_no_new_id(start.makers_left(makers), makers, id);
}

} // verus!
