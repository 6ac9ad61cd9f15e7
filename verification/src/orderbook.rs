//! The order book: both sides, the index of resting orders by identifier, and
//! the operations on them.

use crate::book::{
    index_agrees, lemma_best_leaves, lemma_best_shrinks, lemma_cancel, lemma_level_positive,
    lemma_resting_is_indexed, lemma_settled, lemma_tail_drops, lemma_tail_of_self,
    lemma_tail_shrinks, level_fits, level_quantity, side_wf, tail_of, BookView, HandleView,
};
use crate::bookside::{inserted, BookSide, MaxPricePriority, MinPricePriority, PricePriority};
use crate::decimal::{Decimal, DecimalView};
use crate::errors;
use crate::matching::{lemma_trade, limit_admits, FillView, Taker};
use crate::order::{Order, OrderView, Side};
use std::collections::HashMap;
use vstd::prelude::*;

verus! {

/// The entry of the index for one resting order.
#[derive(Debug, Clone, Copy)]
struct OrderHandle {
    side: Side,
    price: Decimal,
    priority: u64,
}

impl View for OrderHandle {
    type V = HandleView;

    closed spec fn view(&self) -> HandleView {
        HandleView { side: self.side, price: self.price@, priority: self.priority }
    }
}

/// What the index of a book says, as a mathematical map.
spec fn index_view(index: HashMap<u128, OrderHandle>) -> Map<u128, HandleView> {
    index@.map_values(|h: OrderHandle| h@)
}

/// A fill: what one order traded in one call.
#[derive(Debug, PartialEq, Clone, Copy)]
pub struct OrderMatch {
    /// The identifier of the order.
    pub order: u128,
    /// The quantity that traded; above zero.
    pub quantity: Decimal,
    /// The cash that the order paid, if above zero, or received, if below:
    /// a buy at a price above zero pays, a sell at such a price receives,
    /// and at prices below zero it is the other way round.
    pub cost: Decimal,
}

impl View for OrderMatch {
    type V = FillView;

    open spec fn view(&self) -> FillView {
        FillView { order: self.order, quantity: self.quantity@, cost: self.cost@ }
    }
}

impl OrderMatch {
    /// A fill of nothing for the order `order`.
    pub fn new(order: u128) -> (fill: Self)
        ensures
            fill@ == (FillView {
                order,
                quantity: DecimalView::zero(),
                cost: DecimalView::zero(),
            }),
    {
        OrderMatch { order, quantity: Decimal::zero(), cost: Decimal::zero() }
    }
}

/// The mathematical content of a list of fills.
pub open spec fn fills_view(fills: Seq<OrderMatch>) -> Seq<FillView> {
    fills.map_values(|fill: OrderMatch| fill@)
}

/// The mathematical content of a limit, if there is one.
pub open spec fn limit_view(limit: Option<Decimal>) -> Option<DecimalView> {
    match limit {
        Some(price) => Some(price@),
        None => None,
    }
}

/// The taker that the walk's variables stand for.
spec fn taker_of(
    side: Side,
    limit: Option<Decimal>,
    remaining: Decimal,
    filled: Decimal,
    cost: Decimal,
) -> Taker {
    Taker { side, limit: limit_view(limit), remaining: remaining@, filled: filled@, cost: cost@ }
}

/// What a taker's walk over the opposing side came to.
struct Matched {
    records: Vec<OrderMatch>,
    remaining: Decimal,
    filled: Decimal,
    cost: Decimal,
}

/// Whether an order of `side` with this limit may trade at `maker_price`.
fn admits(side: Side, limit: &Option<Decimal>, maker_price: &Decimal) -> (b: bool)
    ensures
        b == limit_admits(side, limit_view(*limit), maker_price@),
{
    match limit {
        None => true,
        Some(price) => match side {
            Side::Buy => maker_price.le(price),
            Side::Sell => price.le(maker_price),
        },
    }
}

/// Lets a taker of `side` walk over `makers`, the opposing side: it trades
/// with the best maker while it has something left and the prices cross.
/// Makers that traded all they had leave the side and the index.
fn match_side<P: PricePriority>(
    makers: &mut BookSide<P>,
    index: &mut HashMap<u128, OrderHandle>,
    side: Side,
    limit: Option<Decimal>,
    quantity: Decimal,
    Ghost(own): Ghost<Seq<OrderView>>,
    Ghost(next): Ghost<u64>,
) -> (m: Matched)
    requires
        P::high_first() == (side == Side::Sell),
        side_wf(own, side, next),
        side_wf(old(makers)@, side.spec_opposite(), next),
        index_agrees(index_view(*old(index)), own, old(makers)@),
        quantity@.mantissa > 0,
        Taker::start(side, limit_view(limit), quantity@).match_fits(old(makers)@),
    ensures
        side_wf(final(makers)@, side.spec_opposite(), next),
        index_agrees(index_view(*final(index)), own, final(makers)@),
        tail_of(final(makers)@, old(makers)@),
        index_view(*final(index)).dom().subset_of(index_view(*old(index)).dom()),
        ({
            let start = Taker::start(side, limit_view(limit), quantity@);
            let end = start.walk(old(makers)@);
            &&& final(makers)@ == start.makers_left(old(makers)@)
            &&& fills_view(m.records@) == start.maker_records(old(makers)@)
            &&& end == taker_of(side, limit, m.remaining, m.filled, m.cost)
            &&& end.wf()
            &&& end.remaining.mantissa >= 0
            &&& !end.active(final(makers)@)
        }),
{
    let ghost start = Taker::start(side, limit_view(limit), quantity@);
    let ghost makers0 = makers@;
    let ghost index0 = index_view(*index);
    let mut records: Vec<OrderMatch> = Vec::new();
    let mut remaining = quantity;
    let mut filled = Decimal::zero();
    let mut cost = Decimal::zero();
    proof {
        use_type_invariant(&quantity);
        match limit {
            Some(price) => {
                use_type_invariant(&price);
            },
            None => {},
        }
        lemma_tail_of_self(makers0);
        assert(fills_view(records@) =~= Seq::<FillView>::empty());
    }
    while remaining.is_positive()
        invariant
            P::high_first() == (side == Side::Sell),
            side_wf(own, side, next),
            side_wf(makers@, side.spec_opposite(), next),
            index_agrees(index_view(*index), own, makers@),
            tail_of(makers@, makers0),
            index_view(*index).dom().subset_of(index0.dom()),
            start == Taker::start(side, limit_view(limit), quantity@),
            taker_of(side, limit, remaining, filled, cost).wf(),
            remaining@.mantissa >= 0,
            taker_of(side, limit, remaining, filled, cost).match_fits(makers@),
            start.walk(makers0) == taker_of(side, limit, remaining, filled, cost).walk(makers@),
            start.makers_left(makers0) == taker_of(side, limit, remaining, filled, cost).makers_left(
                makers@,
            ),
            start.maker_records(makers0) == fills_view(records@) + taker_of(
                side,
                limit,
                remaining,
                filled,
                cost,
            ).maker_records(makers@),
        ensures
            !taker_of(side, limit, remaining, filled, cost).active(makers@),
        decreases 2 * makers@.len() + (if remaining@.mantissa > 0 { 1int } else { 0int }),
    {
        let ghost cur = taker_of(side, limit, remaining, filled, cost);
        let ghost before = makers@;
        let ghost records_before = fills_view(records@);
        let maker = match makers.get_highest_priority() {
            Some(order) => *order,
            None => {
                break;
            },
        };
        if !admits(side, &limit, &maker.price) {
            break;
        }
        proof {
            assert(cur.active(before));
            assert(before[0].wf() && before[0].quantity.mantissa > 0);
            lemma_trade(cur, maker@);
        }
        let fill = remaining.min(maker.quantity);
        let left = maker.quantity.sub(fill);
        let cash = maker.price.mul(fill);
        remaining = remaining.sub(fill);
        filled = filled.add(fill);
        let maker_cost = match side {
            Side::Buy => {
                cost = cost.add(cash);
                cash.negated()
            },
            Side::Sell => {
                cost = cost.sub(cash);
                cash
            },
        };
        records.push(OrderMatch { order: maker.id, quantity: fill, cost: maker_cost });
        let ghost then = cur.trade(maker@);
        proof {
            assert(fills_view(records@) =~= records_before.push(cur.maker_record(maker@)));
            assert(records_before + (seq![cur.maker_record(maker@)] + then.maker_records(
                before.drop_first(),
            )) =~= records_before.push(cur.maker_record(maker@)) + then.maker_records(
                before.drop_first(),
            ));
            assert(cur.walk(before) == then.walk(before.drop_first()));
        }
        if left.is_zero() {
            let ghost index_before = index_view(*index);
            index.remove(&maker.id);
            makers.pop_highest_priority();
            proof {
                assert(index_view(*index) =~= index_before.remove(maker.id));
                lemma_best_leaves(index_before, own, before, side, next);
                lemma_tail_drops(before, makers0);
                assert(cur.makers_left(before) == then.makers_left(before.drop_first()));
            }
        } else {
            makers.set_highest_priority_quantity(left);
            proof {
                lemma_best_shrinks(
                    index_view(*index),
                    own,
                    before,
                    side.spec_opposite(),
                    next,
                    left@,
                );
                lemma_tail_shrinks(before, makers0, left@);
                assert(!then.active(before.drop_first()));
                assert(!then.active(makers@));
            }
        }
    }
    Matched { records, remaining, filled, cost }
}

/// Whether the walk of `start` over `makers` can be computed exactly: the
/// taker's totals, and with `with_makers` also what each maker has left.
spec fn fits(start: Taker, makers: Seq<OrderView>, with_makers: bool) -> bool {
    if with_makers {
        start.match_fits(makers)
    } else {
        start.walk_fits(makers)
    }
}

/// Walks a taker of `side` over `makers` without changing them. Gives what
/// the taker has left, what it traded and what it paid, or `None` where a
/// step cannot be computed exactly; with `with_makers` the steps include
/// what each maker has left.
fn walk_side<P: PricePriority>(
    makers: &BookSide<P>,
    side: Side,
    limit: Option<Decimal>,
    quantity: Decimal,
    with_makers: bool,
) -> (r: Option<(Decimal, Decimal, Decimal)>)
    ensures
        r is Some <==> fits(Taker::start(side, limit_view(limit), quantity@), makers@, with_makers),
        r matches Some(end) ==> taker_of(side, limit, end.0, end.1, end.2) == Taker::start(
            side,
            limit_view(limit),
            quantity@,
        ).walk(makers@),
{
    let ghost start = Taker::start(side, limit_view(limit), quantity@);
    let mut remaining = quantity;
    let mut filled = Decimal::zero();
    let mut cost = Decimal::zero();
    let mut i: usize = 0;
    assert(makers@.skip(0) =~= makers@);
    while i < makers.len() && remaining.is_positive()
        invariant
            i <= makers@.len(),
            start == Taker::start(side, limit_view(limit), quantity@),
            start.walk(makers@) == taker_of(side, limit, remaining, filled, cost).walk(
                makers@.skip(i as int),
            ),
            fits(start, makers@, with_makers) == fits(
                taker_of(side, limit, remaining, filled, cost),
                makers@.skip(i as int),
                with_makers,
            ),
        decreases makers@.len() - i,
    {
        let ghost cur = taker_of(side, limit, remaining, filled, cost);
        let ghost rest = makers@.skip(i as int);
        let maker = *makers.get(i);
        assert(rest[0] == maker@);
        assert(rest.drop_first() =~= makers@.skip(i + 1));
        if !admits(side, &limit, &maker.price) {
            assert(!cur.active(rest));
            return Some((remaining, filled, cost));
        }
        assert(cur.active(rest));
        let fill = remaining.min(maker.quantity);
        let cash = match maker.price.checked_mul(fill) {
            Some(cash) => cash,
            None => {
                return None;
            },
        };
        let remaining_then = match remaining.checked_sub(fill) {
            Some(left) => left,
            None => {
                return None;
            },
        };
        let filled_then = match filled.checked_add(fill) {
            Some(total) => total,
            None => {
                return None;
            },
        };
        let cost_then = match side {
            Side::Buy => cost.checked_add(cash),
            Side::Sell => cost.checked_sub(cash),
        };
        let cost_then = match cost_then {
            Some(total) => total,
            None => {
                return None;
            },
        };
        if with_makers && !maker.quantity.sub_fits(fill) {
            return None;
        }
        remaining = remaining_then;
        filled = filled_then;
        cost = cost_then;
        i = i + 1;
    }
    assert(!taker_of(side, limit, remaining, filled, cost).active(makers@.skip(i as int)));
    Some((remaining, filled, cost))
}

/// Adds up what rests at the best price of a side that has orders, or gives
/// `None` where the sum cannot be computed exactly.
fn level_total<P: PricePriority>(orders: &BookSide<P>) -> (r: Option<Decimal>)
    requires
        orders@.len() > 0,
    ensures
        r is Some <==> level_fits(orders@, orders@[0].price, DecimalView::zero()),
        r matches Some(total) ==> total@ == level_quantity(
            orders@,
            orders@[0].price,
            DecimalView::zero(),
        ),
{
    let price = orders.get(0).price;
    let mut total = Decimal::zero();
    let mut i: usize = 0;
    assert(orders@.skip(0) =~= orders@);
    while i < orders.len()
        invariant
            i <= orders@.len(),
            orders@.len() > 0,
            price@ == orders@[0].price,
            level_fits(orders@, price@, DecimalView::zero()) == level_fits(
                orders@.skip(i as int),
                price@,
                total@,
            ),
            level_quantity(orders@, price@, DecimalView::zero()) == level_quantity(
                orders@.skip(i as int),
                price@,
                total@,
            ),
        decreases orders@.len() - i,
    {
        let ghost rest = orders@.skip(i as int);
        let order = *orders.get(i);
        assert(rest[0] == order@);
        assert(rest.drop_first() =~= orders@.skip(i + 1));
        if order.price.compare(&price) != 0 {
            return Some(total);
        }
        total = match total.checked_add(order.quantity) {
            Some(sum) => sum,
            None => {
                return None;
            },
        };
        i = i + 1;
    }
    Some(total)
}

/// A limit order book for one instrument.
#[derive(Debug)]
pub struct OrderBook {
    // every resting order is in the index and on exactly one side
    order_index: HashMap<u128, OrderHandle>,
    buy_side: BookSide<MaxPricePriority>,
    sell_side: BookSide<MinPricePriority>,
    // the priority of the next resting order
    priority: u64,
}

impl View for OrderBook {
    type V = BookView;

    closed spec fn view(&self) -> BookView {
        BookView { bids: self.buy_side@, asks: self.sell_side@, next_priority: self.priority }
    }
}

impl OrderBook {
    /// The index: for the identifier of each resting order, where it rests.
    pub closed spec fn index(&self) -> Map<u128, HandleView> {
        index_view(self.order_index)
    }

    /// The book is at rest: its sides are well-formed and not crossed, and
    /// the index agrees with them.
    pub open spec fn wf(&self) -> bool {
        &&& self@.wf()
        &&& index_agrees(self.index(), self@.bids, self@.asks)
    }

    /// An empty book.
    pub fn new() -> (book: Self)
        ensures
            book.wf(),
            book@ == (BookView { bids: Seq::empty(), asks: Seq::empty(), next_priority: 0 }),
    {
        let book = OrderBook {
            order_index: HashMap::new(),
            buy_side: BookSide::new(),
            sell_side: BookSide::new(),
            priority: 0,
        };
        assert(book.index() =~= Map::<u128, HandleView>::empty());
        book
    }

    /// Lets what a limit order has left after its walk come to rest on its
    /// side, under the next priority.
    fn rest(&mut self, id: u128, side: Side, price: Decimal, quantity: Decimal)
        requires
            old(self).wf(),
            !old(self).index().contains_key(id),
            quantity@.mantissa > 0,
            old(self)@.next_priority < u64::MAX,
            old(self)@.side(side.spec_opposite()).len() > 0 ==> !limit_admits(
                side,
                Some(price@),
                old(self)@.side(side.spec_opposite())[0].price,
            ),
        ensures
            final(self).wf(),
            final(self)@ == BookView::of_sides(
                side,
                inserted(
                    old(self)@.side(side),
                    OrderView {
                        id,
                        side,
                        price: price@,
                        quantity: quantity@,
                        priority: old(self)@.next_priority,
                    },
                    side == Side::Buy,
                ),
                old(self)@.side(side.spec_opposite()),
                (old(self)@.next_priority + 1) as u64,
            ),
    {
        let ghost index = self.index();
        let ghost own = self@.side(side);
        let ghost makers = self@.side(side.spec_opposite());
        let ghost next = self@.next_priority;
        let priority = self.priority;
        let order = Order { id, side, price, quantity, priority };
        proof {
            use_type_invariant(&price);
            use_type_invariant(&quantity);
            lemma_tail_of_self(makers);
            assert(self@ == BookView::of_sides(side, own, makers, next));
            lemma_settled(index, side, own, makers, makers, next, Some(order@));
        }
        self.priority = priority + 1;
        self.order_index.insert(id, OrderHandle { side, price, priority });
        assert(self.index() =~= index.insert(id, order@.handle()));
        match side {
            Side::Buy => self.buy_side.add(order),
            Side::Sell => self.sell_side.add(order),
        }
    }

    /// Lets an order of `side` for `quantity`, with this limit if any, walk
    /// over the opposing side. Gives the fills of the walk and what the order
    /// has left.
    fn fill(&mut self, id: u128, side: Side, limit: Option<Decimal>, quantity: Decimal) -> (out: (
        Vec<OrderMatch>,
        Decimal,
    ))
        requires
            old(self).wf(),
            quantity@.mantissa > 0,
            Taker::start(side, limit_view(limit), quantity@).match_fits(
                old(self)@.side(side.spec_opposite()),
            ),
        ensures
            final(self).wf(),
            final(self).index().dom().subset_of(old(self).index().dom()),
            ({
                let start = Taker::start(side, limit_view(limit), quantity@);
                let makers = old(self)@.side(side.spec_opposite());
                &&& final(self)@ == BookView::of_sides(
                    side,
                    old(self)@.side(side),
                    start.makers_left(makers),
                    old(self)@.next_priority,
                )
                &&& fills_view(out.0@) == start.fills(makers, id)
                &&& out.1@ == start.walk(makers).remaining
                &&& out.1@.wf()
                &&& out.1@.mantissa >= 0
                &&& !start.walk(makers).active(final(self)@.side(side.spec_opposite()))
                &&& start.walk(makers).side == side
                &&& start.walk(makers).limit == limit_view(limit)
            }),
    {
        let ghost own = self@.side(side);
        let ghost makers0 = self@.side(side.spec_opposite());
        let ghost next = self@.next_priority;
        let ghost start = Taker::start(side, limit_view(limit), quantity@);
        let m = match side {
            Side::Buy => match_side(
                &mut self.sell_side,
                &mut self.order_index,
                side,
                limit,
                quantity,
                Ghost(own),
                Ghost(next),
            ),
            Side::Sell => match_side(
                &mut self.buy_side,
                &mut self.order_index,
                side,
                limit,
                quantity,
                Ghost(own),
                Ghost(next),
            ),
        };
        proof {
            lemma_settled(
                self.index(),
                side,
                own,
                makers0,
                self@.side(side.spec_opposite()),
                next,
                None,
            );
        }
        let mut fills = m.records;
        if !m.filled.is_zero() {
            let ghost records = fills_view(fills@);
            fills.push(OrderMatch { order: id, quantity: m.filled, cost: m.cost });
            assert(fills_view(fills@) =~= records.push(start.walk(makers0).record(id)));
        }
        (fills, m.remaining)
    }

    /// Works a limit order through the book. The order trades with the
    /// opposing side, best maker first, as far as its price admits; what it
    /// has left then comes to rest on its own side. The result holds one fill
    /// for each maker that traded, in the order of the trades, and after them,
    /// if anything traded, one fill for the order itself. An identifier that
    /// is resting and a quantity that is not above zero are turned down, in
    /// this order, and leave the book as it was.
    ///
    /// Every step must be computable exactly; [`OrderBook::limit_order_fits`]
    /// tells whether it is.
    pub fn process_limit_order(
        &mut self,
        id: u128,
        side: Side,
        price: Decimal,
        quantity: Decimal,
    ) -> (res: Result<Vec<OrderMatch>, errors::ProcessLimitOrder>)
        requires
            old(self).wf(),
            !old(self)@.is_resting(id) && quantity@.mantissa > 0 ==> old(self)@.limit_order_fits(
                side,
                price@,
                quantity@,
            ),
        ensures
            final(self).wf(),
            old(self)@.is_resting(id) ==> res == Err::<Vec<OrderMatch>, _>(
                errors::ProcessLimitOrder::OrderAlreadyExists,
            ) && final(self)@ == old(self)@,
            !old(self)@.is_resting(id) && quantity@.mantissa <= 0 ==> res == Err::<
                Vec<OrderMatch>,
                _,
            >(errors::ProcessLimitOrder::NonPositiveQuantity) && final(self)@ == old(self)@,
            !old(self)@.is_resting(id) && quantity@.mantissa > 0 ==> {
                &&& res matches Ok(fills)
                &&& fills_view(fills@) == Taker::start(side, Some(price@), quantity@).fills(
                    old(self)@.side(side.spec_opposite()),
                    id,
                )
                &&& final(self)@ == old(self)@.after_limit(id, side, price@, quantity@)
            },
    {
        let ghost before = self@;
        proof {
            lemma_resting_is_indexed(self.index(), before, id);
        }
        if self.order_index.contains_key(&id) {
            return Err(errors::ProcessLimitOrder::OrderAlreadyExists);
        }
        if !quantity.is_positive() {
            return Err(errors::ProcessLimitOrder::NonPositiveQuantity);
        }
        let (fills, remaining) = self.fill(id, side, Some(price), quantity);
        if !remaining.is_zero() {
            self.rest(id, side, price, remaining);
        }
        Ok(fills)
    }

    /// Works a market order through the book. The order trades with the
    /// opposing side, best maker first, at whatever price, until it has
    /// nothing left or the side is empty; what it has left then is dropped,
    /// so that the order never rests. The fills and the refusals are those of
    /// a limit order.
    ///
    /// Every step must be computable exactly; [`OrderBook::market_order_fits`]
    /// tells whether it is.
    pub fn process_market_order(&mut self, id: u128, side: Side, quantity: Decimal) -> (res: Result<
        Vec<OrderMatch>,
        errors::ProcessMarketOrder,
    >)
        requires
            old(self).wf(),
            !old(self)@.is_resting(id) && quantity@.mantissa > 0 ==> old(self)@.market_order_fits(
                side,
                quantity@,
            ),
        ensures
            final(self).wf(),
            !final(self)@.is_resting(id) || old(self)@.is_resting(id),
            old(self)@.is_resting(id) ==> res == Err::<Vec<OrderMatch>, _>(
                errors::ProcessMarketOrder::OrderAlreadyExists,
            ) && final(self)@ == old(self)@,
            !old(self)@.is_resting(id) && quantity@.mantissa <= 0 ==> res == Err::<
                Vec<OrderMatch>,
                _,
            >(errors::ProcessMarketOrder::NonPositiveQuantity) && final(self)@ == old(self)@,
            !old(self)@.is_resting(id) && quantity@.mantissa > 0 ==> {
                &&& res matches Ok(fills)
                &&& fills_view(fills@) == Taker::start(side, None, quantity@).fills(
                    old(self)@.side(side.spec_opposite()),
                    id,
                )
                &&& final(self)@ == old(self)@.after_market(side, quantity@)
            },
    {
        proof {
            lemma_resting_is_indexed(self.index(), self@, id);
        }
        if self.order_index.contains_key(&id) {
            return Err(errors::ProcessMarketOrder::OrderAlreadyExists);
        }
        if !quantity.is_positive() {
            return Err(errors::ProcessMarketOrder::NonPositiveQuantity);
        }
        let (fills, _) = self.fill(id, side, None, quantity);
        proof {
            lemma_resting_is_indexed(self.index(), self@, id);
        }
        Ok(fills)
    }

    /// Takes the resting order with the identifier `id` out of the book.
    pub fn cancel_order(&mut self, id: u128) -> (res: Result<(), errors::CancelOrder>)
        requires
            old(self).wf(),
        ensures
            final(self).wf(),
            res is Ok <==> old(self)@.is_resting(id),
            res is Ok ==> final(self)@ == old(self)@.after_cancel(id),
            res is Err ==> final(self)@ == old(self)@,
            !final(self)@.is_resting(id),
    {
        let ghost index = self.index();
        let ghost before = self@;
        proof {
            lemma_resting_is_indexed(index, before, id);
        }
        let handle = match self.order_index.remove(&id) {
            Some(handle) => handle,
            None => {
                assert(self.index() =~= index);
                return Err(errors::CancelOrder::OrderNotFound);
            },
        };
        assert(self.index() =~= index.remove(id));
        assert(index[id] == handle@);
        proof {
            lemma_cancel(index, before, id);
        }
        match handle.side {
            Side::Buy => self.buy_side.remove(handle.price, handle.priority),
            Side::Sell => self.sell_side.remove(handle.price, handle.priority),
        }
        Ok(())
    }

    /// What a market order of `side` for `quantity` would come to, without
    /// placing it: the quantity that would trade, and the cash that the order
    /// would pay, if above zero, or receive, if below. The book stays as it
    /// is. A quantity that is not above zero is turned down.
    ///
    /// Every step must be computable exactly; [`OrderBook::market_cost_fits`]
    /// tells whether it is.
    pub fn calculate_market_cost(&self, side: Side, quantity: Decimal) -> (res: Result<
        (Decimal, Decimal),
        errors::CalculateMarketCost,
    >)
        requires
            quantity@.mantissa > 0 ==> self@.market_cost_fits(side, quantity@),
        ensures
            quantity@.mantissa <= 0 ==> res == Err::<(Decimal, Decimal), _>(
                errors::CalculateMarketCost::NonPositiveQuantity,
            ),
            quantity@.mantissa > 0 ==> {
                &&& res matches Ok(quote)
                &&& quote.0@ == self@.taker(side, None, quantity@).filled
                &&& quote.1@ == self@.taker(side, None, quantity@).cost
            },
    {
        if !quantity.is_positive() {
            return Err(errors::CalculateMarketCost::NonPositiveQuantity);
        }
        let end = match side {
            Side::Buy => walk_side(&self.sell_side, side, None, quantity, false),
            Side::Sell => walk_side(&self.buy_side, side, None, quantity, false),
        };
        let (_, filled, cost) = end.unwrap();
        Ok((filled, cost))
    }

    /// Whether the cost of a market order of `side` for `quantity` can be
    /// quoted: every step of the taker's totals can be computed exactly.
    pub fn market_cost_fits(&self, side: Side, quantity: Decimal) -> (ok: bool)
        ensures
            ok == self@.market_cost_fits(side, quantity@),
    {
        match side {
            Side::Buy => walk_side(&self.sell_side, side, None, quantity, false).is_some(),
            Side::Sell => walk_side(&self.buy_side, side, None, quantity, false).is_some(),
        }
    }

    /// Whether a market order of `side` for `quantity` can be worked through:
    /// every step of its walk can be computed exactly.
    pub fn market_order_fits(&self, side: Side, quantity: Decimal) -> (ok: bool)
        ensures
            ok == self@.market_order_fits(side, quantity@),
    {
        match side {
            Side::Buy => walk_side(&self.sell_side, side, None, quantity, true).is_some(),
            Side::Sell => walk_side(&self.buy_side, side, None, quantity, true).is_some(),
        }
    }

    /// Whether a limit order of `side` at `price` for `quantity` can be worked
    /// through: every step of its walk can be computed exactly, and a
    /// priority is left for it if it comes to rest.
    pub fn limit_order_fits(&self, side: Side, price: Decimal, quantity: Decimal) -> (ok: bool)
        ensures
            ok == self@.limit_order_fits(side, price@, quantity@),
    {
        let end = match side {
            Side::Buy => walk_side(&self.sell_side, side, Some(price), quantity, true),
            Side::Sell => walk_side(&self.buy_side, side, Some(price), quantity, true),
        };
        match end {
            Some((remaining, _, _)) => remaining.is_zero() || self.priority < u64::MAX,
            None => false,
        }
    }

    /// The best price of `side` and all that rests at it, if the side has
    /// orders.
    ///
    /// The sum must be computable exactly; [`OrderBook::best_level_fits`]
    /// tells whether it is.
    pub fn get_highest_priority_price_quantity(&self, side: Side) -> (level: Option<
        (Decimal, Decimal),
    >)
        requires
            self.wf(),
            self@.best_level_fits(side),
        ensures
            level is Some <==> self@.side(side).len() > 0,
            level matches Some(found) ==> self@.best_level(side) == Some((found.0@, found.1@)),
    {
        let best = match side {
            Side::Buy => self.buy_side.get_highest_priority(),
            Side::Sell => self.sell_side.get_highest_priority(),
        };
        let price = match best {
            Some(order) => order.price,
            None => {
                return None;
            },
        };
        let total = match side {
            Side::Buy => level_total(&self.buy_side),
            Side::Sell => level_total(&self.sell_side),
        };
        let total = total.unwrap();
        proof {
            let orders = self@.side(side);
            assert(orders.skip(0) =~= orders);
            lemma_level_positive(
                orders,
                orders[0].price,
                DecimalView::zero(),
                side,
                self@.next_priority,
                0,
            );
        }
        if total.is_zero() {
            return None;
        }
        Some((price, total))
    }

    /// Whether what rests at the best price of `side` can be added up
    /// exactly.
    pub fn best_level_fits(&self, side: Side) -> (ok: bool)
        ensures
            ok == self@.best_level_fits(side),
    {
        match side {
            Side::Buy => self.buy_side.len() == 0 || level_total(&self.buy_side).is_some(),
            Side::Sell => self.sell_side.len() == 0 || level_total(&self.sell_side).is_some(),
        }
    }

    /// Whether an order with the identifier `id` is resting.
    pub fn is_resting(&self, id: u128) -> (resting: bool)
        requires
            self.wf(),
        ensures
            resting == self@.is_resting(id),
    {
        proof {
            lemma_resting_is_indexed(self.index(), self@, id);
        }
        self.order_index.contains_key(&id)
    }

    /// The resting orders of `side`, best first.
    pub fn orders(&self, side: Side) -> (orders: Vec<Order>)
        ensures
            orders@.map_values(|o: Order| o@) == self@.side(side),
    {
        match side {
            Side::Buy => self.buy_side.iter(),
            Side::Sell => self.sell_side.iter(),
        }
    }

    /// The identifier of the best order of `side`, if the side has one.
    pub fn get_highest_priority_order(&self, side: Side) -> (id: Option<u128>)
        ensures
            id == (if self@.side(side).len() > 0 {
                Some(self@.side(side)[0].id)
            } else {
                None
            }),
    {
        let best = match side {
            Side::Buy => self.buy_side.get_highest_priority(),
            Side::Sell => self.sell_side.get_highest_priority(),
        };
        match best {
            Some(order) => Some(order.id),
            None => None,
        }
    }

    /// The price of the best order of `side`, if the side has one.
    pub fn get_highest_priority_price(&self, side: Side) -> (price: Option<Decimal>)
        ensures
            price is Some <==> self@.side(side).len() > 0,
            price matches Some(p) ==> p@ == self@.side(side)[0].price,
    {
        let best = match side {
            Side::Buy => self.buy_side.get_highest_priority(),
            Side::Sell => self.sell_side.get_highest_priority(),
        };
        match best {
            Some(order) => Some(order.price),
            None => None,
        }
    }
}

} // verus!
