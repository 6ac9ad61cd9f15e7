//! What a taker's walk over the opposing side comes to: the fills, the
//! taker's totals, and the makers that are left.

use crate::decimal::{
    lemma_difference_units, lemma_negated_units, lemma_product_units, lemma_sum_units,
    lemma_units_bounds, pow10, DecimalView,
};
use crate::order::{OrderView, Side};
use vstd::prelude::*;

verus! {

/// The mathematical content of a fill record: the order it is about, the
/// quantity that traded, and the cash that the order paid (above zero) or
/// received (below zero).
pub struct FillView {
    pub order: u128,
    pub quantity: DecimalView,
    pub cost: DecimalView,
}

/// Whether an order of `side` with this limit may trade at `maker_price`: a
/// buyer at or below its limit, a seller at or above it. Equal prices cross,
/// and without a limit every price does.
pub open spec fn limit_admits(
    side: Side,
    limit: Option<DecimalView>,
    maker_price: DecimalView,
) -> bool {
    match limit {
        None => true,
        Some(price) => match side {
            Side::Buy => price.units() >= maker_price.units(),
            Side::Sell => price.units() <= maker_price.units(),
        },
    }
}

/// A taker on its way over the opposing side.
pub struct Taker {
    pub side: Side,
    /// The limit, if there is one: a buyer pays no more, a seller takes no
    /// less. A market order has none.
    pub limit: Option<DecimalView>,
    /// What is still to trade.
    pub remaining: DecimalView,
    /// What has traded so far.
    pub filled: DecimalView,
    /// The cash paid (above zero) or received (below zero) so far.
    pub cost: DecimalView,
}

impl Taker {
    /// A taker that has not traded yet.
    pub open spec fn start(side: Side, limit: Option<DecimalView>, quantity: DecimalView) -> Taker {
        Taker {
            side,
            limit,
            remaining: quantity,
            filled: DecimalView::zero(),
            cost: DecimalView::zero(),
        }
    }

    /// All its decimals can be held.
    pub open spec fn wf(self) -> bool {
        &&& self.limit matches Some(price) ==> price.wf()
        &&& self.remaining.wf()
        &&& self.filled.wf()
        &&& self.cost.wf()
    }

    /// Whether the taker's limit admits a trade at `maker_price`.
    pub open spec fn crosses(self, maker_price: DecimalView) -> bool {
        limit_admits(self.side, self.limit, maker_price)
    }

    /// Whether the taker trades with the first of `makers`: there is one,
    /// something is still to trade, and the prices cross.
    pub open spec fn active(self, makers: Seq<OrderView>) -> bool {
        &&& makers.len() > 0
        &&& self.remaining.mantissa > 0
        &&& self.crosses(makers[0].price)
    }

    /// The quantity that trades with `maker`: the smaller of what both have
    /// left.
    pub open spec fn fill(self, maker: OrderView) -> DecimalView {
        self.remaining.min(maker.quantity)
    }

    /// The cash that the buyer pays the seller: the traded quantity at the
    /// maker's price.
    pub open spec fn cash(self, maker: OrderView) -> DecimalView {
        maker.price.product(self.fill(maker))
    }

    /// The taker after the trade with `maker`.
    pub open spec fn trade(self, maker: OrderView) -> Taker {
        Taker {
            remaining: self.remaining.difference(self.fill(maker)),
            filled: self.filled.sum(self.fill(maker)),
            cost: match self.side {
                Side::Buy => self.cost.sum(self.cash(maker)),
                Side::Sell => self.cost.difference(self.cash(maker)),
            },
            ..self
        }
    }

    /// The taker's part of the trade with `maker` can be computed exactly.
    pub open spec fn trade_fits(self, maker: OrderView) -> bool {
        &&& self.remaining.sub_fits(self.fill(maker))
        &&& self.filled.add_fits(self.fill(maker))
        &&& maker.price.mul_fits(self.fill(maker))
        &&& match self.side {
            Side::Buy => self.cost.add_fits(self.cash(maker)),
            Side::Sell => self.cost.sub_fits(self.cash(maker)),
        }
    }

    /// What `maker` has left after the trade.
    pub open spec fn maker_left(self, maker: OrderView) -> DecimalView {
        maker.quantity.difference(self.fill(maker))
    }

    /// What `maker` has left after the trade can be computed exactly.
    pub open spec fn maker_fits(self, maker: OrderView) -> bool {
        maker.quantity.sub_fits(self.fill(maker))
    }

    /// The fill record of `maker` for the trade: a selling maker receives the
    /// cash, a buying maker pays it.
    pub open spec fn maker_record(self, maker: OrderView) -> FillView {
        FillView {
            order: maker.id,
            quantity: self.fill(maker),
            cost: match self.side {
                Side::Buy => self.cash(maker).negated(),
                Side::Sell => self.cash(maker),
            },
        }
    }

    /// The taker at the end of its walk over `makers`, best first: it trades
    /// with one maker after the other while it is active.
    pub open spec fn walk(self, makers: Seq<OrderView>) -> Taker
        decreases makers.len(),
    {
        if self.active(makers) {
            self.trade(makers[0]).walk(makers.drop_first())
        } else {
            self
        }
    }

    /// The fill records of the makers that the walk trades with, in the order
    /// of the trades.
    pub open spec fn maker_records(self, makers: Seq<OrderView>) -> Seq<FillView>
        decreases makers.len(),
    {
        if self.active(makers) {
            seq![self.maker_record(makers[0])] + self.trade(makers[0]).maker_records(
                makers.drop_first(),
            )
        } else {
            Seq::empty()
        }
    }

    /// The opposing side after the walk: the makers that traded all they had
    /// are gone, and one that traded a part stands first with what it has
    /// left.
    pub open spec fn makers_left(self, makers: Seq<OrderView>) -> Seq<OrderView>
        decreases makers.len(),
    {
        if !self.active(makers) {
            makers
        } else if self.maker_left(makers[0]).mantissa != 0 {
            makers.update(0, makers[0].with_quantity(self.maker_left(makers[0])))
        } else {
            self.trade(makers[0]).makers_left(makers.drop_first())
        }
    }

    /// Every step of the taker's totals over `makers` can be computed
    /// exactly. This is what a quote of the walk needs.
    pub open spec fn walk_fits(self, makers: Seq<OrderView>) -> bool
        decreases makers.len(),
    {
        self.active(makers) ==> {
            &&& self.trade_fits(makers[0])
            &&& self.trade(makers[0]).walk_fits(makers.drop_first())
        }
    }

    /// Every step of the walk over `makers` can be computed exactly, the
    /// taker's totals and what each maker has left. This is what matching
    /// needs.
    pub open spec fn match_fits(self, makers: Seq<OrderView>) -> bool
        decreases makers.len(),
    {
        self.active(makers) ==> {
            &&& self.trade_fits(makers[0])
            &&& self.maker_fits(makers[0])
            &&& self.trade(makers[0]).match_fits(makers.drop_first())
        }
    }

    /// The fill record of the taker itself, under the identifier `id`: all it
    /// traded, and all it paid or received.
    pub open spec fn record(self, id: u128) -> FillView {
        FillView { order: id, quantity: self.filled, cost: self.cost }
    }

    /// All fill records of the walk over `makers`: one for each maker that
    /// traded, in the order of the trades, and then, if anything traded, one
    /// for the taker itself under the identifier `id`.
    pub open spec fn fills(self, makers: Seq<OrderView>, id: u128) -> Seq<FillView> {
        let end = self.walk(makers);
        if end.filled.mantissa != 0 {
            self.maker_records(makers).push(end.record(id))
        } else {
            self.maker_records(makers)
        }
    }
}

/// One trade, in numbers. The quantity that trades is the smaller of the two
/// remainders and above zero; the cash is that quantity times the maker's
/// price; each total moves by the quantity; the maker's fill and the taker's
/// cost move by the cash in opposite directions; and where the maker keeps a
/// remainder, the taker has none.
pub proof fn lemma_trade(t: Taker, maker: OrderView)
    requires
        t.wf(),
        maker.wf(),
        t.remaining.mantissa > 0,
        maker.quantity.mantissa > 0,
        t.trade_fits(maker),
    ensures
        t.fill(maker).wf(),
        t.fill(maker).mantissa > 0,
        t.fill(maker).units() == (if t.remaining.units() > maker.quantity.units() {
            maker.quantity.units()
        } else {
            t.remaining.units()
        }),
        t.cash(maker).wf(),
        t.cash(maker).units() * pow10(28) == maker.price.units() * t.fill(maker).units(),
        t.trade(maker).wf(),
        t.trade(maker).remaining.units() == t.remaining.units() - t.fill(maker).units(),
        t.trade(maker).remaining.mantissa >= 0,
        t.trade(maker).filled.units() == t.filled.units() + t.fill(maker).units(),
        t.trade(maker).cost.units() + t.maker_record(maker).cost.units() == t.cost.units(),
        t.maker_record(maker).cost.wf(),
        t.maker_fits(maker) ==> {
            &&& t.maker_left(maker).wf()
            &&& t.maker_left(maker).mantissa >= 0
            &&& t.maker_left(maker).units() == maker.quantity.units() - t.fill(maker).units()
            &&& t.maker_left(maker).mantissa != 0 ==> t.trade(maker).remaining.mantissa == 0
        },
{
    let fill = t.fill(maker);
    let cash = t.cash(maker);
    lemma_units_bounds(t.remaining);
    lemma_units_bounds(maker.quantity);
    lemma_units_bounds(fill);
    lemma_difference_units(t.remaining, fill);
    lemma_units_bounds(t.trade(maker).remaining);
    lemma_sum_units(t.filled, fill);
    lemma_product_units(maker.price, fill);
    lemma_negated_units(cash);
    match t.side {
        Side::Buy => {
            lemma_sum_units(t.cost, cash);
        },
        Side::Sell => {
            lemma_difference_units(t.cost, cash);
        },
    }
    if t.maker_fits(maker) {
        lemma_difference_units(maker.quantity, fill);
        lemma_units_bounds(t.maker_left(maker));
    }
}

} // verus!
