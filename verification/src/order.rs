//! Orders and the side of the book they belong to.

use crate::decimal::{Decimal, DecimalView};
use vstd::prelude::*;

verus! {

/// The side of the book: buyers bid, sellers ask.
#[derive(Debug, PartialEq, Eq, Clone, Copy, Structural)]
pub enum Side {
    Buy,
    Sell,
}

impl Side {
    /// The side that an order of this side trades against.
    pub fn opposite(&self) -> (s: Side)
        ensures
            s == self.spec_opposite(),
    {
        match self {
            Side::Buy => Side::Sell,
            Side::Sell => Side::Buy,
        }
    }

    /// The side that an order of this side trades against.
    pub open spec fn spec_opposite(&self) -> Side {
        match self {
            Side::Buy => Side::Sell,
            Side::Sell => Side::Buy,
        }
    }

    /// The side's name, `Buy` or `Sell`.
    pub fn name(&self) -> (s: &'static str)
        ensures
            s@ == (match self {
                Side::Buy => "Buy"@,
                Side::Sell => "Sell"@,
            }),
    {
        match self {
            Side::Buy => "Buy",
            Side::Sell => "Sell",
        }
    }
}

/// An order resting in the book. Only `quantity` changes while it rests.
#[derive(Debug, Clone, Copy)]
pub struct Order {
    /// The identifier that the caller chose.
    pub id: u128,
    pub side: Side,
    pub price: Decimal,
    /// What is left to trade; above zero while the order rests.
    pub quantity: Decimal,
    /// The order's place in the sequence of admissions.
    pub priority: u64,
}

/// The mathematical content of an [`Order`].
pub struct OrderView {
    pub id: u128,
    pub side: Side,
    pub price: DecimalView,
    pub quantity: DecimalView,
    pub priority: u64,
}

impl View for Order {
    type V = OrderView;

    open spec fn view(&self) -> OrderView {
        OrderView {
            id: self.id,
            side: self.side,
            price: self.price@,
            quantity: self.quantity@,
            priority: self.priority,
        }
    }
}

impl OrderView {
    /// Price and quantity are decimals that can be held.
    pub open spec fn wf(self) -> bool {
        self.price.wf() && self.quantity.wf()
    }

    /// The same order with another quantity left.
    pub open spec fn with_quantity(self, quantity: DecimalView) -> OrderView {
        OrderView { quantity, ..self }
    }
}

} // verus!
