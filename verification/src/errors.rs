//! What the order book reports when it turns a request down.

use vstd::prelude::*;

verus! {

/// Why a limit order was not admitted.
#[derive(Debug, PartialEq, Eq, Clone, Copy, Structural)]
pub enum ProcessLimitOrder {
    /// An order with this identifier is resting in the book.
    OrderAlreadyExists,
    /// The quantity is zero or negative.
    NonPositiveQuantity,
}

/// Why an order was not cancelled.
#[derive(Debug, PartialEq, Eq, Clone, Copy, Structural)]
pub enum CancelOrder {
    /// No order with this identifier is resting in the book.
    OrderNotFound,
}

/// Why a market cost was not quoted.
#[derive(Debug, PartialEq, Eq, Clone, Copy, Structural)]
pub enum CalculateMarketCost {
    /// The quantity is zero or negative.
    NonPositiveQuantity,
}

/// Why a market order was not admitted.
#[derive(Debug, PartialEq, Eq, Clone, Copy, Structural)]
pub enum ProcessMarketOrder {
    /// An order with this identifier is resting in the book.
    OrderAlreadyExists,
    /// The quantity is zero or negative.
    NonPositiveQuantity,
}

} // verus!
