//! A limit order book for one instrument: price-time priority matching
//! over exact decimal prices and quantities.

pub mod book;
pub mod bookside;
pub mod decimal;
pub mod errors;
pub mod laws;
pub mod matching;
pub mod order;
pub mod orderbook;

pub use decimal::Decimal;
pub use order::Side;
pub use orderbook::{OrderBook, OrderMatch};
