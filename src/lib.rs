//! Price-indexed storage core of a limit order book: exact fixed-point prices,
//! price levels that keep orders in arrival order, and a two-sided book that
//! routes each order to the level for its side and price.
pub mod book;

pub use book::{BidorAsk, Limit, Order, OrderBook, Price, PRICE_SCALAR};
