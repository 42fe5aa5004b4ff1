//! Matching core of a limit-order book with iceberg orders.
//!
//! Incoming buy and sell orders are crossed against the resting orders of the
//! opposite side by price-time priority; whatever is left rests in the book.

pub mod laws;
pub mod matching;
pub mod order;
pub mod orderbook;
pub mod parse;
pub mod wellformed;

pub use orderbook::Orderbook;
pub use order::{FillEvent, IcebergOrder, Order, OrderKey, OrderSide};
