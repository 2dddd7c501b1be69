//! A price-indexed limit order book with FIFO time priority at each level.
pub mod book;

pub use book::{BookRecord, BookState, Error, Order, OrderBook, Side, DEFAULT_TICK, MAX_SIZE, NIL_ID, UNIT_SCALE};
