//! A limit order book: price levels kept in price order on each side, orders
//! queued within a level, an index from order id to its place in the book,
//! and price-time matching of incoming orders against the opposite side.

pub mod arena;
pub mod types;
pub mod price_level;
pub mod level_order;
pub mod model;
pub mod lemmas;
pub mod order_index;
pub mod book_invariant;
pub mod order_book;
pub mod stats;
pub mod laws;
pub mod workload;

pub use arena::Arena;
pub use order_book::OrderBook;
pub use price_level::PriceLevel;
pub use stats::percentile;
pub use workload::{cancel_ids, mean, workload_orders};
pub use types::{Order, OrderId, OrderResult, Price, Quantity, Side, Timestamp, Trade};
