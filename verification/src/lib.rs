//! A limit order book matching engine for a single trading symbol.
//!
//! The engine accepts buy and sell limit orders, matches crossing orders
//! under price-time priority, records the resulting trades, and answers
//! market-data queries (best bid and ask, spread, aggregated depth). It
//! supports cancellation, lookup by order id, and structural snapshots of
//! the whole book.

mod clock;
pub mod error;
pub mod laws;
pub mod model;
pub mod order_book;
pub mod order;
pub mod price;
pub mod types;
pub mod quantity;
pub mod snapshot;

pub use error::MatchingEngineError;
pub use order::{Order, OrderSide, OrderStatus};
pub use order_book::{IndexEntry, Level, LimitOrderBook, MarketDepth, MarketLevel, Trade};
pub use price::Price;
pub use quantity::Quantity;
pub use snapshot::BookSnapshot;
pub use types::{OrderId, Symbol, UserId};
