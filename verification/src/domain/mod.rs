//! Core exchange concepts and matching rules.

pub mod book;
pub mod laws;
pub mod model;
pub mod order;
pub mod trade;

pub use book::{BookError, MatchingEngine, OrderBook};
pub use order::{NewOrder, OrderId, OrderValidationError, Price, Quantity, Side, TimeInForce};
pub use trade::{
    BookSnapshot, CancelReport, ExecutionReport, OrderStatus, PriceLevel, Trade, TradeId,
};
