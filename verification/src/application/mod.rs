//! Use-case orchestration and ports connecting the domain to infrastructure.

pub mod command;
pub mod history;
pub mod service;

pub use command::{DomainEvent, OrderCommand, OrderCommandResult};
pub use service::{EventSink, OrderBookService, ServiceError};
