//! Commands, their results, and the events published after success.

use vstd::prelude::*;

use crate::domain::order::{NewOrder, OrderId};
use crate::domain::trade::{CancelReport, ExecutionReport};

verus! {

/// A request to the matching engine.
#[derive(Debug, Clone, Copy, PartialEq, Eq, Structural)]
pub enum OrderCommand {
    Submit(NewOrder),
    Cancel(OrderId),
}

/// What a successful command produced.
#[derive(Debug, Clone, PartialEq, Eq)]
pub enum OrderCommandResult {
    Submitted(ExecutionReport),
    Cancelled(CancelReport),
}

/// A fact about the book that observers are told after a successful command.
#[derive(Debug, Clone, PartialEq, Eq)]
pub enum DomainEvent {
    OrderProcessed(ExecutionReport),
    OrderCancelled(CancelReport),
}

impl DomainEvent {
    /// The event that announces `result`: a processed order for a
    /// submission, a cancelled order for a cancellation.
    pub open spec fn announcing(result: OrderCommandResult) -> DomainEvent {
        match result {
            OrderCommandResult::Submitted(report) => DomainEvent::OrderProcessed(report),
            OrderCommandResult::Cancelled(report) => DomainEvent::OrderCancelled(report),
        }
    }

    /// The event that announces `result`.
    pub fn from_result(result: OrderCommandResult) -> (event: DomainEvent)
        ensures
            event == DomainEvent::announcing(result),
    {
        match result {
            OrderCommandResult::Submitted(report) => DomainEvent::OrderProcessed(report),
            OrderCommandResult::Cancelled(report) => DomainEvent::OrderCancelled(report),
        }
    }

    /// The result that the event announces.
    pub fn into_result(self) -> (result: OrderCommandResult)
        ensures
            DomainEvent::announcing(result) == self,
    {
        match self {
            DomainEvent::OrderProcessed(report) => OrderCommandResult::Submitted(report),
            DomainEvent::OrderCancelled(report) => OrderCommandResult::Cancelled(report),
        }
    }
}

/// An event gives back exactly the result it announces.
pub proof fn law_event_announces_result(result: OrderCommandResult, event: DomainEvent)
    requires
        event == DomainEvent::announcing(result),
    ensures
        forall|back: OrderCommandResult| DomainEvent::announcing(back) == event ==> back == result,
{
}

} // verus!
