//! The service facade: runs commands against an engine and tells an event
//! sink about each success.

use std::sync::Arc;

use vstd::prelude::*;

use super::command::{DomainEvent, OrderCommand, OrderCommandResult};
use crate::domain::book::{BookError, MatchingEngine};
use crate::domain::model::{
    book_ids, book_wf, cancel_spec, cancel_within_limits, snapshot_spec, submit_spec, submit_within_limits,
    BookModel,
};
use crate::domain::order::NewOrder;
use crate::domain::trade::{BookSnapshot, ExecutionReportModel};

verus! {

/// Receives the events of successful commands.
pub trait EventSink: Send + Sync {
    fn publish(&self, event: &DomainEvent);
}

#[derive(Debug, Clone, Copy, PartialEq, Eq, Structural)]
pub enum ServiceError {
    Book(BookError),
    EngineUnavailable,
}

impl From<BookError> for ServiceError {
    fn from(error: BookError) -> (service_error: Self) {
        ServiceError::Book(error)
    }
}

impl vstd::std_specs::convert::FromSpecImpl<BookError> for ServiceError {
    open spec fn obeys_from_spec() -> bool {
        true
    }

    open spec fn from_spec(error: BookError) -> ServiceError {
        ServiceError::Book(error)
    }
}

impl ServiceError {
    /// The human-readable text of the error: a book error speaks for itself.
    pub open spec fn message_text(self) -> Seq<char> {
        match self {
            ServiceError::Book(error) => error.message_text(),
            ServiceError::EngineUnavailable => "matching engine is temporarily unavailable"@,
        }
    }

    pub fn message(&self) -> (text: String)
        ensures
            text@ == self.message_text(),
    {
        match self {
            ServiceError::Book(error) => error.message(),
            ServiceError::EngineUnavailable => "matching engine is temporarily unavailable".to_owned(),
        }
    }
}

/// The counters of `book` have room for `command`.
pub open spec fn command_within_limits(book: BookModel, command: OrderCommand) -> bool {
    match command {
        OrderCommand::Submit(order) => submit_within_limits(book, order),
        OrderCommand::Cancel(order_id) => cancel_within_limits(book, order_id),
    }
}

/// The book after `command`.
pub open spec fn command_book(book: BookModel, command: OrderCommand) -> BookModel {
    match command {
        OrderCommand::Submit(order) => submit_spec(book, order).0,
        OrderCommand::Cancel(order_id) => cancel_spec(book, order_id).0,
    }
}

/// The book after running `commands` in order.
pub open spec fn run_commands(book: BookModel, commands: Seq<OrderCommand>) -> BookModel
    decreases commands.len(),
{
    if commands.len() == 0 {
        book
    } else {
        run_commands(command_book(book, commands[0]), commands.drop_first())
    }
}

proof fn lemma_seen_only_grows(book: BookModel, commands: Seq<OrderCommand>)
    ensures
        book.seen.subset_of(run_commands(book, commands).seen),
    decreases commands.len(),
{
    if commands.len() > 0 {
        let next = command_book(book, commands[0]);
        assert(book.seen.subset_of(next.seen));
        lemma_seen_only_grows(next, commands.drop_first());
    }
}

/// Order ids are never reused: once a submission of an id has been
/// accepted, every later submission of that id, after any commands, is
/// refused as a duplicate.
pub proof fn law_order_ids_never_reused(
    book: BookModel,
    order: NewOrder,
    commands: Seq<OrderCommand>,
    later: NewOrder,
)
    requires
        submit_spec(book, order).1 is Ok,
        later.order_id == order.order_id,
    ensures
        submit_spec(run_commands(submit_spec(book, order).0, commands), later).1 == Err::<
            ExecutionReportModel,
            _,
        >(BookError::DuplicateOrder(later.order_id)),
{
    lemma_seen_only_grows(submit_spec(book, order).0, commands);
}

/// `result` is the service's answer to `command` on `book`.
pub open spec fn command_answer(
    book: BookModel,
    command: OrderCommand,
    result: Result<OrderCommandResult, ServiceError>,
) -> bool {
    match command {
        OrderCommand::Submit(order) => match submit_spec(book, order).1 {
            Ok(expected) => result matches Ok(OrderCommandResult::Submitted(report)) && report@
                == expected,
            Err(error) => result == Err::<OrderCommandResult, _>(ServiceError::Book(error)),
        },
        OrderCommand::Cancel(order_id) => match cancel_spec(book, order_id).1 {
            Ok(expected) => result == Ok::<_, ServiceError>(OrderCommandResult::Cancelled(expected)),
            Err(error) => result == Err::<OrderCommandResult, _>(ServiceError::Book(error)),
        },
    }
}

/// One matching engine behind a facade that publishes an event after each
/// successful command.
pub struct OrderBookService<E, S> {
    engine: Box<E>,
    event_sink: Arc<S>,
    published: Ghost<Seq<DomainEvent>>,
}

impl<E: MatchingEngine, S: EventSink> OrderBookService<E, S> {
    /// The engine the service drives.
    pub closed spec fn engine(&self) -> E {
        *self.engine
    }

    /// The sink the service tells about each success.
    pub closed spec fn event_sink(&self) -> S {
        *self.event_sink
    }

    /// The events handed to the sink so far, oldest first.
    pub closed spec fn published(&self) -> Seq<DomainEvent> {
        self.published@
    }

    pub fn new(engine: Box<E>, event_sink: Arc<S>) -> (service: Self)
        ensures
            service.engine() == *engine,
            service.event_sink() == *event_sink,
            service.published() == Seq::<DomainEvent>::empty(),
    {
        Self { engine, event_sink, published: Ghost(Seq::empty()) }
    }

    /// Runs one command; on success hands the event that announces the
    /// result to the sink, recording it among the published events, and
    /// answers the result. A failed command publishes nothing.
    pub fn execute(&mut self, command: OrderCommand) -> (result: Result<OrderCommandResult, ServiceError>)
        requires
            old(self).engine().well_formed(),
            command_within_limits(old(self).engine().model(), command),
        ensures
            final(self).engine().well_formed(),
            book_wf(final(self).engine().model()),
            final(self).engine().model() == command_book(old(self).engine().model(), command),
            command_answer(old(self).engine().model(), command, result),
            final(self).event_sink() == old(self).event_sink(),
            match result {
                Ok(answer) => final(self).published() == old(self).published().push(
                    DomainEvent::announcing(answer),
                ),
                Err(_) => final(self).published() == old(self).published(),
            },
    {
        let result = match command {
            OrderCommand::Submit(order) => match self.engine.submit(order) {
                Ok(report) => OrderCommandResult::Submitted(report),
                Err(error) => {
                    return Err(ServiceError::Book(error));
                },
            },
            OrderCommand::Cancel(order_id) => match self.engine.cancel(order_id) {
                Ok(report) => OrderCommandResult::Cancelled(report),
                Err(error) => {
                    return Err(ServiceError::Book(error));
                },
            },
        };
        let event = DomainEvent::from_result(result);
        self.event_sink.publish(&event);
        self.published = Ghost(self.published@.push(event));
        Ok(event.into_result())
    }

    /// Whether the engine's counters have room for `command`; a command
    /// without room must not be run.
    pub fn has_room_for(&self, command: &OrderCommand) -> (room: bool)
        requires
            self.engine().well_formed(),
        ensures
            room == command_within_limits(self.engine().model(), *command),
    {
        match command {
            OrderCommand::Submit(order) => self.engine.has_room_for_submit(order),
            OrderCommand::Cancel(order_id) => self.engine.has_room_for_cancel(*order_id),
        }
    }

    /// An aggregated picture of at most `depth` levels per side.
    pub fn snapshot(&self, depth: usize) -> (result: Result<BookSnapshot, ServiceError>)
        requires
            self.engine().well_formed(),
        ensures
            result matches Ok(snapshot) && snapshot@ == snapshot_spec(self.engine().model(), depth),
            book_ids(self.engine().model()).len() <= usize::MAX,
    {
        Ok(self.engine.snapshot(depth))
    }
}

} // verus!
