use std::sync::{Arc, Mutex};

use rustilleus::application::{
    DomainEvent, EventSink, OrderBookService, OrderCommand, OrderCommandResult, ServiceError,
};
use rustilleus::domain::{BookError, NewOrder, OrderBook, OrderId, Side, TimeInForce};

#[derive(Default)]
struct RecordingEventSink {
    events: Mutex<Vec<DomainEvent>>,
}

impl EventSink for RecordingEventSink {
    fn publish(&self, event: &DomainEvent) {
        self.events.lock().unwrap().push(event.clone());
    }
}

#[test]
fn command_publishes_an_event_after_success() {
    let sink = Arc::new(RecordingEventSink::default());
    let mut service = OrderBookService::new(Box::new(OrderBook::new("TEST")), sink.clone());
    let order = NewOrder::new(1, Side::Buy, 100, 2, TimeInForce::Gtc, false).unwrap();

    let result = service.execute(OrderCommand::Submit(order)).unwrap();

    assert!(matches!(result, OrderCommandResult::Submitted(_)));
    assert_eq!(sink.events.lock().unwrap().len(), 1);
}

#[test]
fn failed_command_does_not_publish_an_event() {
    let sink = Arc::new(RecordingEventSink::default());
    let mut service = OrderBookService::new(Box::new(OrderBook::new("TEST")), sink.clone());
    let missing_id = OrderId::new(404).unwrap();

    let result = service.execute(OrderCommand::Cancel(missing_id));

    assert!(matches!(
        result,
        Err(ServiceError::Book(BookError::OrderNotFound(_)))
    ));
    assert!(sink.events.lock().unwrap().is_empty());
}

#[test]
fn cancel_command_publishes_the_cancellation() {
    let sink = Arc::new(RecordingEventSink::default());
    let mut service = OrderBookService::new(Box::new(OrderBook::new("TEST")), sink.clone());
    let order = NewOrder::new(9, Side::Sell, 100, 4, TimeInForce::Gtc, false).unwrap();
    service.execute(OrderCommand::Submit(order)).unwrap();

    let result = service
        .execute(OrderCommand::Cancel(OrderId::new(9).unwrap()))
        .unwrap();

    match result {
        OrderCommandResult::Cancelled(report) => assert_eq!(report.cancelled_quantity, 4),
        OrderCommandResult::Submitted(_) => panic!("a cancel command answered a submission"),
    }
    let events = sink.events.lock().unwrap();
    assert_eq!(events.len(), 2);
    assert!(matches!(events[1], DomainEvent::OrderCancelled(_)));
    let snapshot = service.snapshot(5).unwrap();
    assert_eq!(snapshot.active_order_count, 0);
    assert_eq!(snapshot.sequence, 2);
}

#[test]
fn fresh_service_has_room_for_commands() {
    let sink = Arc::new(RecordingEventSink::default());
    let service = OrderBookService::new(Box::new(OrderBook::new("TEST")), sink);
    let small = NewOrder::new(1, Side::Buy, 100, 2, TimeInForce::Gtc, false).unwrap();
    let huge = NewOrder::new(2, Side::Buy, 100, u64::MAX, TimeInForce::Gtc, false).unwrap();
    assert!(service.has_room_for(&OrderCommand::Submit(small)));
    assert!(service.has_room_for(&OrderCommand::Submit(huge)));
    assert!(service.has_room_for(&OrderCommand::Cancel(OrderId::new(1).unwrap())));
}
