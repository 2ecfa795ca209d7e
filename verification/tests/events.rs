use rustilleus::application::{DomainEvent, OrderCommandResult, ServiceError};
use rustilleus::domain::{BookError, CancelReport, OrderId};

#[test]
fn book_errors_become_service_errors() {
    let id = OrderId::new(9).unwrap();
    assert_eq!(
        ServiceError::from(BookError::OrderNotFound(id)),
        ServiceError::Book(BookError::OrderNotFound(id))
    );
    let converted: ServiceError = BookError::DuplicateOrder(id).into();
    assert_eq!(converted, ServiceError::Book(BookError::DuplicateOrder(id)));
}

#[test]
fn an_event_announces_its_result() {
    let report = CancelReport {
        order_id: OrderId::new(4).unwrap(),
        cancelled_quantity: 7,
    };
    let event = DomainEvent::from_result(OrderCommandResult::Cancelled(report.clone()));
    assert_eq!(event, DomainEvent::OrderCancelled(report.clone()));
    assert_eq!(event.into_result(), OrderCommandResult::Cancelled(report));
}
