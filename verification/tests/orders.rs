use rustilleus::domain::{
    NewOrder, OrderId, OrderValidationError, Price, Quantity, Side, TimeInForce,
};

#[test]
fn rejects_invalid_numeric_values() {
    assert_eq!(OrderId::new(0), Err(OrderValidationError::ZeroOrderId));
    assert_eq!(Price::new(0), Err(OrderValidationError::ZeroPrice));
    assert_eq!(Quantity::new(0), Err(OrderValidationError::ZeroQuantity));
}

#[test]
fn post_only_requires_good_til_cancelled() {
    assert_eq!(
        NewOrder::new(1, Side::Buy, 100, 2, TimeInForce::Ioc, true),
        Err(OrderValidationError::PostOnlyMustBeGtc)
    );
}

#[test]
fn validation_reports_the_first_broken_rule() {
    assert_eq!(
        NewOrder::new(0, Side::Buy, 0, 0, TimeInForce::Fok, true),
        Err(OrderValidationError::PostOnlyMustBeGtc)
    );
    assert_eq!(
        NewOrder::new(0, Side::Buy, 0, 0, TimeInForce::Gtc, false),
        Err(OrderValidationError::ZeroOrderId)
    );
    assert_eq!(
        NewOrder::new(1, Side::Buy, 0, 0, TimeInForce::Gtc, false),
        Err(OrderValidationError::ZeroPrice)
    );
    assert_eq!(
        NewOrder::new(1, Side::Buy, 5, 0, TimeInForce::Gtc, false),
        Err(OrderValidationError::ZeroQuantity)
    );
    let order = NewOrder::new(3, Side::Sell, 5, 7, TimeInForce::Ioc, false).unwrap();
    assert_eq!(order.order_id.get(), 3);
    assert_eq!(order.price.get(), 5);
    assert_eq!(order.quantity.get(), 7);
    assert_eq!(TimeInForce::default(), TimeInForce::Gtc);
}

#[test]
fn prices_compare_by_ticks() {
    let low = rustilleus::domain::Price::new(3).unwrap();
    let high = rustilleus::domain::Price::new(5).unwrap();
    assert!(low < high);
    assert!(low <= high);
    assert!(high > low);
    assert_eq!(low.partial_cmp(&high), Some(std::cmp::Ordering::Less));
    assert_eq!(low.cmp(&rustilleus::domain::Price::new(3).unwrap()), std::cmp::Ordering::Equal);
    assert_eq!(high.get(), 5);
}
