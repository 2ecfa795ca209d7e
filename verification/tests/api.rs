use rustilleus::api::{
    command_failed, order_rejected, snapshot_depth, unreadable, ErrorReply, RequestPart,
    DEFAULT_DEPTH, MAX_DEPTH, MAX_REQUEST_BYTES,
};
use rustilleus::application::ServiceError;
use rustilleus::config::ConfigError;
use rustilleus::domain::{BookError, OrderId, OrderValidationError};

fn id(value: u64) -> OrderId {
    OrderId::new(value).unwrap()
}

#[test]
fn depth_defaults_and_bounds() {
    assert_eq!(DEFAULT_DEPTH, 20);
    assert_eq!(MAX_DEPTH, 100);
    assert_eq!(MAX_REQUEST_BYTES, 64 * 1024);
    assert_eq!(snapshot_depth(None), Ok(20));
    assert_eq!(snapshot_depth(Some(1)), Ok(1));
    assert_eq!(snapshot_depth(Some(100)), Ok(100));
    for depth in [0, 101, usize::MAX] {
        assert_eq!(
            snapshot_depth(Some(depth)),
            Err(ErrorReply {
                status: 422,
                code: "invalid_depth",
                message: "depth must be between 1 and 100".to_owned(),
            })
        );
    }
}

#[test]
fn invalid_orders_are_unprocessable() {
    let reply = order_rejected(&OrderValidationError::ZeroPrice);
    assert_eq!(reply.status, 422);
    assert_eq!(reply.code, "invalid_order");
    assert_eq!(reply.message, "price must be greater than zero");
    assert_eq!(
        order_rejected(&OrderValidationError::PostOnlyMustBeGtc).message,
        "post_only orders must use gtc time_in_force"
    );
    assert_eq!(
        OrderValidationError::ZeroOrderId.message(),
        "order_id must be greater than zero"
    );
    assert_eq!(
        OrderValidationError::ZeroQuantity.message(),
        "quantity must be greater than zero"
    );
}

#[test]
fn refused_commands_are_answered_by_kind() {
    let duplicate = command_failed(&ServiceError::Book(BookError::DuplicateOrder(id(7))));
    assert_eq!(
        duplicate,
        ErrorReply {
            status: 409,
            code: "duplicate_order",
            message: "order 7 has already been used".to_owned(),
        }
    );
    let missing = command_failed(&ServiceError::Book(BookError::OrderNotFound(id(1234567890))));
    assert_eq!(missing.status, 404);
    assert_eq!(missing.code, "order_not_found");
    assert_eq!(missing.message, "active order 1234567890 was not found");
    let crossing = command_failed(&ServiceError::Book(BookError::PostOnlyWouldCross(id(10))));
    assert_eq!(crossing.status, 409);
    assert_eq!(crossing.code, "post_only_would_cross");
    assert_eq!(crossing.message, "post-only order 10 would immediately trade");
    for error in [
        ServiceError::Book(BookError::InvariantViolation),
        ServiceError::EngineUnavailable,
    ] {
        let reply = command_failed(&error);
        assert_eq!(reply.status, 500);
        assert_eq!(reply.code, "internal_error");
        assert_eq!(
            reply.message,
            "the matching engine could not process the request"
        );
    }
}

#[test]
fn unreadable_parts_are_bad_requests() {
    let reply = unreadable(RequestPart::Body, "expected value".to_owned());
    assert_eq!(reply.status, 400);
    assert_eq!(reply.code, "invalid_json");
    assert_eq!(reply.message, "expected value");
    assert_eq!(unreadable(RequestPart::Query, String::new()).code, "invalid_query");
    assert_eq!(unreadable(RequestPart::Path, String::new()).code, "invalid_path");
}

#[test]
fn error_messages_name_what_went_wrong() {
    assert_eq!(
        BookError::DuplicateOrder(id(u64::MAX)).message(),
        "order 18446744073709551615 has already been used"
    );
    assert_eq!(
        BookError::InvariantViolation.message(),
        "order-book indexes are inconsistent"
    );
    assert_eq!(
        ServiceError::Book(BookError::OrderNotFound(id(3))).message(),
        "active order 3 was not found"
    );
    assert_eq!(
        ServiceError::EngineUnavailable.message(),
        "matching engine is temporarily unavailable"
    );
    assert_eq!(
        ConfigError::InvalidPort("http".to_owned()).message(),
        "APP_PORT must be an integer between 0 and 65535, got `http`"
    );
    assert_eq!(ConfigError::EmptySymbol.message(), "BOOK_SYMBOL cannot be empty");
}
