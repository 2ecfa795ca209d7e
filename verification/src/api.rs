//! The rules of the HTTP API: how deep a snapshot a query gets, and which
//! status, code and message answer each refused request.

use vstd::prelude::*;

use crate::application::ServiceError;
use crate::domain::{BookError, OrderValidationError};

verus! {

/// Levels per side when a query names no depth.
pub const DEFAULT_DEPTH: usize = 20;

/// The deepest snapshot a query may ask for.
pub const MAX_DEPTH: usize = 100;

/// The largest request body accepted, in bytes.
pub const MAX_REQUEST_BYTES: usize = 65536;

/// A refused request's answer: the HTTP status, a stable machine-readable
/// code and a human-readable message.
#[derive(Debug, Clone, PartialEq, Eq)]
pub struct ErrorReply {
    pub status: u16,
    pub code: &'static str,
    pub message: String,
}

/// The part of a request that could not be read.
#[derive(Debug, Clone, Copy, PartialEq, Eq, Structural)]
pub enum RequestPart {
    Query,
    Body,
    Path,
}

/// The status, code and message that answer a failed command.
pub open spec fn service_reply(error: ServiceError) -> (u16, Seq<char>, Seq<char>) {
    match error {
        ServiceError::Book(BookError::DuplicateOrder(_)) => (
            409,
            "duplicate_order"@,
            error.message_text(),
        ),
        ServiceError::Book(BookError::OrderNotFound(_)) => (
            404,
            "order_not_found"@,
            error.message_text(),
        ),
        ServiceError::Book(BookError::PostOnlyWouldCross(_)) => (
            409,
            "post_only_would_cross"@,
            error.message_text(),
        ),
        _ => (500, "internal_error"@, "the matching engine could not process the request"@),
    }
}

/// The code that names an unreadable part of a request.
pub open spec fn part_code(part: RequestPart) -> Seq<char> {
    match part {
        RequestPart::Query => "invalid_query"@,
        RequestPart::Body => "invalid_json"@,
        RequestPart::Path => "invalid_path"@,
    }
}

/// The depth a snapshot query gets: the default where none is named, the
/// named depth from 1 to `MAX_DEPTH`, and otherwise a 422 `invalid_depth`.
pub fn snapshot_depth(requested: Option<usize>) -> (depth: Result<usize, ErrorReply>)
    ensures
        match requested {
            None => depth == Ok::<usize, ErrorReply>(DEFAULT_DEPTH),
            Some(d) => if 1 <= d <= MAX_DEPTH {
                depth == Ok::<usize, ErrorReply>(d)
            } else {
                depth matches Err(reply) && reply.status == 422 && reply.code@ == "invalid_depth"@
                    && reply.message@ == "depth must be between 1 and 100"@
            },
        },
{
    match requested {
        None => Ok(DEFAULT_DEPTH),
        Some(d) => {
            if 1 <= d && d <= MAX_DEPTH {
                Ok(d)
            } else {
                Err(
                    ErrorReply {
                        status: 422,
                        code: "invalid_depth",
                        message: "depth must be between 1 and 100".to_owned(),
                    },
                )
            }
        },
    }
}

/// An order that failed validation is answered 422 `invalid_order`.
pub fn order_rejected(error: &OrderValidationError) -> (reply: ErrorReply)
    ensures
        reply.status == 422,
        reply.code@ == "invalid_order"@,
        reply.message@ == error.message_text(),
{
    ErrorReply { status: 422, code: "invalid_order", message: error.message() }
}

/// A failed command is answered by its kind: a reused id or a crossing
/// post-only order 409, an unknown order 404, anything else 500 with a
/// message that reveals nothing of the engine.
pub fn command_failed(error: &ServiceError) -> (reply: ErrorReply)
    ensures
        (reply.status, reply.code@, reply.message@) == service_reply(*error),
{
    match error {
        ServiceError::Book(BookError::DuplicateOrder(_)) => ErrorReply {
            status: 409,
            code: "duplicate_order",
            message: error.message(),
        },
        ServiceError::Book(BookError::OrderNotFound(_)) => ErrorReply {
            status: 404,
            code: "order_not_found",
            message: error.message(),
        },
        ServiceError::Book(BookError::PostOnlyWouldCross(_)) => ErrorReply {
            status: 409,
            code: "post_only_would_cross",
            message: error.message(),
        },
        _ => ErrorReply {
            status: 500,
            code: "internal_error",
            message: "the matching engine could not process the request".to_owned(),
        },
    }
}

/// A request part that could not be read is answered 400 with the code of
/// that part and the reader's own explanation.
pub fn unreadable(part: RequestPart, detail: String) -> (reply: ErrorReply)
    ensures
        reply.status == 400,
        reply.code@ == part_code(part),
        reply.message@ == detail@,
{
    let code = match part {
        RequestPart::Query => "invalid_query",
        RequestPart::Body => "invalid_json",
        RequestPart::Path => "invalid_path",
    };
    ErrorReply { status: 400, code, message: detail }
}

} // verus!
