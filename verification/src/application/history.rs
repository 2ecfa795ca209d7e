//! What a run of commands from a new book leaves: the laws that hold of
//! every book the engine can reach.

use vstd::prelude::*;

use super::command::OrderCommand;
use super::service::{command_book, run_commands};
use crate::domain::book::BookError;
use crate::domain::laws::{lemma_cancel_keeps_wf, lemma_submit_keeps_wf, law_cancellation};
use crate::domain::model::{
    book_ids, book_wf, cancel_spec, empty_book, has_order, opposite, remove_at, side_levels,
    snapshot_spec, submit_spec, would_cross, BookModel,
};
use crate::domain::order::{NewOrder, OrderId, Side};
use crate::domain::trade::{CancelReport, ExecutionReportModel};

verus! {

/// Whether `command` succeeds on `book`.
pub open spec fn command_succeeds(book: BookModel, command: OrderCommand) -> bool {
    match command {
        OrderCommand::Submit(order) => submit_spec(book, order).1 is Ok,
        OrderCommand::Cancel(order_id) => cancel_spec(book, order_id).1 is Ok,
    }
}

/// The ids of the submissions among `commands`, run in order from `book`,
/// that were accepted.
pub open spec fn accepted_ids(book: BookModel, commands: Seq<OrderCommand>) -> Set<u64>
    decreases commands.len(),
{
    if commands.len() == 0 {
        Set::empty()
    } else {
        let first = match commands[0] {
            OrderCommand::Submit(order) => if submit_spec(book, order).1 is Ok {
                set![order.order_id@]
            } else {
                Set::empty()
            },
            OrderCommand::Cancel(_) => Set::empty(),
        };
        first + accepted_ids(command_book(book, commands[0]), commands.drop_first())
    }
}

/// How many of `commands`, run in order from `book`, succeeded.
pub open spec fn successes(book: BookModel, commands: Seq<OrderCommand>) -> nat
    decreases commands.len(),
{
    if commands.len() == 0 {
        0
    } else {
        (if command_succeeds(book, commands[0]) {
            1nat
        } else {
            0nat
        }) + successes(command_book(book, commands[0]), commands.drop_first())
    }
}

/// How many trades the reports of `commands`, run in order from `book`, list.
pub open spec fn trades_made(book: BookModel, commands: Seq<OrderCommand>) -> nat
    decreases commands.len(),
{
    if commands.len() == 0 {
        0
    } else {
        (match commands[0] {
            OrderCommand::Submit(order) => match submit_spec(book, order).1 {
                Ok(report) => report.trades.len(),
                Err(_) => 0,
            },
            OrderCommand::Cancel(_) => 0,
        }) + trades_made(command_book(book, commands[0]), commands.drop_first())
    }
}

proof fn lemma_run_from(book: BookModel, commands: Seq<OrderCommand>)
    requires
        book_wf(book),
    ensures
        ({
            let after = run_commands(book, commands);
            &&& book_wf(after)
            &&& after.symbol == book.symbol
            &&& after.seen == book.seen + accepted_ids(book, commands)
            &&& after.sequence == book.sequence + successes(book, commands)
            &&& after.next_trade_id == book.next_trade_id + trades_made(book, commands)
        }),
    decreases commands.len(),
{
    if commands.len() > 0 {
        let next = command_book(book, commands[0]);
        match commands[0] {
            OrderCommand::Submit(order) => {
                lemma_submit_keeps_wf(book, order);
            },
            OrderCommand::Cancel(order_id) => {
                lemma_cancel_keeps_wf(book, order_id);
            },
        }
        lemma_run_from(next, commands.drop_first());
        assert(run_commands(book, commands) == run_commands(next, commands.drop_first()));
        assert(book.seen + accepted_ids(book, commands) =~= next.seen + accepted_ids(
            next,
            commands.drop_first(),
        ));
    }
}

/// Every book reached from a new book by any commands is well formed, and
/// its counters tell its history: the ids ever accepted are the accepted
/// submissions' ids, the sequence counts the successful commands, and the
/// trade counter the trades reported.
pub proof fn law_reachable_books(symbol: Seq<char>, commands: Seq<OrderCommand>)
    ensures
        ({
            let start = empty_book(symbol);
            let book = run_commands(start, commands);
            &&& book_wf(book)
            &&& book.symbol == symbol
            &&& book.seen == accepted_ids(start, commands)
            &&& book.sequence == successes(start, commands)
            &&& book.next_trade_id == 1 + trades_made(start, commands)
            &&& snapshot_spec(book, 0).trade_count == trades_made(start, commands) as u64
            &&& snapshot_spec(book, 0).sequence == successes(start, commands) as u64
        }),
{
    let start = empty_book(symbol);
    lemma_run_from(start, commands);
    assert(start.seen + accepted_ids(start, commands) =~= accepted_ids(start, commands));
}

/// On a book reached from a new book, a submission is refused as a
/// duplicate exactly when its id was accepted before, as crossing exactly
/// when it is a new post-only order that would trade at once, and with no
/// other error; a refused submission changes nothing, and every submission
/// leaves the book well formed.
pub proof fn law_reachable_submission(symbol: Seq<char>, commands: Seq<OrderCommand>, order: NewOrder)
    ensures
        ({
            let start = empty_book(symbol);
            let book = run_commands(start, commands);
            let (after, result) = submit_spec(book, order);
            let used = accepted_ids(start, commands).contains(order.order_id@);
            &&& result == Err::<ExecutionReportModel, BookError>(BookError::DuplicateOrder(order.order_id))
                <==> used
            &&& result == Err::<ExecutionReportModel, BookError>(BookError::PostOnlyWouldCross(
                order.order_id,
            )) <==> !used && order.post_only && would_cross(book, order)
            &&& result is Err ==> result == Err::<ExecutionReportModel, BookError>(
                BookError::DuplicateOrder(order.order_id),
            ) || result == Err::<ExecutionReportModel, BookError>(BookError::PostOnlyWouldCross(
                order.order_id,
            ))
            &&& result is Err ==> after == book
            &&& book_wf(after)
        }),
{
    let start = empty_book(symbol);
    let book = run_commands(start, commands);
    law_reachable_books(symbol, commands);
    lemma_submit_keeps_wf(book, order);
}

/// On a book reached from a new book, cancelling answers `OrderNotFound`
/// exactly when the id is not resting, and then changes nothing; it never
/// answers any other error. Cancelling a resting order answers its
/// remaining quantity, takes exactly that order out of its queue (dropping
/// the queue if it empties, keeping the others in their order), leaves the
/// other side, the trade counter and the accepted ids as they were, counts
/// one more command and one fewer active order; the book stays well formed.
pub proof fn law_reachable_cancellation(symbol: Seq<char>, commands: Seq<OrderCommand>, order_id: OrderId)
    ensures
        ({
            let start = empty_book(symbol);
            let book = run_commands(start, commands);
            let (after, result) = cancel_spec(book, order_id);
            &&& result is Err <==> !book_ids(book).contains(order_id@)
            &&& result is Err ==> after == book && result == Err::<CancelReport, BookError>(
                BookError::OrderNotFound(order_id),
            )
            &&& result is Ok ==> {
                &&& result->Ok_0.order_id == order_id
                &&& after.sequence == book.sequence + 1
                &&& after.next_trade_id == book.next_trade_id
                &&& after.seen == book.seen
                &&& book_ids(after) == book_ids(book).remove(order_id@)
                &&& book_ids(after).len() + 1 == book_ids(book).len()
                &&& snapshot_spec(after, 0).trade_count == snapshot_spec(book, 0).trade_count
                &&& exists|side: Side, i: int, j: int|
                    #[trigger] has_order(side_levels(book, side), order_id@, i, j)
                        && side_levels(book, side)[i].orders[j].remaining_quantity
                        == result->Ok_0.cancelled_quantity && side_levels(after, side) == remove_at(
                        side_levels(book, side),
                        i,
                        j,
                    ) && side_levels(after, opposite(side)) == side_levels(book, opposite(side))
            }
            &&& book_wf(after)
        }),
{
    let start = empty_book(symbol);
    let book = run_commands(start, commands);
    law_reachable_books(symbol, commands);
    law_cancellation(book, order_id);
    lemma_cancel_keeps_wf(book, order_id);
    let (after, result) = cancel_spec(book, order_id);
    let id = order_id@;
    if result is Ok {
        crate::domain::model::lemma_level_ids_count(book.bids, Side::Buy);
        crate::domain::model::lemma_level_ids_count(book.asks, Side::Sell);
        assert(book_ids(book).finite());
        assert(book_ids(book).contains(id));
        if contains_order_on(book, Side::Buy, id) {
            let (i, j) = choose|i: int, j: int| has_order(book.bids, id, i, j);
            assert(has_order(side_levels(book, Side::Buy), id, i, j));
        } else {
            let (i, j) = choose|i: int, j: int| has_order(book.asks, id, i, j);
            assert(has_order(side_levels(book, Side::Sell), id, i, j));
        }
    }
}

spec fn contains_order_on(book: BookModel, side: Side, id: u64) -> bool {
    crate::domain::model::contains_order(side_levels(book, side), id)
}

} // verus!
