//! Properties that the book's operations keep, stated over the model and
//! proved from the definitions that the engine's contracts use.

use vstd::prelude::*;

use super::book::BookError;
use super::model::{
    better, book_ids, book_wf, cancel_spec, contains_order, crosses, rest_into, crossing_liquidity, has_order,
    lemma_take_from_best, match_levels, opposite, side_levels, side_wf, snapshot_spec, submit_spec,
    submit_within_limits, sum_qty, take_from_best, level_summary, order_total, BookModel, Fill, LevelModel,
};
use super::order::{
    lemma_order_id_view_injective, lemma_price_view_injective, lemma_quantity_of, NewOrder,
    OrderId, Price, RestingOrder, Side, TimeInForce,
};
use super::trade::{lemma_trade_id_of, ExecutionReportModel, OrderStatus, PriceLevel};

verus! {

broadcast use {
    lemma_order_id_view_injective,
    lemma_price_view_injective,
    lemma_quantity_of,
    lemma_trade_id_of,
};

/// All resting orders of a side in execution priority: best price first,
/// oldest first within a price, each with its price.
pub open spec fn queue_order(levels: Seq<LevelModel>) -> Seq<(Price, RestingOrder)>
    decreases levels.len(),
{
    if levels.len() == 0 {
        seq![]
    } else {
        levels[0].orders.map_values(|o: RestingOrder| (levels[0].price, o)) + queue_order(
            levels.drop_first(),
        )
    }
}

/// Total units of a list of fills.
pub open spec fn fills_total(fills: Seq<Fill>) -> nat
    decreases fills.len(),
{
    if fills.len() == 0 {
        0
    } else {
        fills[0].quantity as nat + fills_total(fills.drop_first())
    }
}

pub open spec fn min_nat(a: nat, b: nat) -> nat {
    if a <= b {
        a
    } else {
        b
    }
}

/// Matching fills `min(remaining, crossing liquidity)` units in fills of
/// positive size at crossing prices, and takes the resting orders strictly
/// in priority order: the i-th fill is against the i-th order of the
/// side's priority order, at that order's price, and every fill but the
/// last uses its order up.
pub proof fn lemma_match_levels(levels: Seq<LevelModel>, aggressor: Side, limit: u64, remaining: nat)
    requires
        side_wf(levels, opposite(aggressor)),
    ensures
        ({
            let m = match_levels(levels, aggressor, limit, remaining);
            let queue = queue_order(levels);
            &&& m.remaining == remaining - min_nat(remaining, crossing_liquidity(levels, aggressor, limit))
            &&& fills_total(m.fills) == remaining - m.remaining
            &&& m.fills.len() <= queue.len()
            &&& forall|i: int|
                0 <= i < m.fills.len() ==> {
                    &&& (#[trigger] m.fills[i]).maker == queue[i].1.order_id
                    &&& m.fills[i].price == queue[i].0
                    &&& m.fills[i].quantity > 0
                    &&& m.fills[i].quantity <= queue[i].1.remaining_quantity
                    &&& crosses(aggressor, limit, m.fills[i].price@)
                    &&& (i + 1 < m.fills.len() ==> m.fills[i].quantity
                        == queue[i].1.remaining_quantity)
                }
        }),
    decreases remaining,
{
    let m = match_levels(levels, aggressor, limit, remaining);
    if remaining == 0 || levels.len() == 0 || !crosses(aggressor, limit, levels[0].price@) {
        if levels.len() > 0 && !crosses(aggressor, limit, levels[0].price@) {
            assert(crossing_liquidity(levels, aggressor, limit) == 0);
        }
    } else {
        let side = opposite(aggressor);
        let level = levels[0];
        let maker = level.orders[0];
        assert(level.orders.len() > 0);
        assert(maker.remaining_quantity > 0);
        let fill: nat = if remaining < maker.remaining_quantity {
            remaining
        } else {
            maker.remaining_quantity as nat
        };
        let next = take_from_best(levels, fill);
        lemma_take_from_best(levels, side, fill);
        lemma_match_levels(next, aggressor, limit, (remaining - fill) as nat);
        let rest = match_levels(next, aggressor, limit, (remaining - fill) as nat);
        let f = Fill { maker: maker.order_id, price: level.price, quantity: fill as u64 };
        assert(m.fills == seq![f] + rest.fills);
        assert(m.fills.drop_first() =~= rest.fills);
        let queue = queue_order(levels);
        let head = level.orders.map_values(|o: RestingOrder| (level.price, o));
        assert(queue == head + queue_order(levels.drop_first()));
        assert(queue[0] == (level.price, maker));
        let cl = crossing_liquidity(levels, aggressor, limit);
        assert(cl == sum_qty(level.orders) + crossing_liquidity(levels.drop_first(), aggressor, limit));
        assert(sum_qty(level.orders) == maker.remaining_quantity + sum_qty(level.orders.drop_first()));
        if fill == maker.remaining_quantity {
            let orders = level.orders.drop_first();
            if orders.len() == 0 {
                assert(next == levels.drop_first());
                assert(sum_qty(orders) == 0);
                assert(queue_order(next) =~= queue.drop_first());
            } else {
                let new_level = LevelModel { price: level.price, orders };
                assert(next == levels.update(0, new_level));
                assert(next.drop_first() =~= levels.drop_first());
                assert(crosses(aggressor, limit, next[0].price@));
                assert(crossing_liquidity(next, aggressor, limit) == sum_qty(orders)
                    + crossing_liquidity(levels.drop_first(), aggressor, limit));
                assert(queue_order(next) == new_level.orders.map_values(
                    |o: RestingOrder| (level.price, o),
                ) + queue_order(levels.drop_first()));
                assert(queue_order(next) =~= queue.drop_first());
            }
            assert forall|i: int| 0 <= i < m.fills.len() implies {
                &&& (#[trigger] m.fills[i]).maker == queue[i].1.order_id
                &&& m.fills[i].price == queue[i].0
                &&& m.fills[i].quantity > 0
                &&& m.fills[i].quantity <= queue[i].1.remaining_quantity
                &&& crosses(aggressor, limit, m.fills[i].price@)
                &&& (i + 1 < m.fills.len() ==> m.fills[i].quantity == queue[i].1.remaining_quantity)
            } by {
                if i > 0 {
                    assert(m.fills[i] == rest.fills[i - 1]);
                    assert(queue_order(next)[i - 1] == queue[i]);
                }
            }
        } else {
            assert(remaining - fill == 0);
            assert(rest.fills.len() == 0);
            assert(m.fills =~= seq![f]);
        }
    }
}

} // verus!

verus! {

/// Matching keeps the side well formed and only ever removes orders.
pub proof fn lemma_match_levels_shape(
    levels: Seq<LevelModel>,
    aggressor: Side,
    limit: u64,
    remaining: nat,
)
    requires
        side_wf(levels, opposite(aggressor)),
    ensures
        ({
            let m = match_levels(levels, aggressor, limit, remaining);
            &&& side_wf(m.levels, opposite(aggressor))
            &&& forall|id: u64| #[trigger] contains_order(m.levels, id) ==> contains_order(levels, id)
            &&& m.fills.len() == 0 <==> (remaining == 0 || levels.len() == 0 || !crosses(
                aggressor,
                limit,
                levels[0].price@,
            ))
            &&& m.fills.len() == 0 ==> m.levels == levels
            &&& m.remaining <= remaining
            &&& (m.remaining > 0 ==> m.levels.len() == 0 || !crosses(aggressor, limit, m.levels[0].price@))
            &&& (m.levels.len() > 0 ==> levels.len() > 0 && (m.levels[0].price == levels[0].price || better(
                opposite(aggressor),
                levels[0].price@,
                m.levels[0].price@,
            )))
        }),
    decreases remaining,
{
    if remaining == 0 || levels.len() == 0 || !crosses(aggressor, limit, levels[0].price@) {
    } else {
        let maker = levels[0].orders[0];
        assert(levels[0].orders.len() > 0);
        let fill: nat = if remaining < maker.remaining_quantity {
            remaining
        } else {
            maker.remaining_quantity as nat
        };
        lemma_take_from_best(levels, opposite(aggressor), fill);
        lemma_match_levels_shape(take_from_best(levels, fill), aggressor, limit, (remaining - fill) as nat);
    }
}

/// The first place in `levels` whose price is not better than `price`.
proof fn lemma_rest_position(levels: Seq<LevelModel>, side: Side, price: Price) -> (i: int)
    ensures
        0 <= i <= levels.len(),
        forall|k: int| 0 <= k < i ==> better(side, #[trigger] levels[k].price@, price@),
        i < levels.len() ==> !better(side, levels[i].price@, price@),
    decreases levels.len(),
{
    if levels.len() == 0 || !better(side, levels[0].price@, price@) {
        0
    } else {
        let rest = lemma_rest_position(levels.drop_first(), side, price);
        assert forall|k: int| 0 <= k < rest + 1 implies better(side, #[trigger] levels[k].price@, price@) by {
            if k > 0 {
                assert(levels[k] == levels.drop_first()[k - 1]);
            }
        }
        rest + 1
    }
}

/// Every submission keeps a well-formed book well formed.
pub proof fn lemma_submit_keeps_wf(b: BookModel, order: NewOrder)
    requires
        book_wf(b),
    ensures
        book_wf(submit_spec(b, order).0),
{
    if !accepted(b, order) {
        return;
    }
    let side = order.side;
    let opp = opposite(side);
    let own = side_levels(b, side);
    let book = side_levels(b, opp);
    let quantity = order.quantity@ as nat;
    let after = submit_spec(b, order).0;
    assert(!contains_order(own, order.order_id@));
    assert(!contains_order(book, order.order_id@));
    if order.time_in_force == TimeInForce::Fok && crossing_liquidity(book, side, order.price@) < quantity {
        assert(after.bids == b.bids && after.asks == b.asks);
        return;
    }
    let m = match_levels(book, side, order.price@, quantity);
    lemma_match_levels_shape(book, side, order.price@, quantity);
    let rests = m.remaining > 0 && order.time_in_force == TimeInForce::Gtc;
    assert(side_levels(after, opp) == m.levels);
    if rests {
        let resting = RestingOrder { order_id: order.order_id, remaining_quantity: m.remaining as u64 };
        assert(m.remaining <= u64::MAX);
        let i = lemma_rest_position(own, side, order.price);
        super::model::lemma_rest_into_wf(own, side, order.price, resting, i);
        let placed = rest_into(own, side, order.price, resting);
        assert(side_levels(after, side) == placed);
        assert forall|id: u64| !(contains_order(after.bids, id) && contains_order(after.asks, id)) by {
            if contains_order(placed, id) && contains_order(m.levels, id) {
                assert(contains_order(book, id));
            }
        }
        if placed.len() > 0 && m.levels.len() > 0 {
            assert(!crosses(side, order.price@, m.levels[0].price@));
        }
    } else {
        assert(side_levels(after, side) == own);
        assert forall|id: u64| !(contains_order(after.bids, id) && contains_order(after.asks, id)) by {
            if contains_order(own, id) && contains_order(m.levels, id) {
                assert(contains_order(book, id));
            }
        }
    }
}

/// Every cancellation keeps a well-formed book well formed.
pub proof fn lemma_cancel_keeps_wf(b: BookModel, order_id: OrderId)
    requires
        book_wf(b),
    ensures
        book_wf(cancel_spec(b, order_id).0),
{
    let id = order_id@;
    let after = cancel_spec(b, order_id).0;
    if contains_order(b.bids, id) {
        let (i, j) = choose|i: int, j: int| has_order(b.bids, id, i, j);
        super::model::lemma_remove_at_wf(b.bids, Side::Buy, i, j);
        assert(after.bids == super::model::remove_at(b.bids, i, j));
    } else if contains_order(b.asks, id) {
        let (i, j) = choose|i: int, j: int| has_order(b.asks, id, i, j);
        super::model::lemma_remove_at_wf(b.asks, Side::Sell, i, j);
        assert(after.asks == super::model::remove_at(b.asks, i, j));
    }
}

/// Total units of a list of trades.
pub open spec fn trades_total(trades: Seq<super::trade::Trade>) -> nat
    decreases trades.len(),
{
    if trades.len() == 0 {
        0
    } else {
        trades[0].quantity@ as nat + trades_total(trades.drop_first())
    }
}

proof fn lemma_trades_total(fills: Seq<Fill>, first_id: nat, taker: OrderId, aggressor: Side)
    ensures
        trades_total(super::model::trades_from(fills, first_id, taker, aggressor)) == fills_total(
            fills,
        ),
    decreases fills.len(),
{
    let trades = super::model::trades_from(fills, first_id, taker, aggressor);
    if fills.len() > 0 {
        assert(trades.drop_first() =~= super::model::trades_from(
            fills.drop_first(),
            first_id + 1,
            taker,
            aggressor,
        ));
        lemma_trades_total(fills.drop_first(), first_id + 1, taker, aggressor);
    }
}

proof fn lemma_fills_len(fills: Seq<Fill>)
    requires
        forall|i: int| 0 <= i < fills.len() ==> (#[trigger] fills[i]).quantity > 0,
    ensures
        fills.len() <= fills_total(fills),
    decreases fills.len(),
{
    if fills.len() > 0 {
        assert forall|i: int| 0 <= i < fills.drop_first().len() implies (
        #[trigger] fills.drop_first()[i]).quantity > 0 by {
            assert(fills.drop_first()[i] == fills[i + 1]);
        }
        lemma_fills_len(fills.drop_first());
    }
}

/// The submission of `order` to `b` was accepted.
pub open spec fn accepted(b: BookModel, order: NewOrder) -> bool {
    submit_spec(b, order).1 is Ok
}

/// Every accepted submission balances: filled and remaining add up to the
/// order's quantity, the trades add up to the filled quantity, each trade
/// has a positive quantity, is taken by this order on its side at a price
/// within its limit, and the trades are numbered consecutively from the
/// book's next trade id, which advances by their number.
pub proof fn law_submission_balances(b: BookModel, order: NewOrder)
    requires
        book_wf(b),
        submit_within_limits(b, order),
        accepted(b, order),
    ensures
        ({
            let (after, result) = submit_spec(b, order);
            let report = result->Ok_0;
            &&& report.order_id == order.order_id
            &&& report.original_quantity == order.quantity
            &&& report.filled_quantity + report.remaining_quantity == order.quantity@
            &&& trades_total(report.trades) == report.filled_quantity
            &&& after.next_trade_id == b.next_trade_id + report.trades.len()
            &&& forall|i: int|
                0 <= i < report.trades.len() ==> {
                    &&& (#[trigger] report.trades[i]).trade_id@ == b.next_trade_id + i
                    &&& report.trades[i].taker_order_id == order.order_id
                    &&& report.trades[i].aggressor_side == order.side
                    &&& report.trades[i].quantity@ > 0
                    &&& crosses(order.side, order.price@, report.trades[i].price@)
                }
        }),
{
    let book = side_levels(b, opposite(order.side));
    let m = match_levels(book, order.side, order.price@, order.quantity@ as nat);
    lemma_match_levels(book, order.side, order.price@, order.quantity@ as nat);
    lemma_trades_total(m.fills, b.next_trade_id, order.order_id, order.side);
    assert forall|i: int| 0 <= i < m.fills.len() implies (#[trigger] m.fills[i]).quantity > 0 by {}
    lemma_fills_len(m.fills);
    if order.time_in_force == TimeInForce::Fok && crossing_liquidity(book, order.side, order.price@)
        < order.quantity@ {
        let report = submit_spec(b, order).1->Ok_0;
        assert(report.trades.len() == 0);
        assert(trades_total(report.trades) == 0);
    }
}

/// Price-time priority: an accepted order trades with the opposite side's
/// resting orders strictly in priority order (best price first, oldest
/// first within a price), each at the resting order's price; every trade
/// but the last uses its resting order up.
pub proof fn law_price_time_priority(b: BookModel, order: NewOrder)
    requires
        book_wf(b),
        accepted(b, order),
    ensures
        ({
            let trades = submit_spec(b, order).1->Ok_0.trades;
            let queue = queue_order(side_levels(b, opposite(order.side)));
            &&& trades.len() <= queue.len()
            &&& forall|i: int|
                0 <= i < trades.len() ==> {
                    &&& (#[trigger] trades[i]).maker_order_id == queue[i].1.order_id
                    &&& trades[i].price == queue[i].0
                    &&& trades[i].quantity@ <= queue[i].1.remaining_quantity
                    &&& (i + 1 < trades.len() ==> trades[i].quantity@ == queue[i].1.remaining_quantity)
                }
        }),
{
    let book = side_levels(b, opposite(order.side));
    lemma_match_levels(book, order.side, order.price@, order.quantity@ as nat);
}

/// An accepted order that is not fill-or-kill fills exactly the smaller of
/// its quantity and the opposite quantity resting within its limit.
pub proof fn law_fill_amount(b: BookModel, order: NewOrder)
    requires
        book_wf(b),
        accepted(b, order),
        order.time_in_force != TimeInForce::Fok,
    ensures
        submit_spec(b, order).1->Ok_0.filled_quantity == min_nat(
            order.quantity@ as nat,
            crossing_liquidity(side_levels(b, opposite(order.side)), order.side, order.price@),
        ),
{
    lemma_match_levels(
        side_levels(b, opposite(order.side)),
        order.side,
        order.price@,
        order.quantity@ as nat,
    );
}

/// Fill-or-kill: an accepted FOK order either fills completely or executes
/// nothing and leaves both sides of the book as they were.
pub proof fn law_fill_or_kill(b: BookModel, order: NewOrder)
    requires
        book_wf(b),
        accepted(b, order),
        order.time_in_force == TimeInForce::Fok,
    ensures
        ({
            let (after, result) = submit_spec(b, order);
            let report = result->Ok_0;
            ||| report.status == OrderStatus::Filled && report.filled_quantity == order.quantity@
            ||| {
                &&& report.status == OrderStatus::Cancelled
                &&& report.filled_quantity == 0
                &&& report.trades.len() == 0
                &&& after.bids == b.bids
                &&& after.asks == b.asks
            }
        }),
{
    lemma_match_levels(
        side_levels(b, opposite(order.side)),
        order.side,
        order.price@,
        order.quantity@ as nat,
    );
}

/// Immediate-or-cancel: an accepted IOC order never rests on the book.
pub proof fn law_immediate_or_cancel_never_rests(b: BookModel, order: NewOrder)
    requires
        book_wf(b),
        accepted(b, order),
        order.time_in_force == TimeInForce::Ioc,
    ensures
        !book_ids(submit_spec(b, order).0).contains(order.order_id@),
        submit_spec(b, order).1->Ok_0.status != OrderStatus::Resting,
        submit_spec(b, order).1->Ok_0.status != OrderStatus::PartiallyFilledResting,
{
    let book = side_levels(b, opposite(order.side));
    lemma_match_levels_shape(book, order.side, order.price@, order.quantity@ as nat);
    assert(!contains_order(b.bids, order.order_id@));
    assert(!contains_order(b.asks, order.order_id@));
}

/// Post-only: an accepted post-only order never trades.
pub proof fn law_post_only_never_trades(b: BookModel, order: NewOrder)
    requires
        book_wf(b),
        accepted(b, order),
        order.post_only,
    ensures
        submit_spec(b, order).1->Ok_0.trades.len() == 0,
        submit_spec(b, order).1->Ok_0.filled_quantity == 0,
{
    let book = side_levels(b, opposite(order.side));
    lemma_match_levels_shape(book, order.side, order.price@, order.quantity@ as nat);
    lemma_match_levels(book, order.side, order.price@, order.quantity@ as nat);
}

/// A submission is refused exactly when its id was used before, or when it
/// is post-only and would trade at once; a refused submission changes
/// nothing.
pub proof fn law_submission_refusals(b: BookModel, order: NewOrder)
    ensures
        submit_spec(b, order).1 == Err::<super::trade::ExecutionReportModel, _>(
            BookError::DuplicateOrder(order.order_id),
        ) <==> b.seen.contains(order.order_id@),
        !accepted(b, order) ==> submit_spec(b, order).0 == b,
        accepted(b, order) ==> submit_spec(b, order).0.sequence == b.sequence + 1,
        accepted(b, order) ==> submit_spec(b, order).0.seen == b.seen.insert(order.order_id@),
{
}

} // verus!

verus! {

proof fn lemma_rest_into_holds(levels: Seq<LevelModel>, side: Side, price: Price, order: RestingOrder)
    ensures
        exists|i: int, j: int|
            #[trigger] has_order(rest_into(levels, side, price, order), order.order_id@, i, j)
                && rest_into(levels, side, price, order)[i].orders[j] == order && rest_into(
                levels,
                side,
                price,
                order,
            )[i].price == price,
    decreases levels.len(),
{
    let result = rest_into(levels, side, price, order);
    if levels.len() == 0 {
        assert(has_order(result, order.order_id@, 0, 0));
    } else if levels[0].price@ == price@ {
        let j = levels[0].orders.len() as int;
        assert(has_order(result, order.order_id@, 0, j));
    } else if better(side, price@, levels[0].price@) {
        assert(has_order(result, order.order_id@, 0, 0));
    } else {
        let tail = levels.drop_first();
        lemma_rest_into_holds(tail, side, price, order);
        let inner = rest_into(tail, side, price, order);
        let (i, j) = choose|i: int, j: int|
            #[trigger] has_order(inner, order.order_id@, i, j) && inner[i].orders[j] == order
                && inner[i].price == price;
        assert(result[i + 1] == inner[i]);
        assert(has_order(result, order.order_id@, i + 1, j));
    }
}

/// Good-til-cancelled: what an accepted GTC order does not fill rests on
/// its own side at its price, with exactly the unfilled quantity.
pub proof fn law_good_til_cancelled_rests(b: BookModel, order: NewOrder)
    requires
        book_wf(b),
        accepted(b, order),
        order.time_in_force == TimeInForce::Gtc,
        submit_spec(b, order).1->Ok_0.remaining_quantity > 0,
    ensures
        ({
            let (after, result) = submit_spec(b, order);
            let report = result->Ok_0;
            let own = side_levels(after, order.side);
            &&& report.status == OrderStatus::Resting || report.status
                == OrderStatus::PartiallyFilledResting
            &&& exists|i: int, j: int|
                #[trigger] has_order(own, order.order_id@, i, j) && own[i].price == order.price
                    && own[i].orders[j].remaining_quantity == report.remaining_quantity
        }),
{
    let m = match_levels(
        side_levels(b, opposite(order.side)),
        order.side,
        order.price@,
        order.quantity@ as nat,
    );
    let resting = RestingOrder { order_id: order.order_id, remaining_quantity: m.remaining as u64 };
    let own_before = side_levels(b, order.side);
    lemma_rest_into_holds(own_before, order.side, order.price, resting);
    let placed = rest_into(own_before, order.side, order.price, resting);
    let (after, result) = submit_spec(b, order);
    assert(m.remaining > 0);
    assert(side_levels(after, order.side) == placed);
    let (i, j) = choose|i: int, j: int|
        #[trigger] has_order(placed, order.order_id@, i, j) && placed[i].orders[j] == resting
            && placed[i].price == order.price;
    assert(has_order(side_levels(after, order.side), order.order_id@, i, j));
}

/// Cancelling answers the order's remaining quantity exactly when the id
/// rests on the book, removes that id and no other, and touches neither
/// the other side nor the trade counter; a cancelled id is not found again;
/// a refused cancellation changes nothing.
pub proof fn law_cancellation(b: BookModel, order_id: OrderId)
    requires
        book_wf(b),
    ensures
        ({
            let (after, result) = cancel_spec(b, order_id);
            &&& result is Ok <==> book_ids(b).contains(order_id@)
            &&& result is Err ==> after == b && result == Err::<super::trade::CancelReport, _>(
                BookError::OrderNotFound(order_id),
            )
            &&& result is Ok ==> {
                &&& result->Ok_0.order_id == order_id
                &&& book_ids(after) == book_ids(b).remove(order_id@)
                &&& after.sequence == b.sequence + 1
                &&& after.seen == b.seen
                &&& after.next_trade_id == b.next_trade_id
                &&& (after.bids == b.bids || after.asks == b.asks)
                &&& exists|side: Side, i: int, j: int|
                    #[trigger] has_order(side_levels(b, side), order_id@, i, j) && side_levels(
                        b,
                        side,
                    )[i].orders[j].remaining_quantity == result->Ok_0.cancelled_quantity
                &&& cancel_spec(after, order_id).1 == Err::<super::trade::CancelReport, _>(
                    BookError::OrderNotFound(order_id),
                )
            }
        }),
{
    let (after, result) = cancel_spec(b, order_id);
    let id = order_id@;
    if contains_order(b.bids, id) {
        let (i, j) = choose|i: int, j: int| has_order(b.bids, id, i, j);
        super::model::lemma_remove_at_wf(b.bids, Side::Buy, i, j);
        assert(b.bids[i].orders[j].order_id@ == id);
        assert(!contains_order(b.asks, id));
        assert(book_ids(after) =~= book_ids(b).remove(id));
        assert(has_order(side_levels(b, Side::Buy), id, i, j));
    } else if contains_order(b.asks, id) {
        let (i, j) = choose|i: int, j: int| has_order(b.asks, id, i, j);
        super::model::lemma_remove_at_wf(b.asks, Side::Sell, i, j);
        assert(b.asks[i].orders[j].order_id@ == id);
        assert(book_ids(after) =~= book_ids(b).remove(id));
        assert(has_order(side_levels(b, Side::Sell), id, i, j));
    }
}

proof fn lemma_sum_qty_positive(orders: Seq<RestingOrder>)
    requires
        orders.len() > 0,
        orders[0].remaining_quantity > 0,
    ensures
        sum_qty(orders) > 0,
{
}

/// The order counts of `levels`, added up.
pub open spec fn count_sum(levels: Seq<PriceLevel>) -> nat
    decreases levels.len(),
{
    if levels.len() == 0 {
        0
    } else {
        levels[0].order_count as nat + count_sum(levels.drop_first())
    }
}

proof fn lemma_level_within_total(levels: Seq<LevelModel>, i: int)
    requires
        0 <= i < levels.len(),
    ensures
        levels[i].orders.len() <= order_total(levels),
    decreases i,
{
    if i > 0 {
        lemma_level_within_total(levels.drop_first(), i - 1);
        assert(levels.drop_first()[i - 1] == levels[i]);
    }
}

proof fn lemma_count_sum(levels: Seq<LevelModel>)
    requires
        order_total(levels) <= usize::MAX,
    ensures
        count_sum(Seq::new(levels.len(), |i: int| level_summary(levels[i]))) == order_total(levels),
    decreases levels.len(),
{
    if levels.len() > 0 {
        let all = Seq::new(levels.len(), |i: int| level_summary(levels[i]));
        let rest = levels.drop_first();
        assert(all.drop_first() =~= Seq::new(rest.len(), |i: int| level_summary(rest[i])));
        lemma_count_sum(rest);
    }
}

/// Every level of a snapshot holds as many orders as rest at its price,
/// at least one; and a snapshot deep enough to list every level counts as
/// many active orders as its levels hold. (An engine's active orders always
/// number at most `usize::MAX`.)
pub proof fn law_snapshot_counts(b: BookModel, depth: usize)
    requires
        book_wf(b),
        book_ids(b).len() <= usize::MAX,
    ensures
        ({
            let s = snapshot_spec(b, depth);
            &&& forall|i: int|
                0 <= i < s.bids.len() ==> #[trigger] s.bids[i].order_count == b.bids[i].orders.len()
                    && s.bids[i].order_count >= 1
            &&& forall|i: int|
                0 <= i < s.asks.len() ==> #[trigger] s.asks[i].order_count == b.asks[i].orders.len()
                    && s.asks[i].order_count >= 1
            &&& book_ids(b).len() == order_total(b.bids) + order_total(b.asks)
            &&& depth >= b.bids.len() && depth >= b.asks.len() ==> s.active_order_count == count_sum(
                s.bids,
            ) + count_sum(s.asks)
        }),
{
    super::model::lemma_level_ids_count(b.bids, Side::Buy);
    super::model::lemma_level_ids_count(b.asks, Side::Sell);
    assert(super::model::level_ids(b.bids).disjoint(super::model::level_ids(b.asks)));
    vstd::set_lib::lemma_set_disjoint_lens(super::model::level_ids(b.bids), super::model::level_ids(b.asks));
    let s = snapshot_spec(b, depth);
    assert forall|i: int| 0 <= i < s.bids.len() implies #[trigger] s.bids[i].order_count
        == b.bids[i].orders.len() && s.bids[i].order_count >= 1 by {
        lemma_level_within_total(b.bids, i);
    }
    assert forall|i: int| 0 <= i < s.asks.len() implies #[trigger] s.asks[i].order_count
        == b.asks[i].orders.len() && s.asks[i].order_count >= 1 by {
        lemma_level_within_total(b.asks, i);
    }
    if depth >= b.bids.len() && depth >= b.asks.len() {
        lemma_count_sum(b.bids);
        lemma_count_sum(b.asks);
        assert(s.bids =~= Seq::new(b.bids.len(), |i: int| level_summary(b.bids[i])));
        assert(s.asks =~= Seq::new(b.asks.len(), |i: int| level_summary(b.asks[i])));
    }
}

/// A snapshot changes nothing, and a shallower one lists a prefix of the
/// levels of a deeper one, with the same counters.
pub proof fn law_snapshot_depths_nest(b: BookModel, shallow: usize, deep: usize)
    requires
        shallow <= deep,
    ensures
        ({
            let s = snapshot_spec(b, shallow);
            let t = snapshot_spec(b, deep);
            &&& s.bids == t.bids.take(s.bids.len() as int)
            &&& s.asks == t.asks.take(s.asks.len() as int)
            &&& s.symbol == t.symbol && s.sequence == t.sequence
            &&& s.active_order_count == t.active_order_count && s.trade_count == t.trade_count
        }),
{
    let s = snapshot_spec(b, shallow);
    let t = snapshot_spec(b, deep);
    assert(s.bids =~= t.bids.take(s.bids.len() as int));
    assert(s.asks =~= t.asks.take(s.asks.len() as int));
}

/// A snapshot lists each side best price first, in strictly improving
/// priority, at most `depth` levels, each with positive total quantity,
/// and its best bid lies below its best ask.
pub proof fn law_snapshot_best_first(b: BookModel, depth: usize)
    requires
        book_wf(b),
    ensures
        ({
            let s = snapshot_spec(b, depth);
            &&& s.bids.len() <= depth && s.asks.len() <= depth
            &&& forall|i: int, j: int|
                0 <= i < j < s.bids.len() ==> #[trigger] s.bids[i].price@ > #[trigger] s.bids[j].price@
            &&& forall|i: int, j: int|
                0 <= i < j < s.asks.len() ==> #[trigger] s.asks[i].price@ < #[trigger] s.asks[j].price@
            &&& forall|i: int| 0 <= i < s.bids.len() ==> #[trigger] s.bids[i].total_quantity > 0
            &&& forall|i: int| 0 <= i < s.asks.len() ==> #[trigger] s.asks[i].total_quantity > 0
            &&& (s.bids.len() > 0 && s.asks.len() > 0 ==> s.bids[0].price@ < s.asks[0].price@)
            &&& s.symbol == b.symbol
            &&& s.active_order_count == book_ids(b).len() as usize
        }),
{
    let s = snapshot_spec(b, depth);
    assert forall|i: int| 0 <= i < s.bids.len() implies #[trigger] s.bids[i].total_quantity > 0 by {
        lemma_sum_qty_positive(b.bids[i].orders);
    }
    assert forall|i: int| 0 <= i < s.asks.len() implies #[trigger] s.asks[i].total_quantity > 0 by {
        lemma_sum_qty_positive(b.asks[i].orders);
    }
}


/// A snapshot lists the first `depth` levels of each side (all of them when
/// there are fewer). Each snapshot level reports as its total quantity the sum of the
/// remaining quantities of every order resting at its price (capped at
/// `u64::MAX`), and its price is that level's price.
pub proof fn law_snapshot_totals(b: BookModel, depth: usize)
    ensures
        ({
            let s = snapshot_spec(b, depth);
            &&& s.bids.len() == if depth < b.bids.len() {
                depth as nat
            } else {
                b.bids.len()
            }
            &&& s.asks.len() == if depth < b.asks.len() {
                depth as nat
            } else {
                b.asks.len()
            }
            &&& forall|i: int|
                0 <= i < s.bids.len() ==> {
                    &&& (#[trigger] s.bids[i]).price == b.bids[i].price
                    &&& s.bids[i].total_quantity == if sum_qty(b.bids[i].orders) > u64::MAX {
                        u64::MAX as nat
                    } else {
                        sum_qty(b.bids[i].orders)
                    }
                }
            &&& forall|i: int|
                0 <= i < s.asks.len() ==> {
                    &&& (#[trigger] s.asks[i]).price == b.asks[i].price
                    &&& s.asks[i].total_quantity == if sum_qty(b.asks[i].orders) > u64::MAX {
                        u64::MAX as nat
                    } else {
                        sum_qty(b.asks[i].orders)
                    }
                }
        }),
{
}

/// A new post-only order is refused as crossing exactly when the opposite
/// side is not empty and its best price is within the order's limit (a
/// best ask at or below a buy's price, a best bid at or above a sell's),
/// which is exactly when the same order without post-only, good til
/// cancelled, would make at least one trade.
pub proof fn law_post_only_refusal(b: BookModel, order: NewOrder)
    requires
        book_wf(b),
        order.post_only,
        !b.seen.contains(order.order_id@),
        order.quantity@ > 0,
    ensures
        ({
            let refused = submit_spec(b, order).1 == Err::<ExecutionReportModel, BookError>(
                BookError::PostOnlyWouldCross(order.order_id),
            );
            let plain = NewOrder { post_only: false, time_in_force: TimeInForce::Gtc, ..order };
            &&& refused <==> match order.side {
                Side::Buy => b.asks.len() > 0 && b.asks[0].price@ <= order.price@,
                Side::Sell => b.bids.len() > 0 && b.bids[0].price@ >= order.price@,
            }
            &&& refused <==> submit_spec(b, plain).1->Ok_0.trades.len() > 0
            &&& !refused ==> submit_spec(b, order).1 is Ok
        }),
{
    let book = side_levels(b, opposite(order.side));
    lemma_match_levels_shape(book, order.side, order.price@, order.quantity@ as nat);
}

/// Fill-or-kill fills completely exactly when the opposite quantity resting
/// within its limit covers it; otherwise it executes nothing.
pub proof fn law_fill_or_kill_covered(b: BookModel, order: NewOrder)
    requires
        book_wf(b),
        accepted(b, order),
        order.time_in_force == TimeInForce::Fok,
    ensures
        ({
            let (after, result) = submit_spec(b, order);
            let report = result->Ok_0;
            let liquidity = crossing_liquidity(side_levels(b, opposite(order.side)), order.side, order.price@);
            &&& liquidity >= order.quantity@ ==> {
                &&& report.status == OrderStatus::Filled
                &&& report.filled_quantity == order.quantity@
                &&& report.remaining_quantity == 0
            }
            &&& liquidity < order.quantity@ ==> {
                &&& report.status == OrderStatus::Cancelled
                &&& report.filled_quantity == 0
                &&& report.trades.len() == 0
                &&& after.bids == b.bids
                &&& after.asks == b.asks
            }
        }),
{
    lemma_match_levels(
        side_levels(b, opposite(order.side)),
        order.side,
        order.price@,
        order.quantity@ as nat,
    );
}

/// The status of an accepted order says what happened to it: filled when
/// nothing remains; otherwise resting or cancelled according to whether it
/// now rests on its side of the book, and partially so when some of it was
/// filled.
pub proof fn law_status_reports_outcome(b: BookModel, order: NewOrder)
    requires
        book_wf(b),
        accepted(b, order),
    ensures
        ({
            let (after, result) = submit_spec(b, order);
            let report = result->Ok_0;
            let rests = contains_order(side_levels(after, order.side), order.order_id@);
            let filled = report.filled_quantity;
            let remaining = report.remaining_quantity;
            &&& report.status == OrderStatus::Filled <==> remaining == 0
            &&& report.status == OrderStatus::Resting <==> filled == 0 && remaining > 0 && rests
            &&& report.status == OrderStatus::PartiallyFilledResting <==> filled > 0 && remaining > 0
                && rests
            &&& report.status == OrderStatus::Cancelled <==> filled == 0 && remaining > 0 && !rests
            &&& report.status == OrderStatus::PartiallyFilledCancelled <==> filled > 0 && remaining > 0
                && !rests
            &&& filled + remaining == order.quantity@
        }),
{
    let side = order.side;
    let own = side_levels(b, side);
    let book = side_levels(b, opposite(side));
    let quantity = order.quantity@ as nat;
    assert(!contains_order(own, order.order_id@));
    lemma_match_levels(book, side, order.price@, quantity);
    let m = match_levels(book, side, order.price@, quantity);
    if order.time_in_force == TimeInForce::Fok && crossing_liquidity(book, side, order.price@) < quantity {
        assert(side_levels(submit_spec(b, order).0, side) == own);
    } else if m.remaining > 0 && order.time_in_force == TimeInForce::Gtc {
        let resting = RestingOrder { order_id: order.order_id, remaining_quantity: m.remaining as u64 };
        lemma_rest_into_holds(own, side, order.price, resting);
        let placed = rest_into(own, side, order.price, resting);
        assert(side_levels(submit_spec(b, order).0, side) == placed);
        let (i, j) = choose|i: int, j: int|
            #[trigger] has_order(placed, order.order_id@, i, j) && placed[i].orders[j] == resting
                && placed[i].price == order.price;
        assert(has_order(side_levels(submit_spec(b, order).0, side), order.order_id@, i, j));
    } else {
        assert(side_levels(submit_spec(b, order).0, side) == own);
    }
}

/// Cancelling a resting order takes exactly that order out of its queue and
/// keeps every other order where it was: the other orders of its level stay
/// in their time order, the level goes only when it empties, every other
/// level of that side is untouched, and so is the other side.
pub proof fn law_cancel_keeps_time_order(b: BookModel, order_id: OrderId)
    requires
        book_wf(b),
        cancel_spec(b, order_id).1 is Ok,
    ensures
        ({
            let after = cancel_spec(b, order_id).0;
            exists|side: Side, i: int, j: int|
                #[trigger] has_order(side_levels(b, side), order_id@, i, j) && {
                    let before_side = side_levels(b, side);
                    let after_side = side_levels(after, side);
                    &&& side_levels(after, opposite(side)) == side_levels(b, opposite(side))
                    &&& before_side[i].orders.len() > 1 ==> {
                        &&& after_side.len() == before_side.len()
                        &&& after_side[i].price == before_side[i].price
                        &&& after_side[i].orders == before_side[i].orders.remove(j)
                        &&& forall|k: int| 0 <= k < before_side.len() && k != i ==> after_side[k]
                            == before_side[k]
                    }
                    &&& before_side[i].orders.len() == 1 ==> after_side == before_side.remove(i)
                }
        }),
{
    let id = order_id@;
    let after = cancel_spec(b, order_id).0;
    if contains_order(b.bids, id) {
        let (i, j) = choose|i: int, j: int| has_order(b.bids, id, i, j);
        assert(has_order(side_levels(b, Side::Buy), id, i, j));
        assert(side_levels(after, Side::Buy) == super::model::remove_at(b.bids, i, j));
    } else {
        let (i, j) = choose|i: int, j: int| has_order(b.asks, id, i, j);
        assert(has_order(side_levels(b, Side::Sell), id, i, j));
        assert(side_levels(after, Side::Sell) == super::model::remove_at(b.asks, i, j));
    }
}


/// `placed` is `own` with `resting` at the back of the queue at `price`,
/// found or opened at place `i`: after every better price, before every
/// worse one.
pub open spec fn joins_at(
    own: Seq<LevelModel>,
    side: Side,
    price: Price,
    resting: RestingOrder,
    placed: Seq<LevelModel>,
    i: int,
) -> bool {
    &&& 0 <= i <= own.len()
    &&& forall|k: int|
        0 <= k < i ==> match side {
            Side::Buy => (#[trigger] own[k]).price@ > price@,
            Side::Sell => own[k].price@ < price@,
        }
    &&& i < own.len() ==> match side {
        Side::Buy => own[i].price@ <= price@,
        Side::Sell => own[i].price@ >= price@,
    }
    &&& placed == if i < own.len() && own[i].price@ == price@ {
        own.update(i, LevelModel { price: own[i].price, orders: own[i].orders.push(resting) })
    } else {
        own.insert(i, LevelModel { price, orders: seq![resting] })
    }
}

/// What a good-til-cancelled order leaves unfilled joins the back of the
/// queue at its price, behind every order already there, or opens a new
/// queue placed after every better price and before every worse one; the
/// other queues of its side stay as they were.
pub proof fn law_rest_joins_the_back(b: BookModel, order: NewOrder)
    requires
        book_wf(b),
        accepted(b, order),
        order.time_in_force == TimeInForce::Gtc,
        submit_spec(b, order).1->Ok_0.remaining_quantity > 0,
    ensures
        ({
            let (after, result) = submit_spec(b, order);
            let own = side_levels(b, order.side);
            let placed = side_levels(after, order.side);
            let resting = RestingOrder {
                order_id: order.order_id,
                remaining_quantity: result->Ok_0.remaining_quantity,
            };
            exists|i: int| #[trigger] joins_at(own, order.side, order.price, resting, placed, i)
        }),
{
    let side = order.side;
    let own = side_levels(b, side);
    let book = side_levels(b, opposite(side));
    let quantity = order.quantity@ as nat;
    let m = match_levels(book, side, order.price@, quantity);
    lemma_match_levels(book, side, order.price@, quantity);
    let resting = RestingOrder { order_id: order.order_id, remaining_quantity: m.remaining as u64 };
    let i = lemma_rest_position(own, side, order.price);
    super::model::lemma_rest_into_at(own, side, order.price, resting, i);
    let (after, result) = submit_spec(b, order);
    assert(result->Ok_0.remaining_quantity == m.remaining as u64);
    assert(side_levels(after, side) == rest_into(own, side, order.price, resting));
    let placed = side_levels(after, side);
    let report_resting = RestingOrder {
        order_id: order.order_id,
        remaining_quantity: result->Ok_0.remaining_quantity,
    };
    assert(report_resting == resting);
    assert forall|k: int| 0 <= k < i implies match side {
        Side::Buy => (#[trigger] own[k]).price@ > order.price@,
        Side::Sell => own[k].price@ < order.price@,
    } by {
        assert(better(side, own[k].price@, order.price@));
    }
    assert(joins_at(own, side, order.price, resting, placed, i));
}

} // verus!
