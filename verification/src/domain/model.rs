//! The mathematical model of an order book and the matching rules over it.

use vstd::prelude::*;

use super::book::BookError;
use super::order::{
    lemma_order_id_view_injective, lemma_price_view_injective, lemma_quantity_of, OrderLocation,
    lemma_quantity_view_injective, quantity_of, NewOrder, OrderId, Price, RestingOrder, Side,
    TimeInForce,
};
use super::trade::{
    lemma_trade_id_of, lemma_trade_id_view_injective, trade_id_of, BookSnapshotModel,
    CancelReport, ExecutionReportModel, OrderStatus, PriceLevel, Trade,
};

verus! {

broadcast use {
    lemma_order_id_view_injective,
    lemma_price_view_injective,
    lemma_quantity_view_injective,
    lemma_quantity_of,
    lemma_trade_id_of,
    lemma_trade_id_view_injective,
};

/// The book that a new order book for `symbol` starts with.
pub open spec fn empty_book(symbol: Seq<char>) -> BookModel {
    BookModel { symbol, bids: seq![], asks: seq![], seen: Set::empty(), next_trade_id: 1, sequence: 0 }
}

/// One price queue: its price and its resting orders, oldest first.
#[verifier::ext_equal]
pub struct LevelModel {
    pub price: Price,
    pub orders: Seq<RestingOrder>,
}

/// An order book: both sides as price queues, best price first, the ids
/// ever accepted, and the two counters.
#[verifier::ext_equal]
pub struct BookModel {
    pub symbol: Seq<char>,
    pub bids: Seq<LevelModel>,
    pub asks: Seq<LevelModel>,
    pub seen: Set<u64>,
    pub next_trade_id: nat,
    pub sequence: nat,
}

pub open spec fn opposite(side: Side) -> Side {
    match side {
        Side::Buy => Side::Sell,
        Side::Sell => Side::Buy,
    }
}

/// Whether an incoming order on `aggressor` with limit `limit` may trade
/// with a resting order at `maker_price`.
pub open spec fn crosses(aggressor: Side, limit: u64, maker_price: u64) -> bool {
    match aggressor {
        Side::Buy => maker_price <= limit,
        Side::Sell => maker_price >= limit,
    }
}

/// Whether, among resting orders of `side`, price `a` has priority over `b`.
pub open spec fn better(side: Side, a: u64, b: u64) -> bool {
    match side {
        Side::Buy => a > b,
        Side::Sell => a < b,
    }
}

pub open spec fn side_levels(b: BookModel, side: Side) -> Seq<LevelModel> {
    match side {
        Side::Buy => b.bids,
        Side::Sell => b.asks,
    }
}

pub open spec fn with_side_levels(b: BookModel, side: Side, levels: Seq<LevelModel>) -> BookModel {
    match side {
        Side::Buy => BookModel { bids: levels, ..b },
        Side::Sell => BookModel { asks: levels, ..b },
    }
}

/// Total remaining quantity of a queue.
pub open spec fn sum_qty(orders: Seq<RestingOrder>) -> nat
    decreases orders.len(),
{
    if orders.len() == 0 {
        0
    } else {
        orders[0].remaining_quantity as nat + sum_qty(orders.drop_first())
    }
}

pub open spec fn saturate(n: nat) -> u64 {
    if n > u64::MAX {
        u64::MAX
    } else {
        n as u64
    }
}

/// Quantity resting at prices that an order on `aggressor` with limit
/// `limit` may trade with (the crossing levels lead the side).
pub open spec fn crossing_liquidity(levels: Seq<LevelModel>, aggressor: Side, limit: u64) -> nat
    decreases levels.len(),
{
    if levels.len() == 0 || !crosses(aggressor, limit, levels[0].price@) {
        0
    } else {
        sum_qty(levels[0].orders) + crossing_liquidity(levels.drop_first(), aggressor, limit)
    }
}

/// One execution against a resting order: the maker, its price, the units.
pub struct Fill {
    pub maker: OrderId,
    pub price: Price,
    pub quantity: u64,
}

pub struct MatchOutcome {
    pub levels: Seq<LevelModel>,
    pub fills: Seq<Fill>,
    pub remaining: nat,
}

/// The side's levels after taking `fill` units from the oldest order of its best level.
pub open spec fn take_from_best(levels: Seq<LevelModel>, fill: nat) -> Seq<LevelModel> {
    let level = levels[0];
    let maker = level.orders[0];
    let orders = if fill == maker.remaining_quantity {
        level.orders.drop_first()
    } else {
        level.orders.update(
            0,
            RestingOrder {
                order_id: maker.order_id,
                remaining_quantity: (maker.remaining_quantity - fill) as u64,
            },
        )
    };
    if orders.len() == 0 {
        levels.drop_first()
    } else {
        levels.update(0, LevelModel { price: level.price, orders })
    }
}

/// Price-time priority matching: an incoming order on `aggressor` with
/// limit `limit` and `remaining` units trades with the oldest order at the
/// best crossing price, at that maker's price, until it is filled or no
/// crossing order is left.
pub open spec fn match_levels(
    levels: Seq<LevelModel>,
    aggressor: Side,
    limit: u64,
    remaining: nat,
) -> MatchOutcome
    decreases remaining,
{
    if remaining == 0 || levels.len() == 0 || !crosses(aggressor, limit, levels[0].price@)
        || levels[0].orders.len() == 0 || levels[0].orders[0].remaining_quantity == 0 {
        MatchOutcome { levels, fills: seq![], remaining }
    } else {
        let maker = levels[0].orders[0];
        let fill: nat = if remaining < maker.remaining_quantity {
            remaining
        } else {
            maker.remaining_quantity as nat
        };
        let rest = match_levels(take_from_best(levels, fill), aggressor, limit, (remaining - fill) as nat);
        MatchOutcome {
            levels: rest.levels,
            fills: seq![Fill { maker: maker.order_id, price: levels[0].price, quantity: fill as u64 }]
                + rest.fills,
            remaining: rest.remaining,
        }
    }
}

/// The trades recorded for `fills`, numbered from `first_id`.
pub open spec fn trades_from(fills: Seq<Fill>, first_id: nat, taker: OrderId, aggressor: Side) -> Seq<
    Trade,
> {
    Seq::new(
        fills.len(),
        |i: int|
            Trade {
                trade_id: trade_id_of((first_id + i) as u64),
                maker_order_id: fills[i].maker,
                taker_order_id: taker,
                aggressor_side: aggressor,
                price: fills[i].price,
                quantity: quantity_of(fills[i].quantity),
            },
    )
}

/// The side's levels after a new order rests at `price`: at the back of
/// that price's queue, or in a new queue in price order.
pub open spec fn rest_into(levels: Seq<LevelModel>, side: Side, price: Price, order: RestingOrder) -> Seq<
    LevelModel,
>
    decreases levels.len(),
{
    if levels.len() == 0 {
        seq![LevelModel { price, orders: seq![order] }]
    } else if levels[0].price@ == price@ {
        levels.update(0, LevelModel { price: levels[0].price, orders: levels[0].orders.push(order) })
    } else if better(side, price@, levels[0].price@) {
        seq![LevelModel { price, orders: seq![order] }] + levels
    } else {
        seq![levels[0]] + rest_into(levels.drop_first(), side, price, order)
    }
}

pub open spec fn order_status(filled: nat, remaining: nat, rests: bool) -> OrderStatus {
    if remaining == 0 {
        OrderStatus::Filled
    } else if rests {
        if filled == 0 {
            OrderStatus::Resting
        } else {
            OrderStatus::PartiallyFilledResting
        }
    } else {
        if filled == 0 {
            OrderStatus::Cancelled
        } else {
            OrderStatus::PartiallyFilledCancelled
        }
    }
}

/// Whether an order would trade at once with the best opposite level.
pub open spec fn would_cross(b: BookModel, order: NewOrder) -> bool {
    let book = side_levels(b, opposite(order.side));
    book.len() > 0 && crosses(order.side, order.price@, book[0].price@)
}

/// What submitting `order` to book `b` leaves and answers.
pub open spec fn submit_spec(b: BookModel, order: NewOrder) -> (BookModel, Result<
    ExecutionReportModel,
    BookError,
>) {
    if b.seen.contains(order.order_id@) {
        (b, Err(BookError::DuplicateOrder(order.order_id)))
    } else if order.post_only && would_cross(b, order) {
        (b, Err(BookError::PostOnlyWouldCross(order.order_id)))
    } else {
        let marked = BookModel {
            seen: b.seen.insert(order.order_id@),
            sequence: b.sequence + 1,
            ..b
        };
        let book = side_levels(b, opposite(order.side));
        let quantity = order.quantity@;
        if order.time_in_force == TimeInForce::Fok && crossing_liquidity(
            book,
            order.side,
            order.price@,
        ) < quantity {
            (
                marked,
                Ok(
                    ExecutionReportModel {
                        order_id: order.order_id,
                        status: OrderStatus::Cancelled,
                        original_quantity: order.quantity,
                        filled_quantity: 0,
                        remaining_quantity: quantity,
                        trades: seq![],
                    },
                ),
            )
        } else {
            let m = match_levels(book, order.side, order.price@, quantity as nat);
            let filled = (quantity - m.remaining) as nat;
            let rests = m.remaining > 0 && order.time_in_force == TimeInForce::Gtc;
            let matched = BookModel {
                next_trade_id: b.next_trade_id + m.fills.len(),
                ..with_side_levels(marked, opposite(order.side), m.levels)
            };
            let after = if rests {
                with_side_levels(
                    matched,
                    order.side,
                    rest_into(
                        side_levels(b, order.side),
                        order.side,
                        order.price,
                        RestingOrder { order_id: order.order_id, remaining_quantity: m.remaining as u64 },
                    ),
                )
            } else {
                matched
            };
            (
                after,
                Ok(
                    ExecutionReportModel {
                        order_id: order.order_id,
                        status: order_status(filled, m.remaining, rests),
                        original_quantity: order.quantity,
                        filled_quantity: filled as u64,
                        remaining_quantity: m.remaining as u64,
                        trades: trades_from(m.fills, b.next_trade_id, order.order_id, order.side),
                    },
                ),
            )
        }
    }
}

/// Order `id` rests as order `j` of level `i`.
pub open spec fn has_order(levels: Seq<LevelModel>, id: u64, i: int, j: int) -> bool {
    &&& 0 <= i < levels.len()
    &&& 0 <= j < levels[i].orders.len()
    &&& levels[i].orders[j].order_id@ == id
}

pub open spec fn contains_order(levels: Seq<LevelModel>, id: u64) -> bool {
    exists|i: int, j: int| #[trigger] has_order(levels, id, i, j)
}

pub open spec fn level_ids(levels: Seq<LevelModel>) -> Set<u64> {
    Set::new(|id: u64| contains_order(levels, id))
}

/// How many orders rest in `levels`.
pub open spec fn order_total(levels: Seq<LevelModel>) -> nat
    decreases levels.len(),
{
    if levels.len() == 0 {
        0
    } else {
        levels[0].orders.len() + order_total(levels.drop_first())
    }
}

/// The ids of a level's orders, oldest first.
pub open spec fn level_order_ids(level: LevelModel) -> Seq<u64> {
    level.orders.map_values(|o: RestingOrder| o.order_id@)
}

/// A side holds as many distinct ids as it holds orders.
pub proof fn lemma_level_ids_count(levels: Seq<LevelModel>, side: Side)
    requires
        side_wf(levels, side),
    ensures
        level_ids(levels).finite(),
        level_ids(levels).len() == order_total(levels),
    decreases levels.len(),
{
    broadcast use vstd::seq_lib::seq_to_set_is_finite;

    if levels.len() == 0 {
        assert(level_ids(levels) =~= Set::<u64>::empty()) by {
            assert forall|id: u64| !contains_order(levels, id) by {
                if contains_order(levels, id) {
                    let (i, j) = choose|i: int, j: int| has_order(levels, id, i, j);
                }
            }
        }
    } else {
        let rest = levels.drop_first();
        assert forall|i: int, j: int, id: u64| #[trigger] has_order(rest, id, i, j) <==> has_order(
            levels,
            id,
            i + 1,
            j,
        ) && i >= 0 by {
            if 0 <= i < rest.len() {
                assert(rest[i] == levels[i + 1]);
            }
        }
        assert(side_wf(rest, side)) by {
            assert forall|i: int, j: int| 0 <= i < j < rest.len() implies better(
                side,
                #[trigger] rest[i].price@,
                #[trigger] rest[j].price@,
            ) by {
                assert(rest[i] == levels[i + 1] && rest[j] == levels[j + 1]);
            }
            assert forall|i: int| 0 <= i < rest.len() implies #[trigger] rest[i].orders.len() > 0 by {
                assert(rest[i] == levels[i + 1]);
            }
            assert forall|i: int, j: int|
                0 <= i < rest.len() && 0 <= j < rest[i].orders.len() implies #[trigger] rest[i].orders[j].remaining_quantity
                > 0 by {
                assert(rest[i] == levels[i + 1]);
            }
            assert forall|i1: int, j1: int, i2: int, j2: int|
                has_order(rest, rest[i1].orders[j1].order_id@, i1, j1) && #[trigger] has_order(
                    rest,
                    rest[i1].orders[j1].order_id@,
                    i2,
                    j2,
                ) implies i1 == i2 && j1 == j2 by {
                let id = rest[i1].orders[j1].order_id@;
                assert(rest[i1] == levels[i1 + 1]);
                assert(has_order(levels, levels[i1 + 1].orders[j1].order_id@, i1 + 1, j1));
                assert(has_order(levels, levels[i1 + 1].orders[j1].order_id@, i2 + 1, j2));
            }
        }
        lemma_level_ids_count(rest, side);
        let first = level_order_ids(levels[0]);
        assert(first.no_duplicates()) by {
            assert forall|a: int, b: int| 0 <= a < first.len() && 0 <= b < first.len() && a != b implies first[a]
                != first[b] by {
                if first[a] == first[b] {
                    assert(has_order(levels, levels[0].orders[a].order_id@, 0, a));
                    assert(has_order(levels, levels[0].orders[a].order_id@, 0, b));
                }
            }
        }
        first.unique_seq_to_set();
        assert(level_ids(levels) =~= first.to_set() + level_ids(rest)) by {
            assert forall|id: u64| #[trigger] level_ids(levels).contains(id) <==> (first.to_set().contains(
                id,
            ) || level_ids(rest).contains(id)) by {
                if contains_order(levels, id) {
                    let (i, j) = choose|i: int, j: int| has_order(levels, id, i, j);
                    if i == 0 {
                        assert(first[j] == id);
                    } else {
                        assert(has_order(rest, id, i - 1, j));
                    }
                }
                if first.to_set().contains(id) {
                    let j = choose|j: int| 0 <= j < first.len() && first[j] == id;
                    assert(has_order(levels, id, 0, j));
                }
                if contains_order(rest, id) {
                    let (i, j) = choose|i: int, j: int| has_order(rest, id, i, j);
                    assert(has_order(levels, id, i + 1, j));
                }
            }
        }
        assert(first.to_set().disjoint(level_ids(rest))) by {
            assert forall|id: u64| first.to_set().contains(id) implies !level_ids(rest).contains(id) by {
                let j = choose|j: int| 0 <= j < first.len() && first[j] == id;
                if contains_order(rest, id) {
                    let (i, k) = choose|i: int, k: int| has_order(rest, id, i, k);
                    assert(has_order(levels, levels[0].orders[j].order_id@, 0, j));
                    assert(has_order(levels, levels[0].orders[j].order_id@, i + 1, k));
                }
            }
        }
        vstd::set_lib::lemma_set_disjoint_lens(first.to_set(), level_ids(rest));
    }
}

/// The ids of all active orders, on both sides.
pub open spec fn book_ids(b: BookModel) -> Set<u64> {
    level_ids(b.bids) + level_ids(b.asks)
}

/// The levels without order `j` of level `i`, and without that level if it empties.
pub open spec fn remove_at(levels: Seq<LevelModel>, i: int, j: int) -> Seq<LevelModel> {
    let orders = levels[i].orders.remove(j);
    if orders.len() == 0 {
        levels.remove(i)
    } else {
        levels.update(i, LevelModel { price: levels[i].price, orders })
    }
}

/// What cancelling order `id` leaves and answers.
pub open spec fn cancel_spec(b: BookModel, id: OrderId) -> (BookModel, Result<CancelReport, BookError>) {
    if contains_order(b.bids, id@) {
        let (i, j) = choose|i: int, j: int| has_order(b.bids, id@, i, j);
        (
            BookModel { bids: remove_at(b.bids, i, j), sequence: b.sequence + 1, ..b },
            Ok(CancelReport { order_id: id, cancelled_quantity: b.bids[i].orders[j].remaining_quantity }),
        )
    } else if contains_order(b.asks, id@) {
        let (i, j) = choose|i: int, j: int| has_order(b.asks, id@, i, j);
        (
            BookModel { asks: remove_at(b.asks, i, j), sequence: b.sequence + 1, ..b },
            Ok(CancelReport { order_id: id, cancelled_quantity: b.asks[i].orders[j].remaining_quantity }),
        )
    } else {
        (b, Err(BookError::OrderNotFound(id)))
    }
}

pub open spec fn level_summary(level: LevelModel) -> PriceLevel {
    PriceLevel {
        price: level.price,
        total_quantity: saturate(sum_qty(level.orders)),
        order_count: level.orders.len() as usize,
    }
}

/// The first `depth` levels, aggregated.
pub open spec fn summarize(levels: Seq<LevelModel>, depth: usize) -> Seq<PriceLevel> {
    let n = if depth < levels.len() {
        depth as nat
    } else {
        levels.len()
    };
    Seq::new(n, |i: int| level_summary(levels[i]))
}

/// The snapshot of book `b` with at most `depth` levels per side.
pub open spec fn snapshot_spec(b: BookModel, depth: usize) -> BookSnapshotModel {
    BookSnapshotModel {
        symbol: b.symbol,
        sequence: b.sequence as u64,
        active_order_count: book_ids(b).len() as usize,
        trade_count: (b.next_trade_id - 1) as u64,
        bids: summarize(b.bids, depth),
        asks: summarize(b.asks, depth),
    }
}

/// The levels of one side are in strict price priority, non-empty, hold
/// positive quantities, and hold each id once.
pub open spec fn side_wf(levels: Seq<LevelModel>, side: Side) -> bool {
    &&& forall|i: int, j: int|
        0 <= i < j < levels.len() ==> better(side, #[trigger] levels[i].price@, #[trigger] levels[j].price@)
    &&& forall|i: int| 0 <= i < levels.len() ==> #[trigger] levels[i].orders.len() > 0
    &&& forall|i: int, j: int|
        0 <= i < levels.len() && 0 <= j < levels[i].orders.len()
            ==> #[trigger] levels[i].orders[j].remaining_quantity > 0
    &&& forall|i1: int, j1: int, i2: int, j2: int|
        has_order(levels, levels[i1].orders[j1].order_id@, i1, j1) && #[trigger] has_order(
            levels,
            levels[i1].orders[j1].order_id@,
            i2,
            j2,
        ) ==> i1 == i2 && j1 == j2
}

/// A well-formed book: both sides well formed, no id on both sides, every
/// active id accepted before, and the best bid below the best ask.
pub open spec fn book_wf(b: BookModel) -> bool {
    &&& side_wf(b.bids, Side::Buy)
    &&& side_wf(b.asks, Side::Sell)
    &&& forall|id: u64| !(contains_order(b.bids, id) && contains_order(b.asks, id))
    &&& forall|id: u64| #[trigger] contains_order(b.bids, id) ==> b.seen.contains(id)
    &&& forall|id: u64| #[trigger] contains_order(b.asks, id) ==> b.seen.contains(id)
    &&& (b.bids.len() > 0 && b.asks.len() > 0 ==> b.bids[0].price@ < b.asks[0].price@)
    &&& b.next_trade_id >= 1
}

/// The counters have room for submitting `order`: an accepted order counts
/// one more command, and every trade it makes takes the next trade id.
pub open spec fn submit_within_limits(b: BookModel, order: NewOrder) -> bool {
    &&& submit_spec(b, order).1 is Ok ==> b.sequence < u64::MAX
    &&& submit_spec(b, order).0.next_trade_id <= u64::MAX
}

/// The sequence counter has room for cancelling `id`, where it rests.
pub open spec fn cancel_within_limits(b: BookModel, id: OrderId) -> bool {
    cancel_spec(b, id).1 is Ok ==> b.sequence < u64::MAX
}

/// The levels from order `j` of level `i` on, in priority order.
pub open spec fn levels_from(levels: Seq<LevelModel>, i: int, j: int) -> Seq<LevelModel> {
    if j == 0 {
        levels.skip(i)
    } else {
        seq![LevelModel { price: levels[i].price, orders: levels[i].orders.skip(j) }] + levels.skip(
            i + 1,
        )
    }
}

/// Using up order `j` of level `i` leaves the levels from the next order on.
pub proof fn lemma_levels_from_step(levels: Seq<LevelModel>, side: Side, i: int, j: int)
    requires
        side_wf(levels, side),
        0 <= i < levels.len(),
        0 <= j < levels[i].orders.len(),
    ensures
        levels_from(levels, i, j).len() > 0,
        levels_from(levels, i, j)[0].price == levels[i].price,
        levels_from(levels, i, j)[0].orders.len() > 0,
        levels_from(levels, i, j)[0].orders[0] == levels[i].orders[j],
        take_from_best(levels_from(levels, i, j), levels[i].orders[j].remaining_quantity as nat)
            == if j + 1 < levels[i].orders.len() {
            levels_from(levels, i, j + 1)
        } else {
            levels_from(levels, i + 1, 0)
        },
{
    let from = levels_from(levels, i, j);
    assert(from[0].orders =~= levels[i].orders.skip(j));
    assert(from[0].orders.drop_first() =~= levels[i].orders.skip(j + 1));
    if j + 1 < levels[i].orders.len() {
        assert(take_from_best(from, levels[i].orders[j].remaining_quantity as nat) =~= levels_from(
            levels,
            i,
            j + 1,
        ));
    } else {
        assert(take_from_best(from, levels[i].orders[j].remaining_quantity as nat) =~= levels_from(
            levels,
            i + 1,
            0,
        ));
    }
}

} // verus!

verus! {

/// Every order of the levels is indexed at its side and price.
pub open spec fn index_ok(levels: Seq<LevelModel>, side: Side, active: Map<u64, OrderLocation>) -> bool {
    forall|i: int, j: int|
        0 <= i < levels.len() && 0 <= j < levels[i].orders.len() ==> {
            let id = #[trigger] levels[i].orders[j].order_id@;
            &&& active.contains_key(id)
            &&& active[id] == OrderLocation { side, price: levels[i].price }
        }
}

/// Taking from the oldest order of the best level keeps the side well
/// formed, removes the maker's id exactly when it is used up, and never
/// improves the best price.
pub proof fn lemma_take_from_best(levels: Seq<LevelModel>, side: Side, fill: nat)
    requires
        side_wf(levels, side),
        levels.len() > 0,
        0 < fill <= levels[0].orders[0].remaining_quantity,
    ensures
        ({
            let next = take_from_best(levels, fill);
            let maker = levels[0].orders[0].order_id@;
            &&& side_wf(next, side)
            &&& forall|id: u64|
                #[trigger] contains_order(next, id) <==> (contains_order(levels, id) && (id != maker
                    || fill < levels[0].orders[0].remaining_quantity))
            &&& forall|active: Map<u64, OrderLocation>|
                #[trigger] index_ok(levels, side, active) ==> index_ok(next, side, active)
            &&& next.len() > 0 ==> (next[0].price == levels[0].price || better(
                side,
                levels[0].price@,
                next[0].price@,
            ))
            &&& next.len() <= levels.len()
        }),
{
    let next = take_from_best(levels, fill);
    let level = levels[0];
    let maker = level.orders[0];
    assert(level.orders.len() > 0);
    if fill == maker.remaining_quantity {
        let orders = level.orders.drop_first();
        if orders.len() == 0 {
            assert(next =~= levels.drop_first());
            assert forall|id: u64| #[trigger] contains_order(next, id) <==> (contains_order(levels, id)
                && id != maker.order_id@) by {
                if contains_order(next, id) {
                    let (i, j) = choose|i: int, j: int| has_order(next, id, i, j);
                    assert(has_order(levels, id, i + 1, j));
                    if id == maker.order_id@ {
                        assert(has_order(levels, id, 0, 0));
                    }
                }
                if contains_order(levels, id) && id != maker.order_id@ {
                    let (i, j) = choose|i: int, j: int| has_order(levels, id, i, j);
                    assert(i != 0);
                    assert(has_order(next, id, i - 1, j));
                }
            }
            assert forall|i1: int, j1: int, i2: int, j2: int|
                has_order(next, next[i1].orders[j1].order_id@, i1, j1) && #[trigger] has_order(
                    next,
                    next[i1].orders[j1].order_id@,
                    i2,
                    j2,
                ) implies i1 == i2 && j1 == j2 by {
                assert(has_order(levels, levels[i1 + 1].orders[j1].order_id@, i1 + 1, j1));
                assert(has_order(levels, levels[i1 + 1].orders[j1].order_id@, i2 + 1, j2));
            }
        } else {
            let new_level = LevelModel { price: level.price, orders };
            assert(next =~= levels.update(0, new_level));
            assert forall|id: u64| #[trigger] contains_order(next, id) <==> (contains_order(levels, id)
                && id != maker.order_id@) by {
                if contains_order(next, id) {
                    let (i, j) = choose|i: int, j: int| has_order(next, id, i, j);
                    if i == 0 {
                        assert(has_order(levels, id, 0, j + 1));
                        if id == maker.order_id@ {
                            assert(has_order(levels, id, 0, 0));
                        }
                    } else {
                        assert(has_order(levels, id, i, j));
                        if id == maker.order_id@ {
                            assert(has_order(levels, id, 0, 0));
                        }
                    }
                }
                if contains_order(levels, id) && id != maker.order_id@ {
                    let (i, j) = choose|i: int, j: int| has_order(levels, id, i, j);
                    if i == 0 {
                        assert(j != 0);
                        assert(has_order(next, id, 0, j - 1));
                    } else {
                        assert(has_order(next, id, i, j));
                    }
                }
            }
            assert forall|i1: int, j1: int, i2: int, j2: int|
                has_order(next, next[i1].orders[j1].order_id@, i1, j1) && #[trigger] has_order(
                    next,
                    next[i1].orders[j1].order_id@,
                    i2,
                    j2,
                ) implies i1 == i2 && j1 == j2 by {
                let a1 = if i1 == 0 { j1 + 1 } else { j1 };
                let a2 = if i2 == 0 { j2 + 1 } else { j2 };
                assert(next[i1].orders[j1] == levels[i1].orders[a1]);
                assert(next[i2].orders[j2] == levels[i2].orders[a2]);
                assert(has_order(levels, levels[i1].orders[a1].order_id@, i1, a1));
                assert(has_order(levels, levels[i1].orders[a1].order_id@, i2, a2));
            }
            assert forall|active: Map<u64, OrderLocation>|
                #[trigger] index_ok(levels, side, active) implies index_ok(next, side, active) by {
                assert forall|i: int, j: int|
                    0 <= i < next.len() && 0 <= j < next[i].orders.len() implies {
                        let id = #[trigger] next[i].orders[j].order_id@;
                        &&& active.contains_key(id)
                        &&& active[id] == OrderLocation { side, price: next[i].price }
                    } by {
                    if i == 0 {
                        assert(next[0].orders[j] == levels[0].orders[j + 1]);
                    }
                }
            }
        }
    } else {
        let updated = RestingOrder {
            order_id: maker.order_id,
            remaining_quantity: (maker.remaining_quantity - fill) as u64,
        };
        let orders = level.orders.update(0, updated);
        let new_level = LevelModel { price: level.price, orders };
        assert(next =~= levels.update(0, new_level));
        assert forall|i: int, j: int|
            0 <= i < next.len() && 0 <= j < next[i].orders.len() implies next[i].orders[j].order_id
            == levels[i].orders[j].order_id by {}
        assert forall|id: u64| #[trigger] contains_order(next, id) <==> contains_order(levels, id) by {
            if contains_order(next, id) {
                let (i, j) = choose|i: int, j: int| has_order(next, id, i, j);
                assert(has_order(levels, id, i, j));
            }
            if contains_order(levels, id) {
                let (i, j) = choose|i: int, j: int| has_order(levels, id, i, j);
                assert(has_order(next, id, i, j));
            }
        }
        assert forall|i1: int, j1: int, i2: int, j2: int|
            has_order(next, next[i1].orders[j1].order_id@, i1, j1) && #[trigger] has_order(
                next,
                next[i1].orders[j1].order_id@,
                i2,
                j2,
            ) implies i1 == i2 && j1 == j2 by {
            assert(has_order(levels, levels[i1].orders[j1].order_id@, i1, j1));
            assert(has_order(levels, levels[i1].orders[j1].order_id@, i2, j2));
        }
    }
}

} // verus!

verus! {

/// Resting a new order lands it at the first level whose price does not
/// have priority over its own.
pub proof fn lemma_rest_into_at(
    levels: Seq<LevelModel>,
    side: Side,
    price: Price,
    order: RestingOrder,
    i: int,
)
    requires
        0 <= i <= levels.len(),
        forall|k: int| 0 <= k < i ==> better(side, #[trigger] levels[k].price@, price@),
        i < levels.len() ==> !better(side, levels[i].price@, price@),
    ensures
        rest_into(levels, side, price, order) == if i < levels.len() && levels[i].price@ == price@ {
            levels.update(i, LevelModel { price: levels[i].price, orders: levels[i].orders.push(order) })
        } else {
            levels.insert(i, LevelModel { price, orders: seq![order] })
        },
    decreases levels.len(),
{
    if levels.len() == 0 {
        assert(levels.insert(i, LevelModel { price, orders: seq![order] }) =~= seq![
            LevelModel { price, orders: seq![order] },
        ]);
    } else if i == 0 {
        if levels[0].price@ == price@ {
        } else {
            assert(levels.insert(0, LevelModel { price, orders: seq![order] }) =~= seq![
                LevelModel { price, orders: seq![order] },
            ] + levels);
        }
    } else {
        assert(better(side, levels[0].price@, price@));
        let tail = levels.drop_first();
        assert forall|k: int| 0 <= k < i - 1 implies better(side, #[trigger] tail[k].price@, price@) by {
            assert(tail[k] == levels[k + 1]);
        }
        lemma_rest_into_at(tail, side, price, order, i - 1);
        if i < levels.len() && levels[i].price@ == price@ {
            assert(seq![levels[0]] + tail.update(
                i - 1,
                LevelModel { price: tail[i - 1].price, orders: tail[i - 1].orders.push(order) },
            ) =~= levels.update(
                i,
                LevelModel { price: levels[i].price, orders: levels[i].orders.push(order) },
            ));
        } else {
            assert(seq![levels[0]] + tail.insert(i - 1, LevelModel { price, orders: seq![order] })
                =~= levels.insert(i, LevelModel { price, orders: seq![order] }));
        }
    }
}

/// Resting a new order with a fresh id and a positive quantity keeps the
/// side well formed, adds exactly its id, and leaves the better of the old
/// best price and its own price in front.
pub proof fn lemma_rest_into_wf(
    levels: Seq<LevelModel>,
    side: Side,
    price: Price,
    order: RestingOrder,
    i: int,
)
    requires
        side_wf(levels, side),
        order.remaining_quantity > 0,
        !contains_order(levels, order.order_id@),
        0 <= i <= levels.len(),
        forall|k: int| 0 <= k < i ==> better(side, #[trigger] levels[k].price@, price@),
        i < levels.len() ==> !better(side, levels[i].price@, price@),
    ensures
        ({
            let result = rest_into(levels, side, price, order);
            &&& side_wf(result, side)
            &&& forall|id: u64|
                #[trigger] contains_order(result, id) <==> (contains_order(levels, id) || id
                    == order.order_id@)
            &&& forall|active: Map<u64, OrderLocation>|
                #[trigger] index_ok(levels, side, active) && active.contains_key(order.order_id@)
                    && active[order.order_id@] == (OrderLocation { side, price }) ==> index_ok(
                    result,
                    side,
                    active,
                )
            &&& result.len() > 0
            &&& (result[0].price == price || (levels.len() > 0 && result[0].price == levels[0].price))
        }),
{
    lemma_rest_into_at(levels, side, price, order, i);
    let result = rest_into(levels, side, price, order);
    let oid = order.order_id@;
    if i < levels.len() && levels[i].price@ == price@ {
        let level = LevelModel { price: levels[i].price, orders: levels[i].orders.push(order) };
        assert(result == levels.update(i, level));
        assert(levels[i].price == price);
        assert forall|a: int, b: int|
            0 <= a < result.len() && 0 <= b < result[a].orders.len() && !(a == i && b
                == levels[i].orders.len()) implies result[a].orders[b] == levels[a].orders[b] by {}
        assert forall|id: u64| #[trigger] contains_order(result, id) <==> (contains_order(levels, id)
            || id == oid) by {
            if contains_order(result, id) {
                let (a, b) = choose|a: int, b: int| has_order(result, id, a, b);
                if !(a == i && b == levels[i].orders.len()) {
                    assert(has_order(levels, id, a, b));
                }
            }
            if contains_order(levels, id) {
                let (a, b) = choose|a: int, b: int| has_order(levels, id, a, b);
                assert(has_order(result, id, a, b));
            }
            if id == oid {
                assert(has_order(result, id, i, levels[i].orders.len() as int));
            }
        }
        assert forall|i1: int, j1: int, i2: int, j2: int|
            has_order(result, result[i1].orders[j1].order_id@, i1, j1) && #[trigger] has_order(
                result,
                result[i1].orders[j1].order_id@,
                i2,
                j2,
            ) implies i1 == i2 && j1 == j2 by {
            let id = result[i1].orders[j1].order_id@;
            let new1 = i1 == i && j1 == levels[i].orders.len();
            let new2 = i2 == i && j2 == levels[i].orders.len();
            if !new1 && !new2 {
                assert(has_order(levels, levels[i1].orders[j1].order_id@, i1, j1));
                assert(has_order(levels, levels[i1].orders[j1].order_id@, i2, j2));
            } else if new1 && !new2 {
                assert(has_order(levels, id, i2, j2));
            } else if !new1 && new2 {
                assert(has_order(levels, id, i1, j1));
            }
        }
        assert forall|active: Map<u64, OrderLocation>|
            #[trigger] index_ok(levels, side, active) && active.contains_key(oid) && active[oid] == (
            OrderLocation { side, price }) implies index_ok(result, side, active) by {
            assert forall|a: int, b: int|
                0 <= a < result.len() && 0 <= b < result[a].orders.len() implies {
                    let id = #[trigger] result[a].orders[b].order_id@;
                    &&& active.contains_key(id)
                    &&& active[id] == OrderLocation { side, price: result[a].price }
                } by {
                if !(a == i && b == levels[i].orders.len()) {
                    assert(result[a].orders[b] == levels[a].orders[b]);
                }
            }
        }
    } else {
        let level = LevelModel { price, orders: seq![order] };
        assert(result == levels.insert(i, level));
        assert forall|a: int| 0 <= a < result.len() && a != i implies #[trigger] result[a] == levels[
            if a < i {
                a
            } else {
                a - 1
            }] by {}
        assert forall|id: u64| #[trigger] contains_order(result, id) <==> (contains_order(levels, id)
            || id == oid) by {
            if contains_order(result, id) {
                let (a, b) = choose|a: int, b: int| has_order(result, id, a, b);
                if a < i {
                    assert(has_order(levels, id, a, b));
                } else if a > i {
                    assert(has_order(levels, id, a - 1, b));
                }
            }
            if contains_order(levels, id) {
                let (a, b) = choose|a: int, b: int| has_order(levels, id, a, b);
                if a < i {
                    assert(has_order(result, id, a, b));
                } else {
                    assert(has_order(result, id, a + 1, b));
                }
            }
            if id == oid {
                assert(has_order(result, id, i, 0));
            }
        }
        assert forall|a: int, b: int|
            0 <= a < b < result.len() implies better(
            side,
            #[trigger] result[a].price@,
            #[trigger] result[b].price@,
        ) by {
            if i < levels.len() {
                assert(levels[i].price@ != price@);
            }
        }
        assert forall|i1: int, j1: int, i2: int, j2: int|
            has_order(result, result[i1].orders[j1].order_id@, i1, j1) && #[trigger] has_order(
                result,
                result[i1].orders[j1].order_id@,
                i2,
                j2,
            ) implies i1 == i2 && j1 == j2 by {
            let id = result[i1].orders[j1].order_id@;
            let o1 = if i1 < i {
                i1
            } else {
                i1 - 1
            };
            let o2 = if i2 < i {
                i2
            } else {
                i2 - 1
            };
            if i1 != i && i2 != i {
                assert(has_order(levels, id, o1, j1));
                assert(has_order(levels, id, o2, j2));
            } else if i1 == i && i2 != i {
                assert(has_order(levels, id, o2, j2));
            } else if i1 != i && i2 == i {
                assert(has_order(levels, id, o1, j1));
            }
        }
        assert forall|active: Map<u64, OrderLocation>|
            #[trigger] index_ok(levels, side, active) && active.contains_key(oid) && active[oid] == (
            OrderLocation { side, price }) implies index_ok(result, side, active) by {
            assert forall|a: int, b: int|
                0 <= a < result.len() && 0 <= b < result[a].orders.len() implies {
                    let id = #[trigger] result[a].orders[b].order_id@;
                    &&& active.contains_key(id)
                    &&& active[id] == OrderLocation { side, price: result[a].price }
                } by {
                if a < i {
                    assert(result[a] == levels[a]);
                } else if a > i {
                    assert(result[a] == levels[a - 1]);
                }
            }
        }
    }
}

} // verus!

verus! {

/// Removing one order keeps the side well formed, removes exactly its id,
/// keeps the index valid, and never improves the best price.
pub proof fn lemma_remove_at_wf(levels: Seq<LevelModel>, side: Side, i: int, j: int)
    requires
        side_wf(levels, side),
        0 <= i < levels.len(),
        0 <= j < levels[i].orders.len(),
    ensures
        ({
            let result = remove_at(levels, i, j);
            let gone = levels[i].orders[j].order_id@;
            &&& side_wf(result, side)
            &&& forall|id: u64|
                #[trigger] contains_order(result, id) <==> (contains_order(levels, id) && id != gone)
            &&& forall|active: Map<u64, OrderLocation>|
                #[trigger] index_ok(levels, side, active) ==> index_ok(result, side, active)
            &&& result.len() > 0 ==> (result[0].price == levels[0].price || better(
                side,
                levels[0].price@,
                result[0].price@,
            ))
        }),
{
    let result = remove_at(levels, i, j);
    let gone = levels[i].orders[j].order_id@;
    let orders = levels[i].orders.remove(j);
    assert(has_order(levels, gone, i, j));
    if orders.len() == 0 {
        assert(result == levels.remove(i));
        assert forall|a: int| 0 <= a < result.len() implies #[trigger] result[a] == levels[
            if a < i {
                a
            } else {
                a + 1
            }] by {}
        assert forall|id: u64| #[trigger] contains_order(result, id) <==> (contains_order(levels, id)
            && id != gone) by {
            if contains_order(result, id) {
                let (a, b) = choose|a: int, b: int| has_order(result, id, a, b);
                let o = if a < i {
                    a
                } else {
                    a + 1
                };
                assert(has_order(levels, id, o, b));
            }
            if contains_order(levels, id) && id != gone {
                let (a, b) = choose|a: int, b: int| has_order(levels, id, a, b);
                if a < i {
                    assert(has_order(result, id, a, b));
                } else if a > i {
                    assert(has_order(result, id, a - 1, b));
                } else {
                    assert(levels[i].orders.len() == 1);
                }
            }
        }
        assert forall|i1: int, j1: int, i2: int, j2: int|
            has_order(result, result[i1].orders[j1].order_id@, i1, j1) && #[trigger] has_order(
                result,
                result[i1].orders[j1].order_id@,
                i2,
                j2,
            ) implies i1 == i2 && j1 == j2 by {
            let o1 = if i1 < i {
                i1
            } else {
                i1 + 1
            };
            let o2 = if i2 < i {
                i2
            } else {
                i2 + 1
            };
            let id = result[i1].orders[j1].order_id@;
            assert(has_order(levels, id, o1, j1));
            assert(has_order(levels, id, o2, j2));
        }
        assert forall|a: int, b: int|
            0 <= a < b < result.len() implies better(
            side,
            #[trigger] result[a].price@,
            #[trigger] result[b].price@,
        ) by {
            let oa = if a < i {
                a
            } else {
                a + 1
            };
            let ob = if b < i {
                b
            } else {
                b + 1
            };
            assert(better(side, levels[oa].price@, levels[ob].price@));
        }
        assert forall|active: Map<u64, OrderLocation>|
            #[trigger] index_ok(levels, side, active) implies index_ok(result, side, active) by {
            assert forall|a: int, b: int|
                0 <= a < result.len() && 0 <= b < result[a].orders.len() implies {
                    let id = #[trigger] result[a].orders[b].order_id@;
                    &&& active.contains_key(id)
                    &&& active[id] == OrderLocation { side, price: result[a].price }
                } by {
                let o = if a < i {
                    a
                } else {
                    a + 1
                };
                assert(result[a] == levels[o]);
            }
        }
        if result.len() > 0 && i == 0 {
            assert(result[0] == levels[1]);
        }
    } else {
        let level = LevelModel { price: levels[i].price, orders };
        assert(result == levels.update(i, level));
        assert forall|b: int| 0 <= b < orders.len() implies #[trigger] orders[b] == levels[i].orders[
            if b < j {
                b
            } else {
                b + 1
            }] by {}
        assert forall|id: u64| #[trigger] contains_order(result, id) <==> (contains_order(levels, id)
            && id != gone) by {
            if contains_order(result, id) {
                let (a, b) = choose|a: int, b: int| has_order(result, id, a, b);
                if a == i {
                    let o = if b < j {
                        b
                    } else {
                        b + 1
                    };
                    assert(has_order(levels, id, i, o));
                } else {
                    assert(has_order(levels, id, a, b));
                }
            }
            if contains_order(levels, id) && id != gone {
                let (a, b) = choose|a: int, b: int| has_order(levels, id, a, b);
                if a == i {
                    assert(b != j);
                    if b < j {
                        assert(has_order(result, id, i, b));
                    } else {
                        assert(has_order(result, id, i, b - 1));
                    }
                } else {
                    assert(has_order(result, id, a, b));
                }
            }
        }
        assert forall|i1: int, j1: int, i2: int, j2: int|
            has_order(result, result[i1].orders[j1].order_id@, i1, j1) && #[trigger] has_order(
                result,
                result[i1].orders[j1].order_id@,
                i2,
                j2,
            ) implies i1 == i2 && j1 == j2 by {
            let o1 = if i1 == i && j1 >= j {
                j1 + 1
            } else {
                j1
            };
            let o2 = if i2 == i && j2 >= j {
                j2 + 1
            } else {
                j2
            };
            let id = result[i1].orders[j1].order_id@;
            assert(has_order(levels, id, i1, o1));
            assert(has_order(levels, id, i2, o2));
        }
        assert forall|active: Map<u64, OrderLocation>|
            #[trigger] index_ok(levels, side, active) implies index_ok(result, side, active) by {
            assert forall|a: int, b: int|
                0 <= a < result.len() && 0 <= b < result[a].orders.len() implies {
                    let id = #[trigger] result[a].orders[b].order_id@;
                    &&& active.contains_key(id)
                    &&& active[id] == OrderLocation { side, price: result[a].price }
                } by {
                if a == i {
                    let o = if b < j {
                        b
                    } else {
                        b + 1
                    };
                    assert(result[a].orders[b] == levels[i].orders[o]);
                }
            }
        }
    }
}

} // verus!

verus! {

/// Indexing an id that is not on a side keeps that side's index valid.
pub proof fn lemma_index_insert(
    levels: Seq<LevelModel>,
    side: Side,
    active: Map<u64, OrderLocation>,
    id: u64,
    location: OrderLocation,
)
    requires
        index_ok(levels, side, active),
        !contains_order(levels, id),
    ensures
        index_ok(levels, side, active.insert(id, location)),
{
    assert forall|i: int, j: int| 0 <= i < levels.len() && 0 <= j < levels[i].orders.len() implies
        #[trigger] levels[i].orders[j].order_id@ != id by {
        assert(has_order(levels, levels[i].orders[j].order_id@, i, j));
    }
}

/// Dropping an id that is not on a side keeps that side's index valid.
pub proof fn lemma_index_remove(
    levels: Seq<LevelModel>,
    side: Side,
    active: Map<u64, OrderLocation>,
    id: u64,
)
    requires
        index_ok(levels, side, active),
        !contains_order(levels, id),
    ensures
        index_ok(levels, side, active.remove(id)),
{
    assert forall|i: int, j: int| 0 <= i < levels.len() && 0 <= j < levels[i].orders.len() implies
        #[trigger] levels[i].orders[j].order_id@ != id by {
        assert(has_order(levels, levels[i].orders[j].order_id@, i, j));
    }
}

} // verus!
