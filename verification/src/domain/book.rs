//! The order book: price queues per side, an index of active orders, and
//! the matching engine interface.

use std::collections::{HashMap, HashSet, VecDeque};

use vstd::prelude::*;

use crate::text::{decimal, push_decimal};

use super::model::{
    better, book_ids, book_wf, cancel_spec, cancel_within_limits, contains_order, crosses,
    crossing_liquidity, has_order, index_ok, lemma_rest_into_at, lemma_rest_into_wf,
    lemma_index_insert, lemma_index_remove, lemma_levels_from_step, levels_from, empty_book, lemma_remove_at_wf, lemma_take_from_best, level_summary, match_levels, opposite, order_status, remove_at,
    rest_into, saturate, side_levels, side_wf, snapshot_spec, submit_spec, submit_within_limits,
    sum_qty, summarize, take_from_best, trades_from, would_cross, BookModel, Fill, LevelModel,
};
use super::order::{
    lemma_order_id_view_injective, lemma_price_view_injective, lemma_quantity_of,
    lemma_quantity_view_injective, quantity_of, NewOrder, OrderId, OrderLocation, Price, Quantity,
    RestingOrder, Side, TimeInForce,
};
use super::trade::{
    lemma_trade_id_of, lemma_trade_id_view_injective, trade_id_of, BookSnapshot, CancelReport,
    ExecutionReport, ExecutionReportModel, OrderStatus, PriceLevel, Trade, TradeId,
};

verus! {

broadcast use {
    lemma_order_id_view_injective,
    lemma_price_view_injective,
    lemma_quantity_view_injective,
    lemma_quantity_of,
    lemma_trade_id_of,
    lemma_trade_id_view_injective,
    vstd::std_specs::hash::group_hash_axioms,
};

#[derive(Debug, Clone, Copy, PartialEq, Eq, Structural)]
pub enum BookError {
    DuplicateOrder(OrderId),
    OrderNotFound(OrderId),
    PostOnlyWouldCross(OrderId),
    InvariantViolation,
}

impl BookError {
    /// The human-readable text of the error.
    pub open spec fn message_text(self) -> Seq<char> {
        match self {
            BookError::DuplicateOrder(id) => "order "@ + decimal(id@ as nat) + " has already been used"@,
            BookError::OrderNotFound(id) => "active order "@ + decimal(id@ as nat) + " was not found"@,
            BookError::PostOnlyWouldCross(id) => "post-only order "@ + decimal(id@ as nat)
                + " would immediately trade"@,
            BookError::InvariantViolation => "order-book indexes are inconsistent"@,
        }
    }

    pub fn message(&self) -> (text: String)
        ensures
            text@ == self.message_text(),
    {
        match self {
            BookError::DuplicateOrder(id) => {
                let mut text = "order ".to_owned();
                push_decimal(&mut text, id.get());
                text.append(" has already been used");
                text
            },
            BookError::OrderNotFound(id) => {
                let mut text = "active order ".to_owned();
                push_decimal(&mut text, id.get());
                text.append(" was not found");
                text
            },
            BookError::PostOnlyWouldCross(id) => {
                let mut text = "post-only order ".to_owned();
                push_decimal(&mut text, id.get());
                text.append(" would immediately trade");
                text
            },
            BookError::InvariantViolation => "order-book indexes are inconsistent".to_owned(),
        }
    }
}

/// The resting orders at one price, oldest first.
#[derive(Debug)]
pub(crate) struct PriceQueue {
    pub(crate) price: Price,
    pub(crate) orders: VecDeque<RestingOrder>,
}

impl PriceQueue {
    pub(crate) open spec fn model(self) -> LevelModel {
        LevelModel { price: self.price, orders: self.orders@ }
    }
}

pub(crate) open spec fn levels_model(queues: Seq<PriceQueue>) -> Seq<LevelModel> {
    queues.map_values(|q: PriceQueue| q.model())
}

/// What matching against one side did: the side, the remaining quantity,
/// the recorded trades and the trade counter follow `match_levels`; the side
/// stays well formed and indexed; only used-up makers leave the index; the
/// side's best price never improves.
pub(crate) open spec fn swept(
    before: Seq<LevelModel>,
    after: Seq<LevelModel>,
    active_before: Map<u64, OrderLocation>,
    active_after: Map<u64, OrderLocation>,
    next_before: nat,
    next_after: nat,
    trades_before: Seq<Trade>,
    trades_after: Seq<Trade>,
    remaining_before: nat,
    remaining_after: nat,
    taker: OrderId,
    aggressor: Side,
    limit: Price,
) -> bool {
    let m = match_levels(before, aggressor, limit@, remaining_before);
    &&& after == m.levels
    &&& remaining_after == m.remaining
    &&& trades_after == trades_before + trades_from(m.fills, next_before, taker, aggressor)
    &&& next_after == next_before + m.fills.len()
    &&& side_wf(after, opposite(aggressor))
    &&& index_ok(after, opposite(aggressor), active_after)
    &&& forall|id: u64|
        #[trigger] active_after.contains_key(id) <==> (active_before.contains_key(id) && (
        contains_order(before, id) ==> contains_order(after, id)))
    &&& forall|id: u64| #[trigger] active_after.contains_key(id) ==> active_after[id] == active_before[id]
    &&& forall|id: u64| #[trigger] contains_order(after, id) ==> contains_order(before, id)
    &&& (remaining_after == 0 || after.len() == 0 || !crosses(aggressor, limit@, after[0].price@))
    &&& (after.len() > 0 ==> before.len() > 0 && (after[0].price == before[0].price || better(
        opposite(aggressor),
        before[0].price@,
        after[0].price@,
    )))
    &&& remaining_after <= remaining_before
}

/// Creates the trade with the next trade id and advances the counter.
fn create_trade(
    next_trade_id: &mut u64,
    maker_order_id: OrderId,
    taker_order_id: OrderId,
    aggressor_side: Side,
    price: Price,
    quantity: u64,
) -> (trade: Trade)
    requires
        *old(next_trade_id) < u64::MAX,
        quantity > 0,
    ensures
        *final(next_trade_id) == *old(next_trade_id) + 1,
        trade == (Trade {
            trade_id: trade_id_of(*old(next_trade_id)),
            maker_order_id,
            taker_order_id,
            aggressor_side,
            price,
            quantity: quantity_of(quantity),
        }),
{
    let trade = Trade {
        trade_id: TradeId::new(*next_trade_id),
        maker_order_id,
        taker_order_id,
        aggressor_side,
        price,
        quantity: Quantity::from_positive(quantity),
    };
    *next_trade_id = *next_trade_id + 1;
    trade
}

fn price_crosses(aggressor: Side, limit: Price, maker_price: Price) -> (r: bool)
    ensures
        r == crosses(aggressor, limit@, maker_price@),
{
    match aggressor {
        Side::Buy => maker_price.get() <= limit.get(),
        Side::Sell => maker_price.get() >= limit.get(),
    }
}

/// How many trades an incoming order of `quantity` on `aggressor`, limited
/// at `limit`, would make against `levels`, counted without making them.
fn trades_needed(levels: &Vec<PriceQueue>, aggressor: Side, limit: Price, quantity: u64) -> (count:
    u64)
    requires
        side_wf(levels_model(levels@), opposite(aggressor)),
    ensures
        count == match_levels(levels_model(levels@), aggressor, limit@, quantity as nat).fills.len(),
{
    let ghost all = levels_model(levels@);
    let ghost whole = match_levels(all, aggressor, limit@, quantity as nat).fills.len();
    let mut i: usize = 0;
    let mut j: usize = 0;
    let mut remaining = quantity;
    let mut count: u64 = 0;
    proof {
        assert(levels_from(all, 0, 0) =~= all);
    }
    while remaining > 0 && i < levels.len()
        invariant
            all == levels_model(levels@),
            whole == match_levels(all, aggressor, limit@, quantity as nat).fills.len(),
            side_wf(all, opposite(aggressor)),
            i <= levels@.len(),
            i < levels@.len() ==> j < all[i as int].orders.len(),
            i == levels@.len() ==> j == 0,
            count + remaining <= quantity,
            count + match_levels(levels_from(all, i as int, j as int), aggressor, limit@, remaining as nat).fills.len() == whole,
        decreases remaining,
    {
        let ghost from = levels_from(all, i as int, j as int);
        proof {
            assert(all[i as int] == levels@[i as int].model());
            lemma_levels_from_step(all, opposite(aggressor), i as int, j as int);
        }
        if !price_crosses(aggressor, limit, levels[i].price) {
            proof {
                assert(match_levels(from, aggressor, limit@, remaining as nat).fills.len() == 0);
                assert(count == whole);
            }
            return count;
        }
        let q = levels[i].orders[j].remaining_quantity;
        proof {
            assert(all[i as int].orders[j as int].remaining_quantity == q);
            assert(q > 0);
        }
        count = count + 1;
        if remaining <= q {
            proof {
                let next = take_from_best(from, remaining as nat);
                assert(match_levels(next, aggressor, limit@, 0).fills.len() == 0);
            }
            remaining = 0;
        } else {
            remaining = remaining - q;
            let level_len = levels[i].orders.len();
            if j < level_len - 1 {
                j = j + 1;
            } else {
                i = i + 1;
                j = 0;
            }
        }
    }
    proof {
        if remaining > 0 {
            assert(levels_from(all, i as int, 0) =~= Seq::<LevelModel>::empty());
        }
    }
    count
}

/// Matches an incoming order against one side's price queues, best price
/// first and oldest order first, recording one trade per execution.
#[verifier::rlimit(50)]
fn sweep(
    levels: &mut Vec<PriceQueue>,
    active: &mut HashMap<u64, OrderLocation>,
    next_trade_id: &mut u64,
    taker_order_id: OrderId,
    aggressor: Side,
    limit_price: Price,
    remaining: &mut u64,
    trades: &mut Vec<Trade>,
)
    requires
        side_wf(levels_model(old(levels)@), opposite(aggressor)),
        index_ok(levels_model(old(levels)@), opposite(aggressor), old(active)@),
        *old(next_trade_id) + match_levels(
            levels_model(old(levels)@),
            aggressor,
            limit_price@,
            *old(remaining) as nat,
        ).fills.len() <= u64::MAX,
    ensures
        swept(
            levels_model(old(levels)@),
            levels_model(final(levels)@),
            old(active)@,
            final(active)@,
            *old(next_trade_id) as nat,
            *final(next_trade_id) as nat,
            old(trades)@,
            final(trades)@,
            *old(remaining) as nat,
            *final(remaining) as nat,
            taker_order_id,
            aggressor,
            limit_price,
        ),
{
    let ghost orig = levels_model(levels@);
    let ghost orig_active = active@;
    let ghost orig_remaining = *remaining as nat;
    let ghost orig_trades = trades@;
    let ghost orig_next = *next_trade_id as nat;
    let ghost orig_best = if levels@.len() > 0 { levels@[0].price } else { limit_price };
    let ghost maker_side = opposite(aggressor);
    let ghost mut fills: Seq<Fill> = seq![];
    proof {
        assert(fills + match_levels(orig, aggressor, limit_price@, orig_remaining).fills
            =~= match_levels(orig, aggressor, limit_price@, orig_remaining).fills);
    }
    while *remaining > 0
        invariant
            ({
                let cur = levels_model(levels@);
                let whole = match_levels(orig, aggressor, limit_price@, orig_remaining);
                let rest = match_levels(cur, aggressor, limit_price@, *remaining as nat);
                &&& whole.levels == rest.levels
                &&& whole.remaining == rest.remaining
                &&& whole.fills == fills + rest.fills
            }),
            trades@ == orig_trades + trades_from(fills, orig_next, taker_order_id, aggressor),
            *next_trade_id == orig_next + fills.len(),
            orig_next + match_levels(orig, aggressor, limit_price@, orig_remaining).fills.len()
                <= u64::MAX,
            maker_side == opposite(aggressor),
            side_wf(levels_model(levels@), maker_side),
            index_ok(levels_model(levels@), maker_side, active@),
            forall|id: u64|
                #[trigger] active@.contains_key(id) <==> (orig_active.contains_key(id) && (
                contains_order(orig, id) ==> contains_order(levels_model(levels@), id))),
            forall|id: u64| #[trigger] active@.contains_key(id) ==> active@[id] == orig_active[id],
            forall|id: u64| #[trigger]
                contains_order(levels_model(levels@), id) ==> contains_order(orig, id),
            levels@.len() > 0 ==> orig.len() > 0 && orig_best == orig[0].price && (levels@[0].price
                == orig_best || better(maker_side, orig_best@, levels@[0].price@)),
            *remaining as nat <= orig_remaining,
            index_ok(orig, maker_side, orig_active),
        ensures
            ({
                let cur = levels_model(levels@);
                let whole = match_levels(orig, aggressor, limit_price@, orig_remaining);
                &&& whole.levels == cur
                &&& whole.remaining == *remaining
                &&& whole.fills == fills
            }),
            trades@ == orig_trades + trades_from(fills, orig_next, taker_order_id, aggressor),
            *next_trade_id == orig_next + fills.len(),
            side_wf(levels_model(levels@), maker_side),
            index_ok(levels_model(levels@), maker_side, active@),
            forall|id: u64|
                #[trigger] active@.contains_key(id) <==> (orig_active.contains_key(id) && (
                contains_order(orig, id) ==> contains_order(levels_model(levels@), id))),
            forall|id: u64| #[trigger] active@.contains_key(id) ==> active@[id] == orig_active[id],
            forall|id: u64| #[trigger]
                contains_order(levels_model(levels@), id) ==> contains_order(orig, id),
            *remaining == 0 || levels@.len() == 0 || !crosses(
                aggressor,
                limit_price@,
                levels@[0].price@,
            ),
            levels@.len() > 0 ==> orig.len() > 0 && orig_best == orig[0].price && (levels@[0].price
                == orig_best || better(maker_side, orig_best@, levels@[0].price@)),
            *remaining as nat <= orig_remaining,
        decreases *remaining,
    {
        let ghost cur = levels_model(levels@);
        if levels.len() == 0 {
            proof {
                assert(fills + seq![] =~= fills);
            }
            break;
        }
        let best_price = levels[0].price;
        if !price_crosses(aggressor, limit_price, best_price) {
            proof {
                assert(fills + seq![] =~= fills);
            }
            break;
        }
        proof {
            assert(cur[0].orders.len() > 0);
            assert(cur[0].orders[0].remaining_quantity > 0);
        }
        let ghost before = levels@;
        let popped = levels[0].orders.pop_front();
        let mut maker = match popped {
            Some(maker) => maker,
            None => {
                proof {
                    assert(false);
                }
                break;
            },
        };
        proof {
            assert(levels@[0].orders@ =~= before[0].orders@.drop_first());
            assert(forall|k: int| 0 < k < levels@.len() ==> levels@[k] == before[k]);
            assert(levels@.len() == before.len());
        }
        let fill = if *remaining < maker.remaining_quantity {
            *remaining
        } else {
            maker.remaining_quantity
        };
        let ghost next = take_from_best(cur, fill as nat);
        proof {
            lemma_take_from_best(cur, maker_side, fill as nat);
        }
        let ghost active_before = active@;
        maker.remaining_quantity = maker.remaining_quantity - fill;
        *remaining = *remaining - fill;
        if maker.remaining_quantity == 0 {
            active.remove(&maker.order_id.get());
            if levels[0].orders.len() == 0 {
                let ghost mid = levels@;
                levels.remove(0);
                proof {
                    assert(levels_model(levels@) =~= cur.drop_first());
                }
            } else {
                proof {
                    assert(levels_model(levels@) =~= cur.update(
                        0,
                        LevelModel { price: cur[0].price, orders: cur[0].orders.drop_first() },
                    ));
                }
            }
            proof {
                assert(levels_model(levels@) =~= next);
                assert(has_order(cur, maker.order_id@, 0, 0));
                assert forall|id: u64|
                    #[trigger] active@.contains_key(id) <==> (orig_active.contains_key(id) && (
                    contains_order(orig, id) ==> contains_order(next, id))) by {
                    if id == maker.order_id@ {
                        assert(contains_order(cur, id));
                    }
                }
                assert forall|i: int, j: int|
                    0 <= i < next.len() && 0 <= j < next[i].orders.len() implies {
                        let id = #[trigger] next[i].orders[j].order_id@;
                        &&& active@.contains_key(id)
                        &&& active@[id] == OrderLocation { side: maker_side, price: next[i].price }
                    } by {
                    let id = next[i].orders[j].order_id@;
                    assert(has_order(next, id, i, j));
                    assert(contains_order(next, id));
                }
            }
        } else {
            levels[0].orders.push_front(maker);
            proof {
                assert(levels@[0].orders@ =~= before[0].orders@.update(0, maker));
                assert(levels_model(levels@) =~= next);
            }
        }
        let trade = create_trade(
            next_trade_id,
            maker.order_id,
            taker_order_id,
            aggressor,
            best_price,
            fill,
        );
        trades.push(trade);
        proof {
            let f = Fill { maker: maker.order_id, price: best_price, quantity: fill };
            let rest_next = match_levels(next, aggressor, limit_price@, *remaining as nat);
            assert(fills.push(f) + rest_next.fills =~= fills + (seq![f] + rest_next.fills));
            fills = fills.push(f);
            assert(trades@ =~= orig_trades + trades_from(fills, orig_next, taker_order_id, aggressor));
        }
    }
}


/// Adds up the remaining quantities of a queue onto `start`, saturating at `u64::MAX`.
fn saturating_total(start: u64, orders: &VecDeque<RestingOrder>) -> (total: u64)
    ensures
        total == saturate(start as nat + sum_qty(orders@)),
{
    let mut total = start;
    let mut j: usize = 0;
    let ghost mut acc: nat = start as nat;
    proof {
        assert(orders@.skip(0) =~= orders@);
    }
    while j < orders.len()
        invariant
            j <= orders@.len(),
            acc + sum_qty(orders@.skip(j as int)) == start + sum_qty(orders@),
            total == saturate(acc),
        decreases orders@.len() - j,
    {
        let quantity = orders[j].remaining_quantity;
        proof {
            assert(orders@.skip(j as int).drop_first() =~= orders@.skip(j + 1));
            assert(orders@.skip(j as int)[0] == orders@[j as int]);
            acc = acc + quantity as nat;
        }
        total = total.saturating_add(quantity);
        j = j + 1;
    }
    proof {
        assert(orders@.skip(j as int) =~= Seq::<RestingOrder>::empty());
    }
    total
}

/// The quantity an order on `aggressor` limited at `limit` could trade with,
/// saturating at `u64::MAX`.
fn crossing_total(levels: &Vec<PriceQueue>, aggressor: Side, limit: Price) -> (total: u64)
    ensures
        total == saturate(crossing_liquidity(levels_model(levels@), aggressor, limit@)),
{
    let ghost all = levels_model(levels@);
    let mut total: u64 = 0;
    let mut i: usize = 0;
    let ghost mut acc: nat = 0;
    proof {
        assert(all.skip(0) =~= all);
    }
    while i < levels.len()
        invariant
            i <= levels@.len(),
            all == levels_model(levels@),
            acc + crossing_liquidity(all.skip(i as int), aggressor, limit@) == crossing_liquidity(
                all,
                aggressor,
                limit@,
            ),
            total == saturate(acc),
        decreases levels@.len() - i,
    {
        proof {
            assert(all.skip(i as int)[0] == all[i as int]);
            assert(all.skip(i as int).drop_first() =~= all.skip(i + 1));
        }
        if !price_crosses(aggressor, limit, levels[i].price) {
            return total;
        }
        total = saturating_total(total, &levels[i].orders);
        proof {
            acc = acc + sum_qty(all[i as int].orders);
        }
        i = i + 1;
    }
    proof {
        assert(all.skip(i as int) =~= Seq::<LevelModel>::empty());
    }
    total
}

/// Puts a resting order at the back of its price's queue, or opens a queue
/// for that price in priority order.
fn insert_into_side(levels: &mut Vec<PriceQueue>, side: Side, price: Price, resting: RestingOrder)
    requires
        side_wf(levels_model(old(levels)@), side),
        resting.remaining_quantity > 0,
        !contains_order(levels_model(old(levels)@), resting.order_id@),
    ensures
        ({
            let before = levels_model(old(levels)@);
            let after = levels_model(final(levels)@);
            &&& after == rest_into(before, side, price, resting)
            &&& side_wf(after, side)
            &&& forall|id: u64|
                #[trigger] contains_order(after, id) <==> (contains_order(before, id) || id
                    == resting.order_id@)
            &&& forall|active: Map<u64, OrderLocation>|
                #[trigger] index_ok(before, side, active) && active.contains_key(resting.order_id@)
                    && active[resting.order_id@] == (OrderLocation { side, price }) ==> index_ok(
                    after,
                    side,
                    active,
                )
            &&& after.len() > 0
            &&& (after[0].price == price || (before.len() > 0 && after[0].price == before[0].price))
        }),
{
    let ghost before = levels_model(levels@);
    let mut i: usize = 0;
    while i < levels.len()
        invariant
            i <= levels@.len(),
            before == levels_model(levels@),
            forall|k: int| 0 <= k < i ==> better(side, #[trigger] before[k].price@, price@),
        ensures
            i <= levels@.len(),
            forall|k: int| 0 <= k < i ==> better(side, #[trigger] before[k].price@, price@),
            i < levels@.len() ==> !better(side, before[i as int].price@, price@),
        decreases levels@.len() - i,
    {
        let level_price = levels[i].price.get();
        let has_priority = match side {
            Side::Buy => level_price > price.get(),
            Side::Sell => level_price < price.get(),
        };
        if !has_priority {
            break;
        }
        i = i + 1;
    }
    proof {
        lemma_rest_into_at(before, side, price, resting, i as int);
        lemma_rest_into_wf(before, side, price, resting, i as int);
    }
    if i < levels.len() && levels[i].price.get() == price.get() {
        levels[i].orders.push_back(resting);
    } else {
        let mut orders = VecDeque::new();
        orders.push_back(resting);
        levels.insert(i, PriceQueue { price, orders });
    }
    proof {
        assert(levels_model(levels@) =~= rest_into(before, side, price, resting));
    }
}

/// The first `depth` queues of a side, aggregated.
fn levels(queues: &Vec<PriceQueue>, depth: usize) -> (summary: Vec<PriceLevel>)
    ensures
        summary@ == summarize(levels_model(queues@), depth),
{
    let mut summary: Vec<PriceLevel> = Vec::new();
    let mut i: usize = 0;
    while i < queues.len() && i < depth
        invariant
            i <= queues@.len(),
            i <= depth,
            summary@ == Seq::new(i as nat, |k: int| level_summary(levels_model(queues@)[k])),
        decreases queues@.len() - i,
    {
        let queue = &queues[i];
        let total_quantity = saturating_total(0, &queue.orders);
        summary.push(PriceLevel { price: queue.price, total_quantity, order_count: queue.orders.len() });
        i = i + 1;
        proof {
            assert(summary@ =~= Seq::new(i as nat, |k: int| level_summary(levels_model(queues@)[k])));
        }
    }
    proof {
        assert(summary@ =~= summarize(levels_model(queues@), depth));
    }
    summary
}

/// A limit order book for one symbol: bids best (highest) price first, asks
/// best (lowest) price first, each price queue oldest first.
///
/// Each side is a vector of price queues kept in priority order, so the best
/// queue is the first one and matching walks the side from the front.
/// Opening or closing a price level shifts the vector, which costs O(P) in
/// the number of levels where a balanced tree would cost O(log P). An
/// ordered map keyed by price would need a best-entry lookup, a range walk
/// and in-place access to a queue, none of which vstd specifies for
/// `BTreeMap`; with only its `get`, `insert`, `remove` and `iter`, each
/// match step would move a queue out and back and rebuild the ordered
/// entries to find the best one, which is no cheaper.
#[derive(Debug)]
pub struct OrderBook {
    symbol: String,
    bids: Vec<PriceQueue>,
    asks: Vec<PriceQueue>,
    active_orders: HashMap<u64, OrderLocation>,
    seen_order_ids: HashSet<u64>,
    next_trade_id: u64,
    sequence: u64,
}

impl View for OrderBook {
    type V = BookModel;

    closed spec fn view(&self) -> BookModel {
        BookModel {
            symbol: self.symbol@,
            bids: levels_model(self.bids@),
            asks: levels_model(self.asks@),
            seen: self.seen_order_ids@,
            next_trade_id: self.next_trade_id as nat,
            sequence: self.sequence as nat,
        }
    }
}

impl OrderBook {
    /// The active-order index: each resting order's id with its side and price.
    pub closed spec fn index(&self) -> Map<u64, OrderLocation> {
        self.active_orders@
    }

    /// The model is well formed and the active-order index holds exactly the
    /// resting orders, each at its side and price.
    pub open spec fn inv(&self) -> bool {
        &&& book_wf(self@)
        &&& self@.sequence <= u64::MAX
        &&& self@.next_trade_id <= u64::MAX
        &&& index_ok(self@.bids, Side::Buy, self.index())
        &&& index_ok(self@.asks, Side::Sell, self.index())
        &&& forall|id: u64| #[trigger]
            self.index().contains_key(id) ==> contains_order(self@.bids, id)
                || contains_order(self@.asks, id)
    }

    /// An empty book for `symbol`.
    pub fn new(symbol: &str) -> (book: Self)
        ensures
            book.inv(),
            book@ == empty_book(symbol@),
    {
        let book = Self {
            symbol: symbol.to_owned(),
            bids: Vec::new(),
            asks: Vec::new(),
            active_orders: HashMap::new(),
            seen_order_ids: HashSet::new(),
            next_trade_id: 1,
            sequence: 0,
        };
        proof {
            assert(book@.bids =~= seq![]);
            assert(book@.asks =~= seq![]);
        }
        book
    }

    fn would_cross(&self, order: &NewOrder) -> (r: bool)
        ensures
            r == would_cross(self@, *order),
    {
        match order.side {
            Side::Buy => self.asks.len() > 0 && price_crosses(Side::Buy, order.price, self.asks[0].price),
            Side::Sell => self.bids.len() > 0 && price_crosses(Side::Sell, order.price, self.bids[0].price),
        }
    }

    fn available_liquidity(&self, order: &NewOrder) -> (total: u64)
        ensures
            total == saturate(
                crossing_liquidity(side_levels(self@, opposite(order.side)), order.side, order.price@),
            ),
    {
        match order.side {
            Side::Buy => crossing_total(&self.asks, Side::Buy, order.price),
            Side::Sell => crossing_total(&self.bids, Side::Sell, order.price),
        }
    }
}


/// Removes order `order_id`, which rests at `price`, from one side, and
/// answers its remaining quantity.
fn remove_from_side(levels: &mut Vec<PriceQueue>, side: Side, price: Price, order_id: OrderId) -> (result:
    Result<u64, BookError>)
    requires
        side_wf(levels_model(old(levels)@), side),
        contains_order(levels_model(old(levels)@), order_id@),
        forall|i: int, j: int| #[trigger]
            has_order(levels_model(old(levels)@), order_id@, i, j) ==> old(levels)@[i].price == price,
    ensures
        ({
            let before = levels_model(old(levels)@);
            let (i, j) = choose|i: int, j: int| has_order(before, order_id@, i, j);
            &&& result == Ok::<u64, BookError>(before[i].orders[j].remaining_quantity)
            &&& levels_model(final(levels)@) == remove_at(before, i, j)
            &&& has_order(before, order_id@, i, j)
        }),
{
    let ghost before = levels_model(levels@);
    let ghost (ci, cj) = choose|i: int, j: int| has_order(before, order_id@, i, j);
    proof {
        assert(has_order(before, order_id@, ci, cj));
    }
    let mut k: usize = 0;
    while k < levels.len() && levels[k].price.get() != price.get()
        invariant
            k <= levels@.len(),
            before == levels_model(levels@),
            forall|a: int| 0 <= a < k ==> #[trigger] levels@[a].price != price,
        decreases levels@.len() - k,
    {
        k = k + 1;
    }
    if k == levels.len() {
        proof {
            assert(levels@[ci].price == price);
        }
        return Err(BookError::InvariantViolation);
    }
    proof {
        if ci != k {
            if ci < k {
                assert(better(side, before[ci].price@, before[k as int].price@));
            } else {
                assert(better(side, before[k as int].price@, before[ci].price@));
            }
        }
        assert(ci == k);
    }
    let mut position: usize = 0;
    let len = levels[k].orders.len();
    while position < len && levels[k].orders[position].order_id.get() != order_id.get()
        invariant
            position <= len,
            len == levels@[k as int].orders@.len(),
            before == levels_model(levels@),
            k < levels@.len(),
            forall|b: int| 0 <= b < position ==> #[trigger] levels@[k as int].orders@[b].order_id
                != order_id,
        decreases len - position,
    {
        position = position + 1;
    }
    if position == len {
        proof {
            assert(levels@[k as int].orders@[cj].order_id == order_id);
        }
        return Err(BookError::InvariantViolation);
    }
    proof {
        assert(has_order(before, order_id@, k as int, position as int));
        assert(position == cj);
    }
    let ghost prior = levels@;
    let removed = levels[k].orders.remove(position);
    let resting = match removed {
        Some(resting) => resting,
        None => {
            return Err(BookError::InvariantViolation);
        },
    };
    if levels[k].orders.len() == 0 {
        levels.remove(k);
    }
    proof {
        assert(levels_model(levels@) =~= remove_at(before, ci, cj));
    }
    Ok(resting.remaining_quantity)
}

/// The report that a submission answers, with its trades as a sequence.
pub open spec fn report_model(result: Result<ExecutionReport, BookError>) -> Result<
    ExecutionReportModel,
    BookError,
> {
    match result {
        Ok(report) => Ok(report@),
        Err(error) => Err(error),
    }
}

/// A deterministic limit-order matching engine for one symbol.
pub trait MatchingEngine: Send {
    /// The book that the engine holds.
    spec fn model(&self) -> BookModel;

    /// The engine's own representation invariant.
    spec fn well_formed(&self) -> bool;

    /// Validates, matches and possibly rests an order.
    fn submit(&mut self, order: NewOrder) -> (result: Result<ExecutionReport, BookError>)
        requires
            old(self).well_formed(),
            submit_within_limits(old(self).model(), order),
        ensures
            final(self).well_formed(),
            book_wf(final(self).model()),
            final(self).model() == submit_spec(old(self).model(), order).0,
            report_model(result) == submit_spec(old(self).model(), order).1,
    ;

    /// Cancels an active resting order.
    fn cancel(&mut self, order_id: OrderId) -> (result: Result<CancelReport, BookError>)
        requires
            old(self).well_formed(),
            cancel_within_limits(old(self).model(), order_id),
        ensures
            final(self).well_formed(),
            book_wf(final(self).model()),
            final(self).model() == cancel_spec(old(self).model(), order_id).0,
            result == cancel_spec(old(self).model(), order_id).1,
    ;

    /// An aggregated picture of at most `depth` levels per side.
    fn snapshot(&self, depth: usize) -> (snapshot: BookSnapshot)
        requires
            self.well_formed(),
        ensures
            snapshot@ == snapshot_spec(self.model(), depth),
            book_ids(self.model()).len() <= usize::MAX,
    ;

    /// Whether the engine's counters can take the submission of `order`.
    fn has_room_for_submit(&self, order: &NewOrder) -> (room: bool)
        requires
            self.well_formed(),
        ensures
            room == submit_within_limits(self.model(), *order),
    ;

    /// Whether the engine's counters can take the cancellation of `order_id`.
    fn has_room_for_cancel(&self, order_id: OrderId) -> (room: bool)
        requires
            self.well_formed(),
        ensures
            room == cancel_within_limits(self.model(), order_id),
    ;
}

impl OrderBook {
    /// Matches an incoming buy against the asks.
    fn match_buy(
        &mut self,
        taker_order_id: OrderId,
        limit_price: Price,
        remaining: &mut u64,
        trades: &mut Vec<Trade>,
    )
        requires
            side_wf(old(self)@.asks, Side::Sell),
            index_ok(old(self)@.asks, Side::Sell, old(self).active_orders@),
            old(self).next_trade_id + match_levels(
                old(self)@.asks,
                Side::Buy,
                limit_price@,
                *old(remaining) as nat,
            ).fills.len() <= u64::MAX,
        ensures
            swept(
                old(self)@.asks,
                final(self)@.asks,
                old(self).active_orders@,
                final(self).active_orders@,
                old(self).next_trade_id as nat,
                final(self).next_trade_id as nat,
                old(trades)@,
                final(trades)@,
                *old(remaining) as nat,
                *final(remaining) as nat,
                taker_order_id,
                Side::Buy,
                limit_price,
            ),
            final(self)@.bids == old(self)@.bids,
            final(self)@.symbol == old(self)@.symbol,
            final(self)@.seen == old(self)@.seen,
            final(self)@.sequence == old(self)@.sequence,
    {
        sweep(
            &mut self.asks,
            &mut self.active_orders,
            &mut self.next_trade_id,
            taker_order_id,
            Side::Buy,
            limit_price,
            remaining,
            trades,
        );
    }

    /// Matches an incoming sell against the bids.
    fn match_sell(
        &mut self,
        taker_order_id: OrderId,
        limit_price: Price,
        remaining: &mut u64,
        trades: &mut Vec<Trade>,
    )
        requires
            side_wf(old(self)@.bids, Side::Buy),
            index_ok(old(self)@.bids, Side::Buy, old(self).active_orders@),
            old(self).next_trade_id + match_levels(
                old(self)@.bids,
                Side::Sell,
                limit_price@,
                *old(remaining) as nat,
            ).fills.len() <= u64::MAX,
        ensures
            swept(
                old(self)@.bids,
                final(self)@.bids,
                old(self).active_orders@,
                final(self).active_orders@,
                old(self).next_trade_id as nat,
                final(self).next_trade_id as nat,
                old(trades)@,
                final(trades)@,
                *old(remaining) as nat,
                *final(remaining) as nat,
                taker_order_id,
                Side::Sell,
                limit_price,
            ),
            final(self)@.asks == old(self)@.asks,
            final(self)@.symbol == old(self)@.symbol,
            final(self)@.seen == old(self)@.seen,
            final(self)@.sequence == old(self)@.sequence,
    {
        sweep(
            &mut self.bids,
            &mut self.active_orders,
            &mut self.next_trade_id,
            taker_order_id,
            Side::Sell,
            limit_price,
            remaining,
            trades,
        );
    }

    /// Rests what is left of an order on its own side and indexes it.
    fn rest(&mut self, order: &NewOrder, remaining_quantity: u64)
        requires
            side_wf(side_levels(old(self)@, order.side), order.side),
            remaining_quantity > 0,
            !contains_order(side_levels(old(self)@, order.side), order.order_id@),
        ensures
            ({
                let resting = RestingOrder { order_id: order.order_id, remaining_quantity };
                let before = side_levels(old(self)@, order.side);
                let after = side_levels(final(self)@, order.side);
                let location = OrderLocation { side: order.side, price: order.price };
                &&& after == rest_into(before, order.side, order.price, resting)
                &&& side_levels(final(self)@, opposite(order.side)) == side_levels(
                    old(self)@,
                    opposite(order.side),
                )
                &&& final(self)@.symbol == old(self)@.symbol
                &&& final(self)@.seen == old(self)@.seen
                &&& final(self)@.sequence == old(self)@.sequence
                &&& final(self)@.next_trade_id == old(self)@.next_trade_id
                &&& final(self).active_orders@ == old(self).active_orders@.insert(
                    order.order_id@,
                    location,
                )
                &&& side_wf(after, order.side)
                &&& forall|id: u64|
                    #[trigger] contains_order(after, id) <==> (contains_order(before, id) || id
                        == order.order_id@)
                &&& forall|active: Map<u64, OrderLocation>|
                    #[trigger] index_ok(before, order.side, active) && active.contains_key(
                        order.order_id@,
                    ) && active[order.order_id@] == location ==> index_ok(
                        after,
                        order.side,
                        active,
                    )
                &&& after.len() > 0
                &&& (after[0].price == order.price || (before.len() > 0 && after[0].price
                    == before[0].price))
            }),
    {
        let resting = RestingOrder { order_id: order.order_id, remaining_quantity };
        self.active_orders.insert(
            order.order_id.get(),
            OrderLocation { side: order.side, price: order.price },
        );
        match order.side {
            Side::Buy => insert_into_side(&mut self.bids, Side::Buy, order.price, resting),
            Side::Sell => insert_into_side(&mut self.asks, Side::Sell, order.price, resting),
        }
    }
}


impl MatchingEngine for OrderBook {
    open spec fn model(&self) -> BookModel {
        self@
    }

    open spec fn well_formed(&self) -> bool {
        self.inv()
    }

    fn has_room_for_submit(&self, order: &NewOrder) -> (room: bool) {
        if self.seen_order_ids.contains(&order.order_id.get()) {
            return true;
        }
        if order.post_only && self.would_cross(order) {
            return true;
        }
        if self.sequence == u64::MAX {
            return false;
        }
        if order.time_in_force == TimeInForce::Fok && self.available_liquidity(order)
            < order.quantity.get() {
            return true;
        }
        let needed = match order.side {
            Side::Buy => trades_needed(&self.asks, Side::Buy, order.price, order.quantity.get()),
            Side::Sell => trades_needed(&self.bids, Side::Sell, order.price, order.quantity.get()),
        };
        needed <= u64::MAX - self.next_trade_id
    }

    fn has_room_for_cancel(&self, order_id: OrderId) -> (room: bool) {
        self.sequence < u64::MAX || !self.active_orders.contains_key(&order_id.get())
    }

    #[verifier::spinoff_prover]
    #[verifier::rlimit(100)]
    fn submit(&mut self, order: NewOrder) -> (result: Result<ExecutionReport, BookError>) {
        let ghost b = self@;
        let ghost active0 = self.active_orders@;
        if self.seen_order_ids.contains(&order.order_id.get()) {
            return Err(BookError::DuplicateOrder(order.order_id));
        }
        if order.post_only && self.would_cross(&order) {
            return Err(BookError::PostOnlyWouldCross(order.order_id));
        }
        proof {
            assert(!contains_order(b.bids, order.order_id@));
            assert(!contains_order(b.asks, order.order_id@));
        }

        self.seen_order_ids.insert(order.order_id.get());
        self.sequence = self.sequence + 1;

        let original_quantity = order.quantity;
        if order.time_in_force == TimeInForce::Fok && self.available_liquidity(&order)
            < original_quantity.get() {
            let report = ExecutionReport {
                order_id: order.order_id,
                status: OrderStatus::Cancelled,
                original_quantity,
                filled_quantity: 0,
                remaining_quantity: original_quantity.get(),
                trades: Vec::new(),
            };
            proof {
                assert(report@.trades =~= seq![]);
                assert(self@ =~= submit_spec(b, order).0);
            }
            return Ok(report);
        }

        let mut remaining_quantity = original_quantity.get();
        let mut trades: Vec<Trade> = Vec::new();
        let ghost mid = self@;
        let ghost active1 = self.active_orders@;
        match order.side {
            Side::Buy => self.match_buy(
                order.order_id,
                order.price,
                &mut remaining_quantity,
                &mut trades,
            ),
            Side::Sell => self.match_sell(
                order.order_id,
                order.price,
                &mut remaining_quantity,
                &mut trades,
            ),
        }
        let ghost matched = self@;
        let ghost active2 = self.active_orders@;
        let ghost m = match_levels(
            side_levels(b, opposite(order.side)),
            order.side,
            order.price@,
            original_quantity@ as nat,
        );
        proof {
            assert(trades@ =~= trades_from(m.fills, b.next_trade_id, order.order_id, order.side));
            // The own side is untouched by matching and still fully indexed.
            assert forall|i: int, j: int|
                0 <= i < side_levels(b, order.side).len() && 0 <= j < side_levels(
                    b,
                    order.side,
                )[i].orders.len() implies {
                    let id = #[trigger] side_levels(b, order.side)[i].orders[j].order_id@;
                    &&& active2.contains_key(id)
                    &&& active2[id] == OrderLocation {
                        side: order.side,
                        price: side_levels(b, order.side)[i].price,
                    }
                } by {
                let id = side_levels(b, order.side)[i].orders[j].order_id@;
                assert(has_order(side_levels(b, order.side), id, i, j));
                assert(!contains_order(side_levels(b, opposite(order.side)), id));
            }
        }

        let filled_quantity = original_quantity.get() - remaining_quantity;
        let should_rest = remaining_quantity > 0 && order.time_in_force == TimeInForce::Gtc;
        if should_rest {
            self.rest(&order, remaining_quantity);
        }
        proof {
            let own = side_levels(b, order.side);
            let opp = side_levels(matched, opposite(order.side));
            let active3 = self.active_orders@;
            assert(index_ok(own, order.side, active2));
            assert(index_ok(opp, opposite(order.side), active2));
            if should_rest {
                assert(!contains_order(opp, order.order_id@));
                lemma_index_insert(
                    own,
                    order.side,
                    active2,
                    order.order_id@,
                    OrderLocation { side: order.side, price: order.price },
                );
                lemma_index_insert(
                    opp,
                    opposite(order.side),
                    active2,
                    order.order_id@,
                    OrderLocation { side: order.side, price: order.price },
                );
            }
            assert(index_ok(side_levels(self@, order.side), order.side, active3));
            assert(index_ok(side_levels(self@, opposite(order.side)), opposite(order.side), active3));
        }

        let status = match (filled_quantity, remaining_quantity, should_rest) {
            (_, 0, _) => OrderStatus::Filled,
            (0, _, true) => OrderStatus::Resting,
            (_, _, true) => OrderStatus::PartiallyFilledResting,
            (0, _, false) => OrderStatus::Cancelled,
            (_, _, false) => OrderStatus::PartiallyFilledCancelled,
        };

        let report = ExecutionReport {
            order_id: order.order_id,
            status,
            original_quantity,
            filled_quantity,
            remaining_quantity,
            trades,
        };
        proof {
            assert(self@ =~= submit_spec(b, order).0);
            assert(report@ =~= submit_spec(b, order).1->Ok_0);
            assert(book_wf(self@));
            assert(index_ok(self@.bids, Side::Buy, self.active_orders@));
            assert(index_ok(self@.asks, Side::Sell, self.active_orders@));
            assert(forall|id: u64| #[trigger]
                self.active_orders@.contains_key(id) ==> contains_order(self@.bids, id)
                    || contains_order(self@.asks, id));
        }
        Ok(report)
    }

    fn cancel(&mut self, order_id: OrderId) -> (result: Result<CancelReport, BookError>) {
        let ghost b = self@;
        let location = match self.active_orders.get(&order_id.get()) {
            Some(location) => *location,
            None => {
                return Err(BookError::OrderNotFound(order_id));
            },
        };
        let cancelled_quantity = match location.side {
            Side::Buy => match remove_from_side(&mut self.bids, Side::Buy, location.price, order_id) {
                Ok(quantity) => quantity,
                Err(error) => {
                    return Err(error);
                },
            },
            Side::Sell => match remove_from_side(
                &mut self.asks,
                Side::Sell,
                location.price,
                order_id,
            ) {
                Ok(quantity) => quantity,
                Err(error) => {
                    return Err(error);
                },
            },
        };
        let ghost active0 = self.active_orders@;
        self.active_orders.remove(&order_id.get());
        self.sequence = self.sequence + 1;
        proof {
            let own = side_levels(b, location.side);
            let other = side_levels(b, opposite(location.side));
            let (i, j) = choose|i: int, j: int| has_order(own, order_id@, i, j);
            lemma_remove_at_wf(own, location.side, i, j);
            assert(own[i].orders[j].order_id == order_id);
            let after = remove_at(own, i, j);
            assert(!contains_order(other, order_id@));
            lemma_index_remove(after, location.side, active0, order_id@);
            lemma_index_remove(other, opposite(location.side), active0, order_id@);
            assert(index_ok(self@.bids, Side::Buy, self.active_orders@));
            assert(index_ok(self@.asks, Side::Sell, self.active_orders@));
        }
        Ok(CancelReport { order_id, cancelled_quantity })
    }

    fn snapshot(&self, depth: usize) -> (snapshot: BookSnapshot) {
        let bids = levels(&self.bids, depth);
        let asks = levels(&self.asks, depth);
        proof {
            assert(self.active_orders@.dom() =~= book_ids(self@));
        }
        BookSnapshot {
            symbol: self.symbol.clone(),
            sequence: self.sequence,
            active_order_count: self.active_orders.len(),
            trade_count: self.next_trade_id - 1,
            bids,
            asks,
        }
    }
}

} // verus!
