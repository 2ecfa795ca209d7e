use rustilleus::domain::{
    BookError, BookSnapshot, MatchingEngine, NewOrder, OrderBook, OrderId, OrderStatus, Price,
    Quantity, Side, TimeInForce,
};

fn order(id: u64, side: Side, price: u64, quantity: u64) -> NewOrder {
    NewOrder::new(id, side, price, quantity, TimeInForce::Gtc, false).unwrap()
}

/// Checks, through a full snapshot, the book's shape: non-empty levels in
/// strict price priority, counts that add up, and no crossed book.
fn assert_invariants(book: &OrderBook) {
    let snapshot: BookSnapshot = book.snapshot(usize::MAX);
    let mut resting = 0usize;
    for (index, level) in snapshot.bids.iter().enumerate() {
        assert!(level.order_count > 0, "empty bid level at {}", level.price.get());
        assert!(level.total_quantity > 0);
        if index > 0 {
            assert!(snapshot.bids[index - 1].price > level.price);
        }
        resting += level.order_count;
    }
    for (index, level) in snapshot.asks.iter().enumerate() {
        assert!(level.order_count > 0, "empty ask level at {}", level.price.get());
        assert!(level.total_quantity > 0);
        if index > 0 {
            assert!(snapshot.asks[index - 1].price < level.price);
        }
        resting += level.order_count;
    }
    assert_eq!(resting, snapshot.active_order_count);
    if let (Some(best_bid), Some(best_ask)) = (snapshot.bids.first(), snapshot.asks.first()) {
        assert!(best_bid.price < best_ask.price, "resting book must never be crossed");
    }
}

#[test]
fn matches_best_price_before_worse_price() {
    let mut book = OrderBook::new("TEST");
    book.submit(order(1, Side::Sell, 102, 2)).unwrap();
    book.submit(order(2, Side::Sell, 101, 2)).unwrap();

    let report = book.submit(order(3, Side::Buy, 102, 3)).unwrap();

    assert_eq!(report.status, OrderStatus::Filled);
    assert_eq!(report.trades.len(), 2);
    assert_eq!(report.trades[0].maker_order_id, OrderId::new(2).unwrap());
    assert_eq!(report.trades[0].price, Price::new(101).unwrap());
    assert_eq!(report.trades[1].maker_order_id, OrderId::new(1).unwrap());
}

#[test]
fn matches_first_order_at_the_same_price_first() {
    let mut book = OrderBook::new("TEST");
    book.submit(order(1, Side::Sell, 100, 5)).unwrap();
    book.submit(order(2, Side::Sell, 100, 5)).unwrap();

    let report = book.submit(order(3, Side::Buy, 100, 7)).unwrap();

    assert_eq!(report.trades[0].maker_order_id, OrderId::new(1).unwrap());
    assert_eq!(report.trades[0].quantity, Quantity::new(5).unwrap());
    assert_eq!(report.trades[1].maker_order_id, OrderId::new(2).unwrap());
    assert_eq!(report.trades[1].quantity, Quantity::new(2).unwrap());
}

#[test]
fn ioc_cancels_unfilled_remainder() {
    let mut book = OrderBook::new("TEST");
    book.submit(order(1, Side::Sell, 100, 2)).unwrap();
    let ioc = NewOrder::new(2, Side::Buy, 100, 5, TimeInForce::Ioc, false).unwrap();

    let report = book.submit(ioc).unwrap();

    assert_eq!(report.status, OrderStatus::PartiallyFilledCancelled);
    assert_eq!(report.filled_quantity, 2);
    assert_eq!(report.remaining_quantity, 3);
    assert_eq!(book.snapshot(10).active_order_count, 0);
}

#[test]
fn fok_does_not_partially_fill() {
    let mut book = OrderBook::new("TEST");
    book.submit(order(1, Side::Sell, 100, 2)).unwrap();
    let fok = NewOrder::new(2, Side::Buy, 100, 5, TimeInForce::Fok, false).unwrap();

    let report = book.submit(fok).unwrap();

    assert_eq!(report.status, OrderStatus::Cancelled);
    assert!(report.trades.is_empty());
    assert_eq!(book.snapshot(10).asks[0].total_quantity, 2);
}

#[test]
fn post_only_rejects_crossing_order() {
    let mut book = OrderBook::new("TEST");
    book.submit(order(1, Side::Sell, 100, 2)).unwrap();
    let post_only = NewOrder::new(2, Side::Buy, 100, 1, TimeInForce::Gtc, true).unwrap();

    assert_eq!(
        book.submit(post_only),
        Err(BookError::PostOnlyWouldCross(OrderId::new(2).unwrap()))
    );
}

#[test]
fn cancellation_removes_only_requested_order() {
    let mut book = OrderBook::new("TEST");
    book.submit(order(1, Side::Buy, 99, 2)).unwrap();
    book.submit(order(2, Side::Buy, 99, 3)).unwrap();

    let cancelled = book.cancel(OrderId::new(1).unwrap()).unwrap();
    let snapshot = book.snapshot(10);

    assert_eq!(cancelled.cancelled_quantity, 2);
    assert_eq!(snapshot.bids[0].total_quantity, 3);
    assert_eq!(snapshot.bids[0].order_count, 1);
}

#[test]
fn used_order_id_cannot_be_reused_after_fill() {
    let mut book = OrderBook::new("TEST");
    book.submit(order(1, Side::Sell, 100, 1)).unwrap();
    book.submit(order(2, Side::Buy, 100, 1)).unwrap();

    assert_eq!(
        book.submit(order(1, Side::Sell, 101, 1)),
        Err(BookError::DuplicateOrder(OrderId::new(1).unwrap()))
    );
}

#[test]
fn snapshot_is_best_price_first_and_depth_limited() {
    let mut book = OrderBook::new("TEST");
    book.submit(order(1, Side::Buy, 98, 2)).unwrap();
    book.submit(order(2, Side::Buy, 100, 3)).unwrap();
    book.submit(order(3, Side::Sell, 103, 4)).unwrap();
    book.submit(order(4, Side::Sell, 102, 5)).unwrap();

    let snapshot = book.snapshot(1);

    assert_eq!(snapshot.bids.len(), 1);
    assert_eq!(snapshot.bids[0].price, Price::new(100).unwrap());
    assert_eq!(snapshot.asks[0].price, Price::new(102).unwrap());
}

#[test]
fn non_crossing_gtc_order_rests() {
    let mut book = OrderBook::new("TEST");
    let report = book.submit(order(1, Side::Buy, 100, 5)).unwrap();

    assert_eq!(report.status, OrderStatus::Resting);
    assert_eq!(report.remaining_quantity, 5);
    assert_eq!(book.snapshot(10).active_order_count, 1);
}

#[test]
fn invariants_hold_during_deterministic_stress_scenario() {
    let mut book = OrderBook::new("STRESS");
    let mut pseudo_random = 0x5eed_u64;
    let mut rested: Vec<OrderId> = Vec::new();

    for id in 1..=1_000 {
        pseudo_random = pseudo_random
            .wrapping_mul(6_364_136_223_846_793_005)
            .wrapping_add(1);
        let side = if pseudo_random & 1 == 0 {
            Side::Buy
        } else {
            Side::Sell
        };
        let price = 95 + (pseudo_random >> 8) % 11;
        let quantity = 1 + (pseudo_random >> 16) % 20;
        let time_in_force = match (pseudo_random >> 24) % 3 {
            0 => TimeInForce::Gtc,
            1 => TimeInForce::Ioc,
            _ => TimeInForce::Fok,
        };
        let incoming = NewOrder::new(id, side, price, quantity, time_in_force, false).unwrap();
        let report = book.submit(incoming).unwrap();
        assert_eq!(
            report.original_quantity.get(),
            report.filled_quantity + report.remaining_quantity
        );
        if matches!(
            report.status,
            OrderStatus::Resting | OrderStatus::PartiallyFilledResting
        ) {
            rested.push(report.order_id);
        }

        if id % 13 == 0 {
            // Cancel some order that is still active, if there is one.
            let before = book.snapshot(0).active_order_count;
            let mut cancelled = false;
            for candidate in &rested {
                if book.cancel(*candidate).is_ok() {
                    cancelled = true;
                    break;
                }
            }
            assert_eq!(cancelled, before > 0);
        }
        assert_invariants(&book);
    }
}

#[test]
fn sell_sweeps_bids_best_price_first() {
    let mut book = OrderBook::new("TEST");
    book.submit(order(1, Side::Buy, 99, 2)).unwrap();
    book.submit(order(2, Side::Buy, 101, 1)).unwrap();
    book.submit(order(3, Side::Buy, 100, 1)).unwrap();

    let report = book.submit(order(4, Side::Sell, 99, 3)).unwrap();

    assert_eq!(report.status, OrderStatus::Filled);
    let makers: Vec<u64> = report.trades.iter().map(|t| t.maker_order_id.get()).collect();
    let prices: Vec<u64> = report.trades.iter().map(|t| t.price.get()).collect();
    assert_eq!(makers, [2, 3, 1]);
    assert_eq!(prices, [101, 100, 99]);
    assert_eq!(report.trades[2].quantity.get(), 1);
    assert_eq!(book.snapshot(10).bids[0].total_quantity, 1);
}

#[test]
fn trade_ids_are_consecutive_and_counted() {
    let mut book = OrderBook::new("TEST");
    book.submit(order(1, Side::Sell, 100, 1)).unwrap();
    book.submit(order(2, Side::Sell, 100, 1)).unwrap();
    let report = book.submit(order(3, Side::Buy, 100, 2)).unwrap();
    assert_eq!(report.trades[0].trade_id.get(), 1);
    assert_eq!(report.trades[1].trade_id.get(), 2);
    let report = book.submit(order(4, Side::Sell, 90, 1)).unwrap();
    assert!(report.trades.is_empty());
    book.submit(order(5, Side::Buy, 95, 1)).unwrap();
    let snapshot = book.snapshot(10);
    assert_eq!(snapshot.trade_count, 3);
    assert_eq!(snapshot.sequence, 5);
    assert_eq!(snapshot.symbol, "TEST");
}

#[test]
fn fok_fills_completely_when_liquidity_suffices() {
    let mut book = OrderBook::new("TEST");
    book.submit(order(1, Side::Sell, 100, 2)).unwrap();
    book.submit(order(2, Side::Sell, 101, 3)).unwrap();
    let fok = NewOrder::new(3, Side::Buy, 101, 5, TimeInForce::Fok, false).unwrap();
    let report = book.submit(fok).unwrap();
    assert_eq!(report.status, OrderStatus::Filled);
    assert_eq!(report.filled_quantity, 5);
    assert_eq!(book.snapshot(10).active_order_count, 0);
}

#[test]
fn post_only_rests_when_it_would_not_trade() {
    let mut book = OrderBook::new("TEST");
    book.submit(order(1, Side::Sell, 101, 2)).unwrap();
    let post_only = NewOrder::new(2, Side::Buy, 100, 1, TimeInForce::Gtc, true).unwrap();
    let report = book.submit(post_only).unwrap();
    assert_eq!(report.status, OrderStatus::Resting);
    assert!(report.trades.is_empty());
}

#[test]
fn cancelling_unknown_or_cancelled_order_is_not_found() {
    let mut book = OrderBook::new("TEST");
    let id = OrderId::new(7).unwrap();
    assert_eq!(book.cancel(id), Err(BookError::OrderNotFound(id)));
    book.submit(order(7, Side::Sell, 100, 3)).unwrap();
    assert_eq!(book.cancel(id).unwrap().cancelled_quantity, 3);
    assert_eq!(book.cancel(id), Err(BookError::OrderNotFound(id)));
    let snapshot = book.snapshot(10);
    assert!(snapshot.asks.is_empty());
    assert_eq!(snapshot.sequence, 2);
}

#[test]
fn refused_submission_leaves_the_book_unchanged() {
    let mut book = OrderBook::new("TEST");
    book.submit(order(1, Side::Sell, 100, 2)).unwrap();
    let before = book.snapshot(10);
    let post_only = NewOrder::new(2, Side::Buy, 100, 1, TimeInForce::Gtc, true).unwrap();
    assert!(book.submit(post_only).is_err());
    assert_eq!(book.snapshot(10), before);
    // The refused id is still free to use.
    assert!(book.submit(order(2, Side::Buy, 99, 1)).is_ok());
}

#[test]
fn snapshot_counts_agree_with_active_orders() {
    let mut book = OrderBook::new("TEST");
    for (id, side, price) in [
        (1, Side::Buy, 98),
        (2, Side::Buy, 98),
        (3, Side::Buy, 97),
        (4, Side::Sell, 101),
        (5, Side::Sell, 103),
        (6, Side::Sell, 101),
    ] {
        book.submit(order(id, side, price, 2)).unwrap();
    }
    book.cancel(OrderId::new(2).unwrap()).unwrap();
    let full = book.snapshot(usize::MAX);
    let levels: usize = full.bids.iter().chain(full.asks.iter()).map(|level| level.order_count).sum();
    assert_eq!(full.active_order_count, levels);
    assert_eq!(full.active_order_count, 5);
    assert!(full.bids.iter().chain(full.asks.iter()).all(|level| level.order_count >= 1));
    assert_eq!(full.sequence, 7);
    let shallow = book.snapshot(1);
    assert_eq!(shallow.bids[..], full.bids[..1]);
    assert_eq!(shallow.asks[..], full.asks[..1]);
    assert_eq!(
        book.cancel(OrderId::new(2).unwrap()),
        Err(BookError::OrderNotFound(OrderId::new(2).unwrap()))
    );
    assert_eq!(book.snapshot(usize::MAX), full);
}
