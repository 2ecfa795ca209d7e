//! Executions and the reports that the book hands back.

use vstd::prelude::*;

use super::order::{OrderId, Price, Quantity, Side};

verus! {

/// The sequence number of one execution.
#[derive(Debug, Clone, Copy, PartialEq, Eq, Structural, Hash)]
pub struct TradeId(u64);

impl View for TradeId {
    type V = u64;

    closed spec fn view(&self) -> u64 {
        self.0
    }
}

/// The trade id with the given number.
pub closed spec fn trade_id_of(value: u64) -> TradeId {
    TradeId(value)
}

pub broadcast proof fn lemma_trade_id_of(value: u64)
    ensures
        #[trigger] trade_id_of(value)@ == value,
{
}

/// Two trade ids with the same number are the same id.
pub broadcast proof fn lemma_trade_id_view_injective(a: TradeId, b: TradeId)
    ensures
        #[trigger] a@ == #[trigger] b@ ==> a == b,
{
}

impl TradeId {
    pub(crate) fn new(value: u64) -> (id: Self)
        ensures
            id == trade_id_of(value),
    {
        Self(value)
    }

    pub fn get(self) -> (value: u64)
        ensures
            value == self@,
    {
        self.0
    }
}

/// One execution between a resting maker and an incoming taker.
#[derive(Debug, Clone, Copy, PartialEq, Eq, Structural)]
pub struct Trade {
    pub trade_id: TradeId,
    pub maker_order_id: OrderId,
    pub taker_order_id: OrderId,
    pub aggressor_side: Side,
    pub price: Price,
    pub quantity: Quantity,
}

#[derive(Debug, Clone, Copy, PartialEq, Eq, Structural)]
pub enum OrderStatus {
    Filled,
    Resting,
    PartiallyFilledResting,
    Cancelled,
    PartiallyFilledCancelled,
}

/// What became of a submitted order.
#[derive(Debug, Clone, PartialEq, Eq)]
pub struct ExecutionReport {
    pub order_id: OrderId,
    pub status: OrderStatus,
    pub original_quantity: Quantity,
    pub filled_quantity: u64,
    pub remaining_quantity: u64,
    pub trades: Vec<Trade>,
}

/// An execution report with its trades as a sequence.
#[verifier::ext_equal]
pub struct ExecutionReportModel {
    pub order_id: OrderId,
    pub status: OrderStatus,
    pub original_quantity: Quantity,
    pub filled_quantity: u64,
    pub remaining_quantity: u64,
    pub trades: Seq<Trade>,
}

impl View for ExecutionReport {
    type V = ExecutionReportModel;

    open spec fn view(&self) -> ExecutionReportModel {
        ExecutionReportModel {
            order_id: self.order_id,
            status: self.status,
            original_quantity: self.original_quantity,
            filled_quantity: self.filled_quantity,
            remaining_quantity: self.remaining_quantity,
            trades: self.trades@,
        }
    }
}

/// What a successful cancellation removed.
#[derive(Debug, Clone, Copy, PartialEq, Eq, Structural)]
pub struct CancelReport {
    pub order_id: OrderId,
    pub cancelled_quantity: u64,
}

/// One aggregated price level of a snapshot.
#[derive(Debug, Clone, Copy, PartialEq, Eq, Structural)]
pub struct PriceLevel {
    pub price: Price,
    pub total_quantity: u64,
    pub order_count: usize,
}

/// An aggregated, depth-limited picture of the book, best prices first.
#[derive(Debug, Clone, PartialEq, Eq)]
pub struct BookSnapshot {
    pub symbol: String,
    pub sequence: u64,
    pub active_order_count: usize,
    pub trade_count: u64,
    pub bids: Vec<PriceLevel>,
    pub asks: Vec<PriceLevel>,
}

/// A snapshot with its text and level lists as sequences.
#[verifier::ext_equal]
pub struct BookSnapshotModel {
    pub symbol: Seq<char>,
    pub sequence: u64,
    pub active_order_count: usize,
    pub trade_count: u64,
    pub bids: Seq<PriceLevel>,
    pub asks: Seq<PriceLevel>,
}

impl View for BookSnapshot {
    type V = BookSnapshotModel;

    open spec fn view(&self) -> BookSnapshotModel {
        BookSnapshotModel {
            symbol: self.symbol@,
            sequence: self.sequence,
            active_order_count: self.active_order_count,
            trade_count: self.trade_count,
            bids: self.bids@,
            asks: self.asks@,
        }
    }
}

} // verus!
