//! Order identifiers, prices, quantities and validated order requests.

use vstd::prelude::*;
use vstd::std_specs::cmp::PartialOrdSpec;

use core::cmp::Ordering;

verus! {

/// A positive identifier chosen by the client for one order.
#[derive(Debug, Clone, Copy, PartialEq, Eq, Structural, Hash, PartialOrd, Ord)]
pub struct OrderId(u64);

impl View for OrderId {
    type V = u64;

    closed spec fn view(&self) -> u64 {
        self.0
    }
}

/// Two order ids with the same number are the same id.
pub broadcast proof fn lemma_order_id_view_injective(a: OrderId, b: OrderId)
    ensures
        #[trigger] a@ == #[trigger] b@ ==> a == b,
{
}

impl OrderId {
    /// Accepts any positive number.
    pub fn new(value: u64) -> (result: Result<Self, OrderValidationError>)
        ensures
            value > 0 ==> (result matches Ok(id) && id@ == value),
            value == 0 ==> result == Err::<Self, _>(OrderValidationError::ZeroOrderId),
    {
        if value > 0 {
            Ok(Self(value))
        } else {
            Err(OrderValidationError::ZeroOrderId)
        }
    }

    pub fn get(self) -> (value: u64)
        ensures
            value == self@,
    {
        self.0
    }
}

/// A positive limit price, in integer ticks.
#[derive(Debug, Clone, Copy, PartialEq, Eq, Structural, Hash, Ord)]
pub struct Price(u64);

/// Prices compare as their numbers of ticks do.
impl PartialOrd for Price {
    fn partial_cmp(&self, other: &Self) -> (ordering: Option<Ordering>) {
        if self.0 < other.0 {
            Some(Ordering::Less)
        } else if self.0 == other.0 {
            Some(Ordering::Equal)
        } else {
            Some(Ordering::Greater)
        }
    }
}

impl vstd::std_specs::cmp::PartialOrdSpecImpl for Price {
    open spec fn obeys_partial_cmp_spec() -> bool {
        true
    }

    open spec fn partial_cmp_spec(&self, other: &Self) -> Option<Ordering> {
        if self@ < other@ {
            Some(Ordering::Less)
        } else if self@ == other@ {
            Some(Ordering::Equal)
        } else {
            Some(Ordering::Greater)
        }
    }
}

/// Prices are ordered as their numbers of ticks: one price is below another
/// exactly when it has fewer ticks, and equal exactly when it is the same.
pub proof fn law_prices_order_by_ticks(a: Price, b: Price)
    ensures
        (a.partial_cmp_spec(&b) == Some(Ordering::Less)) <==> a@ < b@,
        (a.partial_cmp_spec(&b) == Some(Ordering::Equal)) <==> a == b,
        (a.partial_cmp_spec(&b) == Some(Ordering::Greater)) <==> a@ > b@,
        (a.partial_cmp_spec(&b) == Some(Ordering::Equal)) <==> a@ == b@,
{
}

impl View for Price {
    type V = u64;

    closed spec fn view(&self) -> u64 {
        self.0
    }
}

/// Two prices with the same number of ticks are the same price.
pub broadcast proof fn lemma_price_view_injective(a: Price, b: Price)
    ensures
        #[trigger] a@ == #[trigger] b@ ==> a == b,
{
}

impl Price {
    /// Accepts any positive number of ticks.
    pub fn new(value: u64) -> (result: Result<Self, OrderValidationError>)
        ensures
            value > 0 ==> (result matches Ok(price) && price@ == value),
            value == 0 ==> result == Err::<Self, _>(OrderValidationError::ZeroPrice),
    {
        if value > 0 {
            Ok(Self(value))
        } else {
            Err(OrderValidationError::ZeroPrice)
        }
    }

    pub fn get(self) -> (value: u64)
        ensures
            value == self@,
    {
        self.0
    }
}

/// A positive number of units.
#[derive(Debug, Clone, Copy, PartialEq, Eq, Structural, Hash, PartialOrd, Ord)]
pub struct Quantity(u64);

impl View for Quantity {
    type V = u64;

    closed spec fn view(&self) -> u64 {
        self.0
    }
}

/// Two quantities with the same number of units are the same quantity.
pub broadcast proof fn lemma_quantity_view_injective(a: Quantity, b: Quantity)
    ensures
        #[trigger] a@ == #[trigger] b@ ==> a == b,
{
}

/// The quantity with the given number of units.
pub closed spec fn quantity_of(units: u64) -> Quantity {
    Quantity(units)
}

pub broadcast proof fn lemma_quantity_of(units: u64)
    ensures
        #[trigger] quantity_of(units)@ == units,
{
}

impl Quantity {
    /// Accepts any positive number of units.
    pub fn new(value: u64) -> (result: Result<Self, OrderValidationError>)
        ensures
            value > 0 ==> (result matches Ok(quantity) && quantity@ == value),
            value == 0 ==> result == Err::<Self, _>(OrderValidationError::ZeroQuantity),
    {
        if value > 0 {
            Ok(Self(value))
        } else {
            Err(OrderValidationError::ZeroQuantity)
        }
    }

    /// A quantity from a number of units already known to be positive.
    pub(crate) fn from_positive(value: u64) -> (quantity: Self)
        requires
            value > 0,
        ensures
            quantity == quantity_of(value),
    {
        Self(value)
    }

    pub fn get(self) -> (value: u64)
        ensures
            value == self@,
    {
        self.0
    }
}

#[derive(Debug, Clone, Copy, PartialEq, Eq, Structural)]
pub enum Side {
    Buy,
    Sell,
}

#[derive(Debug, Clone, Copy, PartialEq, Eq, Structural)]
pub enum TimeInForce {
    /// Good til cancelled: match, then rest the remainder.
    Gtc,
    /// Immediate or cancel: match, then cancel the remainder.
    Ioc,
    /// Fill or kill: fill completely at once or do nothing.
    Fok,
}

impl Default for TimeInForce {
    fn default() -> (tif: Self)
        ensures
            tif == TimeInForce::Gtc,
    {
        TimeInForce::Gtc
    }
}

#[derive(Debug, Clone, Copy, PartialEq, Eq, Structural)]
pub struct NewOrder {
    pub order_id: OrderId,
    pub side: Side,
    pub price: Price,
    pub quantity: Quantity,
    pub time_in_force: TimeInForce,
    pub post_only: bool,
}

/// The first rule that a raw order request breaks, if any, in the order
/// in which they are checked.
pub open spec fn order_request_error(
    order_id: u64,
    price: u64,
    quantity: u64,
    time_in_force: TimeInForce,
    post_only: bool,
) -> Option<OrderValidationError> {
    if post_only && time_in_force != TimeInForce::Gtc {
        Some(OrderValidationError::PostOnlyMustBeGtc)
    } else if order_id == 0 {
        Some(OrderValidationError::ZeroOrderId)
    } else if price == 0 {
        Some(OrderValidationError::ZeroPrice)
    } else if quantity == 0 {
        Some(OrderValidationError::ZeroQuantity)
    } else {
        None
    }
}

impl NewOrder {
    /// Validates a raw order request.
    pub fn new(
        order_id: u64,
        side: Side,
        price: u64,
        quantity: u64,
        time_in_force: TimeInForce,
        post_only: bool,
    ) -> (result: Result<Self, OrderValidationError>)
        ensures
            match order_request_error(order_id, price, quantity, time_in_force, post_only) {
                Some(error) => result == Err::<Self, _>(error),
                None => result matches Ok(order) && {
                    &&& order.order_id@ == order_id
                    &&& order.side == side
                    &&& order.price@ == price
                    &&& order.quantity@ == quantity
                    &&& order.time_in_force == time_in_force
                    &&& order.post_only == post_only
                },
            },
    {
        if post_only && time_in_force != TimeInForce::Gtc {
            return Err(OrderValidationError::PostOnlyMustBeGtc);
        }
        let order_id = match OrderId::new(order_id) {
            Ok(id) => id,
            Err(error) => return Err(error),
        };
        let price = match Price::new(price) {
            Ok(price) => price,
            Err(error) => return Err(error),
        };
        let quantity = match Quantity::new(quantity) {
            Ok(quantity) => quantity,
            Err(error) => return Err(error),
        };
        Ok(Self { order_id, side, price, quantity, time_in_force, post_only })
    }
}

/// One order waiting in a price queue with what is left of it.
#[derive(Debug, Clone, Copy, PartialEq, Eq, Structural)]
pub struct RestingOrder {
    pub order_id: OrderId,
    pub remaining_quantity: u64,
}

/// Where an active order rests: its side and its price queue.
#[derive(Debug, Clone, Copy, PartialEq, Eq, Structural)]
pub struct OrderLocation {
    pub side: Side,
    pub price: Price,
}

#[derive(Debug, Clone, Copy, PartialEq, Eq, Structural)]
pub enum OrderValidationError {
    ZeroOrderId,
    ZeroPrice,
    ZeroQuantity,
    PostOnlyMustBeGtc,
}

impl OrderValidationError {
    /// The human-readable text of the error.
    pub open spec fn message_text(self) -> Seq<char> {
        match self {
            OrderValidationError::ZeroOrderId => "order_id must be greater than zero"@,
            OrderValidationError::ZeroPrice => "price must be greater than zero"@,
            OrderValidationError::ZeroQuantity => "quantity must be greater than zero"@,
            OrderValidationError::PostOnlyMustBeGtc => "post_only orders must use gtc time_in_force"@,
        }
    }

    pub fn message(&self) -> (text: String)
        ensures
            text@ == self.message_text(),
    {
        match self {
            OrderValidationError::ZeroOrderId => "order_id must be greater than zero".to_owned(),
            OrderValidationError::ZeroPrice => "price must be greater than zero".to_owned(),
            OrderValidationError::ZeroQuantity => "quantity must be greater than zero".to_owned(),
            OrderValidationError::PostOnlyMustBeGtc => {
                "post_only orders must use gtc time_in_force".to_owned()
            },
        }
    }
}

} // verus!
