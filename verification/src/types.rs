use vstd::prelude::*;

verus! {

/// Identifier of an order, chosen by the caller.
pub type OrderId = u64;

/// Fixed-point price, e.g. 1_000_000 stands for $1.000000.
pub type Price = u64;

/// Number of units of an order.
pub type Quantity = u64;

/// Nanoseconds since the epoch.
pub type Timestamp = u64;

/// The side of the book an order rests on: bids buy, asks sell.
#[derive(Debug, Clone, Copy, PartialEq, Eq, Structural)]
pub enum Side {
    Bid,
    Ask,
}

/// An order: who, at what price, how much, which side, and when.
#[derive(Debug, Clone, Copy)]
pub struct Order {
    pub id: OrderId,
    pub price: Price,
    pub quantity: Quantity,
    pub side: Side,
    pub timestamp: Timestamp,
}

impl Order {
    pub fn new(
        id: OrderId,
        price: Price,
        quantity: Quantity,
        side: Side,
        timestamp: Timestamp,
    ) -> (order: Self)
        ensures
            order == (Order { id, price, quantity, side, timestamp }),
    {
        Self { id, price, quantity, side, timestamp }
    }

    /// An order is filled once nothing of it is left.
    pub fn is_filled(&self) -> (filled: bool)
        ensures
            filled == (self.quantity == 0),
    {
        self.quantity == 0
    }
}

/// One execution between a resting order (the maker) and an incoming one
/// (the taker), at the maker's price level.
#[derive(Debug)]
pub struct Trade {
    pub price: Price,
    pub quantity: Quantity,
    pub maker_id: OrderId,
    pub taker_id: OrderId,
}

/// Result of attempting to match or modify an order.
#[derive(Debug, Clone, PartialEq, Eq, Structural)]
pub enum OrderResult {
    Added(OrderId),
    Cancelled(OrderId),
    NotFound(OrderId),
    /// The order could not rest: its id already rests in the book, or its
    /// price level holds as many orders as the id index can place.
    Rejected(OrderId),
    PartialFill { id: OrderId, filled: Quantity, remaining: Quantity },
    FullFill(OrderId),
}

/// The same order with `quantity` left of it.
pub open spec fn with_quantity(o: Order, quantity: Quantity) -> Order {
    Order { quantity, ..o }
}

} // verus!
