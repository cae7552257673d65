use vstd::prelude::*;

verus! {

/// One side of the order book.
///
/// The side determines which chain an order rests in and the direction
/// of every price comparison: bids prefer high prices, asks low ones.
#[derive(Debug, Clone, Copy, PartialEq, Eq, Structural)]
pub enum Side {
    Buy,
    Sell,
}

impl Side {
    /// The side an incoming order of this side matches against.
    pub open spec fn spec_opposite(self) -> Side {
        match self {
            Side::Buy => Side::Sell,
            Side::Sell => Side::Buy,
        }
    }

    pub fn opposite(&self) -> (r: Self)
        ensures
            r == self.spec_opposite(),
    {
        match self {
            Self::Buy => Self::Sell,
            Self::Sell => Self::Buy,
        }
    }
}

/// A strongly-typed wrapper around `u64` representing a fixed-point
/// price; integral so that comparisons are exact on every platform.
#[derive(Debug, Clone, Copy, PartialEq, Eq, PartialOrd, Ord, Structural)]
pub struct Price(pub u64);

/// A strongly-typed wrapper around `u64` for quantity/size.
#[derive(Debug, Clone, Copy, PartialEq, Eq, PartialOrd, Ord, Structural)]
pub struct Quantity(pub u64);

impl Quantity {
    /// Subtracts safely, saturating at zero.
    pub fn saturating_sub(self, other: Self) -> (r: Self)
        ensures
            r.0 == if self.0 >= other.0 {
                self.0 - other.0
            } else {
                0
            },
    {
        Quantity(self.0.saturating_sub(other.0))
    }
}

/// A unique identifier for an order; unique among currently active
/// orders, free for reuse once the order is gone.
#[derive(Debug, Clone, Copy, PartialEq, Eq, Hash, Structural)]
pub struct OrderId(pub u64);

/// A stable handle to an order record: the index of its slot in the
/// book's record slab. Valid only until the next mutating call on the
/// book, which may unlink or recycle the slot.
pub type OrderRef = usize;

/// The order record held in one slab slot.
///
/// The `next`/`prev` fields are the intrusive links of the price-time
/// chain the record currently rests in; the record does not know which
/// chain that is — the book's two head handles are the only entry
/// points.
#[derive(Debug, Clone, Copy)]
pub struct Order {
    pub id: OrderId,
    pub price: Price,
    pub qty: Quantity,
    pub next: Option<OrderRef>,
    pub prev: Option<OrderRef>,
    pub side: Side,
}

impl Order {
    pub fn new(id: OrderId, side: Side, price: Price, qty: Quantity) -> (r: Self)
        ensures
            r == (Order { id, side, price, qty, next: None, prev: None }),
    {
        Self { id, side, price, qty, next: None, prev: None }
    }
}

} // verus!
