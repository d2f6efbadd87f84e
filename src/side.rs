use vstd::prelude::*;

verus! {

/// Side of an order: a buy spends quote to get base, a sell spends base.
#[derive(Debug, Clone, Copy, PartialEq, Eq, Structural)]
pub enum Side {
    Buy,
    Sell,
}

/// Is `lhs` a strictly better price than `rhs` for a resting order on `side`?
/// Buyers prefer higher prices, sellers lower ones.
pub open spec fn better_price(side: Side, lhs: u64, rhs: u64) -> bool {
    match side {
        Side::Buy => lhs > rhs,
        Side::Sell => lhs < rhs,
    }
}

/// The side that trades against `side`.
pub open spec fn opposite(side: Side) -> Side {
    match side {
        Side::Buy => Side::Sell,
        Side::Sell => Side::Buy,
    }
}

} // verus!
