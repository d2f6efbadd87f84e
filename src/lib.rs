//! Core of a central limit order book for one base/quote pair: a fixed-capacity,
//! price-sorted, intrusively linked order list per side, a maker table with
//! custodial balances, the take-order sweep and a clamped TWAP oracle.

pub mod accounting;
pub mod error;
pub mod free_bitmap;
pub mod global_state;
pub mod laws;
pub mod market_maker;
pub mod order_book;
pub mod order_list;
pub mod side;
pub mod twap;

use vstd::prelude::*;

verus! {

/// Number of order slots on each side of the book.
pub const BOOK_DEPTH: usize = 128;

/// Sentinel slot index: "no order".
pub const NULL: u8 = 128;

/// Number of rows in the market-maker table.
pub const NUM_MARKET_MAKERS: usize = 64;

/// Prices are quote-per-base scaled by this factor.
pub const PRICE_PRECISION: u128 = 1_000_000_000;

/// One hundred percent, in basis points.
pub const MAX_BPS: u16 = 10_000;

} // verus!
