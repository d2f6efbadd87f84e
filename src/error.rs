use vstd::prelude::*;

verus! {

/// Errors reported by the book's operations.
#[derive(Debug, Clone, Copy, PartialEq, Eq, Structural)]
pub enum CLOBError {
    /// Tried to become a market maker in an index that is already taken.
    IndexAlreadyTaken,
    /// The signer does not have authority over this market maker index.
    UnauthorizedMarketMaker,
    /// The market maker's balance cannot cover the debit.
    InsufficientBalance,
    /// The book is full and the order is not better than its worst order.
    InferiorPrice,
    /// The take order would deliver less than the requested minimum.
    TakeNotFilled,
    /// No market maker has the given authority.
    MakerNotFound,
    /// A limit order with a zero amount or a zero price.
    InvalidOrder,
    /// An amount or an accumulator would leave its integer range.
    ArithmeticOverflow,
}

} // verus!
