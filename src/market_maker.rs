use vstd::prelude::*;

use crate::side::Side;

verus! {

/// A 32-byte public identity. The all-zero identity marks a vacant maker row.
#[derive(Debug, Clone, Copy)]
pub struct Identity {
    pub bytes: [u8; 32],
}

impl Identity {
    pub open spec fn view(&self) -> Seq<u8> {
        self.bytes@
    }

    pub open spec fn spec_is_zero(&self) -> bool {
        forall|j: int| 0 <= j < 32 ==> #[trigger] self.bytes@[j] == 0u8
    }

    /// The identity made of the given bytes.
    pub fn new(bytes: [u8; 32]) -> (r: Identity)
        ensures
            r.bytes == bytes,
    {
        Identity { bytes }
    }

    /// The all-zero identity.
    pub fn zero() -> (r: Identity)
        ensures
            r.spec_is_zero(),
    {
        Identity { bytes: [0u8; 32] }
    }

    /// Are the two identities byte for byte the same?
    pub fn same_as(&self, other: &Identity) -> (r: bool)
        ensures
            r == (self@ == other@),
    {
        let mut i: usize = 0;
        while i < 32
            invariant
                i <= 32,
                self.bytes@.len() == 32,
                other.bytes@.len() == 32,
                forall|j: int| 0 <= j < i ==> self.bytes@[j] == other.bytes@[j],
            decreases 32 - i,
        {
            if self.bytes[i] != other.bytes[i] {
                return false;
            }
            i = i + 1;
        }
        assert(self@ =~= other@);
        true
    }

    /// Is this the all-zero identity?
    pub fn is_zero(&self) -> (r: bool)
        ensures
            r == self.spec_is_zero(),
    {
        let mut i: usize = 0;
        while i < 32
            invariant
                i <= 32,
                self.bytes@.len() == 32,
                forall|j: int| 0 <= j < i ==> self.bytes@[j] == 0u8,
            decreases 32 - i,
        {
            if self.bytes[i] != 0 {
                return false;
            }
            i = i + 1;
        }
        true
    }
}

/// A row of the maker table: who may act for it and what it holds in custody.
#[derive(Debug, Clone, Copy)]
pub struct MarketMaker {
    pub base_balance: u64,
    pub quote_balance: u64,
    pub authority: Identity,
}

/// The balance that backs resting orders on `side`: quote for buys, base for sells.
pub open spec fn locked_balance(m: MarketMaker, side: Side) -> u64 {
    match side {
        Side::Buy => m.quote_balance,
        Side::Sell => m.base_balance,
    }
}

/// `m` with `amount` added to the balance that backs orders on `side`.
pub open spec fn credit_spec(m: MarketMaker, side: Side, amount: int) -> MarketMaker {
    match side {
        Side::Buy => MarketMaker { quote_balance: (m.quote_balance + amount) as u64, ..m },
        Side::Sell => MarketMaker { base_balance: (m.base_balance + amount) as u64, ..m },
    }
}

impl MarketMaker {
    /// A vacant row with empty balances.
    pub fn vacant() -> (r: MarketMaker)
        ensures
            r.base_balance == 0,
            r.quote_balance == 0,
            r.authority.spec_is_zero(),
    {
        MarketMaker { base_balance: 0, quote_balance: 0, authority: Identity::zero() }
    }
}

/// Adds `amount` to the balance of `makers[m]` that backs orders on `side`.
pub fn credit(makers: &mut Vec<MarketMaker>, m: usize, side: Side, amount: u64)
    requires
        m < old(makers).len(),
        locked_balance(old(makers)@[m as int], side) + amount <= u64::MAX,
    ensures
        final(makers)@ == old(makers)@.update(m as int, credit_spec(old(makers)@[m as int], side, amount as int)),
{
    let mut row = makers[m];
    match side {
        Side::Buy => row.quote_balance = row.quote_balance + amount,
        Side::Sell => row.base_balance = row.base_balance + amount,
    }
    makers.set(m, row);
}

} // verus!
