use vstd::prelude::*;

use crate::market_maker::Identity;
use crate::MAX_BPS;

verus! {

/// Settings shared by every pair.
#[derive(Debug, Clone, Copy)]
pub struct GlobalState {
    /// Receives the makers' registration burn and the swept fees.
    pub fee_collector: Identity,
    /// Fee on take orders, in basis points of the taker's input.
    pub taker_fee_in_bps: u16,
    /// What registering as a market maker costs, in host-native units.
    pub market_maker_burn_in_lamports: u64,
}

impl GlobalState {
    pub open spec fn wf(&self) -> bool {
        self.taker_fee_in_bps <= MAX_BPS
    }
}

/// The settings a fresh deployment starts with: a 10 bps taker fee and a
/// burn of 1_000_000_000 host-native units per maker registration.
pub fn initialize_global_state(fee_collector: Identity) -> (r: GlobalState)
    ensures
        r.wf(),
        r.fee_collector == fee_collector,
        r.taker_fee_in_bps == 10,
        r.market_maker_burn_in_lamports == 1_000_000_000,
{
    GlobalState { fee_collector, taker_fee_in_bps: 10, market_maker_burn_in_lamports: 1_000_000_000 }
}

} // verus!
