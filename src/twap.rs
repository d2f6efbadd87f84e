use vstd::arithmetic::div_mod::{lemma_div_by_multiple, lemma_div_is_ordered};
use vstd::arithmetic::mul::lemma_mul_inequality;
use vstd::prelude::*;

use crate::error::CLOBError;
use crate::MAX_BPS;

verus! {

/// Time-weighted average price: the last clamped observation and the sum of
/// observations weighted by the number of clock slots each one stood.
#[derive(Debug, Clone, Copy, PartialEq, Eq, Structural)]
pub struct TWAPOracle {
    pub last_updated_slot: u64,
    pub last_observation: u64,
    pub observation_aggregator: u128,
    /// The most, in basis points, an observation can move in one update.
    pub max_observation_change_per_update_bps: u16,
    /// Held for pacing by clock slot; no update reads it.
    pub max_observation_change_per_slot_bps: u16,
}

/// Highest observation allowed after `last`.
pub open spec fn upper_band(last: u64, bps: u16) -> int {
    (last * (MAX_BPS + bps)) / (MAX_BPS as int)
}

/// Lowest observation allowed after `last`.
pub open spec fn lower_band(last: u64, bps: u16) -> int {
    (last * (MAX_BPS - bps)) / (MAX_BPS as int)
}

/// The observation recorded for `spot`: unclamped for the first one, else
/// pulled into the band around the previous observation.
pub open spec fn next_observation(o: TWAPOracle, spot: u64) -> int {
    if o.last_updated_slot == 0 {
        spot as int
    } else {
        let lo = lower_band(o.last_observation, o.max_observation_change_per_update_bps);
        let hi = upper_band(o.last_observation, o.max_observation_change_per_update_bps);
        let raised = if spot < lo { lo } else { spot as int };
        if raised > hi { hi } else { raised }
    }
}

/// The aggregator after observation `obs` has stood since the last update until `now`.
pub open spec fn next_aggregate(o: TWAPOracle, obs: int, now: u64) -> int {
    o.observation_aggregator + obs * (now - o.last_updated_slot)
}

pub proof fn lemma_bands(last: u64, bps: u16)
    requires
        bps <= MAX_BPS,
    ensures
        0 <= lower_band(last, bps) <= last <= upper_band(last, bps),
{
    let m = MAX_BPS as int;
    lemma_mul_inequality((m - bps) as int, m, last as int);
    lemma_mul_inequality(m, (m + bps) as int, last as int);
    assert(last * (m - bps) == (m - bps) * last) by (nonlinear_arith);
    assert(last * (m + bps) == (m + bps) * last) by (nonlinear_arith);
    assert(0 <= last * (m - bps)) by (nonlinear_arith)
        requires
            bps <= m,
    ;
    lemma_div_is_ordered(last * (m - bps), last * m, m);
    lemma_div_is_ordered(last * m, last * (m + bps), m);
    lemma_div_by_multiple(last as int, m);
    assert(0 <= (last * (m - bps)) / m) by (nonlinear_arith)
        requires
            0 <= last * (m - bps),
            m > 0,
    ;
}

impl TWAPOracle {
    pub open spec fn new_spec(max_change_per_update_bps: u16, max_change_per_slot_bps: u16) -> TWAPOracle {
        TWAPOracle {
            last_updated_slot: 0,
            last_observation: 0,
            observation_aggregator: 0,
            max_observation_change_per_update_bps: max_change_per_update_bps,
            max_observation_change_per_slot_bps: max_change_per_slot_bps,
        }
    }

    pub open spec fn wf(&self) -> bool {
        self.max_observation_change_per_update_bps <= MAX_BPS
    }

    /// An oracle that has seen nothing yet.
    pub fn new(max_change_per_update_bps: u16, max_change_per_slot_bps: u16) -> (r: TWAPOracle)
        requires
            max_change_per_update_bps <= MAX_BPS,
        ensures
            r.wf(),
            r == TWAPOracle::new_spec(max_change_per_update_bps, max_change_per_slot_bps),
    {
        TWAPOracle {
            last_updated_slot: 0,
            last_observation: 0,
            observation_aggregator: 0,
            max_observation_change_per_update_bps: max_change_per_update_bps,
            max_observation_change_per_slot_bps: max_change_per_slot_bps,
        }
    }

    /// The observation that `spot` would be recorded as.
    pub fn observation(&self, spot: u64) -> (r: u64)
        requires
            self.wf(),
        ensures
            r == next_observation(*self, spot),
    {
        if self.last_updated_slot == 0 {
            return spot;
        }
        let bps = self.max_observation_change_per_update_bps;
        proof {
            lemma_bands(self.last_observation, bps);
            assert(self.last_observation * (MAX_BPS + bps) <= u64::MAX * 20000) by (nonlinear_arith)
                requires
                    bps <= MAX_BPS,
            ;
        }
        let last = self.last_observation as u128;
        let hi: u128 = last * ((MAX_BPS + bps) as u128) / (MAX_BPS as u128);
        let lo: u128 = last * ((MAX_BPS - bps) as u128) / (MAX_BPS as u128);
        let raised: u128 = if (spot as u128) < lo {
            lo
        } else {
            spot as u128
        };
        let obs: u128 = if raised > hi {
            hi
        } else {
            raised
        };
        obs as u64
    }

    /// Records `spot` at clock slot `now`, clamped, and adds the previous
    /// slot span to the aggregator. Nothing changes unless `now` is past the
    /// last update, or when the aggregator would overflow.
    pub fn record(&mut self, now: u64, spot: u64) -> (r: Result<(), CLOBError>)
        requires
            old(self).wf(),
        ensures
            final(self).wf(),
            now <= old(self).last_updated_slot ==> r is Ok && *final(self) == *old(self),
            now > old(self).last_updated_slot ==> ({
                let obs = next_observation(*old(self), spot);
                let agg = next_aggregate(*old(self), obs, now);
                if agg > u128::MAX {
                    r == Err::<(), CLOBError>(CLOBError::ArithmeticOverflow) && *final(self) == *old(self)
                } else {
                    r is Ok && *final(self) == (TWAPOracle {
                        last_updated_slot: now,
                        last_observation: obs as u64,
                        observation_aggregator: agg as u128,
                        ..*old(self)
                    })
                }
            }),
    {
        if now <= self.last_updated_slot {
            return Ok(());
        }
        let obs = self.observation(spot);
        let span = now - self.last_updated_slot;
        proof {
            assert(obs * span <= u64::MAX * u64::MAX) by (nonlinear_arith)
                requires
                    obs <= u64::MAX,
                    span <= u64::MAX,
            ;
        }
        let weighted: u128 = (obs as u128) * (span as u128);
        match self.observation_aggregator.checked_add(weighted) {
            Some(agg) => {
                self.last_updated_slot = now;
                self.last_observation = obs;
                self.observation_aggregator = agg;
                Ok(())
            },
            None => Err(CLOBError::ArithmeticOverflow),
        }
    }
}

} // verus!
