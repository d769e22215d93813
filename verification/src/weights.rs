//! Abstract work accounting for the scheduler's entry points.
//!
//! Bounding per-block work matters because a block's processing cost is
//! charged to whoever produces it: a full slot holds at most `capacity` ids,
//! so one block's cost is bounded by a formula over these constants.

use vstd::prelude::*;

verus! {

/// Cost of each scheduler operation, in abstract weight units.
#[derive(Clone, Copy, Debug, PartialEq, Eq)]
pub struct WeightInfo {
    /// Submitting one schedule.
    pub schedule: u64,
    /// Terminating one schedule.
    pub terminate: u64,
    /// Draining a block's slot, before any trade runs.
    pub on_initialize_base: u64,
    /// Executing one drained schedule, success or failure.
    pub on_initialize_per_trade: u64,
}

impl WeightInfo {
    /// The largest cost one block's processing can reach: the base cost plus
    /// one per-trade cost for each id a full slot can hold, saturating at the
    /// largest weight.
    pub open spec fn spec_max_block_weight(&self, capacity: u32) -> u64 {
        let v = self.on_initialize_base + capacity * self.on_initialize_per_trade;
        if v > u64::MAX as int {
            u64::MAX
        } else {
            v as u64
        }
    }

    pub fn max_block_weight(&self, capacity: u32) -> (r: u64)
        ensures
            r == self.spec_max_block_weight(capacity),
    {
        let per = self.on_initialize_per_trade;
        let cap = capacity as u64;
        if per == 0 {
            return self.on_initialize_base;
        }
        let most = u64::MAX / per;
        proof {
            let m = u64::MAX as int;
            let p = per as int;
            vstd::arithmetic::div_mod::lemma_fundamental_div_mod(m, p);
            vstd::arithmetic::div_mod::lemma_mod_bound(m, p);
            vstd::arithmetic::mul::lemma_mul_is_commutative(p, m / p);
            assert((most as int) * p + p > m);
        }
        if cap > most {
            proof {
                vstd::arithmetic::mul::lemma_mul_inequality(
                    most as int + 1,
                    cap as int,
                    per as int,
                );
                assert((most as int + 1) * per as int == (most as int) * per as int
                    + per as int) by (nonlinear_arith);
                assert((cap as int) * (per as int) > u64::MAX as int);
            }
            return u64::MAX;
        }
        proof {
            vstd::arithmetic::mul::lemma_mul_inequality(cap as int, most as int, per as int);
        }
        let trades = cap * per;
        if self.on_initialize_base > u64::MAX - trades {
            return u64::MAX;
        }
        self.on_initialize_base + trades
    }
}

} // verus!
