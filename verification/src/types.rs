//! Core data types of the scheduler: accounts, assets, orders, schedules,
//! errors, events, and the interfaces of the external collaborators.

use vstd::prelude::*;

verus! {

/// Kind of liquidity pool a hop of a route goes through.
#[derive(Clone, Copy, Debug, PartialEq, Eq)]
pub enum PoolType {
    Xyk,
    Omnipool,
    Stableswap(u32),
    Aave,
}

/// One hop of a trade route.
#[derive(Clone, Copy, Debug, PartialEq, Eq)]
pub struct Trade {
    pub pool: PoolType,
    pub asset_in: u32,
    pub asset_out: u32,
}

/// One trade instruction: sell an exact input or buy an exact output,
/// together with the route the trade should take.
#[derive(Clone, Debug, PartialEq, Eq)]
pub enum Order {
    Sell { asset_in: u32, asset_out: u32, amount_in: u128, min_amount_out: u128, route: Vec<Trade> },
    Buy { asset_in: u32, asset_out: u32, amount_out: u128, max_limit: u128, route: Vec<Trade> },
}

impl Order {
    /// The asset the schedule spends; budgets and custody are denominated in it.
    pub open spec fn spec_sold_asset(&self) -> u32 {
        match *self {
            Order::Sell { asset_in, .. } => asset_in,
            Order::Buy { asset_in, .. } => asset_in,
        }
    }

    pub fn sold_asset(&self) -> (r: u32)
        ensures
            r == self.spec_sold_asset(),
    {
        match *self {
            Order::Sell { asset_in, .. } => asset_in,
            Order::Buy { asset_in, .. } => asset_in,
        }
    }
}

/// A recurring order: who owns it, how often it executes, how much it may
/// spend in total, and how much of the budget one execution may consume
/// (`None` puts no per-period cap, so each execution uses the full remainder).
#[derive(Clone, Debug, PartialEq, Eq)]
pub struct Schedule {
    pub owner: u64,
    pub period: u64,
    pub total_amount: u128,
    pub slice: Option<u128>,
    pub order: Order,
}

impl Schedule {
    /// Amount the next execution trades, given the remaining budget:
    /// the per-period slice capped by what is left.
    pub open spec fn spec_next_amount(&self, remaining: u128) -> u128 {
        match self.slice {
            Some(cap) => if cap < remaining {
                cap
            } else {
                remaining
            },
            None => remaining,
        }
    }

    pub fn next_amount(&self, remaining: u128) -> (r: u128)
        ensures
            r == self.spec_next_amount(remaining),
    {
        match self.slice {
            Some(cap) => if cap < remaining {
                cap
            } else {
                remaining
            },
            None => remaining,
        }
    }
}

/// The caller of a dispatched operation.
#[derive(Clone, Copy, Debug, PartialEq, Eq)]
pub enum Origin {
    Signed(u64),
    Root,
    Unsigned,
}

/// Errors rejected synchronously at submission or termination time.
/// No state is mutated when one of these is returned.
#[derive(Clone, Copy, Debug, PartialEq, Eq)]
pub enum Error {
    /// The operation needs a signed caller (or root, for termination).
    BadOrigin,
    /// A signed caller tried to submit a schedule owned by someone else.
    Forbidden,
    /// The schedule definition is unusable: a zero period, slice or total
    /// budget would stall without ever consuming anything.
    InvalidSchedule,
    /// The requested first execution block is not strictly in the future.
    BlockNumberIsNotInFuture,
    /// The total budget, valued in the base asset, does not exceed the
    /// minimum custody bond.
    TotalAmountShouldBeLargerThanStorageBond,
    /// The owner's spendable balance cannot cover the total budget.
    InsufficientBalanceForTotalAmount,
    /// No slot with spare capacity exists within the scan horizon.
    NoFreeBlockFound,
    /// No schedule is stored under the given id.
    ScheduleNotFound,
    /// The caller is neither the schedule owner nor root.
    NotScheduleOwner,
}

/// Why an execution attempt failed, as reported by the routing collaborator.
/// A missing fee asset is distinguished for accounting, but the retry path
/// treats both reasons alike.
#[derive(Clone, Copy, Debug, PartialEq, Eq)]
pub enum TradeFailure {
    Routing,
    InsufficientFeeAsset,
}

/// Observable events, appended in the order they occur.
#[derive(Clone, Copy, Debug, PartialEq, Eq)]
pub enum Event {
    Scheduled { id: u32, who: u64 },
    ExecutionPlanned { id: u32, who: u64, block: u64 },
    TradeExecuted { id: u32, who: u64, amount_in: u128, amount_out: u128 },
    TradeFailed { id: u32, who: u64, reason: TradeFailure },
    Completed { id: u32, who: u64 },
    Terminated { id: u32, who: u64 },
}

/// Policy constants of one scheduler instance.
#[derive(Clone, Copy, Debug, PartialEq, Eq)]
pub struct Config {
    /// Most schedule ids one slot may hold.
    pub capacity: u32,
    /// The base asset of the ledger.
    pub native_asset: u32,
    /// A schedule's budget, valued in the base asset, must exceed this bond.
    pub min_bond: u128,
    /// Consecutive failures tolerated before a schedule is terminated.
    pub retry_ceiling: u32,
    /// Blocks between a failure and its retry; shorter than a typical period.
    pub retry_delay: u64,
    /// How many consecutive blocks the placement probe inspects.
    pub scan_horizon: u64,
}

impl Config {
    pub open spec fn valid(&self) -> bool {
        &&& self.capacity >= 1
        &&& self.retry_ceiling >= 1
        &&& self.retry_delay >= 1
        &&& self.scan_horizon >= 1
    }
}

/// The custody tag isolating one schedule's reserved funds from all others:
/// a deterministic, injective function of the schedule id.
pub open spec fn spec_reserve_identifier(id: u32) -> u64 {
    id as u64
}

pub fn reserve_identifier(id: u32) -> (r: u64)
    ensures
        r == spec_reserve_identifier(id),
{
    id as u64
}

/// The routing collaborator: executes one trade of a schedule for the given
/// amount of the sold asset and reports the amount bought, or why it failed.
/// Nothing is assumed about the outcome; the scheduler is verified to cope
/// with every possible result.
pub trait RouteExecutor {
    fn execute(&mut self, schedule: &Schedule, amount: u128) -> Result<u128, TradeFailure>;
}

/// A routing collaborator that fails every trade with a fixed reason.
pub struct FailingExecutor {
    pub reason: TradeFailure,
}

impl RouteExecutor for FailingExecutor {
    fn execute(&mut self, _schedule: &Schedule, _amount: u128) -> Result<u128, TradeFailure> {
        Err(self.reason)
    }
}

/// A routing collaborator that swaps one for one: every trade succeeds and
/// returns exactly the amount put in.
pub struct ParityExecutor {}

impl RouteExecutor for ParityExecutor {
    fn execute(&mut self, _schedule: &Schedule, amount: u128) -> Result<u128, TradeFailure> {
        Ok(amount)
    }
}

/// The valuation collaborator: values an amount of an asset in the base
/// asset. Consulted only at submission time for the minimum-bond check.
pub trait PriceOracle {
    spec fn spec_value(&self, asset: u32, amount: u128) -> u128;

    fn value_in_base_asset(&self, asset: u32, amount: u128) -> (r: u128)
        ensures
            r == self.spec_value(asset, amount),
    ;
}

/// A valuation collaborator applying one fixed rational rate `num / den` to
/// every asset, rounding down and saturating at the largest balance.
pub struct ScaledOracle {
    pub num: u32,
    pub den: u32,
}

impl ScaledOracle {
    /// The mathematical value `amount * num / den`, capped at `u128::MAX`;
    /// a zero denominator values everything at zero.
    pub open spec fn spec_scaled(&self, amount: u128) -> u128 {
        if self.den == 0 {
            0u128
        } else {
            let v = (amount as int) * (self.num as int) / (self.den as int);
            if v > u128::MAX as int {
                u128::MAX
            } else {
                v as u128
            }
        }
    }

    /// The split computation `(a/d)*n + (a%d)*n/d` equals `a*n/d` exactly.
    proof fn lemma_scaled_exact(&self, amount: u128)
        requires
            self.den != 0,
        ensures
            ((amount as int) / (self.den as int)) * (self.num as int) + ((amount as int) % (
            self.den as int)) * (self.num as int) / (self.den as int) == (amount as int) * (
            self.num as int) / (self.den as int),
    {
        let d = self.den as int;
        let n = self.num as int;
        let a = amount as int;
        let q = a / d;
        let r = a % d;
        vstd::arithmetic::div_mod::lemma_fundamental_div_mod(a, d);
        assert(r * n + (q * n) * d == a * n) by (nonlinear_arith)
            requires
                a == d * q + r,
        ;
        vstd::arithmetic::div_mod::lemma_hoist_over_denominator(r * n, q * n, self.den as nat);
        assert(r * n / d + q * n == (r * n + (q * n) * d) / d);
    }
}

impl PriceOracle for ScaledOracle {
    open spec fn spec_value(&self, asset: u32, amount: u128) -> u128 {
        self.spec_scaled(amount)
    }

    fn value_in_base_asset(&self, asset: u32, amount: u128) -> (r: u128) {
        if self.den == 0 {
            return 0;
        }
        let den = self.den as u128;
        let num = self.num as u128;
        let q = amount / den;
        let rem = amount % den;
        proof {
            vstd::arithmetic::div_mod::lemma_mod_bound(amount as int, den as int);
            assert(rem * num < 0x10000000000000000) by (nonlinear_arith)
                requires
                    rem < 0x100000000,
                    num < 0x100000000,
            ;
            self.lemma_scaled_exact(amount);
        }
        // rem < den <= u32::MAX, so the low part never overflows.
        let low = rem * num;
        let low_q = low / den;
        if num == 0 {
            return 0;
        }
        let cap = u128::MAX / num;
        proof {
            let m = u128::MAX as int;
            let n = num as int;
            vstd::arithmetic::div_mod::lemma_fundamental_div_mod(m, n);
            vstd::arithmetic::div_mod::lemma_mod_bound(m, n);
            vstd::arithmetic::mul::lemma_mul_is_commutative(n, m / n);
            // (m / n) * n + n > m, since m % n < n.
            assert((cap as int) * n + n > m);
        }
        if q > cap {
            proof {
                let n = num as int;
                vstd::arithmetic::mul::lemma_mul_inequality(cap as int + 1, q as int, n);
                assert((cap as int + 1) * n == (cap as int) * n + n) by (nonlinear_arith);
                assert((q as int) * n > u128::MAX as int);
                // the low part is nonnegative, so the whole value saturates
                vstd::arithmetic::div_mod::lemma_div_pos_is_pos(low as int, den as int);
            }
            return u128::MAX;
        }
        proof {
            vstd::arithmetic::mul::lemma_mul_inequality(q as int, cap as int, num as int);
            assert((q as int) * (num as int) <= u128::MAX as int);
        }
        let high = q * num;
        if high > u128::MAX - low_q {
            return u128::MAX;
        }
        high + low_q
    }
}

} // verus!
