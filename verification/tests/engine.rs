use dca_scheduler::scheduler::Scheduler;
use dca_scheduler::types::Config;
use dca_scheduler::types::Error;
use dca_scheduler::types::Event;
use dca_scheduler::types::FailingExecutor;
use dca_scheduler::types::Order;
use dca_scheduler::types::Origin;
use dca_scheduler::types::ParityExecutor;
use dca_scheduler::types::PriceOracle;
use dca_scheduler::types::Schedule;
use dca_scheduler::types::ScaledOracle;
use dca_scheduler::types::TradeFailure;
use dca_scheduler::types::reserve_identifier;

const ONE: u128 = 1_000_000_000_000;
const ALICE: u64 = 1;
const BOB: u64 = 2;
const HDX: u32 = 0;
const BTC: u32 = 1;
const STORAGE_BOND: u128 = 2_000_000;

fn config() -> Config {
    Config {
        capacity: 20,
        native_asset: HDX,
        min_bond: STORAGE_BOND,
        retry_ceiling: 3,
        retry_delay: 1,
        scan_horizon: 11,
    }
}

fn oracle() -> ScaledOracle {
    ScaledOracle { num: 2, den: 1 }
}

fn sell_schedule(total: u128, slice: Option<u128>, period: u64) -> Schedule {
    Schedule {
        owner: ALICE,
        period,
        total_amount: total,
        slice,
        order: Order::Sell {
            asset_in: HDX,
            asset_out: BTC,
            amount_in: ONE,
            min_amount_out: 0,
            route: vec![],
        },
    }
}

fn has_event(sched: &Scheduler, wanted: &Event) -> bool {
    sched.events().iter().any(|e| e == wanted)
}

/// A routing collaborator that fails ALICE's trades and fills everyone
/// else's one for one.
struct FailFirst {}

impl dca_scheduler::types::RouteExecutor for FailFirst {
    fn execute(&mut self, schedule: &Schedule, amount: u128) -> Result<u128, TradeFailure> {
        if schedule.owner == ALICE {
            Err(TradeFailure::Routing)
        } else {
            Ok(amount)
        }
    }
}

/// A failing route keeps retrying at the short retry delay and, at the
/// ceiling, the schedule is terminated with its full reservation returned.
#[test]
fn retry_ceiling_terminates_with_full_refund() {
    let mut dca = Scheduler::new(config());
    assert!(dca.endow(ALICE, HDX, 1000 * ONE));
    dca.set_block_number(500);

    let total: u128 = 100 * ONE;
    assert!(dca
        .schedule(Origin::Signed(ALICE), sell_schedule(total, None, 10), None, &oracle())
        .is_ok());
    assert_eq!(dca.free_balance(ALICE, HDX), 900 * ONE);

    let mut exec = FailingExecutor { reason: TradeFailure::Routing };

    // first failure: retried one block later
    dca.on_initialize(501, &mut exec);
    assert_eq!(dca.retries_on_error(1), 1);
    assert_eq!(dca.schedule_ids_per_block(502).unwrap(), vec![1]);

    // second failure
    dca.on_initialize(502, &mut exec);
    assert_eq!(dca.retries_on_error(1), 2);
    assert_eq!(dca.schedule_ids_per_block(503).unwrap(), vec![1]);

    // third consecutive failure reaches the ceiling: terminated, refunded
    dca.on_initialize(503, &mut exec);
    assert!(dca.schedules(1).is_none());
    assert!(dca.owner_of(1).is_none());
    assert_eq!(dca.retries_on_error(1), 0);
    assert_eq!(dca.free_balance(ALICE, HDX), 1000 * ONE);
    assert_eq!(dca.reserved_balance_named(reserve_identifier(1), HDX, ALICE), 0);
    assert!(has_event(&dca, &Event::Terminated { id: 1, who: ALICE }));
}

/// Terminating a schedule returns exactly the remaining budget and leaves
/// every other schedule untouched.
#[test]
fn terminate_returns_remaining_budget_exactly() {
    let mut dca = Scheduler::new(config());
    assert!(dca.endow(ALICE, HDX, 1000 * ONE));
    assert!(dca.endow(BOB, HDX, 1000 * ONE));
    dca.set_block_number(500);

    let budget: u128 = 70 * ONE;
    assert!(dca
        .schedule(Origin::Signed(ALICE), sell_schedule(budget, None, 10), None, &oracle())
        .is_ok());
    let mut other = sell_schedule(50 * ONE, None, 10);
    other.owner = BOB;
    assert!(dca.schedule(Origin::Signed(BOB), other, None, &oracle()).is_ok());

    let before = dca.free_balance(ALICE, HDX);
    assert!(dca.terminate(Origin::Signed(ALICE), 1).is_ok());

    assert_eq!(dca.free_balance(ALICE, HDX), before + budget);
    assert!(dca.schedules(1).is_none());
    assert!(dca.owner_of(1).is_none());
    assert_eq!(dca.reserved_balance_named(reserve_identifier(1), HDX, ALICE), 0);
    assert!(!dca.schedule_ids_per_block(501).unwrap().contains(&1));

    // the other schedule is exactly as before
    assert!(dca.schedules(2).is_some());
    assert_eq!(dca.free_balance(BOB, HDX), 1000 * ONE - 50 * ONE);
    assert_eq!(dca.reserved_balance_named(reserve_identifier(2), HDX, BOB), 50 * ONE);
    assert_eq!(dca.schedule_ids_per_block(501).unwrap(), vec![2]);
}

#[test]
fn terminate_by_root_is_allowed() {
    let mut dca = Scheduler::new(config());
    assert!(dca.endow(ALICE, HDX, 1000 * ONE));
    dca.set_block_number(500);
    assert!(dca
        .schedule(Origin::Signed(ALICE), sell_schedule(10 * ONE, None, 10), None, &oracle())
        .is_ok());

    assert!(dca.terminate(Origin::Root, 1).is_ok());
    assert!(dca.schedules(1).is_none());
    assert_eq!(dca.free_balance(ALICE, HDX), 1000 * ONE);
}

#[test]
fn terminate_error_cases() {
    let mut dca = Scheduler::new(config());
    assert!(dca.endow(ALICE, HDX, 1000 * ONE));
    dca.set_block_number(500);
    assert!(dca
        .schedule(Origin::Signed(ALICE), sell_schedule(10 * ONE, None, 10), None, &oracle())
        .is_ok());

    assert_eq!(dca.terminate(Origin::Unsigned, 1), Err(Error::BadOrigin));
    assert_eq!(dca.terminate(Origin::Signed(ALICE), 9), Err(Error::ScheduleNotFound));
    assert_eq!(dca.terminate(Origin::Signed(BOB), 1), Err(Error::NotScheduleOwner));
    assert!(dca.schedules(1).is_some());
}

/// A succeeding schedule consumes its per-period slice, keeps custody equal
/// to the remaining budget, and is replanned one period ahead.
#[test]
fn successful_execution_consumes_slice_and_replans() {
    let mut dca = Scheduler::new(config());
    assert!(dca.endow(ALICE, HDX, 1000 * ONE));
    dca.set_block_number(500);

    let total: u128 = 30 * ONE;
    let slice: u128 = 10 * ONE;
    assert!(dca
        .schedule(Origin::Signed(ALICE), sell_schedule(total, Some(slice), 7), None, &oracle())
        .is_ok());

    let mut exec = ParityExecutor {};
    dca.on_initialize(501, &mut exec);

    assert_eq!(dca.remaining_amounts(1).unwrap(), 20 * ONE);
    assert_eq!(dca.reserved_balance_named(reserve_identifier(1), HDX, ALICE), 20 * ONE);
    assert_eq!(dca.schedule_ids_per_block(508).unwrap(), vec![1]);
    // the id moved: it is no longer planned at the drained block
    assert!(dca.schedule_ids_per_block(501).is_none());
    assert!(has_event(
        &dca,
        &Event::TradeExecuted { id: 1, who: ALICE, amount_in: slice, amount_out: slice }
    ));
    assert!(has_event(&dca, &Event::ExecutionPlanned { id: 1, who: ALICE, block: 508 }));
    // spendable balance is unchanged by an execution: the trade spends custody
    assert_eq!(dca.free_balance(ALICE, HDX), 1000 * ONE - total);
}

/// The final execution is sized down to the remaining budget and retires the
/// schedule with its custody empty.
#[test]
fn final_execution_is_reduced_and_completes() {
    let mut dca = Scheduler::new(config());
    assert!(dca.endow(ALICE, HDX, 1000 * ONE));
    dca.set_block_number(500);

    let total: u128 = 30 * ONE;
    let slice: u128 = 20 * ONE;
    assert!(dca
        .schedule(Origin::Signed(ALICE), sell_schedule(total, Some(slice), 1), None, &oracle())
        .is_ok());

    let mut exec = ParityExecutor {};
    dca.on_initialize(501, &mut exec);
    assert_eq!(dca.remaining_amounts(1).unwrap(), 10 * ONE);

    dca.on_initialize(502, &mut exec);
    // the last trade was 10 * ONE, not the full slice
    assert!(has_event(
        &dca,
        &Event::TradeExecuted { id: 1, who: ALICE, amount_in: 10 * ONE, amount_out: 10 * ONE }
    ));
    assert!(has_event(&dca, &Event::Completed { id: 1, who: ALICE }));
    assert!(dca.schedules(1).is_none());
    assert_eq!(dca.reserved_balance_named(reserve_identifier(1), HDX, ALICE), 0);
    assert_eq!(dca.free_balance(ALICE, HDX), 1000 * ONE - total);
}

/// A success wipes the consecutive-failure count.
#[test]
fn success_resets_retry_counter() {
    let mut dca = Scheduler::new(config());
    assert!(dca.endow(ALICE, HDX, 1000 * ONE));
    dca.set_block_number(500);
    assert!(dca
        .schedule(Origin::Signed(ALICE), sell_schedule(30 * ONE, Some(10 * ONE), 10), None, &oracle())
        .is_ok());

    let mut failing = FailingExecutor { reason: TradeFailure::InsufficientFeeAsset };
    dca.on_initialize(501, &mut failing);
    assert_eq!(dca.retries_on_error(1), 1);
    assert!(has_event(
        &dca,
        &Event::TradeFailed { id: 1, who: ALICE, reason: TradeFailure::InsufficientFeeAsset }
    ));

    let mut exec = ParityExecutor {};
    dca.on_initialize(502, &mut exec);
    assert_eq!(dca.retries_on_error(1), 0);
    assert_eq!(dca.remaining_amounts(1).unwrap(), 20 * ONE);
}

/// One schedule's failure never affects another schedule in the same block.
#[test]
fn failure_is_isolated_within_a_block() {
    let mut dca = Scheduler::new(config());
    assert!(dca.endow(ALICE, HDX, 1000 * ONE));
    assert!(dca.endow(BOB, HDX, 1000 * ONE));
    dca.set_block_number(500);

    assert!(dca
        .schedule(Origin::Signed(ALICE), sell_schedule(30 * ONE, Some(10 * ONE), 10), None, &oracle())
        .is_ok());
    let mut bobs = sell_schedule(30 * ONE, Some(10 * ONE), 10);
    bobs.owner = BOB;
    assert!(dca.schedule(Origin::Signed(BOB), bobs, None, &oracle()).is_ok());

    let mut exec = FailFirst {};
    dca.on_initialize(501, &mut exec);

    // the first schedule failed and is retrying; the second executed normally
    assert_eq!(dca.retries_on_error(1), 1);
    assert_eq!(dca.remaining_amounts(1).unwrap(), 30 * ONE);
    assert_eq!(dca.retries_on_error(2), 0);
    assert_eq!(dca.remaining_amounts(2).unwrap(), 20 * ONE);
}

#[test]
fn schedule_rejects_unusable_definitions() {
    let mut dca = Scheduler::new(config());
    assert!(dca.endow(ALICE, HDX, 1000 * ONE));
    dca.set_block_number(500);

    assert_eq!(
        dca.schedule(Origin::Signed(ALICE), sell_schedule(10 * ONE, None, 0), None, &oracle()),
        Err(Error::InvalidSchedule)
    );
    assert_eq!(
        dca.schedule(Origin::Signed(ALICE), sell_schedule(10 * ONE, Some(0), 10), None, &oracle()),
        Err(Error::InvalidSchedule)
    );
    assert_eq!(
        dca.schedule(Origin::Signed(ALICE), sell_schedule(0, None, 10), None, &oracle()),
        Err(Error::InvalidSchedule)
    );
}

#[test]
fn schedule_rejects_foreign_owner() {
    let mut dca = Scheduler::new(config());
    assert!(dca.endow(BOB, HDX, 1000 * ONE));
    dca.set_block_number(500);

    // BOB signs, but the schedule names ALICE as its owner
    assert_eq!(
        dca.schedule(Origin::Signed(BOB), sell_schedule(10 * ONE, None, 10), None, &oracle()),
        Err(Error::Forbidden)
    );
}

/// When every block within the scan horizon is full, submission is rejected
/// rather than scanning forever.
#[test]
fn schedule_fails_when_no_free_block_within_horizon() {
    let mut small = config();
    small.capacity = 1;
    small.scan_horizon = 2;
    let mut dca = Scheduler::new(small);
    assert!(dca.endow(ALICE, HDX, 1000 * ONE));
    dca.set_block_number(500);

    assert!(dca
        .schedule(Origin::Signed(ALICE), sell_schedule(10 * ONE, None, 10), None, &oracle())
        .is_ok());
    assert!(dca
        .schedule(Origin::Signed(ALICE), sell_schedule(10 * ONE, None, 10), None, &oracle())
        .is_ok());
    assert_eq!(
        dca.schedule(Origin::Signed(ALICE), sell_schedule(10 * ONE, None, 10), None, &oracle()),
        Err(Error::NoFreeBlockFound)
    );
}

/// Custody conservation, observed over a whole run: reserved always equals
/// the remaining budget.
#[test]
fn reserved_tracks_remaining_budget_through_a_run() {
    let mut dca = Scheduler::new(config());
    assert!(dca.endow(ALICE, HDX, 1000 * ONE));
    dca.set_block_number(500);
    assert!(dca
        .schedule(Origin::Signed(ALICE), sell_schedule(25 * ONE, Some(10 * ONE), 1), None, &oracle())
        .is_ok());

    let tag = reserve_identifier(1);
    let mut exec = ParityExecutor {};
    let mut block: u64 = 501;
    while dca.schedules(1).is_some() {
        assert_eq!(
            dca.reserved_balance_named(tag, HDX, ALICE),
            dca.remaining_amounts(1).unwrap()
        );
        dca.on_initialize(block, &mut exec);
        block += 1;
    }
    assert_eq!(dca.reserved_balance_named(tag, HDX, ALICE), 0);
    // 25 = 10 + 10 + 5: three executions, the last reduced
    assert!(has_event(
        &dca,
        &Event::TradeExecuted { id: 1, who: ALICE, amount_in: 5 * ONE, amount_out: 5 * ONE }
    ));
}

/// The scaled oracle computes `amount * num / den`, rounding down and
/// saturating.
#[test]
fn scaled_oracle_values_are_exact() {
    let two_to_one = ScaledOracle { num: 2, den: 1 };
    assert_eq!(two_to_one.value_in_base_asset(BTC, 10), 20);

    let two_thirds = ScaledOracle { num: 2, den: 3 };
    assert_eq!(two_thirds.value_in_base_asset(BTC, 10), 6);
    assert_eq!(two_thirds.value_in_base_asset(BTC, 0), 0);

    let saturating = ScaledOracle { num: 2, den: 1 };
    assert_eq!(saturating.value_in_base_asset(BTC, u128::MAX), u128::MAX);

    let zero_den = ScaledOracle { num: 2, den: 0 };
    assert_eq!(zero_den.value_in_base_asset(BTC, 10), 0);
}

/// The block-weight bound is the base cost plus capacity times the per-trade
/// cost, saturating.
#[test]
fn max_block_weight_is_exact() {
    let w = dca_scheduler::weights::WeightInfo {
        schedule: 7,
        terminate: 5,
        on_initialize_base: 100,
        on_initialize_per_trade: 30,
    };
    assert_eq!(w.max_block_weight(20), 100 + 20 * 30);
    assert_eq!(w.max_block_weight(0), 100);

    let huge = dca_scheduler::weights::WeightInfo {
        schedule: 0,
        terminate: 0,
        on_initialize_base: 1,
        on_initialize_per_trade: u64::MAX,
    };
    assert_eq!(huge.max_block_weight(2), u64::MAX);

    let zero = dca_scheduler::weights::WeightInfo {
        schedule: 0,
        terminate: 0,
        on_initialize_base: 9,
        on_initialize_per_trade: 0,
    };
    assert_eq!(zero.max_block_weight(1000), 9);
}

/// An empty block leaves everything untouched.
#[test]
fn empty_block_is_a_no_op() {
    let mut dca = Scheduler::new(config());
    assert!(dca.endow(ALICE, HDX, 1000 * ONE));
    dca.set_block_number(500);
    assert!(dca
        .schedule(Origin::Signed(ALICE), sell_schedule(10 * ONE, None, 10), None, &oracle())
        .is_ok());

    let events_before = dca.events().len();
    let mut exec = ParityExecutor {};
    dca.on_initialize(777, &mut exec);

    assert_eq!(dca.events().len(), events_before);
    assert!(dca.schedules(1).is_some());
    assert_eq!(dca.remaining_amounts(1).unwrap(), 10 * ONE);
}
