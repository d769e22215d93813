use dca_scheduler::scheduler::Scheduler;
use dca_scheduler::types::Config;
use dca_scheduler::types::Error;
use dca_scheduler::types::Event;
use dca_scheduler::types::Order;
use dca_scheduler::types::Origin;
use dca_scheduler::types::Schedule;
use dca_scheduler::types::ScaledOracle;
use dca_scheduler::types::reserve_identifier;

const ONE: u128 = 1_000_000_000_000;
const ALICE: u64 = 1;
const HDX: u32 = 0;
const BTC: u32 = 1;
const DAI: u32 = 2;
const STORAGE_BOND: u128 = 2_000_000;

fn default_config() -> Config {
    Config {
        capacity: 20,
        native_asset: HDX,
        min_bond: STORAGE_BOND,
        retry_ceiling: 3,
        retry_delay: 5,
        scan_horizon: 11,
    }
}

fn oracle() -> ScaledOracle {
    // one unit of any non-native asset is worth two units of the base asset
    ScaledOracle { num: 2, den: 1 }
}

fn default_schedule() -> Schedule {
    Schedule {
        owner: ALICE,
        period: 10,
        total_amount: ONE,
        slice: None,
        order: Order::Sell {
            asset_in: HDX,
            asset_out: BTC,
            amount_in: ONE,
            min_amount_out: 0,
            route: vec![],
        },
    }
}

fn expect_events(sched: &Scheduler, expected: Vec<Event>) {
    let all = sched.events();
    assert!(all.len() >= expected.len());
    let tail = &all[all.len() - expected.len()..];
    assert_eq!(tail, &expected[..]);
}

#[test]
fn schedule_should_reserve_all_total_amount_as_named_reserve() {
    let mut dca = Scheduler::new(default_config());
    assert!(dca.endow(ALICE, HDX, 10000 * ONE));

    let total_amount: u128 = 100 * ONE;
    let schedule = Schedule {
        owner: ALICE,
        period: 10,
        total_amount,
        slice: None,
        order: Order::Buy {
            asset_in: HDX,
            asset_out: BTC,
            amount_out: ONE,
            max_limit: u128::MAX,
            route: vec![],
        },
    };
    dca.set_block_number(500);
    assert!(dca.schedule(Origin::Signed(ALICE), schedule, Option::None, &oracle()).is_ok());

    let schedule_id: u32 = 1;
    let named_reserve_id = reserve_identifier(schedule_id);
    assert_eq!(total_amount, dca.reserved_balance_named(named_reserve_id, HDX, ALICE));
}

#[test]
fn schedule_should_store_schedule_for_next_block_when_no_blocknumber_specified() {
    let mut dca = Scheduler::new(default_config());
    assert!(dca.endow(ALICE, HDX, 10000 * ONE));
    let schedule = default_schedule();

    dca.set_block_number(500);
    assert!(dca.schedule(Origin::Signed(ALICE), schedule, Option::None, &oracle()).is_ok());

    let schedule_id: u32 = 1;
    let stored_schedule = dca.schedules(schedule_id).unwrap();
    assert_eq!(*stored_schedule, default_schedule());

    let schedule_ids = dca.schedule_ids_per_block(501);
    assert!(dca.schedule_ids_per_block(501).is_some());
    let expected_scheduled_ids_for_next_block: Vec<u32> = vec![1];
    assert_eq!(schedule_ids.unwrap(), expected_scheduled_ids_for_next_block);

    assert!(dca.owner_of(schedule_id).is_some());
    assert_eq!(dca.owner_of(schedule_id).unwrap(), ALICE);
}

#[test]
fn schedule_should_work_when_multiple_schedules_stored() {
    let mut dca = Scheduler::new(default_config());
    assert!(dca.endow(ALICE, HDX, 10000 * ONE));
    let schedule = default_schedule();

    dca.set_block_number(500);

    assert!(dca.schedule(Origin::Signed(ALICE), schedule.clone(), Option::None, &oracle()).is_ok());
    assert!(dca.schedule(Origin::Signed(ALICE), schedule, Option::None, &oracle()).is_ok());

    assert!(dca.schedules(1).is_some());
    assert!(dca.schedules(2).is_some());

    let scheduled_ids_for_next_block = dca.schedule_ids_per_block(501).unwrap();

    let expected_scheduled_ids_for_next_block: Vec<u32> = vec![1, 2];
    assert_eq!(scheduled_ids_for_next_block, expected_scheduled_ids_for_next_block);
}

#[test]
fn schedule_should_work_when_block_is_specified_by_user() {
    let mut dca = Scheduler::new(default_config());
    assert!(dca.endow(ALICE, HDX, 10000 * ONE));
    let schedule = default_schedule();

    dca.set_block_number(500);
    assert!(dca.schedule(Origin::Signed(ALICE), schedule.clone(), Option::Some(600), &oracle()).is_ok());

    let schedule_id: u32 = 1;
    let stored_schedule = dca.schedules(schedule_id).unwrap();
    assert_eq!(*stored_schedule, schedule);

    let schedule_ids = dca.schedule_ids_per_block(600);
    assert!(dca.schedule_ids_per_block(600).is_some());
    let expected_scheduled_ids_for_next_block: Vec<u32> = vec![1];
    assert_eq!(schedule_ids.unwrap(), expected_scheduled_ids_for_next_block);

    assert!(dca.owner_of(schedule_id).is_some());
    assert_eq!(dca.owner_of(schedule_id).unwrap(), ALICE);
}

#[test]
fn schedule_should_emit_necessary_events() {
    let mut dca = Scheduler::new(default_config());
    assert!(dca.endow(ALICE, HDX, 10000 * ONE));
    let schedule = default_schedule();

    dca.set_block_number(500);
    assert!(dca.schedule(Origin::Signed(ALICE), schedule, Option::None, &oracle()).is_ok());

    expect_events(
        &dca,
        vec![
            Event::Scheduled { id: 1, who: ALICE },
            Event::ExecutionPlanned { id: 1, who: ALICE, block: 501 },
        ],
    );
}

#[test]
fn schedule_should_emit_necessary_events_when_multiple_schedules_are_created() {
    let mut dca = Scheduler::new(default_config());
    assert!(dca.endow(ALICE, HDX, 10000 * ONE));
    let schedule = default_schedule();
    let schedule2 = default_schedule();

    dca.set_block_number(500);

    assert!(dca.schedule(Origin::Signed(ALICE), schedule, Option::None, &oracle()).is_ok());
    expect_events(
        &dca,
        vec![
            Event::Scheduled { id: 1, who: ALICE },
            Event::ExecutionPlanned { id: 1, who: ALICE, block: 501 },
        ],
    );

    assert!(dca.schedule(Origin::Signed(ALICE), schedule2, Option::Some(1000), &oracle()).is_ok());
    expect_events(
        &dca,
        vec![
            Event::Scheduled { id: 2, who: ALICE },
            Event::ExecutionPlanned { id: 2, who: ALICE, block: 1000 },
        ],
    );
}

#[test]
fn schedule_should_throw_error_when_user_has_not_enough_balance() {
    let mut dca = Scheduler::new(default_config());
    let total_amount_to_be_taken: u128 = 100 * ONE;
    assert!(dca.endow(ALICE, HDX, total_amount_to_be_taken - 1));

    let mut schedule = default_schedule();
    schedule.total_amount = 100 * ONE;

    dca.set_block_number(500);
    assert_eq!(
        dca.schedule(Origin::Signed(ALICE), schedule, Option::None, &oracle()),
        Err(Error::InsufficientBalanceForTotalAmount)
    );
    assert!(dca.schedules(1).is_none());
}

#[test]
fn schedule_should_fail_when_not_called_by_user() {
    let mut dca = Scheduler::new(default_config());
    let schedule = default_schedule();

    assert_eq!(
        dca.schedule(Origin::Unsigned, schedule, Option::None, &oracle()),
        Err(Error::BadOrigin)
    );
}

#[test]
fn schedule_should_schedule_for_consequent_block_when_next_block_is_full() {
    let mut dca = Scheduler::new(default_config());
    assert!(dca.endow(ALICE, HDX, 1000000 * ONE));
    dca.set_block_number(500);

    for _ in 1..=20 {
        let schedule = default_schedule();
        assert!(dca.schedule(Origin::Signed(ALICE), schedule, Option::None, &oracle()).is_ok());
    }

    let schedule = default_schedule();
    let schedule_id: u32 = 21;
    assert!(dca.schedule(Origin::Signed(ALICE), schedule, Option::None, &oracle()).is_ok());

    let actual_schedule_ids = dca.schedule_ids_per_block(501).unwrap();
    assert_eq!(20, actual_schedule_ids.len());

    assert_eq!(dca.schedule_ids_per_block(502).unwrap(), vec![schedule_id]);
}

#[test]
fn schedule_should_schedule_for_after_consequent_block_when_both_next_block_and_consquent_block_is_full() {
    let mut dca = Scheduler::new(default_config());
    assert!(dca.endow(ALICE, HDX, 1000000 * ONE));
    dca.set_block_number(500);

    for _ in 1..=40 {
        let schedule = default_schedule();
        assert!(dca.schedule(Origin::Signed(ALICE), schedule, Option::None, &oracle()).is_ok());
    }

    let schedule = default_schedule();
    let schedule_id: u32 = 41;
    assert!(dca.schedule(Origin::Signed(ALICE), schedule, Option::None, &oracle()).is_ok());

    let actual_schedule_ids = dca.schedule_ids_per_block(501).unwrap();
    assert_eq!(20, actual_schedule_ids.len());

    let actual_schedule_ids = dca.schedule_ids_per_block(502).unwrap();
    assert_eq!(20, actual_schedule_ids.len());

    assert_eq!(dca.schedule_ids_per_block(503).unwrap(), vec![schedule_id]);
}

#[test]
fn schedule_should_fail_when_total_amount_is_smaller_than_storage_bond_and_sold_currency_is_native() {
    let mut dca = Scheduler::new(default_config());
    assert!(dca.endow(ALICE, HDX, 10000 * ONE));

    let schedule = Schedule {
        owner: ALICE,
        period: 10,
        total_amount: STORAGE_BOND,
        slice: None,
        order: Order::Buy {
            asset_in: HDX,
            asset_out: BTC,
            amount_out: ONE,
            max_limit: u128::MAX,
            route: vec![],
        },
    };

    dca.set_block_number(500);

    assert_eq!(
        dca.schedule(Origin::Signed(ALICE), schedule, Option::None, &oracle()),
        Err(Error::TotalAmountShouldBeLargerThanStorageBond)
    );
}

#[test]
fn schedule_should_pass_when_total_amount_in_non_native_currency_is_bigger_than_storage_bond_in_native() {
    let mut dca = Scheduler::new(default_config());
    assert!(dca.endow(ALICE, HDX, 10000 * ONE));
    assert!(dca.endow(ALICE, DAI, 10000 * ONE));

    let schedule = Schedule {
        owner: ALICE,
        period: 10,
        total_amount: STORAGE_BOND * 9 / 10,
        slice: None,
        order: Order::Buy {
            asset_in: DAI,
            asset_out: HDX,
            amount_out: ONE,
            max_limit: u128::MAX,
            route: vec![],
        },
    };

    dca.set_block_number(500);

    assert!(dca.schedule(Origin::Signed(ALICE), schedule, Option::None, &oracle()).is_ok());
}

#[test]
fn schedule_should_fail_when_total_amount_in_non_native_currency_is_smaller_than_storage_bond_in_native() {
    let mut dca = Scheduler::new(default_config());
    assert!(dca.endow(ALICE, HDX, 10000 * ONE));
    assert!(dca.endow(ALICE, DAI, 10000 * ONE));

    let schedule = Schedule {
        owner: ALICE,
        period: 10,
        total_amount: STORAGE_BOND / 3,
        slice: None,
        order: Order::Buy {
            asset_in: DAI,
            asset_out: HDX,
            amount_out: ONE,
            max_limit: u128::MAX,
            route: vec![],
        },
    };

    dca.set_block_number(500);

    assert_eq!(
        dca.schedule(Origin::Signed(ALICE), schedule, Option::None, &oracle()),
        Err(Error::TotalAmountShouldBeLargerThanStorageBond)
    );
}

#[test]
fn schedule_should_fail_when_specified_next_block_is_not_greater_than_current_block() {
    for block in [1u64, 499, 500] {
        let mut dca = Scheduler::new(default_config());
        assert!(dca.endow(ALICE, HDX, 10000 * ONE));
        let schedule = default_schedule();
        dca.set_block_number(500);

        assert_eq!(
            dca.schedule(Origin::Signed(ALICE), schedule, Option::Some(block), &oracle()),
            Err(Error::BlockNumberIsNotInFuture)
        );
    }
}
