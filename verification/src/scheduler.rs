//! The scheduler: schedule store, slot index, ownership, custody and the
//! per-block execution engine, with the invariants that tie them together.
//!
//! Key invariants, maintained by every operation:
//! - custody conservation: an active schedule's reserved funds equal its
//!   remaining budget, tag by tag;
//! - capacity: no slot ever holds more ids than the configured capacity;
//! - single placement: a schedule id sits in at most one slot, at most once.

use crate::ledger::Ledger;
use crate::ledger::ReserveEntry;
use crate::table::Table;
use crate::types::Config;
use crate::types::Error;
use crate::types::Event;
use crate::types::Origin;
use crate::types::PriceOracle;
use crate::types::RouteExecutor;
use crate::types::Schedule;
use crate::types::TradeFailure;
use crate::types::reserve_identifier;
use crate::types::spec_reserve_identifier;
use vstd::prelude::*;

verus! {

pub struct Scheduler {
    config: Config,
    now: u64,
    next_id: u32,
    schedules: Table<Schedule>,
    remaining: Table<u128>,
    retries: Table<u32>,
    slots: Table<Vec<u32>>,
    ledger: Ledger,
    events: Vec<Event>,
}

impl Scheduler {
    pub closed spec fn spec_config(&self) -> Config {
        self.config
    }

    pub closed spec fn spec_now(&self) -> u64 {
        self.now
    }

    pub closed spec fn spec_next_id(&self) -> u32 {
        self.next_id
    }

    pub closed spec fn has_schedule(&self, id: u32) -> bool {
        self.schedules@.dom().contains(id as u128)
    }

    pub closed spec fn schedule_of(&self, id: u32) -> Schedule {
        self.schedules@[id as u128]
    }

    /// The budget a schedule can still spend (meaningful only while stored).
    pub closed spec fn remaining_of(&self, id: u32) -> u128 {
        self.remaining@[id as u128]
    }

    /// Consecutive failures since the last success; zero when none recorded.
    pub closed spec fn retries_of(&self, id: u32) -> u32 {
        if self.retries@.dom().contains(id as u128) {
            self.retries@[id as u128]
        } else {
            0
        }
    }

    pub closed spec fn has_slot(&self, block: u64) -> bool {
        self.slots@.dom().contains(block as u128)
    }

    /// The ids due at a block, in insertion (execution) order.
    pub closed spec fn ids_at(&self, block: u64) -> Seq<u32> {
        if self.has_slot(block) {
            self.slots@[block as u128]@
        } else {
            Seq::empty()
        }
    }

    pub open spec fn planned_at(&self, id: u32, block: u64) -> bool {
        self.ids_at(block).contains(id)
    }

    /// The id is planned at some block strictly after `block`.
    pub closed spec fn planned_after(&self, id: u32, block: u64) -> bool {
        exists|b: u64| b > block && (#[trigger] self.ids_at(b)).contains(id)
    }

    pub closed spec fn spec_free(&self, owner: u64, asset: u32) -> u128 {
        self.ledger.spec_free(owner, asset)
    }

    pub closed spec fn spec_reserved(&self, tag: u64, asset: u32, owner: u64) -> u128 {
        self.ledger.spec_reserved_named(tag, asset, owner)
    }

    pub closed spec fn events_seq(&self) -> Seq<Event> {
        self.events@
    }

    /// Ids are in range and fresh ids stay above every stored key; the
    /// budget, ownership and schedule stores hold exactly the same ids.
    spec fn wf_ids(&self) -> bool {
        &&& forall|k: u128|
            #[trigger] self.schedules@.dom().contains(k) ==> k < 0x100000000 && k
                < self.next_id as u128
        &&& self.next_id >= 1
        &&& forall|k: u128|
            #[trigger] self.remaining@.dom().contains(k) == self.schedules@.dom().contains(k)
        &&& forall|k: u128|
            #[trigger] self.retries@.dom().contains(k) ==> self.schedules@.dom().contains(k)
    }

    /// Stored schedules are usable and their budgets lie between one unit and
    /// the total.
    spec fn wf_budgets(&self) -> bool {
        forall|k: u128|
            #[trigger] self.schedules@.dom().contains(k) ==> {
                &&& 1 <= self.remaining@[k]
                &&& self.remaining@[k] <= self.schedules@[k].total_amount
                &&& self.schedules@[k].period >= 1
                &&& self.schedules@[k].slice != Some(0u128)
            }
    }

    /// A retry record exists only with at least one failure, strictly under
    /// the ceiling; at the ceiling the schedule is gone.
    spec fn wf_retries(&self) -> bool {
        forall|k: u128|
            #[trigger] self.retries@.dom().contains(k) ==> 1 <= self.retries@[k]
                && self.retries@[k] < self.config.retry_ceiling
    }

    /// Custody conservation: each stored schedule has exactly its remaining
    /// budget reserved under its own tag, and no tag exists without its
    /// schedule.
    spec fn wf_custody(&self) -> bool {
        &&& forall|k: u128|
            #[trigger] self.schedules@.dom().contains(k) ==> {
                &&& self.ledger.has_reserve(k as u64)
                &&& self.ledger.reserve_entry(k as u64) == (ReserveEntry {
                    tag: k as u64,
                    owner: self.schedules@[k].owner,
                    asset: self.schedules@[k].order.spec_sold_asset(),
                    amount: self.remaining@[k],
                })
            }
        &&& forall|t: u64|
            #[trigger] self.ledger.has_reserve(t) ==> t < 0x100000000 && self.schedules@.dom().contains(
                t as u128,
            )
    }

    /// Slot shape: block keys fit the block type, every slot is nonempty and
    /// within capacity, and each id occurs in at most one slot, at most once.
    spec fn slots_ok(&self) -> bool {
        &&& forall|b: u128| #[trigger] self.slots@.dom().contains(b) ==> b < 0x10000000000000000
        &&& forall|b: u128|
            #[trigger] self.slots@.dom().contains(b) ==> 1 <= self.slots@[b]@.len()
                && self.slots@[b]@.len() <= self.config.capacity
        &&& forall|b: u128|
            #[trigger] self.slots@.dom().contains(b) ==> self.slots@[b]@.no_duplicates()
        &&& forall|b1: u128, b2: u128, id: u32|
            self.slots@.dom().contains(b1) && self.slots@.dom().contains(b2) && b1 != b2 && (
            #[trigger] self.slots@[b1]@.contains(id)) ==> !(#[trigger] self.slots@[b2]@.contains(
                id,
            ))
    }

    /// The slot shape holds and every placed id is a stored schedule.
    spec fn wf_slots(&self) -> bool {
        &&& self.slots_ok()
        &&& forall|b: u128, i: int|
            self.slots@.dom().contains(b) && 0 <= i < self.slots@[b]@.len()
                ==> self.schedules@.dom().contains((#[trigger] self.slots@[b]@[i]) as u128)
    }

    pub closed spec fn wf(&self) -> bool {
        &&& self.config.valid()
        &&& self.schedules.wf()
        &&& self.remaining.wf()
        &&& self.retries.wf()
        &&& self.slots.wf()
        &&& self.ledger.wf()
        &&& self.wf_ids()
        &&& self.wf_budgets()
        &&& self.wf_retries()
        &&& self.wf_custody()
        &&& self.wf_slots()
    }

    /// Everything but the current block agrees.
    pub closed spec fn same_but_now(a: Scheduler, b: Scheduler) -> bool {
        &&& a.config == b.config
        &&& a.next_id == b.next_id
        &&& a.schedules == b.schedules
        &&& a.remaining == b.remaining
        &&& a.retries == b.retries
        &&& a.slots == b.slots
        &&& a.ledger == b.ledger
        &&& a.events == b.events
    }

    /// The schedule store, budgets and retry counters, seen through the
    /// public views, agree between two states.
    pub open spec fn same_store_views(a: Scheduler, b: Scheduler) -> bool {
        &&& forall|id: u32|
            #![trigger a.has_schedule(id)]
            #![trigger b.has_schedule(id)]
            a.has_schedule(id) == b.has_schedule(id)
        &&& forall|id: u32|
            #![trigger a.schedule_of(id)]
            #![trigger b.schedule_of(id)]
            a.schedule_of(id) == b.schedule_of(id)
        &&& forall|id: u32|
            #![trigger a.remaining_of(id)]
            #![trigger b.remaining_of(id)]
            a.remaining_of(id) == b.remaining_of(id)
        &&& forall|id: u32|
            #![trigger a.retries_of(id)]
            #![trigger b.retries_of(id)]
            a.retries_of(id) == b.retries_of(id)
    }

    /// The slot index, seen through the public views, agrees between two
    /// states.
    pub open spec fn same_slot_views(a: Scheduler, b: Scheduler) -> bool {
        &&& forall|blk: u64|
            #![trigger a.has_slot(blk)]
            #![trigger b.has_slot(blk)]
            a.has_slot(blk) == b.has_slot(blk)
        &&& forall|blk: u64|
            #![trigger a.ids_at(blk)]
            #![trigger b.ids_at(blk)]
            a.ids_at(blk) == b.ids_at(blk)
    }

    /// Spendable balances and named reserves, seen through the public views,
    /// agree between two states.
    pub open spec fn same_balance_views(a: Scheduler, b: Scheduler) -> bool {
        &&& forall|o: u64, asset: u32|
            #![trigger a.spec_free(o, asset)]
            #![trigger b.spec_free(o, asset)]
            a.spec_free(o, asset) == b.spec_free(o, asset)
        &&& forall|t: u64, asset: u32, o: u64|
            #![trigger a.spec_reserved(t, asset, o)]
            #![trigger b.spec_reserved(t, asset, o)]
            a.spec_reserved(t, asset, o) == b.spec_reserved(t, asset, o)
    }

    proof fn lemma_same_store_views(&self, other: Self)
        requires
            self.schedules == other.schedules,
            self.remaining == other.remaining,
            self.retries == other.retries,
        ensures
            Self::same_store_views(*self, other),
    {
        assert forall|id: u32| self.has_schedule(id) == other.has_schedule(id) && self.schedule_of(
            id,
        ) == other.schedule_of(id) && self.remaining_of(id) == other.remaining_of(id)
            && self.retries_of(id) == other.retries_of(id) by {}
    }

    proof fn lemma_same_balance_views(&self, other: Self)
        requires
            self.ledger == other.ledger,
        ensures
            Self::same_balance_views(*self, other),
    {
        assert forall|o: u64, asset: u32| self.spec_free(o, asset) == other.spec_free(
            o,
            asset,
        ) by {}
        assert forall|t: u64, asset: u32, o: u64|
            self.spec_reserved(t, asset, o) == other.spec_reserved(t, asset, o) by {}
    }

    proof fn lemma_same_slot_views(&self, other: Self)
        requires
            self.slots == other.slots,
        ensures
            Self::same_slot_views(*self, other),
    {
        assert forall|blk: u64|
            self.has_slot(blk) == other.has_slot(blk) && self.ids_at(blk) == other.ids_at(
                blk,
            ) by {}
    }

    /// Everything but the slot index agrees.
    pub closed spec fn same_but_slots(a: Scheduler, b: Scheduler) -> bool {
        &&& a.config == b.config
        &&& a.now == b.now
        &&& a.next_id == b.next_id
        &&& a.schedules == b.schedules
        &&& a.remaining == b.remaining
        &&& a.retries == b.retries
        &&& a.ledger == b.ledger
        &&& a.events == b.events
    }

    /// Everything but the ledger agrees.
    pub closed spec fn same_but_ledger(a: Scheduler, b: Scheduler) -> bool {
        &&& a.config == b.config
        &&& a.now == b.now
        &&& a.next_id == b.next_id
        &&& a.schedules == b.schedules
        &&& a.remaining == b.remaining
        &&& a.retries == b.retries
        &&& a.slots == b.slots
        &&& a.events == b.events
    }

    pub fn new(config: Config) -> (s: Scheduler)
        requires
            config.valid(),
        ensures
            s.wf(),
            s.spec_config() == config,
            s.spec_now() == 0,
            s.spec_next_id() == 1,
            forall|id: u32| !s.has_schedule(id),
            forall|b: u64| !s.has_slot(b) && s.ids_at(b) == Seq::<u32>::empty(),
            forall|owner: u64, asset: u32| s.spec_free(owner, asset) == 0,
            forall|tag: u64, asset: u32, owner: u64| s.spec_reserved(tag, asset, owner) == 0,
            s.events_seq() == Seq::<Event>::empty(),
    {
        Scheduler {
            config,
            now: 0,
            next_id: 1,
            schedules: Table::new(),
            remaining: Table::new(),
            retries: Table::new(),
            slots: Table::new(),
            ledger: Ledger::new(),
            events: Vec::new(),
        }
    }

    /// Advance (or set) the current block without processing anything, as the
    /// enclosing runtime does between blocks.
    pub fn set_block_number(&mut self, block: u64)
        requires
            old(self).wf(),
        ensures
            final(self).wf(),
            final(self).spec_now() == block,
            Self::same_but_now(*final(self), *old(self)),
            Self::same_store_views(*final(self), *old(self)),
            Self::same_slot_views(*final(self), *old(self)),
            Self::same_balance_views(*final(self), *old(self)),
            final(self).events_seq() == old(self).events_seq(),
            final(self).spec_next_id() == old(self).spec_next_id(),
            final(self).spec_config() == old(self).spec_config(),
    {
        self.now = block;
        proof {
            self.lemma_same_store_views(*old(self));
            self.lemma_same_slot_views(*old(self));
            self.lemma_same_balance_views(*old(self));
        }
    }

    /// Endow an account with a spendable balance, as the enclosing ledger
    /// does. Declined while funds of the same account and asset sit in
    /// custody, since overwriting the balance then could lose custodied
    /// funds.
    pub fn endow(&mut self, owner: u64, asset: u32, amount: u128) -> (ok: bool)
        requires
            old(self).wf(),
        ensures
            final(self).wf(),
            ok == !(exists|id: u32|
                #[trigger] old(self).has_schedule(id) && old(self).schedule_of(id).owner == owner
                    && old(self).schedule_of(id).order.spec_sold_asset() == asset),
            ok ==> final(self).spec_free(owner, asset) == amount,
            ok ==> forall|o2: u64, a2: u32|
                !(o2 == owner && a2 == asset) ==> final(self).spec_free(o2, a2) == old(
                    self,
                ).spec_free(o2, a2),
            ok ==> forall|t2: u64, a2: u32, o2: u64|
                final(self).spec_reserved(t2, a2, o2) == old(self).spec_reserved(t2, a2, o2),
            ok ==> Self::same_but_ledger(*final(self), *old(self)),
            Self::same_store_views(*final(self), *old(self)),
            Self::same_slot_views(*final(self), *old(self)),
            final(self).events_seq() == old(self).events_seq(),
            final(self).spec_now() == old(self).spec_now(),
            final(self).spec_next_id() == old(self).spec_next_id(),
            final(self).spec_config() == old(self).spec_config(),
            !ok ==> *final(self) == *old(self),
    {
        let ok = self.ledger.endow(owner, asset, amount);
        proof {
            self.lemma_same_store_views(*old(self));
            self.lemma_same_slot_views(*old(self));
            // custody for the pair exists exactly when a stored schedule
            // sells this asset for this owner
            old(self).ledger.lemma_reserve_for_iff(owner, asset);
            if old(self).ledger.has_reserve_for(owner, asset) {
                let t = choose|t: u64|
                    #[trigger] old(self).ledger.has_reserve(t) && old(self).ledger.reserve_entry(
                        t,
                    ).owner == owner && old(self).ledger.reserve_entry(t).asset == asset;
                assert(old(self).schedules@.dom().contains(t as u128));
                assert((t as u32) as u128 == t as u128);
                assert(old(self).has_schedule(t as u32) && old(self).schedule_of(t as u32).owner
                    == owner && old(self).schedule_of(t as u32).order.spec_sold_asset() == asset);
            }
            if exists|id: u32|
                #[trigger] old(self).has_schedule(id) && old(self).schedule_of(id).owner == owner
                    && old(self).schedule_of(id).order.spec_sold_asset() == asset {
                let id = choose|id: u32|
                    #[trigger] old(self).has_schedule(id) && old(self).schedule_of(id).owner
                        == owner && old(self).schedule_of(id).order.spec_sold_asset() == asset;
                assert(old(self).schedules@.dom().contains(id as u128));
                assert(old(self).ledger.has_reserve(id as u64) && old(self).ledger.reserve_entry(
                    id as u64,
                ).owner == owner && old(self).ledger.reserve_entry(id as u64).asset == asset);
            }
            if ok {
                assert forall|t: u64| #[trigger] self.ledger.has_reserve(t) implies t < 0x100000000
                    && self.schedules@.dom().contains(t as u128) by {
                    assert(old(self).ledger.has_reserve(t));
                }
                assert forall|k: u128| #[trigger] self.schedules@.dom().contains(
                    k,
                ) implies self.ledger.has_reserve(k as u64) && self.ledger.reserve_entry(k as u64)
                    == (ReserveEntry {
                    tag: k as u64,
                    owner: self.schedules@[k].owner,
                    asset: self.schedules@[k].order.spec_sold_asset(),
                    amount: self.remaining@[k],
                }) by {
                    assert(old(self).ledger.has_reserve(k as u64));
                }
            }
        }
        ok
    }

    pub fn free_balance(&self, owner: u64, asset: u32) -> (r: u128)
        requires
            self.wf(),
        ensures
            r == self.spec_free(owner, asset),
    {
        self.ledger.free_balance(owner, asset)
    }

    pub fn reserved_balance_named(&self, tag: u64, asset: u32, owner: u64) -> (r: u128)
        requires
            self.wf(),
        ensures
            r == self.spec_reserved(tag, asset, owner),
    {
        self.ledger.reserved_balance_named(tag, asset, owner)
    }

    pub fn schedules(&self, id: u32) -> (r: Option<&Schedule>)
        requires
            self.wf(),
        ensures
            match r {
                Some(s) => self.has_schedule(id) && *s == self.schedule_of(id),
                None => !self.has_schedule(id),
            },
    {
        self.schedules.get(id as u128)
    }

    pub fn owner_of(&self, id: u32) -> (r: Option<u64>)
        requires
            self.wf(),
        ensures
            match r {
                Some(o) => self.has_schedule(id) && o == self.schedule_of(id).owner,
                None => !self.has_schedule(id),
            },
    {
        match self.schedules.get(id as u128) {
            Some(s) => Some(s.owner),
            None => None,
        }
    }

    pub fn remaining_amounts(&self, id: u32) -> (r: Option<u128>)
        requires
            self.wf(),
        ensures
            match r {
                Some(a) => self.has_schedule(id) && a == self.remaining_of(id),
                None => !self.has_schedule(id),
            },
    {
        match self.remaining.get(id as u128) {
            Some(a) => Some(*a),
            None => None,
        }
    }

    pub fn retries_on_error(&self, id: u32) -> (r: u32)
        requires
            self.wf(),
        ensures
            r == self.retries_of(id),
    {
        match self.retries.get(id as u128) {
            Some(n) => *n,
            None => 0,
        }
    }

    pub fn schedule_ids_per_block(&self, block: u64) -> (r: Option<Vec<u32>>)
        requires
            self.wf(),
        ensures
            match r {
                Some(v) => self.has_slot(block) && v@ == self.ids_at(block),
                None => !self.has_slot(block),
            },
    {
        match self.slots.get(block as u128) {
            Some(ids) => {
                let n = ids.len();
                let mut out: Vec<u32> = Vec::new();
                let mut i: usize = 0;
                while i < n
                    invariant
                        n == ids@.len(),
                        i <= n,
                        out@ == ids@.subrange(0, i as int),
                    decreases n - i,
                {
                    out.push(ids[i]);
                    proof {
                        assert(out@ =~= ids@.subrange(0, i as int + 1));
                    }
                    i = i + 1;
                }
                proof {
                    assert(out@ =~= ids@);
                }
                Some(out)
            },
            None => None,
        }
    }

    /// A slot with spare capacity (an absent slot is empty).
    pub open spec fn free_at(&self, block: u64) -> bool {
        self.ids_at(block).len() < self.spec_config().capacity
    }

    /// First-fit linear probe: the first block at or after `block` with spare
    /// capacity, inspecting at most `fuel` consecutive blocks.
    pub open spec fn first_free_from(&self, block: u64, fuel: nat) -> Option<u64>
        decreases fuel,
    {
        if fuel == 0 {
            None
        } else if self.free_at(block) {
            Some(block)
        } else if block == u64::MAX {
            None
        } else {
            self.first_free_from((block + 1) as u64, (fuel - 1) as nat)
        }
    }

    /// Where the placement probe starting at `start` lands, if anywhere
    /// within the scan horizon.
    pub open spec fn spec_first_free(&self, start: u64) -> Option<u64> {
        self.first_free_from(start, self.spec_config().scan_horizon as nat)
    }

    proof fn lemma_first_free_props(&self, block: u64, fuel: nat)
        ensures
            match self.first_free_from(block, fuel) {
                Some(b) => block <= b && b as int - block < fuel && self.free_at(b),
                None => true,
            },
        decreases fuel,
    {
        if fuel > 0 && !self.free_at(block) && block != u64::MAX {
            self.lemma_first_free_props((block + 1) as u64, (fuel - 1) as nat);
        }
    }

    fn slot_len(&self, block: u64) -> (r: usize)
        requires
            self.wf(),
        ensures
            r == self.ids_at(block).len(),
    {
        match self.slots.get(block as u128) {
            Some(ids) => ids.len(),
            None => 0,
        }
    }

    fn find_free_block(&self, start: u64) -> (r: Option<u64>)
        requires
            self.wf(),
        ensures
            r == self.spec_first_free(start),
            match r {
                Some(b) => start <= b && self.free_at(b),
                None => true,
            },
    {
        let horizon = self.config.scan_horizon;
        let mut b = start;
        let mut i: u64 = 0;
        loop
            invariant
                self.wf(),
                i <= horizon,
                horizon == self.config.scan_horizon,
                b as int == start + i,
                self.spec_first_free(start) == self.first_free_from(b, (horizon - i) as nat),
            decreases horizon - i,
        {
            if i >= horizon {
                return None;
            }
            let len = self.slot_len(b);
            if len < self.config.capacity as usize {
                proof {
                    self.lemma_first_free_props(start, self.config.scan_horizon as nat);
                }
                return Some(b);
            }
            if b == u64::MAX {
                return None;
            }
            b = b + 1;
            i = i + 1;
        }
    }

    /// The outcome submission settles on, given the valuation the oracle
    /// returns for the total budget: the rejection, or the block placed at.
    pub open spec fn submit_outcome(
        &self,
        origin: Origin,
        sched: Schedule,
        start: Option<u64>,
        value: u128,
    ) -> Result<u64, Error> {
        if !(origin matches Origin::Signed(_)) {
            Err(Error::BadOrigin)
        } else if origin != Origin::Signed(sched.owner) {
            Err(Error::Forbidden)
        } else if start matches Some(b) && b <= self.spec_now() {
            Err(Error::BlockNumberIsNotInFuture)
        } else if sched.period == 0 || sched.slice == Some(0u128) || sched.total_amount == 0 {
            Err(Error::InvalidSchedule)
        } else if value <= self.spec_config().min_bond {
            Err(Error::TotalAmountShouldBeLargerThanStorageBond)
        } else if self.spec_free(sched.owner, sched.order.spec_sold_asset()) < sched.total_amount {
            Err(Error::InsufficientBalanceForTotalAmount)
        } else {
            let start_at = match start {
                Some(b) => b,
                None => (self.spec_now() + 1) as u64,
            };
            match self.spec_first_free(start_at) {
                Some(b) => Ok(b),
                None => Err(Error::NoFreeBlockFound),
            }
        }
    }

    /// Submit a recurring order: validate it, place its first execution at
    /// the first free block at or after the requested one, and move the whole
    /// budget into custody under the new schedule's tag. On rejection nothing
    /// changes. Callers must leave room in the id space and the block number
    /// line, both observable through [`Self::next_schedule_id`] and
    /// [`Self::current_block`].
    pub fn schedule<O: PriceOracle>(
        &mut self,
        origin: Origin,
        sched: Schedule,
        start: Option<u64>,
        oracle: &O,
    ) -> (r: Result<u32, Error>)
        requires
            old(self).wf(),
            old(self).spec_next_id() < u32::MAX,
            old(self).spec_now() < u64::MAX,
        ensures
            final(self).wf(),
            ({
                let sold = sched.order.spec_sold_asset();
                let value = if sold == old(self).spec_config().native_asset {
                    sched.total_amount
                } else {
                    oracle.spec_value(sold, sched.total_amount)
                };
                let out = old(self).submit_outcome(origin, sched, start, value);
                match r {
                    Err(e) => out == Err::<u64, Error>(e) && *final(self) == *old(self),
                    Ok(id) => {
                        &&& out is Ok
                        &&& id == old(self).spec_next_id()
                        &&& final(self).spec_next_id() == id + 1
                        &&& final(self).has_schedule(id)
                        &&& final(self).schedule_of(id) == sched
                        &&& final(self).remaining_of(id) == sched.total_amount
                        &&& final(self).retries_of(id) == 0
                        &&& forall|id2: u32|
                            id2 != id ==> final(self).has_schedule(id2) == old(self).has_schedule(
                                id2,
                            ) && final(self).schedule_of(id2) == old(self).schedule_of(id2)
                                && final(self).remaining_of(id2) == old(self).remaining_of(id2)
                                && final(self).retries_of(id2) == old(self).retries_of(id2)
                        &&& final(self).has_slot(out->Ok_0)
                        &&& final(self).ids_at(out->Ok_0) == old(self).ids_at(out->Ok_0).push(id)
                        &&& forall|b2: u64|
                            b2 != out->Ok_0 ==> final(self).has_slot(b2) == old(self).has_slot(b2)
                                && final(self).ids_at(b2) == old(self).ids_at(b2)
                        &&& final(self).spec_free(sched.owner, sold) == old(self).spec_free(
                            sched.owner,
                            sold,
                        ) - sched.total_amount
                        &&& forall|o2: u64, a2: u32|
                            !(o2 == sched.owner && a2 == sold) ==> final(self).spec_free(o2, a2)
                                == old(self).spec_free(o2, a2)
                        &&& final(self).spec_reserved(spec_reserve_identifier(id), sold, sched.owner)
                            == sched.total_amount
                        &&& forall|t2: u64, a2: u32, o2: u64|
                            t2 != spec_reserve_identifier(id) ==> final(self).spec_reserved(
                                t2,
                                a2,
                                o2,
                            ) == old(self).spec_reserved(t2, a2, o2)
                        &&& final(self).events_seq() == old(self).events_seq().push(
                            Event::Scheduled { id, who: sched.owner },
                        ).push(Event::ExecutionPlanned { id, who: sched.owner, block: out->Ok_0 })
                        &&& final(self).spec_now() == old(self).spec_now()
                        &&& final(self).spec_config() == old(self).spec_config()
                    },
                }
            }),
    {
        let who = match origin {
            Origin::Signed(a) => a,
            _ => { return Err(Error::BadOrigin) },
        };
        if who != sched.owner {
            return Err(Error::Forbidden);
        }
        if let Some(b) = start {
            if b <= self.now {
                return Err(Error::BlockNumberIsNotInFuture);
            }
        }
        if sched.period == 0 || sched.total_amount == 0 {
            return Err(Error::InvalidSchedule);
        }
        if let Some(cap) = sched.slice {
            if cap == 0 {
                return Err(Error::InvalidSchedule);
            }
        }
        let sold = sched.order.sold_asset();
        let value = if sold == self.config.native_asset {
            sched.total_amount
        } else {
            oracle.value_in_base_asset(sold, sched.total_amount)
        };
        if value <= self.config.min_bond {
            return Err(Error::TotalAmountShouldBeLargerThanStorageBond);
        }
        if self.ledger.free_balance(who, sold) < sched.total_amount {
            return Err(Error::InsufficientBalanceForTotalAmount);
        }
        let start_at = match start {
            Some(b) => b,
            None => self.now + 1,
        };
        let block = match self.find_free_block(start_at) {
            Some(b) => b,
            None => { return Err(Error::NoFreeBlockFound) },
        };
        let id = self.next_id;
        let total = sched.total_amount;
        let tag = reserve_identifier(id);
        proof {
            // the tag is fresh: a reserve implies a stored schedule, and all
            // stored ids lie strictly below the id being assigned
            if self.ledger.has_reserve(tag) {
                assert(self.schedules@.dom().contains(id as u128));
            }
        }
        let reserved = self.ledger.reserve_named(tag, who, sold, total);
        proof {
            assert(reserved);
        }
        self.next_id = id + 1;
        self.schedules.insert(id as u128, sched);
        self.remaining.insert(id as u128, total);
        let ids_new = match self.slots.remove(block as u128) {
            Some(v) => {
                let mut v2 = v;
                v2.push(id);
                v2
            },
            None => {
                let mut v2: Vec<u32> = Vec::new();
                v2.push(id);
                v2
            },
        };
        self.slots.insert(block as u128, ids_new);
        self.events.push(Event::Scheduled { id, who });
        self.events.push(Event::ExecutionPlanned { id, who, block });
        proof {
            assert(self.slots@ =~= old(self).slots@.remove(block as u128).insert(
                block as u128,
                self.slots@[block as u128],
            ));
            self.lemma_submit_ok(*old(self), id, block, ids_new@);
        }
        Ok(id)
    }

    /// Well-formedness and the submission frame, re-established after the
    /// mutations of a successful submission.
    proof fn lemma_submit_ok(&self, prev: Self, id: u32, block: u64, ids_new: Seq<u32>)
        requires
            prev.wf(),
            id == prev.next_id,
            id < u32::MAX,
            prev.free_at(block),
            self.config == prev.config,
            self.now == prev.now,
            self.next_id == id + 1,
            self.schedules.wf(),
            self.remaining.wf(),
            self.slots.wf(),
            self.retries == prev.retries,
            self.schedules@ == prev.schedules@.insert(id as u128, self.schedules@[id as u128]),
            self.remaining@ == prev.remaining@.insert(
                id as u128,
                self.schedules@[id as u128].total_amount,
            ),
            self.schedules@[id as u128].period >= 1,
            self.schedules@[id as u128].slice != Some(0u128),
            self.schedules@[id as u128].total_amount >= 1,
            self.slots@ == prev.slots@.remove(block as u128).insert(block as u128, self.slots@[block as u128]),
            self.slots@[block as u128]@ == prev.ids_at(block).push(id),
            self.ledger.wf(),
            self.ledger.has_reserve(id as u64),
            self.ledger.reserve_entry(id as u64) == (ReserveEntry {
                tag: id as u64,
                owner: self.schedules@[id as u128].owner,
                asset: self.schedules@[id as u128].order.spec_sold_asset(),
                amount: self.schedules@[id as u128].total_amount,
            }),
            forall|t2: u64|
                t2 != id as u64 ==> self.ledger.has_reserve(t2) == prev.ledger.has_reserve(t2),
            forall|t2: u64|
                t2 != id as u64 && prev.ledger.has_reserve(t2) ==> self.ledger.reserve_entry(t2)
                    == prev.ledger.reserve_entry(t2),
        ensures
            self.wf(),
            forall|id2: u32|
                id2 != id ==> self.has_schedule(id2) == prev.has_schedule(id2) && self.schedule_of(
                    id2,
                ) == prev.schedule_of(id2) && self.remaining_of(id2) == prev.remaining_of(id2)
                    && self.retries_of(id2) == prev.retries_of(id2),
            self.has_slot(block),
            self.ids_at(block) == prev.ids_at(block).push(id),
            forall|b2: u64|
                b2 != block ==> self.has_slot(b2) == prev.has_slot(b2) && self.ids_at(b2)
                    == prev.ids_at(b2),
    {
        let idk = id as u128;
        let bk = block as u128;
        // the fresh id is stored in no slot of prev
        assert forall|b: u128, i: int|
            prev.slots@.dom().contains(b) && 0 <= i < prev.slots@[b]@.len() implies (
        #[trigger] prev.slots@[b]@[i]) != id by {
            assert(prev.schedules@.dom().contains(prev.slots@[b]@[i] as u128));
        }
        assert(self.wf_ids());
        assert(self.wf_budgets());
        assert(self.wf_retries());
        // custody both ways
        assert forall|k: u128| #[trigger] self.schedules@.dom().contains(k) implies {
            &&& self.ledger.has_reserve(k as u64)
            &&& self.ledger.reserve_entry(k as u64) == (ReserveEntry {
                tag: k as u64,
                owner: self.schedules@[k].owner,
                asset: self.schedules@[k].order.spec_sold_asset(),
                amount: self.remaining@[k],
            })
        } by {
            if k != idk {
                assert(prev.schedules@.dom().contains(k));
                assert(k < 0x100000000 && idk < 0x100000000);
                assert(k as u64 != id as u64);
            }
        }
        assert forall|t: u64| #[trigger] self.ledger.has_reserve(t) implies t < 0x100000000
            && self.schedules@.dom().contains(t as u128) by {
            if t != id as u64 {
                assert(prev.ledger.has_reserve(t));
            }
        }
        assert(self.wf_custody());
        // slots
        let v = self.slots@[bk]@;
        assert(v.len() == prev.ids_at(block).len() + 1);
        assert(prev.ids_at(block).len() < self.config.capacity);
        assert forall|i: int, j: int| 0 <= i < v.len() && 0 <= j < v.len() && i != j implies v[i]
            != v[j] by {
            let pv = prev.ids_at(block);
            if i < pv.len() && j < pv.len() {
                assert(pv.no_duplicates()) by {
                    if prev.slots@.dom().contains(bk) {
                    }
                }
            } else if i == pv.len() {
                if prev.slots@.dom().contains(bk) {
                    assert(pv[j] != id);
                }
            } else {
                if prev.slots@.dom().contains(bk) {
                    assert(pv[i] != id);
                }
            }
        }
        assert(v.no_duplicates());
        assert forall|b: u128| #[trigger] self.slots@.dom().contains(b) implies b
            < 0x10000000000000000 && 1 <= self.slots@[b]@.len() && self.slots@[b]@.len()
            <= self.config.capacity && self.slots@[b]@.no_duplicates() by {
            if b != bk {
                assert(prev.slots@.dom().contains(b));
            }
        }
        assert forall|b: u128, i: int|
            self.slots@.dom().contains(b) && 0 <= i < self.slots@[b]@.len() implies self.schedules@.dom().contains(
            (#[trigger] self.slots@[b]@[i]) as u128,
        ) by {
            if b != bk {
                assert(prev.slots@.dom().contains(b));
                assert(prev.slots@[b]@[i] == self.slots@[b]@[i]);
                assert(prev.schedules@.dom().contains(prev.slots@[b]@[i] as u128));
            } else {
                let pv = prev.ids_at(block);
                if i < pv.len() {
                    assert(prev.slots@.dom().contains(bk));
                    assert(prev.schedules@.dom().contains(pv[i] as u128));
                }
            }
        }
        assert forall|b1: u128, b2: u128, id2: u32|
            self.slots@.dom().contains(b1) && self.slots@.dom().contains(b2) && b1 != b2 && (
        #[trigger] self.slots@[b1]@.contains(id2)) implies !(#[trigger] self.slots@[b2]@.contains(
            id2,
        )) by {
            // membership in a new slot reduces to membership in the old one,
            // except for the fresh id, which is only at `block`
            if self.slots@[b2]@.contains(id2) {
                let i1 = choose|i: int| 0 <= i < self.slots@[b1]@.len() && self.slots@[b1]@[i] == id2;
                let i2 = choose|i: int| 0 <= i < self.slots@[b2]@.len() && self.slots@[b2]@[i] == id2;
                if b1 != bk && b2 != bk {
                    assert(prev.slots@.dom().contains(b1));
                    assert(prev.slots@.dom().contains(b2));
                    assert(prev.slots@[b1]@.contains(id2));
                    assert(prev.slots@[b2]@.contains(id2));
                } else if b1 == bk {
                    let pv = prev.ids_at(block);
                    assert(prev.slots@.dom().contains(b2));
                    if id2 == id {
                        assert(prev.slots@[b2]@[i2] != id);
                        assert(false);
                    } else {
                        assert(i1 < pv.len());
                        assert(prev.slots@.dom().contains(bk));
                        assert(prev.slots@[bk]@.contains(id2));
                        assert(prev.slots@[b2]@.contains(id2));
                    }
                } else {
                    let pv = prev.ids_at(block);
                    assert(prev.slots@.dom().contains(b1));
                    if id2 == id {
                        assert(prev.slots@[b1]@[i1] != id);
                        assert(false);
                    } else {
                        assert(i2 < pv.len());
                        assert(prev.slots@.dom().contains(bk));
                        assert(prev.slots@[bk]@.contains(id2));
                        assert(prev.slots@[b1]@.contains(id2));
                    }
                }
            }
        }
        assert(self.wf_slots());
        // slot frame for the ensures
        assert forall|b2: u64| b2 != block implies self.has_slot(b2) == prev.has_slot(b2)
            && self.ids_at(b2) == prev.ids_at(b2) by {
            assert(b2 as u128 != bk);
        }
    }

    /// Take `id` out of whichever slot holds it; every other slot is left
    /// alone, and a slot emptied by the removal is dropped.
    fn remove_from_slots(&mut self, id: u32)
        requires
            old(self).slots.wf(),
            old(self).slots_ok(),
        ensures
            final(self).slots.wf(),
            final(self).slots_ok(),
            Self::same_but_slots(*final(self), *old(self)),
            forall|b: u64| !final(self).planned_at(id, b),
            forall|b: u64, x: u32|
                #[trigger] final(self).planned_at(x, b) ==> old(self).planned_at(x, b),
            forall|b: u64|
                !old(self).planned_at(id, b) ==> final(self).has_slot(b) == old(self).has_slot(b)
                    && final(self).ids_at(b) == old(self).ids_at(b),
            forall|b: u64|
                #[trigger] old(self).planned_at(id, b) ==> final(self).ids_at(b) == old(
                    self,
                ).ids_at(b).remove_value(id) && final(self).has_slot(b) == (old(self).ids_at(
                    b,
                ).len() > 1),
    {
        let ks = self.slots.keys_vec();
        let n = ks.len();
        let mut i: usize = 0;
        while i < n
            invariant
                *self == *old(self),
                self.slots.wf(),
                self.slots_ok(),
                n == ks@.len(),
                i <= n,
                forall|k: u128| #[trigger] ks@.contains(k) <==> self.slots@.dom().contains(k),
                forall|j: int| 0 <= j < ks@.len() ==> self.slots@.dom().contains(#[trigger] ks@[j]),
                forall|j: int| 0 <= j < i ==> !self.slots@[#[trigger] ks@[j]]@.contains(id),
            decreases n - i,
        {
            let k = ks[i];
            let slot = match self.slots.get(k) {
                Some(v) => v,
                None => { return ; },
            };
            match Self::index_of_id(slot, id) {
                Some(j) => {
                    let ghost oldv = slot@;
                    let ghost b0 = k as u64;
                    proof {
                        assert(self.slots@.dom().contains(k));
                        assert(k < 0x10000000000000000);
                        assert(b0 as u128 == k);
                        assert(oldv.contains(id)) by {
                            assert(oldv[j as int] == id);
                        }
                    }
                    if slot.len() == 1 {
                        self.slots.remove(k);
                    } else {
                        let len = slot.len();
                        let mut newv: Vec<u32> = Vec::new();
                        let mut i2: usize = 0;
                        while i2 < len
                            invariant
                                *self == *old(self),
                                self.slots.wf(),
                                self.slots@.dom().contains(k),
                                oldv == self.slots@[k]@,
                                len == oldv.len(),
                                j < len,
                                i2 <= len,
                                newv@ == (if i2 <= j {
                                    oldv.subrange(0, i2 as int)
                                } else {
                                    oldv.subrange(0, j as int).add(
                                        oldv.subrange(j as int + 1, i2 as int),
                                    )
                                }),
                            decreases len - i2,
                        {
                            if i2 != j {
                                let slot2 = match self.slots.get(k) {
                                    Some(v) => v,
                                    None => { return ; },
                                };
                                newv.push(slot2[i2]);
                            }
                            proof {
                                if i2 + 1 <= j {
                                    assert(newv@ =~= oldv.subrange(0, i2 as int + 1));
                                } else {
                                    assert(newv@ =~= oldv.subrange(0, j as int).add(
                                        oldv.subrange(j as int + 1, i2 as int + 1),
                                    ));
                                }
                            }
                            i2 = i2 + 1;
                        }
                        proof {
                            assert(newv@ =~= oldv.remove(j as int));
                        }
                        self.slots.remove(k);
                        self.slots.insert(k, newv);
                    }
                    proof {
                        self.lemma_after_slot_scrub(*old(self), id, b0, j as int);
                    }
                    return ;
                },
                None => {
                    i = i + 1;
                },
            }
        }
        proof {
            assert forall|b: u64| !self.planned_at(id, b) by {
                if self.slots@.dom().contains(b as u128) {
                    assert(ks@.contains(b as u128));
                    let j = choose|j: int| 0 <= j < ks@.len() && ks@[j] == b as u128;
                    assert(!self.slots@[ks@[j]]@.contains(id));
                }
            }
        }
    }

    /// After scrubbing `id` out of the one slot `b0` that held it (at first
    /// position `j`), the slot index is still well shaped and every other
    /// slot is untouched.
    proof fn lemma_after_slot_scrub(&self, prev: Self, id: u32, b0: u64, j: int)
        requires
            prev.slots.wf(),
            prev.slots_ok(),
            self.slots.wf(),
            Self::same_but_slots(*self, prev),
            prev.slots@.dom().contains(b0 as u128),
            0 <= j < prev.ids_at(b0).len(),
            prev.ids_at(b0)[j] == id,
            forall|j2: int| 0 <= j2 < j ==> prev.ids_at(b0)[j2] != id,
            self.slots@ == (if prev.ids_at(b0).len() == 1 {
                prev.slots@.remove(b0 as u128)
            } else {
                prev.slots@.remove(b0 as u128).insert(
                    b0 as u128,
                    self.slots@[b0 as u128],
                )
            }),
            prev.ids_at(b0).len() > 1 ==> self.slots@[b0 as u128]@ == prev.ids_at(b0).remove(j),
        ensures
            self.slots_ok(),
            forall|b: u64| !self.planned_at(id, b),
            forall|b: u64, x: u32| #[trigger] self.planned_at(x, b) ==> prev.planned_at(x, b),
            forall|b: u64|
                !prev.planned_at(id, b) ==> self.has_slot(b) == prev.has_slot(b) && self.ids_at(b)
                    == prev.ids_at(b),
            forall|b: u64|
                #[trigger] prev.planned_at(id, b) ==> self.ids_at(b) == prev.ids_at(
                    b,
                ).remove_value(id) && self.has_slot(b) == (prev.ids_at(b).len() > 1),
    {
        let bk = b0 as u128;
        let pv = prev.ids_at(b0);
        // only the slot at b0 held the id
        assert forall|b: u64| b != b0 implies !prev.planned_at(id, b) by {
            if prev.slots@.dom().contains(b as u128) {
                assert(prev.slots@[bk]@.contains(id)) by {
                    assert(pv[j] == id);
                }
                assert(b as u128 != bk);
            }
        }
        // the scrubbed slot, when it survives, lost exactly the id
        if pv.len() > 1 {
            let nv = self.slots@[bk]@;
            assert(nv =~= pv.remove(j));
            assert forall|j2: int| 0 <= j2 < nv.len() implies nv[j2] == (if j2 < j {
                pv[j2]
            } else {
                pv[j2 + 1]
            }) by {}
            assert forall|j2: int| 0 <= j2 < nv.len() implies nv[j2] != id by {
                let jp = if j2 < j {
                    j2
                } else {
                    j2 + 1
                };
                assert(prev.slots@[bk]@.no_duplicates());
                assert(pv[jp] == nv[j2]);
                if pv[jp] == id {
                    assert(jp != j ==> pv[jp] != pv[j]);
                }
            }
            assert(!nv.contains(id));
            assert forall|x: u32| #[trigger] nv.contains(x) implies pv.contains(x) by {
                let j2 = choose|j2: int| 0 <= j2 < nv.len() && nv[j2] == x;
                let jp = if j2 < j {
                    j2
                } else {
                    j2 + 1
                };
                assert(pv[jp] == x);
            }
            assert(nv.no_duplicates());
        }
        // and equals remove_value of the old slot
        assert(pv.remove_value(id) == (if pv.len() == 1 {
            Seq::<u32>::empty()
        } else {
            pv.remove(j)
        })) by {
            pv.index_of_first_ensures(id);
            assert(pv.contains(id)) by {
                assert(pv[j] == id);
            }
            let idx = pv.index_of_first(id).unwrap();
            assert(idx == j);
            if pv.len() == 1 {
                assert(pv.remove(j) =~= Seq::<u32>::empty());
            }
        }
        assert(self.slots_ok());
        assert forall|b: u64| !self.planned_at(id, b) by {
            if b != b0 {
                if self.slots@.dom().contains(b as u128) {
                    assert(self.slots@[b as u128] == prev.slots@[b as u128]);
                    assert(!prev.planned_at(id, b));
                }
            }
        }
    }

    /// First position of `id` in a slot, scanning forward.
    fn index_of_id(v: &Vec<u32>, id: u32) -> (r: Option<usize>)
        ensures
            match r {
                Some(j) => j < v@.len() && v@[j as int] == id && forall|k: int|
                    0 <= k < j ==> v@[k] != id,
                None => !v@.contains(id),
            },
    {
        let n = v.len();
        let mut i: usize = 0;
        while i < n
            invariant
                n == v@.len(),
                i <= n,
                forall|k: int| 0 <= k < i ==> v@[k] != id,
            decreases n - i,
        {
            if v[i] == id {
                return Some(i);
            }
            i = i + 1;
        }
        None
    }

    /// Well-formedness after a schedule is purged: its store, budget, retry
    /// and custody entries are gone, no slot holds it, and nothing else
    /// changed shape.
    proof fn lemma_wf_after_purge(&self, prev: Self, id: u32)
        requires
            prev.wf(),
            prev.has_schedule(id),
            self.config == prev.config,
            self.now == prev.now,
            self.next_id == prev.next_id,
            self.schedules.wf(),
            self.remaining.wf(),
            self.retries.wf(),
            self.slots.wf(),
            self.ledger.wf(),
            self.schedules@ == prev.schedules@.remove(id as u128),
            self.remaining@ == prev.remaining@.remove(id as u128),
            self.retries@ == prev.retries@.remove(id as u128),
            !self.ledger.has_reserve(id as u64),
            forall|t2: u64|
                t2 != id as u64 ==> self.ledger.has_reserve(t2) == prev.ledger.has_reserve(t2),
            forall|t2: u64|
                t2 != id as u64 && prev.ledger.has_reserve(t2) ==> self.ledger.reserve_entry(t2)
                    == prev.ledger.reserve_entry(t2),
            self.slots_ok(),
            forall|b: u64| !self.planned_at(id, b),
            forall|b: u64, x: u32| #[trigger] self.planned_at(x, b) ==> prev.planned_at(x, b),
        ensures
            self.wf(),
    {
        assert(self.wf_ids());
        assert(self.wf_budgets());
        assert(self.wf_retries());
        assert forall|k: u128| #[trigger] self.schedules@.dom().contains(k) implies {
            &&& self.ledger.has_reserve(k as u64)
            &&& self.ledger.reserve_entry(k as u64) == (ReserveEntry {
                tag: k as u64,
                owner: self.schedules@[k].owner,
                asset: self.schedules@[k].order.spec_sold_asset(),
                amount: self.remaining@[k],
            })
        } by {
            assert(prev.schedules@.dom().contains(k));
            assert(k < 0x100000000);
            assert(k as u64 != id as u64) by {
                assert(k != id as u128);
            }
        }
        assert forall|t: u64| #[trigger] self.ledger.has_reserve(t) implies t < 0x100000000
            && self.schedules@.dom().contains(t as u128) by {
            assert(t != id as u64);
            assert(prev.ledger.has_reserve(t));
            assert(t as u128 != id as u128);
        }
        assert(self.wf_custody());
        assert forall|b: u128, i: int|
            self.slots@.dom().contains(b) && 0 <= i < self.slots@[b]@.len() implies self.schedules@.dom().contains(
            (#[trigger] self.slots@[b]@[i]) as u128,
        ) by {
            let x = self.slots@[b]@[i];
            assert(b < 0x10000000000000000);
            assert(self.planned_at(x, b as u64)) by {
                assert(self.ids_at(b as u64) == self.slots@[b]@);
            }
            assert(prev.planned_at(x, b as u64));
            assert(prev.slots@.dom().contains(b));
            let i2 = choose|i2: int|
                0 <= i2 < prev.slots@[b]@.len() && prev.slots@[b]@[i2] == x;
            assert(prev.schedules@.dom().contains(x as u128));
            assert(x != id) by {
                assert(!self.planned_at(id, b as u64));
            }
            assert(x as u128 != id as u128);
        }
        assert(self.wf_slots());
    }

    /// Terminate a schedule: callable by its owner or by root. Removes the
    /// schedule, its slot entry, its ownership, its retry record, and returns
    /// the full remaining reservation to the owner, all or nothing.
    pub fn terminate(&mut self, origin: Origin, id: u32) -> (r: Result<(), Error>)
        requires
            old(self).wf(),
        ensures
            final(self).wf(),
            match r {
                Err(e) => {
                    &&& *final(self) == *old(self)
                    &&& e == (if origin is Unsigned {
                        Error::BadOrigin
                    } else if !old(self).has_schedule(id) {
                        Error::ScheduleNotFound
                    } else {
                        Error::NotScheduleOwner
                    })
                    &&& (origin is Unsigned || !old(self).has_schedule(id) || (origin matches
                    Origin::Signed(a) && a != old(self).schedule_of(id).owner))
                },
                Ok(_) => {
                    &&& !(origin is Unsigned)
                    &&& old(self).has_schedule(id)
                    &&& (origin matches Origin::Signed(a) ==> a == old(self).schedule_of(id).owner)
                    &&& !final(self).has_schedule(id)
                    &&& final(self).retries_of(id) == 0
                    &&& forall|id2: u32|
                        id2 != id ==> {
                            &&& final(self).has_schedule(id2) == old(self).has_schedule(id2)
                            &&& final(self).schedule_of(id2) == old(self).schedule_of(id2)
                            &&& final(self).remaining_of(id2) == old(self).remaining_of(id2)
                            &&& final(self).retries_of(id2) == old(self).retries_of(id2)
                        }
                    &&& forall|b: u64| !final(self).planned_at(id, b)
                    &&& forall|b: u64|
                        !old(self).planned_at(id, b) ==> final(self).has_slot(b) == old(
                            self,
                        ).has_slot(b) && final(self).ids_at(b) == old(self).ids_at(b)
                    &&& forall|b: u64|
                        #[trigger] old(self).planned_at(id, b) ==> final(self).ids_at(b) == old(
                            self,
                        ).ids_at(b).remove_value(id) && final(self).has_slot(b) == (old(
                            self,
                        ).ids_at(b).len() > 1)
                    &&& final(self).spec_free(
                        old(self).schedule_of(id).owner,
                        old(self).schedule_of(id).order.spec_sold_asset(),
                    ) == old(self).spec_free(
                        old(self).schedule_of(id).owner,
                        old(self).schedule_of(id).order.spec_sold_asset(),
                    ) + old(self).remaining_of(id)
                    &&& forall|o2: u64, a2: u32|
                        !(o2 == old(self).schedule_of(id).owner && a2 == old(self).schedule_of(
                            id,
                        ).order.spec_sold_asset()) ==> final(self).spec_free(o2, a2) == old(
                            self,
                        ).spec_free(o2, a2)
                    &&& forall|a2: u32, o2: u64|
                        final(self).spec_reserved(spec_reserve_identifier(id), a2, o2) == 0
                    &&& forall|t2: u64, a2: u32, o2: u64|
                        t2 != spec_reserve_identifier(id) ==> final(self).spec_reserved(t2, a2, o2)
                            == old(self).spec_reserved(t2, a2, o2)
                    &&& final(self).events_seq() == old(self).events_seq().push(
                        Event::Terminated { id, who: old(self).schedule_of(id).owner },
                    )
                    &&& final(self).spec_now() == old(self).spec_now()
                    &&& final(self).spec_next_id() == old(self).spec_next_id()
                    &&& final(self).spec_config() == old(self).spec_config()
                },
            },
    {
        match origin {
            Origin::Unsigned => { return Err(Error::BadOrigin) },
            _ => {},
        }
        let who: u64;
        match self.schedules.get(id as u128) {
            None => { return Err(Error::ScheduleNotFound) },
            Some(s) => {
                who = s.owner;
            },
        }
        if let Origin::Signed(a) = origin {
            if a != who {
                return Err(Error::NotScheduleOwner);
            }
        }
        let tag = reserve_identifier(id);
        self.ledger.release_named(tag);
        let _stored = self.schedules.remove(id as u128);
        let _budget = self.remaining.remove(id as u128);
        let _record = self.retries.remove(id as u128);
        proof {
            assert(self.retries@ =~= old(self).retries@.remove(id as u128));
        }
        self.events.push(Event::Terminated { id, who });
        self.remove_from_slots(id);
        proof {
            self.lemma_wf_after_purge(*old(self), id);
        }
        Ok(())
    }

    /// Where the engine replans a schedule that executed at the current
    /// block, `delay` blocks ahead: the first free slot within the horizon,
    /// if the delayed block exists and a free slot is found.
    pub open spec fn replan_block(&self, delay: u64) -> Option<u64> {
        if self.spec_now() + delay <= u64::MAX {
            self.spec_first_free((self.spec_now() + delay) as u64)
        } else {
            None
        }
    }

    /// Where one engine step moves the schedule next: no block at all when it
    /// retires (budget exhausted, retry ceiling reached, or no free slot),
    /// else the first-fit block one period ahead on success or one retry
    /// delay ahead on a tolerated failure.
    pub open spec fn step_placement(pre: Scheduler, id: u32, outcome: Result<
        u128,
        TradeFailure,
    >) -> Option<u64> {
        let rem = pre.remaining_of(id);
        let amount = pre.schedule_of(id).spec_next_amount(rem);
        match outcome {
            Ok(_) => {
                if rem - amount == 0 {
                    None
                } else {
                    pre.replan_block(pre.schedule_of(id).period)
                }
            },
            Err(_) => {
                if pre.retries_of(id) + 1 < pre.spec_config().retry_ceiling {
                    pre.replan_block(pre.spec_config().retry_delay)
                } else {
                    None
                }
            },
        }
    }

    /// One step of the execution engine: how the whole state changes when the
    /// drained schedule `id` reacts to `outcome`. The traded amount is the
    /// per-period slice capped by the remaining budget; success consumes it
    /// from custody and budget atomically and replans one period ahead,
    /// exhaustion completes, a tolerated failure counts and replans one
    /// retry delay ahead (a fixed delay, configured shorter than typical
    /// periods), and the failure that reaches the ceiling — or any step that
    /// cannot be replanned — terminates the schedule with a full refund of
    /// what custody still holds.
    pub open spec fn engine_step(
        pre: Scheduler,
        post: Scheduler,
        id: u32,
        outcome: Result<u128, TradeFailure>,
    ) -> bool {
        let sched = pre.schedule_of(id);
        let who = sched.owner;
        let sold = sched.order.spec_sold_asset();
        let rem = pre.remaining_of(id);
        let amount = sched.spec_next_amount(rem);
        let tag = spec_reserve_identifier(id);
        &&& pre.has_schedule(id)
        &&& post.spec_now() == pre.spec_now()
        &&& post.spec_next_id() == pre.spec_next_id()
        &&& post.spec_config() == pre.spec_config()
        &&& forall|id2: u32|
            id2 != id ==> {
                &&& post.has_schedule(id2) == pre.has_schedule(id2)
                &&& post.schedule_of(id2) == pre.schedule_of(id2)
                &&& post.remaining_of(id2) == pre.remaining_of(id2)
                &&& post.retries_of(id2) == pre.retries_of(id2)
            }
        &&& forall|t2: u64, a2: u32, o2: u64|
            t2 != tag ==> post.spec_reserved(t2, a2, o2) == pre.spec_reserved(t2, a2, o2)
        &&& forall|o2: u64, a2: u32|
            !(o2 == who && a2 == sold) ==> post.spec_free(o2, a2) == pre.spec_free(o2, a2)
        &&& match outcome {
            Ok(got) => {
                let new_rem = (rem - amount) as u128;
                let fired = pre.events_seq().push(
                    Event::TradeExecuted { id, who, amount_in: amount, amount_out: got },
                );
                &&& post.retries_of(id) == 0
                &&& if new_rem == 0 {
                    &&& !post.has_schedule(id)
                    &&& forall|b: u64|
                        post.has_slot(b) == pre.has_slot(b) && post.ids_at(b) == pre.ids_at(b)
                    &&& forall|a2: u32, o2: u64| post.spec_reserved(tag, a2, o2) == 0
                    &&& post.spec_free(who, sold) == pre.spec_free(who, sold)
                    &&& post.events_seq() == fired.push(Event::Completed { id, who })
                } else {
                    match pre.replan_block(sched.period) {
                        Some(b) => {
                            &&& b > pre.spec_now()
                            &&& post.has_schedule(id)
                            &&& post.schedule_of(id) == sched
                            &&& post.remaining_of(id) == new_rem
                            &&& post.spec_reserved(tag, sold, who) == new_rem
                            &&& post.spec_free(who, sold) == pre.spec_free(who, sold)
                            &&& post.ids_at(b) == pre.ids_at(b).push(id)
                            &&& forall|b2: u64|
                                b2 != b ==> post.has_slot(b2) == pre.has_slot(b2) && post.ids_at(
                                    b2,
                                ) == pre.ids_at(b2)
                            &&& post.events_seq() == fired.push(
                                Event::ExecutionPlanned { id, who, block: b },
                            )
                        },
                        None => {
                            &&& !post.has_schedule(id)
                            &&& forall|b: u64|
                                post.has_slot(b) == pre.has_slot(b) && post.ids_at(b)
                                    == pre.ids_at(b)
                            &&& forall|a2: u32, o2: u64| post.spec_reserved(tag, a2, o2) == 0
                            &&& post.spec_free(who, sold) == pre.spec_free(who, sold) + new_rem
                            &&& post.events_seq() == fired.push(Event::Terminated { id, who })
                        },
                    }
                }
            },
            Err(reason) => {
                let n = (pre.retries_of(id) + 1) as u32;
                let fired = pre.events_seq().push(Event::TradeFailed { id, who, reason });
                if n < pre.spec_config().retry_ceiling {
                    match pre.replan_block(pre.spec_config().retry_delay) {
                        Some(b) => {
                            &&& b > pre.spec_now()
                            &&& post.has_schedule(id)
                            &&& post.schedule_of(id) == sched
                            &&& post.remaining_of(id) == rem
                            &&& post.retries_of(id) == n
                            &&& post.spec_reserved(tag, sold, who) == rem
                            &&& post.spec_free(who, sold) == pre.spec_free(who, sold)
                            &&& post.ids_at(b) == pre.ids_at(b).push(id)
                            &&& forall|b2: u64|
                                b2 != b ==> post.has_slot(b2) == pre.has_slot(b2) && post.ids_at(
                                    b2,
                                ) == pre.ids_at(b2)
                            &&& post.events_seq() == fired.push(
                                Event::ExecutionPlanned { id, who, block: b },
                            )
                        },
                        None => {
                            &&& !post.has_schedule(id)
                            &&& post.retries_of(id) == 0
                            &&& forall|b: u64|
                                post.has_slot(b) == pre.has_slot(b) && post.ids_at(b)
                                    == pre.ids_at(b)
                            &&& forall|a2: u32, o2: u64| post.spec_reserved(tag, a2, o2) == 0
                            &&& post.spec_free(who, sold) == pre.spec_free(who, sold) + rem
                            &&& post.events_seq() == fired.push(Event::Terminated { id, who })
                        },
                    }
                } else {
                    &&& !post.has_schedule(id)
                    &&& post.retries_of(id) == 0
                    &&& forall|b: u64|
                        post.has_slot(b) == pre.has_slot(b) && post.ids_at(b) == pre.ids_at(b)
                    &&& forall|a2: u32, o2: u64| post.spec_reserved(tag, a2, o2) == 0
                    &&& post.spec_free(who, sold) == pre.spec_free(who, sold) + rem
                    &&& post.events_seq() == fired.push(Event::Terminated { id, who })
                }
            },
        }
    }

    /// The state right after a block is opened for processing: the clock
    /// moved to `block`, its slot was drained, and nothing else changed.
    pub open spec fn block_opened(pre: Scheduler, mid: Scheduler, block: u64) -> bool {
        &&& mid.spec_now() == block
        &&& !mid.has_slot(block)
        &&& forall|b2: u64|
            b2 != block ==> mid.has_slot(b2) == pre.has_slot(b2) && mid.ids_at(b2) == pre.ids_at(
                b2,
            )
        &&& Self::same_store_views(mid, pre)
        &&& Self::same_balance_views(mid, pre)
        &&& mid.events_seq() == pre.events_seq()
        &&& mid.spec_next_id() == pre.spec_next_id()
        &&& mid.spec_config() == pre.spec_config()
    }

    /// A whole engine pass: starting from `pre`, the ids execute one engine
    /// step each, in order, under the given outcome sequence, ending at
    /// `post`. This pins sequential, in-order, exactly-once processing and
    /// the per-id state change and events for every outcome sequence.
    pub open spec fn engine_run(
        pre: Scheduler,
        post: Scheduler,
        ids: Seq<u32>,
        outcomes: Seq<Result<u128, TradeFailure>>,
    ) -> bool
        decreases ids.len(),
    {
        if ids.len() == 0 {
            post == pre
        } else {
            &&& outcomes.len() > 0
            &&& exists|mid: Scheduler|
                #[trigger] Self::engine_step(pre, mid, ids[0], outcomes[0]) && Self::engine_run(
                    mid,
                    post,
                    ids.drop_first(),
                    outcomes.drop_first(),
                )
        }
    }

    /// A run followed by one more step is a run over the extended sequences.
    proof fn lemma_engine_run_snoc(
        a: Scheduler,
        b: Scheduler,
        c: Scheduler,
        ids: Seq<u32>,
        outcomes: Seq<Result<u128, TradeFailure>>,
        id: u32,
        o: Result<u128, TradeFailure>,
    )
        requires
            outcomes.len() == ids.len(),
            Self::engine_run(a, b, ids, outcomes),
            Self::engine_step(b, c, id, o),
        ensures
            Self::engine_run(a, c, ids.push(id), outcomes.push(o)),
        decreases ids.len(),
    {
        if ids.len() == 0 {
            assert(b == a);
            assert(ids.push(id)[0] == id);
            assert(outcomes.push(o)[0] == o);
            assert(ids.push(id).drop_first() =~= Seq::<u32>::empty());
            assert(outcomes.push(o).drop_first() =~= Seq::<Result<u128, TradeFailure>>::empty());
            assert(Self::engine_step(a, c, ids.push(id)[0], outcomes.push(o)[0]));
            assert(Self::engine_run(
                c,
                c,
                ids.push(id).drop_first(),
                outcomes.push(o).drop_first(),
            ));
        } else {
            let mid = choose|mid: Scheduler|
                #[trigger] Self::engine_step(a, mid, ids[0], outcomes[0]) && Self::engine_run(
                    mid,
                    b,
                    ids.drop_first(),
                    outcomes.drop_first(),
                );
            Self::lemma_engine_run_snoc(
                mid,
                b,
                c,
                ids.drop_first(),
                outcomes.drop_first(),
                id,
                o,
            );
            assert(ids.push(id).drop_first() =~= ids.drop_first().push(id));
            assert(outcomes.push(o).drop_first() =~= outcomes.drop_first().push(o));
            assert(Self::engine_step(a, mid, ids.push(id)[0], outcomes.push(o)[0]));
            assert(Self::engine_run(
                mid,
                c,
                ids.push(id).drop_first(),
                outcomes.push(o).drop_first(),
            ));
        }
    }

    /// Append a (nowhere-planned) id to a slot with spare room.
    fn append_to_slot(&mut self, block: u64, id: u32)
        requires
            old(self).slots.wf(),
            old(self).slots_ok(),
            old(self).free_at(block),
            forall|b: u64| !old(self).planned_at(id, b),
        ensures
            final(self).slots.wf(),
            final(self).slots_ok(),
            Self::same_but_slots(*final(self), *old(self)),
            final(self).has_slot(block),
            final(self).ids_at(block) == old(self).ids_at(block).push(id),
            forall|b2: u64|
                b2 != block ==> final(self).has_slot(b2) == old(self).has_slot(b2) && final(self).ids_at(b2) == old(self).ids_at(b2),
            forall|b2: u64, x: u32|
                #[trigger] final(self).planned_at(x, b2) ==> old(self).planned_at(x, b2) || (x
                    == id && b2 == block),
    {
        let ids_new = match self.slots.remove(block as u128) {
            Some(v) => {
                let mut v2 = v;
                v2.push(id);
                v2
            },
            None => {
                let mut v2: Vec<u32> = Vec::new();
                v2.push(id);
                v2
            },
        };
        self.slots.insert(block as u128, ids_new);
        proof {
            assert(self.slots@ =~= old(self).slots@.remove(block as u128).insert(
                block as u128,
                self.slots@[block as u128],
            ));
            self.lemma_after_append(*old(self), id, block);
        }
    }

    proof fn lemma_after_append(&self, prev: Self, id: u32, block: u64)
        requires
            prev.slots.wf(),
            prev.slots_ok(),
            prev.free_at(block),
            forall|b: u64| !prev.planned_at(id, b),
            self.slots.wf(),
            Self::same_but_slots(*self, prev),
            self.slots@ == prev.slots@.remove(block as u128).insert(
                block as u128,
                self.slots@[block as u128],
            ),
            self.slots@[block as u128]@ == prev.ids_at(block).push(id),
        ensures
            self.slots_ok(),
            self.has_slot(block),
            self.ids_at(block) == prev.ids_at(block).push(id),
            forall|b2: u64|
                b2 != block ==> self.has_slot(b2) == prev.has_slot(b2) && self.ids_at(b2)
                    == prev.ids_at(b2),
            forall|b2: u64, x: u32|
                #[trigger] self.planned_at(x, b2) ==> prev.planned_at(x, b2) || (x == id && b2
                    == block),
    {
        let bk = block as u128;
        let v = self.slots@[bk]@;
        let pv = prev.ids_at(block);
        assert(v.len() == pv.len() + 1);
        assert(pv.len() < self.config.capacity);
        assert(pv.no_duplicates()) by {
            if prev.slots@.dom().contains(bk) {
            }
        }
        assert(!pv.contains(id)) by {
            assert(!prev.planned_at(id, block));
        }
        assert forall|i: int, j: int| 0 <= i < v.len() && 0 <= j < v.len() && i != j implies v[i]
            != v[j] by {
            if i == pv.len() {
                assert(pv[j] == v[j] && pv.contains(pv[j])) by {}
                if v[j] == id {
                    assert(pv.contains(id));
                }
            } else if j == pv.len() {
                if v[i] == id {
                    assert(pv.contains(id)) by {
                        assert(pv[i] == v[i]);
                    }
                }
            }
        }
        assert(v.no_duplicates());
        assert forall|b: u128| #[trigger] self.slots@.dom().contains(b) implies b
            < 0x10000000000000000 && 1 <= self.slots@[b]@.len() && self.slots@[b]@.len()
            <= self.config.capacity && self.slots@[b]@.no_duplicates() by {
            if b != bk {
                assert(prev.slots@.dom().contains(b));
            } else {
                assert(block as u128 == b);
            }
        }
        // membership in the new index maps back to the old one or is the new id
        assert forall|b2: u64, x: u32| #[trigger] self.planned_at(x, b2) implies prev.planned_at(
            x,
            b2,
        ) || (x == id && b2 == block) by {
            if b2 != block {
                assert(b2 as u128 != bk);
                assert(self.slots@.dom().contains(b2 as u128) ==> prev.slots@.dom().contains(
                    b2 as u128,
                ));
            } else {
                if x != id {
                    let i = choose|i: int| 0 <= i < v.len() && v[i] == x;
                    assert(i < pv.len());
                    assert(pv[i] == x);
                    assert(pv.contains(x));
                    if prev.slots@.dom().contains(bk) {
                        assert(prev.planned_at(x, block));
                    } else {
                        assert(pv =~= Seq::<u32>::empty());
                    }
                }
            }
        }
        assert forall|b1: u128, b2: u128, id2: u32|
            self.slots@.dom().contains(b1) && self.slots@.dom().contains(b2) && b1 != b2 && (
        #[trigger] self.slots@[b1]@.contains(id2)) implies !(#[trigger] self.slots@[b2]@.contains(
            id2,
        )) by {
            if self.slots@[b2]@.contains(id2) {
                assert(b1 < 0x10000000000000000 && b2 < 0x10000000000000000);
                assert(self.planned_at(id2, b1 as u64)) by {
                    assert(self.ids_at(b1 as u64) == self.slots@[b1]@);
                }
                assert(self.planned_at(id2, b2 as u64)) by {
                    assert(self.ids_at(b2 as u64) == self.slots@[b2]@);
                }
                if id2 == id {
                    // the new id sits only at `block`
                    if b1 != bk {
                        assert(prev.planned_at(id, b1 as u64));
                        assert(false);
                    }
                    if b2 != bk {
                        assert(prev.planned_at(id, b2 as u64));
                        assert(false);
                    }
                    assert(false);
                } else {
                    assert(prev.planned_at(id2, b1 as u64));
                    assert(prev.planned_at(id2, b2 as u64));
                    assert(prev.slots@.dom().contains(b1) && prev.slots@.dom().contains(b2));
                    assert(prev.slots@[b1]@.contains(id2));
                    assert(prev.slots@[b2]@.contains(id2));
                }
            }
        }
        assert(self.slots_ok());
        assert forall|b2: u64| b2 != block implies self.has_slot(b2) == prev.has_slot(b2)
            && self.ids_at(b2) == prev.ids_at(b2) by {
            assert(b2 as u128 != bk);
        }
    }

    /// Slot-index facts carry over between two states with the same slot
    /// index and configuration.
    proof fn lemma_slots_bridge(&self, other: Self)
        requires
            self.slots == other.slots,
            self.config == other.config,
        ensures
            forall|b: u64| self.ids_at(b) == other.ids_at(b),
            forall|b: u64| self.has_slot(b) == other.has_slot(b),
            forall|b: u64| self.free_at(b) == other.free_at(b),
            forall|b: u64, x: u32|
                #[trigger] self.planned_at(x, b) == #[trigger] other.planned_at(x, b),
            other.slots_ok() ==> self.slots_ok(),
    {
        assert forall|b: u64|
            self.ids_at(b) == other.ids_at(b) && self.has_slot(b) == other.has_slot(b)
                && self.free_at(b) == other.free_at(b) by {}
        assert forall|b: u64, x: u32|
            #[trigger] self.planned_at(x, b) == #[trigger] other.planned_at(x, b) by {
            assert(self.ids_at(b) == other.ids_at(b));
        }
        if other.slots_ok() {
            assert(self.slots_ok());
        }
    }

    /// Well-formedness after a schedule is consumed and replanned: its budget
    /// became `remv` (still positive), its custody matches, its retry record
    /// is valid, and it moved to exactly one new slot.
    proof fn lemma_wf_after_replan(&self, prev: Self, id: u32, remv: u128)
        requires
            prev.wf(),
            prev.has_schedule(id),
            self.config == prev.config,
            self.now == prev.now,
            self.next_id == prev.next_id,
            self.schedules == prev.schedules,
            self.remaining.wf(),
            self.remaining@ == prev.remaining@.insert(id as u128, remv),
            1 <= remv && remv <= prev.schedule_of(id).total_amount,
            self.retries.wf(),
            forall|k: u128|
                #[trigger] self.retries@.dom().contains(k) ==> self.schedules@.dom().contains(k)
                    && 1 <= self.retries@[k] && self.retries@[k] < self.config.retry_ceiling,
            self.ledger.wf(),
            self.ledger.has_reserve(id as u64),
            self.ledger.reserve_entry(id as u64) == (ReserveEntry {
                tag: id as u64,
                owner: prev.schedule_of(id).owner,
                asset: prev.schedule_of(id).order.spec_sold_asset(),
                amount: remv,
            }),
            forall|t2: u64|
                t2 != id as u64 ==> self.ledger.has_reserve(t2) == prev.ledger.has_reserve(t2),
            forall|t2: u64|
                t2 != id as u64 && prev.ledger.has_reserve(t2) ==> self.ledger.reserve_entry(t2)
                    == prev.ledger.reserve_entry(t2),
            self.slots.wf(),
            self.slots_ok(),
            forall|b2: u64, x: u32|
                #[trigger] self.planned_at(x, b2) ==> prev.planned_at(x, b2) || x == id,
        ensures
            self.wf(),
    {
        assert(self.wf_ids());
        assert forall|k: u128| #[trigger] self.schedules@.dom().contains(k) implies {
            &&& 1 <= self.remaining@[k]
            &&& self.remaining@[k] <= self.schedules@[k].total_amount
            &&& self.schedules@[k].period >= 1
            &&& self.schedules@[k].slice != Some(0u128)
        } by {
            if k != id as u128 {
            }
        }
        assert(self.wf_budgets());
        assert(self.wf_retries());
        assert forall|k: u128| #[trigger] self.schedules@.dom().contains(k) implies {
            &&& self.ledger.has_reserve(k as u64)
            &&& self.ledger.reserve_entry(k as u64) == (ReserveEntry {
                tag: k as u64,
                owner: self.schedules@[k].owner,
                asset: self.schedules@[k].order.spec_sold_asset(),
                amount: self.remaining@[k],
            })
        } by {
            if k != id as u128 {
                assert(k < 0x100000000);
                assert(k as u64 != id as u64);
            }
        }
        assert forall|t: u64| #[trigger] self.ledger.has_reserve(t) implies t < 0x100000000
            && self.schedules@.dom().contains(t as u128) by {
            if t != id as u64 {
                assert(prev.ledger.has_reserve(t));
            } else {
                assert(t as u128 == id as u128);
            }
        }
        assert(self.wf_custody());
        assert forall|b: u128, i: int|
            self.slots@.dom().contains(b) && 0 <= i < self.slots@[b]@.len() implies self.schedules@.dom().contains(
            (#[trigger] self.slots@[b]@[i]) as u128,
        ) by {
            let x = self.slots@[b]@[i];
            assert(b < 0x10000000000000000);
            assert(self.planned_at(x, b as u64)) by {
                assert(self.ids_at(b as u64) == self.slots@[b]@);
            }
            if x != id {
                assert(prev.planned_at(x, b as u64));
                assert(prev.slots@.dom().contains(b));
                let i2 = choose|i2: int|
                    0 <= i2 < prev.slots@[b]@.len() && prev.slots@[b]@[i2] == x;
                assert(prev.schedules@.dom().contains(x as u128));
            }
        }
        assert(self.wf_slots());
    }

    /// React to the outcome of one execution of schedule `id`, already
    /// drained from its slot: consume budget and replan on success, retire on
    /// exhaustion, count and retry on failure, and terminate with a full
    /// refund once the retry ceiling is reached or no slot can be found.
    pub fn apply_trade_result(&mut self, id: u32, amount: u128, outcome: Result<
        u128,
        TradeFailure,
    >) -> (placed: Option<u64>)
        requires
            old(self).wf(),
            old(self).has_schedule(id),
            forall|b: u64| !old(self).planned_at(id, b),
            amount == old(self).schedule_of(id).spec_next_amount(old(self).remaining_of(id)),
        ensures
            final(self).wf(),
            Self::engine_step(*old(self), *final(self), id, outcome),
            placed == Self::step_placement(*old(self), id, outcome),
    {
        let who: u64;
        let sold: u32;
        let period: u64;
        match self.schedules.get(id as u128) {
            Some(s) => {
                who = s.owner;
                sold = s.order.sold_asset();
                period = s.period;
            },
            None => { return None },
        }
        let rem: u128;
        match self.remaining.get(id as u128) {
            Some(r) => {
                rem = *r;
            },
            None => { return None },
        }
        let tag = reserve_identifier(id);
        match outcome {
            Ok(got) => {
                let new_rem = rem - amount;
                let target = if new_rem > 0 && period <= u64::MAX - self.now {
                    self.find_free_block(self.now + period)
                } else {
                    None
                };
                self.events.push(Event::TradeExecuted { id, who, amount_in: amount, amount_out: got });
                let _record = self.retries.remove(id as u128);
                proof {
                    assert(self.retries@ =~= old(self).retries@.remove(id as u128));
                }
                self.ledger.consume_named(tag, amount);
                if new_rem == 0 {
                    self.ledger.release_named(tag);
                    let _stored = self.schedules.remove(id as u128);
                    let _budget = self.remaining.remove(id as u128);
                    self.events.push(Event::Completed { id, who });
                    proof {
                        self.lemma_slots_bridge(*old(self));
                        assert forall|bb: u64| !self.planned_at(id, bb) by {
                            assert(self.ids_at(bb) == old(self).ids_at(bb));
                            assert(!old(self).planned_at(id, bb));
                        }
                        assert forall|bb: u64, x: u32| #[trigger] self.planned_at(x, bb) implies old(self).planned_at(x, bb) by {
                            assert(self.ids_at(bb) == old(self).ids_at(bb));
                        }
                        self.lemma_wf_after_purge(*old(self), id);
                    }
                    None
                } else {
                    match target {
                        Some(b) => {
                            self.remaining.insert(id as u128, new_rem);
                            proof {
                                self.lemma_slots_bridge(*old(self));
                                assert forall|bb: u64| !self.planned_at(id, bb) by {
                                    assert(self.ids_at(bb) == old(self).ids_at(bb));
                                    assert(!old(self).planned_at(id, bb));
                                }
                                assert forall|bb: u64, x: u32| #[trigger] self.planned_at(x, bb) implies old(self).planned_at(x, bb) by {
                                    assert(self.ids_at(bb) == old(self).ids_at(bb));
                                }
                            }
                            self.append_to_slot(b, id);
                            self.events.push(Event::ExecutionPlanned { id, who, block: b });
                            proof {
                                self.lemma_wf_after_replan(*old(self), id, new_rem);
                            }
                            Some(b)
                        },
                        None => {
                            self.ledger.release_named(tag);
                            let _stored = self.schedules.remove(id as u128);
                            let _budget = self.remaining.remove(id as u128);
                            self.events.push(Event::Terminated { id, who });
                            proof {
                                self.lemma_slots_bridge(*old(self));
                                assert forall|bb: u64| !self.planned_at(id, bb) by {
                                    assert(self.ids_at(bb) == old(self).ids_at(bb));
                                    assert(!old(self).planned_at(id, bb));
                                }
                                assert forall|bb: u64, x: u32| #[trigger] self.planned_at(x, bb) implies old(self).planned_at(x, bb) by {
                                    assert(self.ids_at(bb) == old(self).ids_at(bb));
                                }
                                self.lemma_wf_after_purge(*old(self), id);
                            }
                            None
                        },
                    }
                }
            },
            Err(reason) => {
                let n = self.retries_on_error(id) + 1;
                let target = if n < self.config.retry_ceiling && self.config.retry_delay <= u64::MAX
                    - self.now {
                    self.find_free_block(self.now + self.config.retry_delay)
                } else {
                    None
                };
                self.events.push(Event::TradeFailed { id, who, reason });
                if n < self.config.retry_ceiling {
                    match target {
                        Some(b) => {
                            self.retries.insert(id as u128, n);
                            proof {
                                self.lemma_slots_bridge(*old(self));
                                assert forall|bb: u64| !self.planned_at(id, bb) by {
                                    assert(self.ids_at(bb) == old(self).ids_at(bb));
                                    assert(!old(self).planned_at(id, bb));
                                }
                                assert forall|bb: u64, x: u32| #[trigger] self.planned_at(x, bb) implies old(self).planned_at(x, bb) by {
                                    assert(self.ids_at(bb) == old(self).ids_at(bb));
                                }
                            }
                            self.append_to_slot(b, id);
                            self.events.push(Event::ExecutionPlanned { id, who, block: b });
                            proof {
                                assert(self.remaining@ =~= old(self).remaining@.insert(
                                    id as u128,
                                    rem,
                                ));
                                self.lemma_wf_after_replan(*old(self), id, rem);
                            }
                            Some(b)
                        },
                        None => {
                            self.ledger.release_named(tag);
                            let _stored = self.schedules.remove(id as u128);
                            let _budget = self.remaining.remove(id as u128);
                            let _record = self.retries.remove(id as u128);
                            self.events.push(Event::Terminated { id, who });
                            proof {
                                assert(self.retries@ =~= old(self).retries@.remove(id as u128));
                                self.lemma_slots_bridge(*old(self));
                                assert forall|bb: u64| !self.planned_at(id, bb) by {
                                    assert(self.ids_at(bb) == old(self).ids_at(bb));
                                    assert(!old(self).planned_at(id, bb));
                                }
                                assert forall|bb: u64, x: u32| #[trigger] self.planned_at(x, bb) implies old(self).planned_at(x, bb) by {
                                    assert(self.ids_at(bb) == old(self).ids_at(bb));
                                }
                                self.lemma_wf_after_purge(*old(self), id);
                            }
                            None
                        },
                    }
                } else {
                    self.ledger.release_named(tag);
                    let _stored = self.schedules.remove(id as u128);
                    let _budget = self.remaining.remove(id as u128);
                    let _record = self.retries.remove(id as u128);
                    self.events.push(Event::Terminated { id, who });
                    proof {
                        assert(self.retries@ =~= old(self).retries@.remove(id as u128));
                        self.lemma_slots_bridge(*old(self));
                        assert forall|bb: u64| !self.planned_at(id, bb) by {
                            assert(self.ids_at(bb) == old(self).ids_at(bb));
                            assert(!old(self).planned_at(id, bb));
                        }
                        assert forall|bb: u64, x: u32| #[trigger] self.planned_at(x, bb) implies old(self).planned_at(x, bb) by {
                            assert(self.ids_at(bb) == old(self).ids_at(bb));
                        }
                        self.lemma_wf_after_purge(*old(self), id);
                    }
                    None
                }
            },
        }
    }

    /// No slot anywhere holds the id.
    spec fn nowhere_planned(&self, id: u32) -> bool {
        forall|b: u64| !self.planned_at(id, b)
    }

    /// Process one block: drain its slot and execute every id in insertion
    /// order through the routing collaborator, feeding each outcome to the
    /// engine. The whole pass is an [`Self::engine_run`] over the due ids, so
    /// one schedule's failure never affects another's processing, schedules
    /// not due at this block are untouched, no spendable balance ever
    /// shrinks, earlier blocks are untouched, and a block with nothing due
    /// changes nothing but the clock.
    pub fn on_initialize<E: RouteExecutor>(&mut self, block: u64, executor: &mut E)
        requires
            old(self).wf(),
        ensures
            final(self).wf(),
            final(self).spec_now() == block,
            final(self).spec_config() == old(self).spec_config(),
            final(self).spec_next_id() == old(self).spec_next_id(),
            !final(self).has_slot(block),
            forall|b: u64|
                b < block ==> final(self).has_slot(b) == old(self).has_slot(b) && final(self).ids_at(b) == old(self).ids_at(b),
            forall|o2: u64, a2: u32|
                final(self).spec_free(o2, a2) >= old(self).spec_free(o2, a2),
            old(self).events_seq().is_prefix_of(final(self).events_seq()),
            // forward progress: every schedule due at this block was either
            // retired (completed or terminated) or replanned at a later block
            forall|j: int|
                0 <= j < old(self).ids_at(block).len() ==> !final(self).has_schedule(
                    #[trigger] old(self).ids_at(block)[j],
                ) || final(self).planned_after(old(self).ids_at(block)[j], block),
            // a block with nothing due changes nothing but the clock
            !old(self).has_slot(block) ==> {
                &&& Self::same_but_now(*final(self), *old(self))
                &&& Self::same_store_views(*final(self), *old(self))
                &&& Self::same_slot_views(*final(self), *old(self))
                &&& Self::same_balance_views(*final(self), *old(self))
                &&& final(self).events_seq() == old(self).events_seq()
            },
            // schedules not due at this block are untouched
            forall|id2: u32|
                !old(self).ids_at(block).contains(id2) ==> {
                    &&& final(self).has_schedule(id2) == old(self).has_schedule(id2)
                    &&& final(self).schedule_of(id2) == old(self).schedule_of(id2)
                    &&& final(self).remaining_of(id2) == old(self).remaining_of(id2)
                    &&& final(self).retries_of(id2) == old(self).retries_of(id2)
                },
            // custody tags not belonging to a due schedule are untouched
            forall|t2: u64, a2: u32, o2: u64|
                (forall|j: int|
                    0 <= j < old(self).ids_at(block).len() ==> t2 != spec_reserve_identifier(
                        #[trigger] old(self).ids_at(block)[j],
                    )) ==> final(self).spec_reserved(t2, a2, o2) == old(self).spec_reserved(
                    t2,
                    a2,
                    o2,
                ),
            // balances no due schedule pays into are untouched
            forall|o2: u64, a2: u32|
                (forall|j: int|
                    0 <= j < old(self).ids_at(block).len() ==> !(o2 == old(self).schedule_of(
                        #[trigger] old(self).ids_at(block)[j],
                    ).owner && a2 == old(self).schedule_of(
                        old(self).ids_at(block)[j],
                    ).order.spec_sold_asset())) ==> final(self).spec_free(o2, a2) == old(
                    self,
                ).spec_free(o2, a2),
            // the pass is an in-order engine run over the due ids, under the
            // outcome sequence the routing collaborator produced
            exists|mid: Scheduler, outcomes: Seq<Result<u128, TradeFailure>>|
                {
                    &&& Self::block_opened(*old(self), mid, block)
                    &&& outcomes.len() == old(self).ids_at(block).len()
                    &&& #[trigger] Self::engine_run(
                        mid,
                        *final(self),
                        old(self).ids_at(block),
                        outcomes,
                    )
                },
    {
        self.now = block;
        let drained = match self.slots.remove(block as u128) {
            Some(v) => v,
            None => Vec::new(),
        };
        proof {
            assert(drained@ =~= old(self).ids_at(block));
        }
        let ghost base = *self;
        let ghost mut outcomes: Seq<Result<u128, TradeFailure>> = Seq::empty();
        proof {
            self.lemma_same_store_views(*old(self));
            self.lemma_same_balance_views(*old(self));
            assert forall|b2: u64| b2 != block implies self.has_slot(b2) == old(self).has_slot(b2)
                && self.ids_at(b2) == old(self).ids_at(b2) by {
                assert(b2 as u128 != block as u128);
            }
            assert(Self::block_opened(*old(self), base, block));
            assert(drained@.take(0) =~= Seq::<u32>::empty());
            assert(Self::engine_run(base, *self, drained@.take(0), outcomes));
            // draining a whole slot preserves every invariant
            assert forall|b: u128| #[trigger] self.slots@.dom().contains(b) implies b
                < 0x10000000000000000 && 1 <= self.slots@[b]@.len() && self.slots@[b]@.len()
                <= self.config.capacity && self.slots@[b]@.no_duplicates() by {
                assert(old(self).slots@.dom().contains(b));
            }
            assert forall|b: u128, i: int|
                self.slots@.dom().contains(b) && 0 <= i < self.slots@[b]@.len() implies self.schedules@.dom().contains(
                (#[trigger] self.slots@[b]@[i]) as u128,
            ) by {
                assert(old(self).slots@.dom().contains(b));
            }
            assert forall|b1: u128, b2: u128, id2: u32|
                self.slots@.dom().contains(b1) && self.slots@.dom().contains(b2) && b1 != b2 && (
            #[trigger] self.slots@[b1]@.contains(id2)) implies !(
            #[trigger] self.slots@[b2]@.contains(id2)) by {
                assert(old(self).slots@.dom().contains(b1));
                assert(old(self).slots@.dom().contains(b2));
            }
            assert(self.wf());
            // the drained ids are stored, distinct, and no longer planned
            assert(drained@.no_duplicates() && (forall|j: int|
                0 <= j < drained@.len() ==> self.schedules@.dom().contains(
                    (#[trigger] drained@[j]) as u128,
                ))) by {
                if old(self).slots@.dom().contains(block as u128) {
                    assert(drained@ == old(self).slots@[block as u128]@);
                }
            }
            assert forall|j: int| 0 <= j < drained@.len() implies self.nowhere_planned(
                #[trigger] drained@[j],
            ) by {
                let x = drained@[j];
                assert forall|b: u64| !self.planned_at(x, b) by {
                    if self.slots@.dom().contains(b as u128) {
                        assert(b as u128 != block as u128);
                        assert(old(self).slots@.dom().contains(b as u128));
                        assert(old(self).slots@.dom().contains(block as u128));
                        assert(old(self).slots@[block as u128]@.contains(x)) by {
                            assert(old(self).slots@[block as u128]@[j] == x);
                        }
                        assert(!old(self).slots@[b as u128]@.contains(x));
                        assert(self.slots@[b as u128] == old(self).slots@[b as u128]);
                    }
                }
            }
        }
        let n = drained.len();
        let mut i: usize = 0;
        while i < n
            invariant
                self.wf(),
                n == drained@.len(),
                i <= n,
                self.spec_now() == block,
                self.spec_config() == old(self).spec_config(),
                self.spec_next_id() == old(self).spec_next_id(),
                drained@.no_duplicates(),
                forall|j: int| i <= j < n ==> self.has_schedule(#[trigger] drained@[j]),
                forall|j: int| i <= j < n ==> self.nowhere_planned(#[trigger] drained@[j]),
                !self.has_slot(block),
                forall|b: u64|
                    b < block ==> self.has_slot(b) == old(self).has_slot(b) && self.ids_at(b)
                        == old(self).ids_at(b),
                forall|o2: u64, a2: u32|
                    self.spec_free(o2, a2) >= old(self).spec_free(o2, a2),
                old(self).events_seq().is_prefix_of(self.events_seq()),
                drained@ == old(self).ids_at(block),
                forall|j: int|
                    0 <= j < i ==> !self.has_schedule(#[trigger] drained@[j])
                        || self.planned_after(drained@[j], block),
                forall|j: int|
                    i <= j < n ==> self.schedule_of(#[trigger] drained@[j]) == old(
                        self,
                    ).schedule_of(drained@[j]),
                forall|id2: u32|
                    !drained@.contains(id2) ==> {
                        &&& self.has_schedule(id2) == old(self).has_schedule(id2)
                        &&& self.schedule_of(id2) == old(self).schedule_of(id2)
                        &&& self.remaining_of(id2) == old(self).remaining_of(id2)
                        &&& self.retries_of(id2) == old(self).retries_of(id2)
                    },
                forall|t2: u64, a2: u32, o2: u64|
                    (forall|j: int|
                        0 <= j < n ==> t2 != spec_reserve_identifier(#[trigger] drained@[j]))
                        ==> self.spec_reserved(t2, a2, o2) == old(self).spec_reserved(t2, a2, o2),
                forall|o2: u64, a2: u32|
                    (forall|j: int|
                        0 <= j < n ==> !(o2 == old(self).schedule_of(#[trigger] drained@[j]).owner
                            && a2 == old(self).schedule_of(
                            drained@[j],
                        ).order.spec_sold_asset())) ==> self.spec_free(o2, a2) == old(
                        self,
                    ).spec_free(o2, a2),
                Self::block_opened(*old(self), base, block),
                outcomes.len() == i,
                Self::engine_run(base, *self, drained@.take(i as int), outcomes),
                i == 0 ==> *self == base,
            decreases n - i,
        {
            let id = drained[i];
            let rem = match self.remaining.get(id as u128) {
                Some(r) => *r,
                None => {
                    proof {
                        assert(self.has_schedule(id));
                        assert(false);
                    }
                    0
                },
            };
            let amt: u128;
            let outcome: Result<u128, TradeFailure>;
            match self.schedules.get(id as u128) {
                Some(s) => {
                    amt = s.next_amount(rem);
                    outcome = executor.execute(s, amt);
                },
                None => {
                    proof {
                        assert(false);
                    }
                    amt = 0;
                    outcome = Ok(0u128);
                },
            }
            let ghost pre = *self;
            let placed = self.apply_trade_result(id, amt, outcome);
            proof {
                assert((placed matches Some(b) ==> b > pre.spec_now() && self.ids_at(b)
                    == pre.ids_at(b).push(id) && (forall|b2: u64|
                    b2 != b ==> self.has_slot(b2) == pre.has_slot(b2) && self.ids_at(b2)
                        == pre.ids_at(b2))) && (placed is None ==> forall|b2: u64|
                    self.has_slot(b2) == pre.has_slot(b2) && self.ids_at(b2) == pre.ids_at(b2)));
                assert(placed is None ==> !self.has_schedule(id));
                self.lemma_on_initialize_step(
                    pre,
                    *old(self),
                    drained@,
                    i as int,
                    id,
                    block,
                    placed,
                );
                // extend the recorded engine run by this step
                assert(Self::engine_step(pre, *self, id, outcome));
                Self::lemma_engine_run_snoc(
                    base,
                    pre,
                    *self,
                    drained@.take(i as int),
                    outcomes,
                    id,
                    outcome,
                );
                outcomes = outcomes.push(outcome);
                assert(drained@.take(i as int + 1) =~= drained@.take(i as int).push(id));
                assert(Self::engine_run(base, *self, drained@.take(i as int + 1), outcomes));
                // untouched-schedule frames carry over this step
                assert(drained@.contains(id)) by {
                    assert(drained@[i as int] == id);
                }
                assert forall|id2: u32| !drained@.contains(id2) implies {
                    &&& self.has_schedule(id2) == old(self).has_schedule(id2)
                    &&& self.schedule_of(id2) == old(self).schedule_of(id2)
                    &&& self.remaining_of(id2) == old(self).remaining_of(id2)
                    &&& self.retries_of(id2) == old(self).retries_of(id2)
                } by {
                    assert(id2 != id);
                }
                assert forall|j: int|
                    i + 1 <= j < n implies self.schedule_of(#[trigger] drained@[j]) == old(
                    self,
                ).schedule_of(drained@[j]) by {
                    assert(drained@[j] != id);
                }
                assert forall|t2: u64, a2: u32, o2: u64|
                    (forall|j: int|
                        0 <= j < n ==> t2 != spec_reserve_identifier(
                            #[trigger] drained@[j],
                        )) implies self.spec_reserved(t2, a2, o2) == old(self).spec_reserved(
                    t2,
                    a2,
                    o2,
                ) by {
                    assert(t2 != spec_reserve_identifier(drained@[i as int]));
                    assert(pre.spec_reserved(t2, a2, o2) == old(self).spec_reserved(t2, a2, o2));
                }
                assert forall|o2: u64, a2: u32|
                    (forall|j: int|
                        0 <= j < n ==> !(o2 == old(self).schedule_of(#[trigger] drained@[j]).owner
                            && a2 == old(self).schedule_of(
                            drained@[j],
                        ).order.spec_sold_asset())) implies self.spec_free(o2, a2) == old(
                    self,
                ).spec_free(o2, a2) by {
                    assert(!(o2 == old(self).schedule_of(drained@[i as int]).owner && a2 == old(
                        self,
                    ).schedule_of(drained@[i as int]).order.spec_sold_asset()));
                    assert(pre.schedule_of(id) == old(self).schedule_of(id));
                    assert(pre.spec_free(o2, a2) == old(self).spec_free(o2, a2));
                }
            }
            i = i + 1;
        }
        proof {
            assert(drained@.take(n as int) =~= drained@);
            assert(Self::engine_run(base, *self, old(self).ids_at(block), outcomes));
            if !old(self).has_slot(block) {
                assert(old(self).ids_at(block) =~= Seq::<u32>::empty());
                assert(n == 0);
                assert(*self == base);
                self.lemma_same_store_views(*old(self));
                self.lemma_same_slot_views(*old(self));
                self.lemma_same_balance_views(*old(self));
                assert(Self::same_but_now(*self, *old(self)));
            }
        }
    }

    /// One engine step keeps the processing-loop invariants: the ids still to
    /// be processed stay stored and unplanned, earlier blocks stay untouched,
    /// balances never shrink, and the event log only grows.
    proof fn lemma_on_initialize_step(
        &self,
        pre: Self,
        orig: Self,
        drained: Seq<u32>,
        i: int,
        id: u32,
        block: u64,
        placed: Option<u64>,
    )
        requires
            0 <= i < drained.len(),
            drained[i] == id,
            drained.no_duplicates(),
            pre.spec_now() == block,
            !pre.has_slot(block),
            forall|b: u64|
                b < block ==> pre.has_slot(b) == orig.has_slot(b) && pre.ids_at(b) == orig.ids_at(
                    b,
                ),
            forall|j: int| i <= j < drained.len() ==> pre.has_schedule(#[trigger] drained[j]),
            forall|j: int| i <= j < drained.len() ==> pre.nowhere_planned(#[trigger] drained[j]),
            forall|j: int|
                0 <= j < i ==> !pre.has_schedule(#[trigger] drained[j]) || pre.planned_after(
                    drained[j],
                    block,
                ),
            forall|o2: u64, a2: u32| pre.spec_free(o2, a2) >= orig.spec_free(o2, a2),
            orig.events_seq().is_prefix_of(pre.events_seq()),
            self.spec_now() == pre.spec_now(),
            placed is None ==> !self.has_schedule(id),
            // what one engine step may do, abstracted from its contract:
            forall|id2: u32|
                id2 != id ==> {
                    &&& self.has_schedule(id2) == pre.has_schedule(id2)
                },
            placed matches Some(b) ==> b > pre.spec_now() && self.ids_at(b) == pre.ids_at(
                b,
            ).push(id) && (forall|b2: u64|
                b2 != b ==> self.has_slot(b2) == pre.has_slot(b2) && self.ids_at(b2) == pre.ids_at(
                    b2,
                )),
            placed is None ==> forall|b2: u64|
                self.has_slot(b2) == pre.has_slot(b2) && self.ids_at(b2) == pre.ids_at(b2),
            forall|o2: u64, a2: u32|
                !(o2 == pre.schedule_of(id).owner && a2 == pre.schedule_of(
                    id,
                ).order.spec_sold_asset()) ==> self.spec_free(o2, a2) == pre.spec_free(o2, a2),
            self.spec_free(pre.schedule_of(id).owner, pre.schedule_of(id).order.spec_sold_asset())
                >= pre.spec_free(
                pre.schedule_of(id).owner,
                pre.schedule_of(id).order.spec_sold_asset(),
            ),
            pre.events_seq().is_prefix_of(self.events_seq()),
        ensures
            forall|j: int| i + 1 <= j < drained.len() ==> self.has_schedule(#[trigger] drained[j]),
            forall|j: int|
                i + 1 <= j < drained.len() ==> self.nowhere_planned(#[trigger] drained[j]),
            forall|j: int|
                0 <= j < i + 1 ==> !self.has_schedule(#[trigger] drained[j]) || self.planned_after(
                    drained[j],
                    block,
                ),
            !self.has_slot(block),
            forall|b: u64|
                b < block ==> self.has_slot(b) == orig.has_slot(b) && self.ids_at(b) == orig.ids_at(
                    b,
                ),
            forall|o2: u64, a2: u32| self.spec_free(o2, a2) >= orig.spec_free(o2, a2),
            orig.events_seq().is_prefix_of(self.events_seq()),
    {
        assert forall|j: int|
            i + 1 <= j < drained.len() implies self.nowhere_planned(#[trigger] drained[j]) by {
            let x = drained[j];
            assert(x != id);
            assert(pre.nowhere_planned(x));
            assert forall|b: u64| !self.planned_at(x, b) by {
                assert(!pre.planned_at(x, b));
                match placed {
                    Some(bp) => {
                        if b == bp && self.ids_at(b).contains(x) {
                            let k = choose|k: int|
                                0 <= k < self.ids_at(b).len() && self.ids_at(b)[k] == x;
                            assert(self.ids_at(b) == pre.ids_at(b).push(id));
                            assert(k < pre.ids_at(b).len());
                            assert(pre.ids_at(b).contains(x));
                        }
                    },
                    None => {},
                }
            }
        }
        assert(!self.has_slot(block)) by {
            match placed {
                Some(bp) => {
                    assert(bp != block);
                },
                None => {},
            }
        }
        // the processed prefix stays retired or replanned
        assert forall|j: int|
            0 <= j < i + 1 implies !self.has_schedule(#[trigger] drained[j]) || self.planned_after(
            drained[j],
            block,
        ) by {
            let x = drained[j];
            if j == i {
                match placed {
                    Some(bp) => {
                        let v = self.ids_at(bp);
                        assert(v == pre.ids_at(bp).push(id));
                        assert(v[v.len() - 1] == id);
                        assert(v.contains(id));
                        assert(bp > block);
                        assert(self.planned_after(id, block));
                    },
                    None => {},
                }
            } else if self.has_schedule(x) {
                assert(x != id);
                if pre.has_schedule(x) {
                    assert(pre.planned_after(x, block));
                    let b0 = choose|b: u64| b > block && (#[trigger] pre.ids_at(b)).contains(x);
                    assert(self.ids_at(b0).contains(x)) by {
                        match placed {
                            Some(bp) => {
                                if b0 == bp {
                                    let k = choose|k: int|
                                        0 <= k < pre.ids_at(b0).len() && pre.ids_at(b0)[k] == x;
                                    assert(self.ids_at(b0) == pre.ids_at(b0).push(id));
                                    assert(self.ids_at(b0)[k] == x);
                                }
                            },
                            None => {},
                        }
                    }
                    assert(self.planned_after(x, block));
                }
            }
        }
        assert forall|b: u64| b < block implies self.has_slot(b) == orig.has_slot(b)
            && self.ids_at(b) == orig.ids_at(b) by {
            match placed {
                Some(bp) => {
                    assert(bp > block);
                    assert(b != bp);
                },
                None => {},
            }
        }
        assert(orig.events_seq().is_prefix_of(self.events_seq())) by {
            let a = orig.events_seq();
            let m = pre.events_seq();
            let z = self.events_seq();
            assert(a =~= m.subrange(0, a.len() as int));
            assert(m =~= z.subrange(0, m.len() as int));
            assert(a =~= z.subrange(0, a.len() as int));
        }
    }

    pub fn events(&self) -> (r: &Vec<Event>)
        ensures
            r@ == self.events_seq(),
    {
        &self.events
    }

    /// Custody conservation: at every observable point, an active schedule
    /// has exactly its remaining budget reserved under its own custody tag,
    /// in the asset it sells, for its owner.
    pub proof fn law_custody_conservation(&self, id: u32)
        requires
            self.wf(),
            self.has_schedule(id),
        ensures
            self.spec_reserved(
                spec_reserve_identifier(id),
                self.schedule_of(id).order.spec_sold_asset(),
                self.schedule_of(id).owner,
            ) == self.remaining_of(id),
    {
        assert(self.schedules@.dom().contains(id as u128));
    }

    /// Capacity bound: at every observable point, no block's slot holds more
    /// ids than the configured capacity.
    pub proof fn law_capacity_bound(&self, block: u64)
        requires
            self.wf(),
        ensures
            self.ids_at(block).len() <= self.spec_config().capacity,
    {
        if self.slots@.dom().contains(block as u128) {
        }
    }

    /// No double execution, across blocks: a schedule id is planned in at
    /// most one slot at any time.
    pub proof fn law_single_slot(&self, id: u32, b1: u64, b2: u64)
        requires
            self.wf(),
            self.planned_at(id, b1),
            self.planned_at(id, b2),
        ensures
            b1 == b2,
    {
        if b1 != b2 {
            assert(self.slots@.dom().contains(b1 as u128));
            assert(self.slots@.dom().contains(b2 as u128));
            assert(self.slots@[b1 as u128]@.contains(id));
            assert(self.slots@[b2 as u128]@.contains(id));
        }
    }

    /// No double execution, within a block: a slot never lists the same
    /// schedule id twice.
    pub proof fn law_no_duplicates_in_slot(&self, block: u64)
        requires
            self.wf(),
        ensures
            self.ids_at(block).no_duplicates(),
    {
        if self.slots@.dom().contains(block as u128) {
        }
    }

    /// Every planned id is a stored schedule: slots never point at ghosts.
    pub proof fn law_planned_is_stored(&self, id: u32, block: u64)
        requires
            self.wf(),
            self.planned_at(id, block),
        ensures
            self.has_schedule(id),
    {
        assert(self.slots@.dom().contains(block as u128));
        let v = self.slots@[block as u128]@;
        let i = choose|i: int| 0 <= i < v.len() && v[i] == id;
        assert(self.schedules@.dom().contains(self.slots@[block as u128]@[i] as u128));
    }

    /// The retry ceiling is terminal: a stored schedule's consecutive-failure
    /// count is always strictly below the ceiling, because the failure that
    /// reaches it removes the schedule and returns its funds.
    pub proof fn law_retries_below_ceiling(&self, id: u32)
        requires
            self.wf(),
        ensures
            self.retries_of(id) < self.spec_config().retry_ceiling,
    {
        if self.retries@.dom().contains(id as u128) {
        }
    }

    /// A stored schedule always has budget left: a budget that reaches zero
    /// retires the schedule in the same step.
    pub proof fn law_remaining_positive(&self, id: u32)
        requires
            self.wf(),
            self.has_schedule(id),
        ensures
            1 <= self.remaining_of(id),
            self.remaining_of(id) <= self.schedule_of(id).total_amount,
    {
        assert(self.schedules@.dom().contains(id as u128));
    }

    pub fn current_block(&self) -> (r: u64)
        ensures
            r == self.spec_now(),
    {
        self.now
    }

    pub fn next_schedule_id(&self) -> (r: u32)
        ensures
            r == self.spec_next_id(),
    {
        self.next_id
    }
}

} // verus!
