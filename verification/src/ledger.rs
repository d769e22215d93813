//! The balance-custody ledger: spendable balances per account and asset, and
//! named reserves that isolate each schedule's custodied funds under a tag.
//!
//! The ledger maintains one internal conservation invariant: for every
//! account and asset, the spendable balance plus everything reserved for that
//! pair fits in a `u128`. Reserving moves funds from spendable to a fresh
//! tag, consuming burns funds out of a tag into a trade, and releasing moves
//! a tag's remainder back to its owner's spendable balance, so the invariant
//! is preserved and releases can never overflow.

use crate::table::Table;
use vstd::prelude::*;

verus! {

/// One named reserve: funds of `owner`, in `asset`, held under `tag`.
#[derive(Clone, Copy, Debug, PartialEq, Eq)]
pub struct ReserveEntry {
    pub tag: u64,
    pub owner: u64,
    pub asset: u32,
    pub amount: u128,
}

/// The key of the spendable-balance table: owner and asset, packed with
/// disjoint ranges so distinct pairs get distinct keys.
pub open spec fn acct_key(owner: u64, asset: u32) -> u128 {
    (owner as u128 * 0x100000000 + asset as u128) as u128
}

proof fn lemma_acct_key_injective(o1: u64, a1: u32, o2: u64, a2: u32)
    requires
        acct_key(o1, a1) == acct_key(o2, a2),
    ensures
        o1 == o2 && a1 == a2,
{
    assert(acct_key(o1, a1) as int == o1 as int * 0x100000000 + a1 as int);
    assert(acct_key(o2, a2) as int == o2 as int * 0x100000000 + a2 as int);
    vstd::arithmetic::div_mod::lemma_fundamental_div_mod_converse(
        acct_key(o1, a1) as int,
        0x100000000,
        o1 as int,
        a1 as int,
    );
    vstd::arithmetic::div_mod::lemma_fundamental_div_mod_converse(
        acct_key(o2, a2) as int,
        0x100000000,
        o2 as int,
        a2 as int,
    );
}

/// No tag occurs twice.
pub open spec fn rs_wf(rs: Seq<ReserveEntry>) -> bool {
    forall|i: int, j: int|
        0 <= i < rs.len() && 0 <= j < rs.len() && i != j ==> (#[trigger] rs[i]).tag != (
        #[trigger] rs[j]).tag
}

pub open spec fn rs_has(rs: Seq<ReserveEntry>, tag: u64) -> bool {
    exists|i: int| 0 <= i < rs.len() && (#[trigger] rs[i]).tag == tag
}

pub open spec fn rs_index(rs: Seq<ReserveEntry>, tag: u64) -> int {
    choose|i: int| 0 <= i < rs.len() && (#[trigger] rs[i]).tag == tag
}

pub open spec fn rs_at(rs: Seq<ReserveEntry>, tag: u64) -> ReserveEntry {
    rs[rs_index(rs, tag)]
}

/// What one entry contributes to the reserves of a given account and asset.
pub open spec fn held_for(e: ReserveEntry, owner: u64, asset: u32) -> int {
    if e.owner == owner && e.asset == asset {
        e.amount as int
    } else {
        0
    }
}

/// Everything reserved for an account and asset, over all tags.
pub open spec fn rsum(rs: Seq<ReserveEntry>, owner: u64, asset: u32) -> int
    decreases rs.len(),
{
    if rs.len() == 0 {
        0
    } else {
        held_for(rs[0], owner, asset) + rsum(rs.drop_first(), owner, asset)
    }
}

proof fn lemma_rsum_nonneg(rs: Seq<ReserveEntry>, owner: u64, asset: u32)
    ensures
        rsum(rs, owner, asset) >= 0,
    decreases rs.len(),
{
    if rs.len() > 0 {
        lemma_rsum_nonneg(rs.drop_first(), owner, asset);
    }
}

/// An index with a given tag is the index `rs_index` picks, under `rs_wf`.
proof fn lemma_rs_found(rs: Seq<ReserveEntry>, i: int)
    requires
        rs_wf(rs),
        0 <= i < rs.len(),
    ensures
        rs_has(rs, rs[i].tag),
        rs_index(rs, rs[i].tag) == i,
        rs_at(rs, rs[i].tag) == rs[i],
{
    let tag = rs[i].tag;
    assert(0 <= i < rs.len() && rs[i].tag == tag);
    let j = rs_index(rs, tag);
    assert(0 <= j < rs.len() && rs[j].tag == tag);
    assert(j == i);
}

proof fn lemma_rsum_push(rs: Seq<ReserveEntry>, e: ReserveEntry, owner: u64, asset: u32)
    ensures
        rsum(rs.push(e), owner, asset) == rsum(rs, owner, asset) + held_for(e, owner, asset),
    decreases rs.len(),
{
    let pushed = rs.push(e);
    if rs.len() == 0 {
        assert(pushed.drop_first() =~= rs);
    } else {
        assert(pushed.drop_first() =~= rs.drop_first().push(e));
        lemma_rsum_push(rs.drop_first(), e, owner, asset);
    }
}

proof fn lemma_rsum_update(rs: Seq<ReserveEntry>, i: int, e: ReserveEntry, owner: u64, asset: u32)
    requires
        0 <= i < rs.len(),
    ensures
        rsum(rs.update(i, e), owner, asset) == rsum(rs, owner, asset) - held_for(
            rs[i],
            owner,
            asset,
        ) + held_for(e, owner, asset),
    decreases rs.len(),
{
    let updated = rs.update(i, e);
    if i == 0 {
        assert(updated.drop_first() =~= rs.drop_first());
    } else {
        assert(updated.drop_first() =~= rs.drop_first().update(i - 1, e));
        lemma_rsum_update(rs.drop_first(), i - 1, e, owner, asset);
    }
}

proof fn lemma_rsum_remove(rs: Seq<ReserveEntry>, i: int, owner: u64, asset: u32)
    requires
        0 <= i < rs.len(),
    ensures
        rsum(rs.remove(i), owner, asset) == rsum(rs, owner, asset) - held_for(rs[i], owner, asset),
    decreases rs.len(),
{
    let removed = rs.remove(i);
    if i == 0 {
        assert(removed =~= rs.drop_first());
    } else {
        assert(removed.drop_first() =~= rs.drop_first().remove(i - 1));
        assert(removed[0] == rs[0]);
        lemma_rsum_remove(rs.drop_first(), i - 1, owner, asset);
    }
}

/// Each entry's contribution is bounded by the total for its pair.
proof fn lemma_held_le_rsum(rs: Seq<ReserveEntry>, i: int, owner: u64, asset: u32)
    requires
        0 <= i < rs.len(),
    ensures
        held_for(rs[i], owner, asset) <= rsum(rs, owner, asset),
    decreases rs.len(),
{
    lemma_rsum_nonneg(rs.drop_first(), owner, asset);
    if i > 0 {
        lemma_held_le_rsum(rs.drop_first(), i - 1, owner, asset);
    }
}

/// A pair no entry matches has nothing reserved.
proof fn lemma_rsum_zero(rs: Seq<ReserveEntry>, owner: u64, asset: u32)
    requires
        forall|i: int| 0 <= i < rs.len() ==> held_for(#[trigger] rs[i], owner, asset) == 0,
    ensures
        rsum(rs, owner, asset) == 0,
    decreases rs.len(),
{
    if rs.len() > 0 {
        assert forall|i: int| 0 <= i < rs.drop_first().len() implies held_for(
            #[trigger] rs.drop_first()[i],
            owner,
            asset,
        ) == 0 by {
            assert(rs.drop_first()[i] == rs[i + 1]);
        }
        lemma_rsum_zero(rs.drop_first(), owner, asset);
    }
}

/// Spendable balances and named reserves.
pub struct Ledger {
    accounts: Table<u128>,
    reserves: Vec<ReserveEntry>,
}

impl Ledger {
    pub closed spec fn wf(&self) -> bool {
        &&& self.accounts.wf()
        &&& rs_wf(self.reserves@)
        &&& forall|owner: u64, asset: u32|
            self.spec_free(owner, asset) as int + #[trigger] rsum(self.reserves@, owner, asset)
                <= u128::MAX as int
    }

    /// The spendable balance of an account in an asset.
    pub closed spec fn spec_free(&self, owner: u64, asset: u32) -> u128 {
        if self.accounts@.dom().contains(acct_key(owner, asset)) {
            self.accounts@[acct_key(owner, asset)]
        } else {
            0
        }
    }

    /// Whether any funds are held under the tag.
    pub closed spec fn has_reserve(&self, tag: u64) -> bool {
        rs_has(self.reserves@, tag)
    }

    /// The reserve held under the tag (meaningful only when it exists).
    pub closed spec fn reserve_entry(&self, tag: u64) -> ReserveEntry {
        rs_at(self.reserves@, tag)
    }

    /// The balance reserved under `tag` for `owner` in `asset`; zero when the
    /// tag is absent or names a different owner or asset.
    pub open spec fn spec_reserved_named(&self, tag: u64, asset: u32, owner: u64) -> u128 {
        if self.has_reserve(tag) && self.reserve_entry(tag).owner == owner && self.reserve_entry(
            tag,
        ).asset == asset {
            self.reserve_entry(tag).amount
        } else {
            0
        }
    }

    /// Whether some tag names this account and asset.
    pub closed spec fn has_reserve_for(&self, owner: u64, asset: u32) -> bool {
        exists|i: int|
            0 <= i < self.reserves@.len() && (#[trigger] self.reserves@[i]).owner == owner
                && self.reserves@[i].asset == asset
    }

    /// Funds of an account and asset sit in custody exactly when some tag
    /// names that pair.
    pub proof fn lemma_reserve_for_iff(&self, owner: u64, asset: u32)
        requires
            self.wf(),
        ensures
            self.has_reserve_for(owner, asset) <==> exists|t: u64|
                #[trigger] self.has_reserve(t) && self.reserve_entry(t).owner == owner
                    && self.reserve_entry(t).asset == asset,
    {
        if self.has_reserve_for(owner, asset) {
            let i = choose|i: int|
                0 <= i < self.reserves@.len() && (#[trigger] self.reserves@[i]).owner == owner
                    && self.reserves@[i].asset == asset;
            lemma_rs_found(self.reserves@, i);
            assert(self.has_reserve(self.reserves@[i].tag) && self.reserve_entry(
                self.reserves@[i].tag,
            ).owner == owner && self.reserve_entry(self.reserves@[i].tag).asset == asset);
        }
        if exists|t: u64|
            #[trigger] self.has_reserve(t) && self.reserve_entry(t).owner == owner
                && self.reserve_entry(t).asset == asset {
            let t = choose|t: u64|
                #[trigger] self.has_reserve(t) && self.reserve_entry(t).owner == owner
                    && self.reserve_entry(t).asset == asset;
            let i = rs_index(self.reserves@, t);
            assert(0 <= i < self.reserves@.len() && self.reserves@[i].tag == t);
            assert((self.reserves@[i]).owner == owner && self.reserves@[i].asset == asset);
        }
    }

    pub fn new() -> (l: Ledger)
        ensures
            l.wf(),
            forall|owner: u64, asset: u32| l.spec_free(owner, asset) == 0,
            forall|tag: u64| !l.has_reserve(tag),
            forall|owner: u64, asset: u32| !l.has_reserve_for(owner, asset),
    {
        let l = Ledger { accounts: Table::new(), reserves: Vec::new() };
        proof {
            assert forall|owner: u64, asset: u32| rsum(l.reserves@, owner, asset) == 0 by {}
        }
        l
    }

    pub fn free_balance(&self, owner: u64, asset: u32) -> (r: u128)
        requires
            self.wf(),
        ensures
            r == self.spec_free(owner, asset),
    {
        let k = (owner as u128) * 0x100000000 + (asset as u128);
        match self.accounts.get(k) {
            Some(v) => *v,
            None => 0,
        }
    }

    pub fn reserved_balance_named(&self, tag: u64, asset: u32, owner: u64) -> (r: u128)
        requires
            self.wf(),
        ensures
            r == self.spec_reserved_named(tag, asset, owner),
    {
        let n = self.reserves.len();
        let mut i: usize = 0;
        while i < n
            invariant
                self.wf(),
                n == self.reserves@.len(),
                i <= n,
                forall|j: int| 0 <= j < i ==> (#[trigger] self.reserves@[j]).tag != tag,
            decreases n - i,
        {
            let e = self.reserves[i];
            if e.tag == tag {
                proof {
                    lemma_rs_found(self.reserves@, i as int);
                }
                if e.owner == owner && e.asset == asset {
                    return e.amount;
                } else {
                    return 0;
                }
            }
            i = i + 1;
        }
        proof {
            assert(!rs_has(self.reserves@, tag));
        }
        0
    }

    /// Endow an account: set its spendable balance outright. Declined (with
    /// no state change) while any reserve holds funds of the same account and
    /// asset, since overwriting the balance could break conservation then.
    pub fn endow(&mut self, owner: u64, asset: u32, amount: u128) -> (ok: bool)
        requires
            old(self).wf(),
        ensures
            final(self).wf(),
            ok == !old(self).has_reserve_for(owner, asset),
            ok ==> {
                &&& final(self).spec_free(owner, asset) == amount
                &&& forall|o2: u64, a2: u32|
                    !(o2 == owner && a2 == asset) ==> final(self).spec_free(o2, a2) == old(
                        self,
                    ).spec_free(o2, a2)
                &&& forall|t2: u64| final(self).has_reserve(t2) == old(self).has_reserve(t2)
                &&& forall|t2: u64| final(self).reserve_entry(t2) == old(self).reserve_entry(t2)
                &&& forall|o2: u64, a2: u32|
                    final(self).has_reserve_for(o2, a2) == old(self).has_reserve_for(o2, a2)
            },
            !ok ==> *final(self) == *old(self),
    {
        let n = self.reserves.len();
        let mut i: usize = 0;
        while i < n
            invariant
                self.wf(),
                n == self.reserves@.len(),
                i <= n,
                forall|j: int|
                    0 <= j < i ==> !((#[trigger] self.reserves@[j]).owner == owner
                        && self.reserves@[j].asset == asset),
            decreases n - i,
        {
            let e = self.reserves[i];
            if e.owner == owner && e.asset == asset {
                return false;
            }
            i = i + 1;
        }
        let ghost prev = *self;
        proof {
            assert(!self.has_reserve_for(owner, asset));
            lemma_rsum_zero(self.reserves@, owner, asset);
        }
        let k = (owner as u128) * 0x100000000 + (asset as u128);
        self.accounts.insert(k, amount);
        proof {
            assert forall|o2: u64, a2: u32|
                !(o2 == owner && a2 == asset) implies self.spec_free(o2, a2) == prev.spec_free(
                o2,
                a2,
            ) by {
                if acct_key(o2, a2) == acct_key(owner, asset) {
                    lemma_acct_key_injective(o2, a2, owner, asset);
                }
            }
            assert forall|o2: u64, a2: u32|
                self.spec_free(o2, a2) as int + #[trigger] rsum(self.reserves@, o2, a2)
                    <= u128::MAX as int by {
                lemma_rsum_nonneg(self.reserves@, o2, a2);
                if !(o2 == owner && a2 == asset) {
                    assert(self.spec_free(o2, a2) == prev.spec_free(o2, a2));
                }
            }
        }
        true
    }

    /// Move `amount` of the owner's spendable balance into custody under a
    /// fresh tag. Declines (with no state change) when the balance is short.
    pub fn reserve_named(&mut self, tag: u64, owner: u64, asset: u32, amount: u128) -> (ok: bool)
        requires
            old(self).wf(),
            !old(self).has_reserve(tag),
        ensures
            final(self).wf(),
            ok == (old(self).spec_free(owner, asset) >= amount),
            !ok ==> *final(self) == *old(self),
            ok ==> {
                &&& final(self).spec_free(owner, asset) == old(self).spec_free(owner, asset)
                    - amount
                &&& forall|o2: u64, a2: u32|
                    !(o2 == owner && a2 == asset) ==> final(self).spec_free(o2, a2) == old(
                        self,
                    ).spec_free(o2, a2)
                &&& final(self).has_reserve(tag)
                &&& final(self).reserve_entry(tag) == (ReserveEntry { tag, owner, asset, amount })
                &&& forall|t2: u64|
                    t2 != tag ==> final(self).has_reserve(t2) == old(self).has_reserve(t2)
                &&& forall|t2: u64|
                    t2 != tag && old(self).has_reserve(t2) ==> final(self).reserve_entry(t2) == old(
                        self,
                    ).reserve_entry(t2)
            },
    {
        let free = self.free_balance(owner, asset);
        if free < amount {
            return false;
        }
        let ghost prev = *self;
        let k = (owner as u128) * 0x100000000 + (asset as u128);
        self.accounts.insert(k, free - amount);
        let e = ReserveEntry { tag, owner, asset, amount };
        self.reserves.push(e);
        proof {
            let rs = prev.reserves@;
            let pushed = self.reserves@;
            let n = rs.len() as int;
            // uniqueness of tags survives the push of a fresh tag
            assert forall|i: int, j: int|
                0 <= i < pushed.len() && 0 <= j < pushed.len() && i != j implies (
            #[trigger] pushed[i]).tag != (#[trigger] pushed[j]).tag by {
                if i == n {
                    assert(rs_has(rs, rs[j].tag)) by {
                        assert(0 <= j < rs.len() && rs[j].tag == rs[j].tag);
                    }
                } else if j == n {
                    assert(rs_has(rs, rs[i].tag)) by {
                        assert(0 <= i < rs.len() && rs[i].tag == rs[i].tag);
                    }
                }
            }
            lemma_rs_found(pushed, n);
            // existing tags keep their entries
            assert forall|t2: u64| t2 != tag && rs_has(rs, t2) implies rs_has(pushed, t2) && rs_at(
                pushed,
                t2,
            ) == rs_at(rs, t2) by {
                let i = rs_index(rs, t2);
                assert(0 <= i < rs.len() && rs[i].tag == t2);
                assert(pushed[i] == rs[i]);
                lemma_rs_found(pushed, i);
            }
            assert forall|t2: u64| t2 != tag && rs_has(pushed, t2) implies rs_has(rs, t2) by {
                let i = rs_index(pushed, t2);
                assert(0 <= i < pushed.len() && pushed[i].tag == t2);
                assert(i != n);
                assert(rs[i].tag == t2);
            }
            // frames on spendable balances
            assert forall|o2: u64, a2: u32|
                !(o2 == owner && a2 == asset) implies self.spec_free(o2, a2) == prev.spec_free(
                o2,
                a2,
            ) by {
                if acct_key(o2, a2) == acct_key(owner, asset) {
                    lemma_acct_key_injective(o2, a2, owner, asset);
                }
            }
            // conservation
            assert forall|o2: u64, a2: u32|
                self.spec_free(o2, a2) as int + #[trigger] rsum(pushed, o2, a2)
                    <= u128::MAX as int by {
                lemma_rsum_push(rs, e, o2, a2);
                assert(prev.spec_free(o2, a2) as int + rsum(rs, o2, a2) <= u128::MAX as int);
            }
        }
        true
    }

    /// Release everything held under `tag` back to its owner's spendable
    /// balance and drop the tag.
    pub fn release_named(&mut self, tag: u64)
        requires
            old(self).wf(),
            old(self).has_reserve(tag),
        ensures
            final(self).wf(),
            !final(self).has_reserve(tag),
            final(self).spec_free(
                old(self).reserve_entry(tag).owner,
                old(self).reserve_entry(tag).asset,
            ) == old(self).spec_free(
                old(self).reserve_entry(tag).owner,
                old(self).reserve_entry(tag).asset,
            ) + old(self).reserve_entry(tag).amount,
            forall|o2: u64, a2: u32|
                !(o2 == old(self).reserve_entry(tag).owner && a2 == old(self).reserve_entry(
                    tag,
                ).asset) ==> final(self).spec_free(o2, a2) == old(self).spec_free(o2, a2),
            forall|t2: u64| t2 != tag ==> final(self).has_reserve(t2) == old(self).has_reserve(t2),
            forall|t2: u64|
                t2 != tag && old(self).has_reserve(t2) ==> final(self).reserve_entry(t2) == old(
                    self,
                ).reserve_entry(t2),
    {
        let ghost prev = *self;
        proof {
            assert(prev == *old(self));
        }
        let n = self.reserves.len();
        let mut i: usize = 0;
        while i < n
            invariant
                self.wf(),
                *self == prev,
                prev == *old(self),
                n == self.reserves@.len(),
                i <= n,
                rs_has(self.reserves@, tag),
                forall|j: int| 0 <= j < i ==> (#[trigger] self.reserves@[j]).tag != tag,
            decreases n - i,
        {
            let e = self.reserves[i];
            if e.tag == tag {
                proof {
                    lemma_rs_found(self.reserves@, i as int);
                    lemma_held_le_rsum(self.reserves@, i as int, e.owner, e.asset);
                }
                let free = self.free_balance(e.owner, e.asset);
                self.reserves.remove(i);
                let k = (e.owner as u128) * 0x100000000 + (e.asset as u128);
                self.accounts.insert(k, free + e.amount);
                proof {
                    self.lemma_after_reserve_removal(prev, i as int, tag, e);
                }
                return ;
            }
            i = i + 1;
        }
        proof {
            assert(!rs_has(self.reserves@, tag));
        }
    }

    /// After removing reserve entry `i` (holding `tag`) and crediting its
    /// amount to its owner's balance, well-formedness and the frame hold.
    proof fn lemma_after_reserve_removal(&self, prev: Self, i: int, tag: u64, e: ReserveEntry)
        requires
            prev.wf(),
            0 <= i < prev.reserves@.len(),
            prev.reserves@[i] == e,
            e.tag == tag,
            self.reserves@ == prev.reserves@.remove(i),
            self.accounts.wf(),
            self.accounts@ == prev.accounts@.insert(
                acct_key(e.owner, e.asset),
                (prev.spec_free(e.owner, e.asset) + e.amount) as u128,
            ),
            prev.spec_free(e.owner, e.asset) + e.amount <= u128::MAX,
        ensures
            self.wf(),
            !self.has_reserve(tag),
            self.spec_free(e.owner, e.asset) == prev.spec_free(e.owner, e.asset) + e.amount,
            forall|o2: u64, a2: u32|
                !(o2 == e.owner && a2 == e.asset) ==> self.spec_free(o2, a2) == prev.spec_free(
                    o2,
                    a2,
                ),
            forall|t2: u64| t2 != tag ==> self.has_reserve(t2) == prev.has_reserve(t2),
            forall|t2: u64|
                t2 != tag && prev.has_reserve(t2) ==> self.reserve_entry(t2) == prev.reserve_entry(
                    t2,
                ),
    {
        let rs = prev.reserves@;
        let cut = self.reserves@;
        let n = rs.len() as int;
        assert forall|j: int| 0 <= j < n - 1 implies cut[j] == (if j < i {
            rs[j]
        } else {
            rs[j + 1]
        }) by {}
        assert forall|a: int, b: int|
            0 <= a < cut.len() && 0 <= b < cut.len() && a != b implies (#[trigger] cut[a]).tag != (
        #[trigger] cut[b]).tag by {}
        // the tag is gone: every remaining index came from an index other than i
        assert forall|j: int| 0 <= j < cut.len() implies (#[trigger] cut[j]).tag != tag by {
            let jp = if j < i {
                j
            } else {
                j + 1
            };
            assert(cut[j] == rs[jp]);
        }
        // other tags keep their entries
        assert forall|t2: u64| t2 != tag && rs_has(rs, t2) implies rs_has(cut, t2) && rs_at(
            cut,
            t2,
        ) == rs_at(rs, t2) by {
            let jp = rs_index(rs, t2);
            assert(0 <= jp < rs.len() && rs[jp].tag == t2);
            assert(jp != i);
            let j = if jp < i {
                jp
            } else {
                jp - 1
            };
            assert(cut[j] == rs[jp]);
            lemma_rs_found(cut, j);
            lemma_rs_found(rs, jp);
        }
        assert forall|t2: u64| t2 != tag && rs_has(cut, t2) implies rs_has(rs, t2) by {
            let j = rs_index(cut, t2);
            assert(0 <= j < cut.len() && cut[j].tag == t2);
            let jp = if j < i {
                j
            } else {
                j + 1
            };
            assert(rs[jp].tag == t2);
        }
        // balance frames through key injectivity
        assert forall|o2: u64, a2: u32|
            !(o2 == e.owner && a2 == e.asset) implies self.spec_free(o2, a2) == prev.spec_free(
            o2,
            a2,
        ) by {
            if acct_key(o2, a2) == acct_key(e.owner, e.asset) {
                lemma_acct_key_injective(o2, a2, e.owner, e.asset);
            }
        }
        // conservation: the removed contribution moved into the free balance
        assert forall|o2: u64, a2: u32|
            self.spec_free(o2, a2) as int + #[trigger] rsum(cut, o2, a2) <= u128::MAX as int by {
            lemma_rsum_remove(rs, i, o2, a2);
            assert(prev.spec_free(o2, a2) as int + rsum(rs, o2, a2) <= u128::MAX as int);
        }
    }

    /// Burn `amount` out of the custody under `tag`: the funds leave the
    /// ledger into a trade. Spendable balances are untouched.
    pub fn consume_named(&mut self, tag: u64, amount: u128)
        requires
            old(self).wf(),
            old(self).has_reserve(tag),
            amount <= old(self).reserve_entry(tag).amount,
        ensures
            final(self).wf(),
            final(self).has_reserve(tag),
            final(self).reserve_entry(tag) == (ReserveEntry {
                amount: (old(self).reserve_entry(tag).amount - amount) as u128,
                ..old(self).reserve_entry(tag)
            }),
            forall|o2: u64, a2: u32| final(self).spec_free(o2, a2) == old(self).spec_free(o2, a2),
            forall|t2: u64| final(self).has_reserve(t2) == old(self).has_reserve(t2),
            forall|t2: u64|
                t2 != tag && old(self).has_reserve(t2) ==> final(self).reserve_entry(t2) == old(
                    self,
                ).reserve_entry(t2),
    {
        let ghost prev = *self;
        let n = self.reserves.len();
        let mut i: usize = 0;
        while i < n
            invariant
                self.wf(),
                *self == prev,
                prev == *old(self),
                n == self.reserves@.len(),
                i <= n,
                rs_has(self.reserves@, tag),
                rs_at(self.reserves@, tag).amount >= amount,
                forall|j: int| 0 <= j < i ==> (#[trigger] self.reserves@[j]).tag != tag,
            decreases n - i,
        {
            let e = self.reserves[i];
            if e.tag == tag {
                proof {
                    lemma_rs_found(self.reserves@, i as int);
                }
                let e2 = ReserveEntry { tag: e.tag, owner: e.owner, asset: e.asset, amount: e.amount
                    - amount };
                self.reserves[i] = e2;
                proof {
                    let rs = prev.reserves@;
                    let upd = self.reserves@;
                    assert forall|a: int, b: int|
                        0 <= a < upd.len() && 0 <= b < upd.len() && a != b implies (
                    #[trigger] upd[a]).tag != (#[trigger] upd[b]).tag by {}
                    lemma_rs_found(upd, i as int);
                    assert forall|t2: u64| t2 != tag && rs_has(rs, t2) implies rs_has(upd, t2)
                        && rs_at(upd, t2) == rs_at(rs, t2) by {
                        let jp = rs_index(rs, t2);
                        assert(0 <= jp < rs.len() && rs[jp].tag == t2);
                        assert(jp != i);
                        assert(upd[jp] == rs[jp]);
                        lemma_rs_found(upd, jp);
                        lemma_rs_found(rs, jp);
                    }
                    assert forall|t2: u64| t2 != tag && rs_has(upd, t2) implies rs_has(rs, t2) by {
                        let j = rs_index(upd, t2);
                        assert(0 <= j < upd.len() && upd[j].tag == t2);
                        assert(j != i);
                        assert(rs[j].tag == t2);
                    }
                    assert forall|o2: u64, a2: u32|
                        self.spec_free(o2, a2) as int + #[trigger] rsum(upd, o2, a2)
                            <= u128::MAX as int by {
                        lemma_rsum_update(rs, i as int, e2, o2, a2);
                        lemma_rsum_nonneg(rs, o2, a2);
                        assert(prev.spec_free(o2, a2) as int + rsum(rs, o2, a2)
                            <= u128::MAX as int);
                    }
                }
                return ;
            }
            i = i + 1;
        }
        proof {
            assert(!rs_has(self.reserves@, tag));
        }
    }
}

} // verus!
