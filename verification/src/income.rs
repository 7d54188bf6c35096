use vstd::prelude::*;
use vstd::arithmetic::div_mod::{
    lemma_div_is_ordered,
    lemma_div_multiples_vanish,
    lemma_div_of0,
    lemma_div_pos_is_pos,
    lemma_multiply_divide_le,
    lemma_remainder_lower,
};
use vstd::arithmetic::mul::{
    lemma_mul_inequality,
    lemma_mul_is_commutative,
    lemma_mul_is_distributive_add,
    lemma_mul_nonnegative,
};
use crate::ownership::{lemma_sum_nonneg, sum_for, OwnEntry, UserId};
use crate::registry::PropertyId;

verus! {

/// The pro-rata cut of a deposit: `amount * shares / total`, rounded down.
/// This is what one owner holding `shares` of `total` is credited when
/// `amount` is distributed.
pub open spec fn share_of(amount: int, shares: int, total: int) -> int {
    amount * shares / total
}

pub(crate) proof fn lemma_share_zero(amount: int, total: int)
    requires
        total > 0,
    ensures
        share_of(amount, 0, total) == 0,
{
    assert(amount * 0 == 0) by (nonlinear_arith);
    lemma_div_of0(total);
}

pub(crate) proof fn lemma_share_nonneg(amount: int, shares: int, total: int)
    requires
        amount >= 0,
        shares >= 0,
        total > 0,
    ensures
        0 <= share_of(amount, shares, total),
{
    lemma_mul_nonnegative(amount, shares);
    lemma_div_pos_is_pos(amount * shares, total);
}

/// An owner's cut never exceeds the full deposit, since `shares <= total`.
pub(crate) proof fn lemma_share_le(amount: int, shares: int, total: int)
    requires
        amount >= 0,
        0 <= shares <= total,
        0 < total,
    ensures
        share_of(amount, shares, total) <= amount,
{
    lemma_mul_inequality(shares, total, amount);
    lemma_mul_is_commutative(amount, shares);
    lemma_mul_is_commutative(total, amount);
    lemma_multiply_divide_le(amount * shares, total, amount);
}

/// Rounding down loses to the pooled cut: cutting twice never beats
/// cutting once over the combined share count.
pub(crate) proof fn lemma_share_superadd(amount: int, x: int, y: int, total: int)
    requires
        amount >= 0,
        x >= 0,
        y >= 0,
        0 < total,
    ensures
        share_of(amount, x, total) + share_of(amount, y, total) <= share_of(amount, x + y, total),
{
    let q1 = amount * x / total;
    let q2 = amount * y / total;
    lemma_mul_nonnegative(amount, x);
    lemma_mul_nonnegative(amount, y);
    lemma_remainder_lower(amount * x, total);
    lemma_remainder_lower(amount * y, total);
    assert(amount * x + amount * y >= q1 * total + q2 * total);
    lemma_mul_is_distributive_add(amount, x, y);
    assert(amount * (x + y) == amount * x + amount * y);
    lemma_mul_is_distributive_add(total, q1, q2);
    lemma_mul_is_commutative(q1, total);
    lemma_mul_is_commutative(q2, total);
    lemma_mul_is_commutative(q1 + q2, total);
    assert(total * (q1 + q2) <= amount * (x + y));
    lemma_div_is_ordered(total * (q1 + q2), amount * (x + y), total);
    lemma_div_multiples_vanish(q1 + q2, total);
}

/// Computes one owner's pro-rata cut of a deposit, widening internally so
/// the product cannot overflow. The result never exceeds the deposit.
pub(crate) fn compute_share(amount: u64, shares: u64, total: u64) -> (r: u64)
    requires
        0 < total,
        shares <= total,
    ensures
        r as int == share_of(amount as int, shares as int, total as int),
        r <= amount,
{
    proof {
        assert((amount as int) * (shares as int) <= (u64::MAX as int) * (u64::MAX as int))
            by (nonlinear_arith)
            requires
                0 <= amount <= u64::MAX,
                0 <= shares <= u64::MAX,
        ;
        assert((u64::MAX as int) * (u64::MAX as int) < u128::MAX as int) by (nonlinear_arith);
        lemma_share_nonneg(amount as int, shares as int, total as int);
        lemma_share_le(amount as int, shares as int, total as int);
    }
    let p: u128 = (amount as u128) * (shares as u128);
    let c: u128 = p / (total as u128);
    proof {
        assert(c as int == share_of(amount as int, shares as int, total as int));
        assert(c <= amount);
    }
    c as u64
}

/// The grand total credited by one distribution of `amount` over the
/// ownership records of property `pid`.
pub(crate) open spec fn credited_in(
    s: Seq<OwnEntry>,
    pid: PropertyId,
    amount: int,
    total: int,
) -> int
    decreases s.len(),
{
    if s.len() == 0 {
        0
    } else {
        credited_in(s.drop_last(), pid, amount, total) + if s.last().property_id == pid {
            share_of(amount, s.last().shares as int, total)
        } else {
            0
        }
    }
}

/// The credits of one distribution sum to at most the pooled cut over the
/// property's whole issued share count.
pub(crate) proof fn lemma_credited_le_pooled(
    s: Seq<OwnEntry>,
    pid: PropertyId,
    amount: int,
    total: int,
)
    requires
        amount >= 0,
        total > 0,
    ensures
        credited_in(s, pid, amount, total) <= share_of(amount, sum_for(s, pid), total),
    decreases s.len(),
{
    if s.len() == 0 {
        lemma_share_zero(amount, total);
    } else {
        let s2 = s.drop_last();
        let e = s.last();
        lemma_credited_le_pooled(s2, pid, amount, total);
        lemma_sum_nonneg(s2, pid);
        if e.property_id == pid {
            lemma_share_superadd(amount, sum_for(s2, pid), e.shares as int, total);
        }
    }
}

/// Cumulative rental income ever deposited for one property. Informational:
/// it only ever grows, and claiming never reduces it.
pub struct IncomeTotal {
    pub(crate) property_id: PropertyId,
    pub(crate) total: u64,
}

/// Income credited to one owner of one property by distribution and not yet
/// claimed. Created lazily on first credit; a claim resets it to zero.
pub struct IncomeEntry {
    pub(crate) property_id: PropertyId,
    pub(crate) owner: UserId,
    pub(crate) amount: u64,
}

/// `e` is the unclaimed-income record for owner `owner` of property `pid`.
pub(crate) open spec fn inc_matches(e: IncomeEntry, pid: PropertyId, owner: Seq<char>) -> bool {
    e.property_id == pid && e.owner@ == owner
}

/// What `e` holds for the unclaimed income of `(pid, owner)`.
pub(crate) open spec fn inc_part(e: IncomeEntry, pid: PropertyId, owner: Seq<char>) -> int {
    if inc_matches(e, pid, owner) {
        e.amount as int
    } else {
        0
    }
}

/// The unclaimed income of `(pid, owner)`: zero when no record exists.
pub(crate) open spec fn unclaimed_in(s: Seq<IncomeEntry>, pid: PropertyId, owner: Seq<char>) -> int
    decreases s.len(),
{
    if s.len() == 0 {
        0
    } else {
        unclaimed_in(s.drop_last(), pid, owner) + inc_part(s.last(), pid, owner)
    }
}

/// No two unclaimed-income records share a (property, owner) key.
pub(crate) open spec fn unique_inc_keys(s: Seq<IncomeEntry>) -> bool {
    forall|i: int, j: int|
        #![trigger s[i], s[j]]
        0 <= i < j < s.len() ==> !(s[i].property_id == s[j].property_id && s[i].owner@
            == s[j].owner@)
}

/// What `t` holds for the cumulative income of property `pid`.
pub(crate) open spec fn tot_part(t: IncomeTotal, pid: PropertyId) -> int {
    if t.property_id == pid {
        t.total as int
    } else {
        0
    }
}

/// The cumulative income deposited for `pid`: zero when no record exists.
pub(crate) open spec fn total_in(s: Seq<IncomeTotal>, pid: PropertyId) -> int
    decreases s.len(),
{
    if s.len() == 0 {
        0
    } else {
        total_in(s.drop_last(), pid) + tot_part(s.last(), pid)
    }
}

/// No two cumulative-income records describe the same property.
pub(crate) open spec fn unique_tot_pids(s: Seq<IncomeTotal>) -> bool {
    forall|i: int, j: int|
        #![trigger s[i], s[j]]
        0 <= i < j < s.len() ==> s[i].property_id != s[j].property_id
}

pub(crate) proof fn lemma_unclaimed_absent(s: Seq<IncomeEntry>, pid: PropertyId, owner: Seq<char>)
    requires
        forall|k: int| 0 <= k < s.len() ==> !inc_matches(#[trigger] s[k], pid, owner),
    ensures
        unclaimed_in(s, pid, owner) == 0,
    decreases s.len(),
{
    if s.len() > 0 {
        assert forall|k: int| 0 <= k < s.drop_last().len() implies !inc_matches(
            #[trigger] s.drop_last()[k],
            pid,
            owner,
        ) by {
            assert(s.drop_last()[k] == s[k]);
        }
        lemma_unclaimed_absent(s.drop_last(), pid, owner);
        assert(s.last() == s[s.len() - 1]);
    }
}

pub(crate) proof fn lemma_unclaimed_at_index(
    s: Seq<IncomeEntry>,
    i: int,
    pid: PropertyId,
    owner: Seq<char>,
)
    requires
        unique_inc_keys(s),
        0 <= i < s.len(),
        inc_matches(s[i], pid, owner),
    ensures
        unclaimed_in(s, pid, owner) == s[i].amount,
    decreases s.len(),
{
    if i == s.len() - 1 {
        assert forall|k: int| 0 <= k < s.drop_last().len() implies !inc_matches(
            #[trigger] s.drop_last()[k],
            pid,
            owner,
        ) by {
            assert(s.drop_last()[k] == s[k]);
        }
        lemma_unclaimed_absent(s.drop_last(), pid, owner);
    } else {
        assert(s.last() == s[s.len() - 1]);
        assert(!inc_matches(s.last(), pid, owner));
        assert(unique_inc_keys(s.drop_last())) by {
            assert forall|a: int| 0 <= a < s.drop_last().len() implies #[trigger] s.drop_last()[a]
                == s[a] by {}
        }
        assert(s.drop_last()[i] == s[i]);
        lemma_unclaimed_at_index(s.drop_last(), i, pid, owner);
    }
}

pub(crate) proof fn lemma_unclaimed_update(
    s: Seq<IncomeEntry>,
    i: int,
    e2: IncomeEntry,
    pid: PropertyId,
    owner: Seq<char>,
)
    requires
        0 <= i < s.len(),
    ensures
        unclaimed_in(s.update(i, e2), pid, owner) == unclaimed_in(s, pid, owner) - inc_part(
            s[i],
            pid,
            owner,
        ) + inc_part(e2, pid, owner),
    decreases s.len(),
{
    let s2 = s.update(i, e2);
    if i == s.len() - 1 {
        assert(s2.drop_last() =~= s.drop_last());
    } else {
        assert(s2.drop_last() =~= s.drop_last().update(i, e2));
        assert(s2.last() == s.last());
        lemma_unclaimed_update(s.drop_last(), i, e2, pid, owner);
    }
}

pub(crate) proof fn lemma_unclaimed_push(
    s: Seq<IncomeEntry>,
    e: IncomeEntry,
    pid: PropertyId,
    owner: Seq<char>,
)
    ensures
        unclaimed_in(s.push(e), pid, owner) == unclaimed_in(s, pid, owner) + inc_part(e, pid, owner),
{
    assert(s.push(e).drop_last() =~= s);
    assert(s.push(e).last() == e);
}

pub(crate) proof fn lemma_total_absent(s: Seq<IncomeTotal>, pid: PropertyId)
    requires
        forall|k: int| 0 <= k < s.len() ==> (#[trigger] s[k]).property_id != pid,
    ensures
        total_in(s, pid) == 0,
    decreases s.len(),
{
    if s.len() > 0 {
        assert forall|k: int| 0 <= k < s.drop_last().len() implies (
        #[trigger] s.drop_last()[k]).property_id != pid by {
            assert(s.drop_last()[k] == s[k]);
        }
        lemma_total_absent(s.drop_last(), pid);
        assert(s.last() == s[s.len() - 1]);
    }
}

pub(crate) proof fn lemma_total_at_index(s: Seq<IncomeTotal>, i: int, pid: PropertyId)
    requires
        unique_tot_pids(s),
        0 <= i < s.len(),
        s[i].property_id == pid,
    ensures
        total_in(s, pid) == s[i].total,
    decreases s.len(),
{
    if i == s.len() - 1 {
        assert forall|k: int| 0 <= k < s.drop_last().len() implies (
        #[trigger] s.drop_last()[k]).property_id != pid by {
            assert(s.drop_last()[k] == s[k]);
        }
        lemma_total_absent(s.drop_last(), pid);
    } else {
        assert(s.last() == s[s.len() - 1]);
        assert(unique_tot_pids(s.drop_last())) by {
            assert forall|a: int| 0 <= a < s.drop_last().len() implies #[trigger] s.drop_last()[a]
                == s[a] by {}
        }
        assert(s.drop_last()[i] == s[i]);
        lemma_total_at_index(s.drop_last(), i, pid);
    }
}

pub(crate) proof fn lemma_total_update(s: Seq<IncomeTotal>, i: int, t2: IncomeTotal, pid: PropertyId)
    requires
        0 <= i < s.len(),
    ensures
        total_in(s.update(i, t2), pid) == total_in(s, pid) - tot_part(s[i], pid) + tot_part(t2, pid),
    decreases s.len(),
{
    let s2 = s.update(i, t2);
    if i == s.len() - 1 {
        assert(s2.drop_last() =~= s.drop_last());
    } else {
        assert(s2.drop_last() =~= s.drop_last().update(i, t2));
        assert(s2.last() == s.last());
        lemma_total_update(s.drop_last(), i, t2, pid);
    }
}

pub(crate) proof fn lemma_total_push(s: Seq<IncomeTotal>, t: IncomeTotal, pid: PropertyId)
    ensures
        total_in(s.push(t), pid) == total_in(s, pid) + tot_part(t, pid),
{
    assert(s.push(t).drop_last() =~= s);
    assert(s.push(t).last() == t);
}

/// Accepts rental-income deposits and keeps per-owner unclaimed balances
/// that owners can claim. Distribution itself is driven from the system
/// level, where the ownership snapshot lives.
pub struct IncomeDistributor {
    pub(crate) totals: Vec<IncomeTotal>,
    pub(crate) unclaimed: Vec<IncomeEntry>,
}

impl IncomeDistributor {
    /// Well-formed: one cumulative record per property, one unclaimed
    /// record per (property, owner) key.
    pub(crate) open spec fn wf(self) -> bool {
        unique_tot_pids(self.totals@) && unique_inc_keys(self.unclaimed@)
    }

    /// The cumulative income deposited for `pid`.
    pub(crate) open spec fn total_of(self, pid: PropertyId) -> int {
        total_in(self.totals@, pid)
    }

    /// The unclaimed income of `(pid, owner)`; zero when absent.
    pub(crate) open spec fn unclaimed_of(self, pid: PropertyId, owner: Seq<char>) -> int {
        unclaimed_in(self.unclaimed@, pid, owner)
    }

    pub(crate) fn new() -> (r: IncomeDistributor)
        ensures
            r.wf(),
            r.totals@.len() == 0,
            r.unclaimed@.len() == 0,
    {
        IncomeDistributor { totals: Vec::new(), unclaimed: Vec::new() }
    }

    fn find_total(&self, pid: PropertyId) -> (r: Option<usize>)
        ensures
            match r {
                Some(i) => i < self.totals@.len() && self.totals@[i as int].property_id == pid,
                None => forall|k: int|
                    0 <= k < self.totals@.len() ==> (#[trigger] self.totals@[k]).property_id != pid,
            },
    {
        let n = self.totals.len();
        let mut j: usize = 0;
        while j < n
            invariant
                j <= n,
                n == self.totals@.len(),
                forall|k: int| 0 <= k < j ==> (#[trigger] self.totals@[k]).property_id != pid,
            decreases n - j,
        {
            if self.totals[j].property_id == pid {
                return Some(j);
            }
            j = j + 1;
        }
        None
    }

    fn find_unclaimed(&self, pid: PropertyId, user: &String) -> (r: Option<usize>)
        ensures
            match r {
                Some(i) => i < self.unclaimed@.len() && inc_matches(
                    self.unclaimed@[i as int],
                    pid,
                    user@,
                ),
                None => forall|k: int|
                    0 <= k < self.unclaimed@.len() ==> !inc_matches(
                        #[trigger] self.unclaimed@[k],
                        pid,
                        user@,
                    ),
            },
    {
        let n = self.unclaimed.len();
        let mut j: usize = 0;
        while j < n
            invariant
                j <= n,
                n == self.unclaimed@.len(),
                forall|k: int|
                    0 <= k < j ==> !inc_matches(#[trigger] self.unclaimed@[k], pid, user@),
            decreases n - j,
        {
            let e = &self.unclaimed[j];
            if e.property_id == pid && e.owner == *user {
                return Some(j);
            }
            j = j + 1;
        }
        None
    }

    /// Adds a deposit to the property's cumulative income record.
    pub(crate) fn add_total(&mut self, pid: PropertyId, amount: u64)
        requires
            old(self).wf(),
            old(self).total_of(pid) + amount <= u64::MAX,
        ensures
            final(self).wf(),
            final(self).total_of(pid) == old(self).total_of(pid) + amount,
            forall|p2: PropertyId| p2 != pid ==> final(self).total_of(p2) == old(self).total_of(p2),
            final(self).unclaimed == old(self).unclaimed,
    {
        let ghost s0 = self.totals@;
        match self.find_total(pid) {
            Some(i) => {
                proof {
                    lemma_total_at_index(s0, i as int, pid);
                }
                let t = &mut self.totals[i];
                t.total = t.total + amount;
                proof {
                    let t2 = self.totals@[i as int];
                    assert(self.totals@ == s0.update(i as int, t2));
                    assert(unique_tot_pids(self.totals@)) by {
                        assert forall|a: int| 0 <= a < self.totals@.len() implies (
                        #[trigger] self.totals@[a]).property_id == s0[a].property_id by {}
                    }
                    assert(self.total_of(pid) == old(self).total_of(pid) + amount) by {
                        lemma_total_update(s0, i as int, t2, pid);
                    }
                    assert forall|p2: PropertyId| p2 != pid implies self.total_of(p2) == old(
                        self,
                    ).total_of(p2) by {
                        lemma_total_update(s0, i as int, t2, p2);
                    }
                }
            },
            None => {
                proof {
                    lemma_total_absent(s0, pid);
                }
                let t = IncomeTotal { property_id: pid, total: amount };
                self.totals.push(t);
                proof {
                    let t2 = self.totals@[s0.len() as int];
                    assert(self.totals@ == s0.push(t2));
                    assert(unique_tot_pids(self.totals@)) by {
                        assert forall|a: int| 0 <= a < s0.len() implies #[trigger] self.totals@[a]
                            == s0[a] by {}
                    }
                    assert(self.total_of(pid) == old(self).total_of(pid) + amount) by {
                        lemma_total_push(s0, t2, pid);
                    }
                    assert forall|p2: PropertyId| p2 != pid implies self.total_of(p2) == old(
                        self,
                    ).total_of(p2) by {
                        lemma_total_push(s0, t2, p2);
                    }
                }
            },
        }
    }

    /// The cumulative income deposited for `pid`; zero when absent.
    pub(crate) fn total_for(&self, pid: PropertyId) -> (r: u64)
        requires
            self.wf(),
        ensures
            r as int == self.total_of(pid),
    {
        match self.find_total(pid) {
            Some(i) => {
                proof {
                    lemma_total_at_index(self.totals@, i as int, pid);
                }
                self.totals[i].total
            },
            None => {
                proof {
                    lemma_total_absent(self.totals@, pid);
                }
                0
            },
        }
    }

    /// Adds `add` to the unclaimed income of `(pid, user)`, creating the
    /// record if need be. No other unclaimed balance and no cumulative
    /// record changes.
    pub(crate) fn credit_unclaimed(&mut self, pid: PropertyId, user: &String, add: u64)
        requires
            old(self).wf(),
            old(self).unclaimed_of(pid, user@) + add <= u64::MAX,
        ensures
            final(self).wf(),
            final(self).unclaimed_of(pid, user@) == old(self).unclaimed_of(pid, user@) + add,
            forall|p2: PropertyId, u2: Seq<char>|
                !(p2 == pid && u2 == user@) ==> final(self).unclaimed_of(p2, u2) == old(
                    self,
                ).unclaimed_of(p2, u2),
            final(self).totals == old(self).totals,
    {
        let ghost s0 = self.unclaimed@;
        match self.find_unclaimed(pid, user) {
            Some(i) => {
                proof {
                    lemma_unclaimed_at_index(s0, i as int, pid, user@);
                }
                let e = &mut self.unclaimed[i];
                e.amount = e.amount + add;
                proof {
                    let e2 = self.unclaimed@[i as int];
                    assert(self.unclaimed@ == s0.update(i as int, e2));
                    assert(unique_inc_keys(self.unclaimed@)) by {
                        assert forall|a: int| 0 <= a < self.unclaimed@.len() implies (
                        #[trigger] self.unclaimed@[a]).property_id == s0[a].property_id
                            && self.unclaimed@[a].owner@ == s0[a].owner@ by {}
                    }
                    assert(self.unclaimed_of(pid, user@) == old(self).unclaimed_of(pid, user@)
                        + add) by {
                        lemma_unclaimed_update(s0, i as int, e2, pid, user@);
                    }
                    assert forall|p2: PropertyId, u2: Seq<char>|
                        !(p2 == pid && u2 == user@) implies self.unclaimed_of(p2, u2) == old(
                        self,
                    ).unclaimed_of(p2, u2) by {
                        lemma_unclaimed_update(s0, i as int, e2, p2, u2);
                    }
                }
            },
            None => {
                proof {
                    lemma_unclaimed_absent(s0, pid, user@);
                }
                let e = IncomeEntry { property_id: pid, owner: user.clone(), amount: add };
                self.unclaimed.push(e);
                proof {
                    let e2 = self.unclaimed@[s0.len() as int];
                    assert(self.unclaimed@ == s0.push(e2));
                    assert(e2.property_id == pid && e2.owner@ == user@ && e2.amount == add);
                    assert(unique_inc_keys(self.unclaimed@)) by {
                        assert forall|a: int| 0 <= a < s0.len() implies #[trigger] self.unclaimed@[a]
                            == s0[a] by {}
                    }
                    assert(self.unclaimed_of(pid, user@) == old(self).unclaimed_of(pid, user@)
                        + add) by {
                        lemma_unclaimed_push(s0, e2, pid, user@);
                    }
                    assert forall|p2: PropertyId, u2: Seq<char>|
                        !(p2 == pid && u2 == user@) implies self.unclaimed_of(p2, u2) == old(
                        self,
                    ).unclaimed_of(p2, u2) by {
                        lemma_unclaimed_push(s0, e2, p2, u2);
                    }
                }
            },
        }
    }

    /// Atomically reads and zeroes the unclaimed income of `(pid, user)`,
    /// returning what was claimed; zero (and no change) when absent.
    pub(crate) fn take_unclaimed(&mut self, pid: PropertyId, user: &String) -> (r: u64)
        requires
            old(self).wf(),
        ensures
            final(self).wf(),
            r as int == old(self).unclaimed_of(pid, user@),
            final(self).unclaimed_of(pid, user@) == 0,
            forall|p2: PropertyId, u2: Seq<char>|
                !(p2 == pid && u2 == user@) ==> final(self).unclaimed_of(p2, u2) == old(
                    self,
                ).unclaimed_of(p2, u2),
            final(self).totals == old(self).totals,
    {
        let ghost s0 = self.unclaimed@;
        match self.find_unclaimed(pid, user) {
            Some(i) => {
                proof {
                    lemma_unclaimed_at_index(s0, i as int, pid, user@);
                }
                let e = &mut self.unclaimed[i];
                let r = e.amount;
                e.amount = 0;
                proof {
                    let e2 = self.unclaimed@[i as int];
                    assert(self.unclaimed@ == s0.update(i as int, e2));
                    assert(unique_inc_keys(self.unclaimed@)) by {
                        assert forall|a: int| 0 <= a < self.unclaimed@.len() implies (
                        #[trigger] self.unclaimed@[a]).property_id == s0[a].property_id
                            && self.unclaimed@[a].owner@ == s0[a].owner@ by {}
                    }
                    assert(self.unclaimed_of(pid, user@) == 0) by {
                        lemma_unclaimed_update(s0, i as int, e2, pid, user@);
                    }
                    assert forall|p2: PropertyId, u2: Seq<char>|
                        !(p2 == pid && u2 == user@) implies self.unclaimed_of(p2, u2) == old(
                        self,
                    ).unclaimed_of(p2, u2) by {
                        lemma_unclaimed_update(s0, i as int, e2, p2, u2);
                    }
                }
                r
            },
            None => {
                proof {
                    lemma_unclaimed_absent(s0, pid, user@);
                }
                0
            },
        }
    }

    /// The unclaimed income of `(pid, user)`; zero when absent.
    pub(crate) fn unclaimed_for(&self, pid: PropertyId, user: &String) -> (r: u64)
        requires
            self.wf(),
        ensures
            r as int == self.unclaimed_of(pid, user@),
    {
        match self.find_unclaimed(pid, user) {
            Some(i) => {
                proof {
                    lemma_unclaimed_at_index(self.unclaimed@, i as int, pid, user@);
                }
                self.unclaimed[i].amount
            },
            None => {
                proof {
                    lemma_unclaimed_absent(self.unclaimed@, pid, user@);
                }
                0
            },
        }
    }
}

} // verus!
