use vstd::prelude::*;
use crate::registry::PropertyId;

verus! {

/// Identifies an owner: an opaque text token. No format is enforced.
pub type UserId = String;

/// One per-(property, owner) balance record.
///
/// Records are created lazily on the first credit and never removed; a
/// balance may fall to zero and the record then simply stays at zero.
pub struct OwnEntry {
    pub(crate) property_id: PropertyId,
    pub(crate) owner: UserId,
    pub(crate) shares: u64,
}

/// `e` is the record for owner `owner` of property `pid`.
pub(crate) open spec fn entry_matches(e: OwnEntry, pid: PropertyId, owner: Seq<char>) -> bool {
    e.property_id == pid && e.owner@ == owner
}

/// What `e` contributes to the balance of `(pid, owner)`.
pub(crate) open spec fn owner_part(e: OwnEntry, pid: PropertyId, owner: Seq<char>) -> int {
    if entry_matches(e, pid, owner) {
        e.shares as int
    } else {
        0
    }
}

/// What `e` contributes to the total issued for property `pid`.
pub(crate) open spec fn prop_part(e: OwnEntry, pid: PropertyId) -> int {
    if e.property_id == pid {
        e.shares as int
    } else {
        0
    }
}

/// The balance of owner `owner` for property `pid`: the sum of every
/// matching record's shares. With unique keys this is the one matching
/// record's balance, or 0 when none exists (absence means zero).
pub(crate) open spec fn owned_in(s: Seq<OwnEntry>, pid: PropertyId, owner: Seq<char>) -> int
    decreases s.len(),
{
    if s.len() == 0 {
        0
    } else {
        owned_in(s.drop_last(), pid, owner) + owner_part(s.last(), pid, owner)
    }
}

/// The sum of all owners' balances for property `pid`.
pub(crate) open spec fn sum_for(s: Seq<OwnEntry>, pid: PropertyId) -> int
    decreases s.len(),
{
    if s.len() == 0 {
        0
    } else {
        sum_for(s.drop_last(), pid) + prop_part(s.last(), pid)
    }
}

/// No two records share a (property, owner) key.
pub(crate) open spec fn unique_keys(s: Seq<OwnEntry>) -> bool {
    forall|i: int, j: int|
        #![trigger s[i], s[j]]
        0 <= i < j < s.len() ==> !(s[i].property_id == s[j].property_id && s[i].owner@
            == s[j].owner@)
}

pub(crate) proof fn lemma_owned_nonneg(s: Seq<OwnEntry>, pid: PropertyId, owner: Seq<char>)
    ensures
        0 <= owned_in(s, pid, owner),
    decreases s.len(),
{
    if s.len() > 0 {
        lemma_owned_nonneg(s.drop_last(), pid, owner);
    }
}

pub(crate) proof fn lemma_sum_nonneg(s: Seq<OwnEntry>, pid: PropertyId)
    ensures
        0 <= sum_for(s, pid),
    decreases s.len(),
{
    if s.len() > 0 {
        lemma_sum_nonneg(s.drop_last(), pid);
    }
}

/// A single balance never exceeds the sum of all balances for the property.
pub(crate) proof fn lemma_owned_le_sum(s: Seq<OwnEntry>, pid: PropertyId, owner: Seq<char>)
    ensures
        owned_in(s, pid, owner) <= sum_for(s, pid),
    decreases s.len(),
{
    if s.len() > 0 {
        lemma_owned_le_sum(s.drop_last(), pid, owner);
    }
}

/// Two distinct owners' balances together never exceed the property's sum.
pub(crate) proof fn lemma_owned_pair_le_sum(
    s: Seq<OwnEntry>,
    pid: PropertyId,
    u1: Seq<char>,
    u2: Seq<char>,
)
    requires
        u1 != u2,
    ensures
        owned_in(s, pid, u1) + owned_in(s, pid, u2) <= sum_for(s, pid),
    decreases s.len(),
{
    if s.len() > 0 {
        lemma_owned_pair_le_sum(s.drop_last(), pid, u1, u2);
    }
}

pub(crate) proof fn lemma_owned_update(
    s: Seq<OwnEntry>,
    i: int,
    e2: OwnEntry,
    pid: PropertyId,
    owner: Seq<char>,
)
    requires
        0 <= i < s.len(),
    ensures
        owned_in(s.update(i, e2), pid, owner) == owned_in(s, pid, owner) - owner_part(
            s[i],
            pid,
            owner,
        ) + owner_part(e2, pid, owner),
    decreases s.len(),
{
    let s2 = s.update(i, e2);
    if i == s.len() - 1 {
        assert(s2.drop_last() =~= s.drop_last());
    } else {
        assert(s2.drop_last() =~= s.drop_last().update(i, e2));
        assert(s2.last() == s.last());
        lemma_owned_update(s.drop_last(), i, e2, pid, owner);
    }
}

pub(crate) proof fn lemma_sum_update(s: Seq<OwnEntry>, i: int, e2: OwnEntry, pid: PropertyId)
    requires
        0 <= i < s.len(),
    ensures
        sum_for(s.update(i, e2), pid) == sum_for(s, pid) - prop_part(s[i], pid) + prop_part(
            e2,
            pid,
        ),
    decreases s.len(),
{
    let s2 = s.update(i, e2);
    if i == s.len() - 1 {
        assert(s2.drop_last() =~= s.drop_last());
    } else {
        assert(s2.drop_last() =~= s.drop_last().update(i, e2));
        assert(s2.last() == s.last());
        lemma_sum_update(s.drop_last(), i, e2, pid);
    }
}

pub(crate) proof fn lemma_owned_push(s: Seq<OwnEntry>, e: OwnEntry, pid: PropertyId, owner: Seq<char>)
    ensures
        owned_in(s.push(e), pid, owner) == owned_in(s, pid, owner) + owner_part(e, pid, owner),
{
    assert(s.push(e).drop_last() =~= s);
    assert(s.push(e).last() == e);
}

pub(crate) proof fn lemma_sum_push(s: Seq<OwnEntry>, e: OwnEntry, pid: PropertyId)
    ensures
        sum_for(s.push(e), pid) == sum_for(s, pid) + prop_part(e, pid),
{
    assert(s.push(e).drop_last() =~= s);
    assert(s.push(e).last() == e);
}

/// When no record matches, the balance is zero.
pub(crate) proof fn lemma_owned_absent(s: Seq<OwnEntry>, pid: PropertyId, owner: Seq<char>)
    requires
        forall|k: int| 0 <= k < s.len() ==> !entry_matches(#[trigger] s[k], pid, owner),
    ensures
        owned_in(s, pid, owner) == 0,
    decreases s.len(),
{
    if s.len() > 0 {
        assert forall|k: int| 0 <= k < s.drop_last().len() implies !entry_matches(
            #[trigger] s.drop_last()[k],
            pid,
            owner,
        ) by {
            assert(s.drop_last()[k] == s[k]);
        }
        lemma_owned_absent(s.drop_last(), pid, owner);
        assert(s.last() == s[s.len() - 1]);
    }
}

/// With unique keys, the balance is exactly the matching record's shares.
pub(crate) proof fn lemma_owned_at_index(s: Seq<OwnEntry>, i: int, pid: PropertyId, owner: Seq<char>)
    requires
        unique_keys(s),
        0 <= i < s.len(),
        entry_matches(s[i], pid, owner),
    ensures
        owned_in(s, pid, owner) == s[i].shares,
    decreases s.len(),
{
    if i == s.len() - 1 {
        assert forall|k: int| 0 <= k < s.drop_last().len() implies !entry_matches(
            #[trigger] s.drop_last()[k],
            pid,
            owner,
        ) by {
            assert(s.drop_last()[k] == s[k]);
        }
        lemma_owned_absent(s.drop_last(), pid, owner);
    } else {
        assert(s.last() == s[s.len() - 1]);
        assert(!entry_matches(s.last(), pid, owner));
        assert(unique_keys(s.drop_last())) by {
            assert forall|a: int| 0 <= a < s.drop_last().len() implies #[trigger] s.drop_last()[a]
                == s[a] by {}
        }
        assert(s.drop_last()[i] == s[i]);
        lemma_owned_at_index(s.drop_last(), i, pid, owner);
    }
}

pub(crate) proof fn lemma_owned_take_step(s: Seq<OwnEntry>, j: int, pid: PropertyId, owner: Seq<char>)
    requires
        0 <= j < s.len(),
    ensures
        owned_in(s.take(j + 1), pid, owner) == owned_in(s.take(j), pid, owner) + owner_part(
            s[j],
            pid,
            owner,
        ),
{
    assert(s.take(j + 1).drop_last() =~= s.take(j));
    assert(s.take(j + 1).last() == s[j]);
}

pub(crate) proof fn lemma_owned_take_le(s: Seq<OwnEntry>, j: int, pid: PropertyId, owner: Seq<char>)
    requires
        0 <= j <= s.len(),
    ensures
        owned_in(s.take(j), pid, owner) <= owned_in(s, pid, owner),
    decreases s.len() - j,
{
    if j == s.len() {
        assert(s.take(j) =~= s);
    } else {
        lemma_owned_take_step(s, j, pid, owner);
        lemma_owned_take_le(s, j + 1, pid, owner);
    }
}

/// Holds per-(property, owner) share balances; performs issuance credits,
/// debits, and transfers, keeping per-property sums intact.
pub struct OwnershipLedger {
    pub(crate) entries: Vec<OwnEntry>,
}

impl OwnershipLedger {
    /// Well-formed: one record per (property, owner) key.
    pub(crate) open spec fn wf(self) -> bool {
        unique_keys(self.entries@)
    }

    /// The balance of `owner` for property `pid`; zero when absent.
    pub(crate) open spec fn owned(self, pid: PropertyId, owner: Seq<char>) -> int {
        owned_in(self.entries@, pid, owner)
    }

    /// The sum of all owners' balances for property `pid`.
    pub(crate) open spec fn sum(self, pid: PropertyId) -> int {
        sum_for(self.entries@, pid)
    }

    pub(crate) fn new() -> (r: OwnershipLedger)
        ensures
            r.wf(),
            r.entries@.len() == 0,
    {
        OwnershipLedger { entries: Vec::new() }
    }

    /// The index of the record for `(pid, user)`, if one exists.
    fn find_entry(&self, pid: PropertyId, user: &String) -> (r: Option<usize>)
        ensures
            match r {
                Some(i) => i < self.entries@.len() && entry_matches(
                    self.entries@[i as int],
                    pid,
                    user@,
                ),
                None => forall|k: int|
                    0 <= k < self.entries@.len() ==> !entry_matches(
                        #[trigger] self.entries@[k],
                        pid,
                        user@,
                    ),
            },
    {
        let n = self.entries.len();
        let mut j: usize = 0;
        while j < n
            invariant
                j <= n,
                n == self.entries@.len(),
                forall|k: int|
                    0 <= k < j ==> !entry_matches(#[trigger] self.entries@[k], pid, user@),
            decreases n - j,
        {
            let e = &self.entries[j];
            if e.property_id == pid && e.owner == *user {
                return Some(j);
            }
            j = j + 1;
        }
        None
    }

    /// The balance of `user` for `pid`: zero when no record exists.
    pub(crate) fn balance_of(&self, pid: PropertyId, user: &String) -> (r: u64)
        requires
            self.wf(),
        ensures
            r as int == self.owned(pid, user@),
    {
        match self.find_entry(pid, user) {
            Some(i) => {
                proof {
                    lemma_owned_at_index(self.entries@, i as int, pid, user@);
                }
                self.entries[i].shares
            },
            None => {
                proof {
                    lemma_owned_absent(self.entries@, pid, user@);
                }
                0
            },
        }
    }

    /// Adds `amount` to the balance of `(pid, user)`, creating the record if
    /// need be. No other balance and no other property's sum changes.
    pub(crate) fn credit(&mut self, pid: PropertyId, user: &String, amount: u64)
        requires
            old(self).wf(),
            old(self).owned(pid, user@) + amount <= u64::MAX,
        ensures
            final(self).wf(),
            final(self).owned(pid, user@) == old(self).owned(pid, user@) + amount,
            forall|p2: PropertyId, u2: Seq<char>|
                !(p2 == pid && u2 == user@) ==> final(self).owned(p2, u2) == old(self).owned(
                    p2,
                    u2,
                ),
            final(self).sum(pid) == old(self).sum(pid) + amount,
            forall|p2: PropertyId| p2 != pid ==> final(self).sum(p2) == old(self).sum(p2),
    {
        let ghost s0 = self.entries@;
        match self.find_entry(pid, user) {
            Some(i) => {
                proof {
                    lemma_owned_at_index(s0, i as int, pid, user@);
                }
                let e = &mut self.entries[i];
                e.shares = e.shares + amount;
                proof {
                    let e2 = self.entries@[i as int];
                    assert(self.entries@ == s0.update(i as int, e2));
                    assert(e2.property_id == s0[i as int].property_id && e2.owner@ == s0[i as int].owner@
                        && e2.shares == s0[i as int].shares + amount);
                    assert(unique_keys(self.entries@)) by {
                        assert forall|a: int| 0 <= a < self.entries@.len() implies (
                        #[trigger] self.entries@[a]).property_id == s0[a].property_id
                            && self.entries@[a].owner@ == s0[a].owner@ by {}
                    }
                    assert(self.owned(pid, user@) == old(self).owned(pid, user@) + amount) by {
                        lemma_owned_update(s0, i as int, e2, pid, user@);
                    }
                    assert forall|p2: PropertyId, u2: Seq<char>|
                        !(p2 == pid && u2 == user@) implies self.owned(p2, u2) == old(self).owned(
                        p2,
                        u2,
                    ) by {
                        lemma_owned_update(s0, i as int, e2, p2, u2);
                    }
                    assert(self.sum(pid) == old(self).sum(pid) + amount) by {
                        lemma_sum_update(s0, i as int, e2, pid);
                    }
                    assert forall|p2: PropertyId| p2 != pid implies self.sum(p2) == old(self).sum(
                        p2,
                    ) by {
                        lemma_sum_update(s0, i as int, e2, p2);
                    }
                }
            },
            None => {
                proof {
                    lemma_owned_absent(s0, pid, user@);
                }
                let e = OwnEntry { property_id: pid, owner: user.clone(), shares: amount };
                self.entries.push(e);
                proof {
                    let ghost e2 = self.entries@[s0.len() as int];
                    assert(self.entries@ == s0.push(e2));
                    assert(e2.property_id == pid && e2.owner@ == user@ && e2.shares == amount);
                    assert(unique_keys(self.entries@)) by {
                        assert forall|a: int| 0 <= a < s0.len() implies #[trigger] self.entries@[a]
                            == s0[a] by {}
                    }
                    assert(self.owned(pid, user@) == old(self).owned(pid, user@) + amount) by {
                        lemma_owned_push(s0, e2, pid, user@);
                    }
                    assert forall|p2: PropertyId, u2: Seq<char>|
                        !(p2 == pid && u2 == user@) implies self.owned(p2, u2) == old(self).owned(
                        p2,
                        u2,
                    ) by {
                        lemma_owned_push(s0, e2, p2, u2);
                    }
                    assert(self.sum(pid) == old(self).sum(pid) + amount) by {
                        lemma_sum_push(s0, e2, pid);
                    }
                    assert forall|p2: PropertyId| p2 != pid implies self.sum(p2) == old(self).sum(
                        p2,
                    ) by {
                        lemma_sum_push(s0, e2, p2);
                    }
                }
            },
        }
    }

    /// Removes `amount` from the balance of `(pid, user)`. The balance must
    /// cover the amount; no other balance and no other property's sum
    /// changes.
    pub(crate) fn debit(&mut self, pid: PropertyId, user: &String, amount: u64)
        requires
            old(self).wf(),
            amount <= old(self).owned(pid, user@),
        ensures
            final(self).wf(),
            final(self).owned(pid, user@) == old(self).owned(pid, user@) - amount,
            forall|p2: PropertyId, u2: Seq<char>|
                !(p2 == pid && u2 == user@) ==> final(self).owned(p2, u2) == old(self).owned(
                    p2,
                    u2,
                ),
            final(self).sum(pid) == old(self).sum(pid) - amount,
            forall|p2: PropertyId| p2 != pid ==> final(self).sum(p2) == old(self).sum(p2),
    {
        let ghost s0 = self.entries@;
        match self.find_entry(pid, user) {
            Some(i) => {
                proof {
                    lemma_owned_at_index(s0, i as int, pid, user@);
                }
                let e = &mut self.entries[i];
                e.shares = e.shares - amount;
                proof {
                    let e2 = self.entries@[i as int];
                    assert(self.entries@ == s0.update(i as int, e2));
                    assert(e2.property_id == s0[i as int].property_id && e2.owner@ == s0[i as int].owner@
                        && e2.shares == s0[i as int].shares - amount);
                    assert(unique_keys(self.entries@)) by {
                        assert forall|a: int| 0 <= a < self.entries@.len() implies (
                        #[trigger] self.entries@[a]).property_id == s0[a].property_id
                            && self.entries@[a].owner@ == s0[a].owner@ by {}
                    }
                    assert(self.owned(pid, user@) == old(self).owned(pid, user@) - amount) by {
                        lemma_owned_update(s0, i as int, e2, pid, user@);
                    }
                    assert forall|p2: PropertyId, u2: Seq<char>|
                        !(p2 == pid && u2 == user@) implies self.owned(p2, u2) == old(self).owned(
                        p2,
                        u2,
                    ) by {
                        lemma_owned_update(s0, i as int, e2, p2, u2);
                    }
                    assert(self.sum(pid) == old(self).sum(pid) - amount) by {
                        lemma_sum_update(s0, i as int, e2, pid);
                    }
                    assert forall|p2: PropertyId| p2 != pid implies self.sum(p2) == old(self).sum(
                        p2,
                    ) by {
                        lemma_sum_update(s0, i as int, e2, p2);
                    }
                }
            },
            None => {
                proof {
                    lemma_owned_absent(s0, pid, user@);
                    lemma_owned_nonneg(s0, pid, user@);
                }
                // amount <= owned == 0, so amount == 0 and nothing changes.
            },
        }
    }

    /// Moves `amount` shares of `pid` from `from` to `to`. Balances of other
    /// keys and every property's sum are untouched.
    pub(crate) fn transfer(&mut self, pid: PropertyId, from: &String, to: &String, amount: u64)
        requires
            old(self).wf(),
            amount <= old(self).owned(pid, from@),
            from@ == to@ || old(self).owned(pid, to@) + amount <= u64::MAX,
        ensures
            final(self).wf(),
            from@ != to@ ==> final(self).owned(pid, from@) == old(self).owned(pid, from@) - amount,
            from@ != to@ ==> final(self).owned(pid, to@) == old(self).owned(pid, to@) + amount,
            from@ == to@ ==> final(self).owned(pid, from@) == old(self).owned(pid, from@),
            forall|p2: PropertyId, u2: Seq<char>|
                !(p2 == pid && (u2 == from@ || u2 == to@)) ==> final(self).owned(p2, u2) == old(
                    self,
                ).owned(p2, u2),
            forall|p2: PropertyId| final(self).sum(p2) == old(self).sum(p2),
    {
        if *from == *to {
            return;
        }
        self.debit(pid, from, amount);
        self.credit(pid, to, amount);
    }
}

} // verus!
