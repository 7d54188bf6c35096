use vstd::prelude::*;
use crate::errors::LedgerError;
use crate::income::{
    compute_share,
    credited_in,
    lemma_credited_le_pooled,
    lemma_share_le,
    lemma_share_nonneg,
    lemma_share_zero,
    share_of,
    IncomeDistributor,
};
use crate::marketplace::{first_serving, listing_serves, no_serving, Listing, Marketplace};
use crate::ownership::{
    entry_matches,
    lemma_owned_absent,
    lemma_owned_at_index,
    lemma_owned_le_sum,
    lemma_owned_nonneg,
    lemma_owned_pair_le_sum,
    lemma_owned_take_le,
    lemma_owned_take_step,
    lemma_sum_nonneg,
    owned_in,
    OwnershipLedger,
};
use crate::registry::{Property, PropertyId, PropertyRegistry};

verus! {

/// The whole fractional-ownership state: property records, per-owner share
/// balances, active sale listings, and rental-income bookkeeping.
///
/// Every operation runs to completion on `&mut self` and is all-or-nothing:
/// on any error the state is exactly what it was. [`System::wf`] is
/// established by [`System::new`] and preserved by every operation.
pub struct System {
    pub(crate) registry: PropertyRegistry,
    pub(crate) ledger: OwnershipLedger,
    pub(crate) market: Marketplace,
    pub(crate) income: IncomeDistributor,
}

impl System {
    /// How many properties have been registered.
    pub closed spec fn property_count(self) -> int {
        self.registry.count()
    }

    /// Whether `pid` is a registered property id.
    pub closed spec fn has_property(self, pid: PropertyId) -> bool {
        self.registry.has(pid)
    }

    /// All property records, in registration order.
    pub closed spec fn properties(self) -> Seq<Property> {
        self.registry.properties@
    }

    /// The record of property `pid` (meaningful only when registered).
    pub closed spec fn property_at(self, pid: PropertyId) -> Property {
        self.registry.at(pid)
    }

    /// The total share count of `pid`; zero when not registered.
    pub closed spec fn total_shares(self, pid: PropertyId) -> int {
        self.registry.total_shares(pid)
    }

    /// The shares of `pid` still available for issuance; zero when not
    /// registered.
    pub closed spec fn available(self, pid: PropertyId) -> int {
        self.registry.available(pid)
    }

    /// The share balance of owner `owner` for property `pid`; zero when no
    /// record exists.
    pub closed spec fn owned(self, pid: PropertyId, owner: Seq<char>) -> int {
        self.ledger.owned(pid, owner)
    }

    /// The sum of all owners' balances for property `pid`.
    pub closed spec fn owned_total(self, pid: PropertyId) -> int {
        self.ledger.sum(pid)
    }

    /// The active sale listings, in listing order.
    pub closed spec fn listings(self) -> Seq<Listing> {
        self.market.listings@
    }

    /// The cumulative rental income ever deposited for `pid`.
    pub closed spec fn income_total(self, pid: PropertyId) -> int {
        self.income.total_of(pid)
    }

    /// The rental income credited to `(pid, owner)` and not yet claimed.
    pub closed spec fn unclaimed(self, pid: PropertyId, owner: Seq<char>) -> int {
        self.income.unclaimed_of(pid, owner)
    }

    /// The internal tables are well-formed: dense property ids, and one
    /// record per key in the balance and income tables.
    pub closed spec fn tables_wf(self) -> bool {
        self.registry.wf() && self.ledger.wf() && self.income.wf()
    }

    /// Conservation: for every property, the shares still available plus
    /// the sum of all owner balances equals the property's total share
    /// count. (For an unregistered id all three are zero.)
    pub open spec fn shares_conserved(self) -> bool {
        forall|pid: PropertyId|
            #![trigger self.available(pid)]
            self.available(pid) + self.owned_total(pid) == self.total_shares(pid)
    }

    /// No owner is owed more than was ever deposited for the property, and
    /// no unclaimed balance is negative.
    pub open spec fn income_bounded(self) -> bool {
        forall|pid: PropertyId, u: Seq<char>|
            #![trigger self.unclaimed(pid, u)]
            0 <= self.unclaimed(pid, u) <= self.income_total(pid)
    }

    /// Well-formedness of the whole system. Holds after [`System::new`] and
    /// is preserved by every operation.
    pub open spec fn wf(self) -> bool {
        self.tables_wf() && self.shares_conserved() && self.income_bounded()
    }

    /// A fresh system: no properties, no balances, no listings, no income.
    pub fn new() -> (r: System)
        ensures
            r.wf(),
            r.property_count() == 0,
            r.listings() =~= Seq::<Listing>::empty(),
            forall|pid: PropertyId, u: Seq<char>| #[trigger] r.owned(pid, u) == 0,
            forall|pid: PropertyId, u: Seq<char>| #[trigger] r.unclaimed(pid, u) == 0,
            forall|pid: PropertyId| #[trigger] r.income_total(pid) == 0,
            forall|pid: PropertyId| !(#[trigger] r.has_property(pid)),
    {
        let r = System {
            registry: PropertyRegistry::new(),
            ledger: OwnershipLedger::new(),
            market: Marketplace::new(),
            income: IncomeDistributor::new(),
        };
        proof {
            assert forall|pid: PropertyId, u: Seq<char>| #[trigger] r.owned(pid, u) == 0 by {
                assert(r.ledger.entries@.len() == 0);
            }
            assert forall|pid: PropertyId| #[trigger] r.owned_total(pid) == 0 by {
                assert(r.ledger.entries@.len() == 0);
            }
            assert forall|pid: PropertyId, u: Seq<char>| #[trigger] r.unclaimed(pid, u) == 0 by {
                assert(r.income.unclaimed@.len() == 0);
            }
            assert forall|pid: PropertyId| #[trigger] r.income_total(pid) == 0 by {
                assert(r.income.totals@.len() == 0);
            }
        }
        r
    }

    /// Allocates the next id (starting at 1), creates a property whose
    /// available shares equal its total, stores it and returns it. Never
    /// fails; the one precondition is the machine limit on the id counter.
    pub fn register_property(&mut self, name: String, total_shares: u64) -> (r: Property)
        requires
            old(self).wf(),
            old(self).property_count() < u64::MAX,
        ensures
            final(self).wf(),
            r.id as int == old(self).property_count() + 1,
            r.name == name,
            r.total_shares == total_shares,
            r.shares_available == total_shares,
            final(self).properties() == old(self).properties().push(r),
            final(self).property_count() == old(self).property_count() + 1,
            final(self).has_property(r.id),
            final(self).total_shares(r.id) == total_shares,
            final(self).available(r.id) == total_shares,
            forall|p2: PropertyId|
                p2 != r.id ==> (#[trigger] final(self).has_property(p2)) == old(self).has_property(p2)
                    && final(self).total_shares(p2) == old(self).total_shares(p2)
                    && final(self).available(p2) == old(self).available(p2),
            same_balances(*old(self), *final(self)),
            same_listings(*old(self), *final(self)),
            same_income(*old(self), *final(self)),
    {
        let ghost pre = *self;
        let r = self.registry.register(name, total_shares);
        proof {
            let post = *self;
            assert(post.ledger == pre.ledger && post.income == pre.income);
            assert forall|p2: PropertyId| p2 != r.id implies #[trigger] post.has_property(p2)
                == pre.has_property(p2) && post.total_shares(p2) == pre.total_shares(p2)
                && post.available(p2) == pre.available(p2) by {
                if pre.has_property(p2) {
                    assert(post.properties()[p2 - 1] == pre.properties()[p2 - 1]);
                }
            }
            assert(post.shares_conserved()) by {
                assert forall|pid: PropertyId|
                    post.available(pid) + post.owned_total(pid) == post.total_shares(pid) by {
                    assert(pre.available(pid) + pre.owned_total(pid) == pre.total_shares(pid));
                    assert(post.owned_total(pid) == pre.owned_total(pid));
                    if pid == r.id {
                        assert(!pre.has_property(pid));
                        assert(post.property_at(pid) == r);
                    }
                }
            }
            assert(post.income_bounded()) by {
                assert forall|pid: PropertyId, u: Seq<char>|
                    0 <= #[trigger] post.unclaimed(pid, u) <= post.income_total(pid) by {
                    assert(0 <= pre.unclaimed(pid, u) <= pre.income_total(pid));
                }
            }
        }
        r
    }

    /// How many properties have been registered so far. The id counter
    /// stands at this value plus one.
    pub fn num_properties(&self) -> (r: u64)
        requires
            self.wf(),
        ensures
            r as int == self.property_count(),
    {
        self.registry.properties.len() as u64
    }

    /// Pure lookup: a copy of the property record, or nothing when the id
    /// was never allocated.
    pub fn get_property(&self, property_id: PropertyId) -> (r: Option<Property>)
        requires
            self.wf(),
        ensures
            self.has_property(property_id) ==> r == Some(self.property_at(property_id)),
            !self.has_property(property_id) ==> r is None,
    {
        self.registry.get(property_id)
    }

    /// The share balance of `user` for `property_id`. Absence of a record
    /// means zero, never an error.
    pub fn get_ownership(&self, property_id: PropertyId, user: String) -> (r: u64)
        requires
            self.wf(),
        ensures
            r as int == self.owned(property_id, user@),
    {
        self.ledger.balance_of(property_id, &user)
    }

    /// Moves `amount` shares of `property_id` from `from` to `to`,
    /// if and only if `from` holds at least `amount`. The available pool is
    /// untouched: already-issued shares are merely reassigned.
    pub fn transfer_shares(&mut self, property_id: PropertyId, from: String, to: String, amount: u64) -> (r:
        Result<(), LedgerError>)
        requires
            old(self).wf(),
        ensures
            final(self).wf(),
            r is Ok <==> amount <= old(self).owned(property_id, from@),
            r is Err ==> r == Err::<(), LedgerError>(LedgerError::InsufficientBalance) && unchanged(
                *old(self),
                *final(self),
            ),
            r is Ok ==> {
                &&& from@ != to@ ==> final(self).owned(property_id, from@) == old(self).owned(
                    property_id,
                    from@,
                ) - amount
                &&& from@ != to@ ==> final(self).owned(property_id, to@) == old(self).owned(
                    property_id,
                    to@,
                ) + amount
                &&& from@ == to@ ==> final(self).owned(property_id, from@) == old(self).owned(
                    property_id,
                    from@,
                )
                &&& forall|p2: PropertyId, u2: Seq<char>|
                    !(p2 == property_id && (u2 == from@ || u2 == to@))
                        ==> (#[trigger] final(self).owned(p2, u2)) == old(self).owned(p2, u2)
                &&& forall|p2: PropertyId|
                    (#[trigger] final(self).owned_total(p2)) == old(self).owned_total(p2)
                &&& same_properties(*old(self), *final(self))
                &&& same_listings(*old(self), *final(self))
                &&& same_income(*old(self), *final(self))
            },
    {
        let balance = self.ledger.balance_of(property_id, &from);
        if balance < amount {
            return Err(LedgerError::InsufficientBalance);
        }
        proof {
            lemma_owned_nonneg(self.ledger.entries@, property_id, to@);
            if from@ != to@ {
                lemma_owned_pair_le_sum(self.ledger.entries@, property_id, from@, to@);
            }
            assert(self.available(property_id) + self.owned_total(property_id) == self.total_shares(
                property_id,
            ));
        }
        let ghost pre = *self;
        self.ledger.transfer(property_id, &from, &to, amount);
        proof {
            let post = *self;
            assert(post.shares_conserved()) by {
                assert forall|pid: PropertyId|
                    post.available(pid) + post.owned_total(pid) == post.total_shares(pid) by {
                    assert(pre.available(pid) + pre.owned_total(pid) == pre.total_shares(pid));
                }
            }
            assert(post.income_bounded()) by {
                assert forall|pid: PropertyId, u: Seq<char>|
                    0 <= #[trigger] post.unclaimed(pid, u) <= post.income_total(pid) by {
                    assert(0 <= pre.unclaimed(pid, u) <= pre.income_total(pid));
                }
            }
        }
        Ok(())
    }

    /// Appends a listing offering `amount` shares of `property_id` at
    /// `price_per_share` each, if and only if `seller` holds at least
    /// `amount` right now. Nothing is reserved: the seller's balance is
    /// checked again at the moment of sale.
    pub fn list_shares_for_sale(
        &mut self,
        property_id: PropertyId,
        seller: String,
        amount: u64,
        price_per_share: u64,
    ) -> (r: Result<(), LedgerError>)
        requires
            old(self).wf(),
        ensures
            final(self).wf(),
            r is Ok <==> amount <= old(self).owned(property_id, seller@),
            r is Err ==> r == Err::<(), LedgerError>(LedgerError::InsufficientBalance) && unchanged(
                *old(self),
                *final(self),
            ),
            r is Ok ==> {
                &&& final(self).listings() == old(self).listings().push(
                    Listing { property_id, seller, amount, price_per_share },
                )
                &&& same_properties(*old(self), *final(self))
                &&& same_balances(*old(self), *final(self))
                &&& same_income(*old(self), *final(self))
            },
    {
        let balance = self.ledger.balance_of(property_id, &seller);
        if balance < amount {
            return Err(LedgerError::InsufficientBalance);
        }
        let ghost pre = *self;
        self.market.push_listing(Listing { property_id, seller, amount, price_per_share });
        proof {
            let post = *self;
            assert(post.shares_conserved()) by {
                assert forall|pid: PropertyId|
                    post.available(pid) + post.owned_total(pid) == post.total_shares(pid) by {
                    assert(pre.available(pid) + pre.owned_total(pid) == pre.total_shares(pid));
                }
            }
            assert(post.income_bounded()) by {
                assert forall|pid: PropertyId, u: Seq<char>|
                    0 <= #[trigger] post.unclaimed(pid, u) <= post.income_total(pid) by {
                    assert(0 <= pre.unclaimed(pid, u) <= pre.income_total(pid));
                }
            }
        }
        Ok(())
    }

    /// A snapshot copy of the active listings, in listing order.
    pub fn get_marketplace_listings(&self) -> (r: Vec<Listing>)
        ensures
            r@ == self.listings(),
    {
        self.market.snapshot()
    }

    /// The rental income credited to `(property_id, user)` and not yet
    /// claimed; zero when absent.
    pub fn get_unclaimed_income(&self, property_id: PropertyId, user: String) -> (r: u64)
        requires
            self.wf(),
        ensures
            r as int == self.unclaimed(property_id, user@),
    {
        self.income.unclaimed_for(property_id, &user)
    }

    /// The cumulative rental income ever deposited for `property_id`.
    /// Informational; callers use it to keep a further deposit within the
    /// machine limit.
    pub fn get_rental_income_total(&self, property_id: PropertyId) -> (r: u64)
        requires
            self.wf(),
        ensures
            r as int == self.income_total(property_id),
    {
        self.income.total_for(property_id)
    }

    /// Issues `amount` shares of `property_id` to `to`: atomically moves
    /// them out of the available pool into `to`'s balance. Fails with
    /// `NotFound` when the property does not exist, and with
    /// `InsufficientBalance` when fewer than `amount` shares are available.
    /// An amount of zero is a degenerate no-op success.
    pub fn issue_shares(&mut self, property_id: PropertyId, to: String, amount: u64) -> (r: Result<
        (),
        LedgerError,
    >)
        requires
            old(self).wf(),
        ensures
            final(self).wf(),
            r is Ok <==> old(self).has_property(property_id) && amount <= old(self).available(
                property_id,
            ),
            !old(self).has_property(property_id) ==> r == Err::<(), LedgerError>(
                LedgerError::NotFound,
            ),
            old(self).has_property(property_id) && amount > old(self).available(property_id)
                ==> r == Err::<(), LedgerError>(LedgerError::InsufficientBalance),
            r is Err ==> unchanged(*old(self), *final(self)),
            r is Ok ==> {
                &&& final(self).available(property_id) == old(self).available(property_id) - amount
                &&& final(self).owned(property_id, to@) == old(self).owned(property_id, to@)
                    + amount
                &&& final(self).owned_total(property_id) == old(self).owned_total(property_id)
                    + amount
                &&& forall|p2: PropertyId, u2: Seq<char>|
                    !(p2 == property_id && u2 == to@)
                        ==> (#[trigger] final(self).owned(p2, u2)) == old(self).owned(p2, u2)
                &&& forall|p2: PropertyId|
                    p2 != property_id ==> (#[trigger] final(self).owned_total(p2)) == old(
                        self,
                    ).owned_total(p2)
                &&& forall|p2: PropertyId|
                    (#[trigger] final(self).has_property(p2)) == old(self).has_property(p2)
                &&& forall|p2: PropertyId|
                    (#[trigger] final(self).total_shares(p2)) == old(self).total_shares(p2)
                &&& forall|p2: PropertyId|
                    p2 != property_id ==> (#[trigger] final(self).available(p2)) == old(
                        self,
                    ).available(p2)
                &&& final(self).property_count() == old(self).property_count()
                &&& final(self).properties() == old(self).properties().update(
                    property_id - 1,
                    Property {
                        shares_available: (old(self).available(property_id) - amount) as u64,
                        ..old(self).property_at(property_id)
                    },
                )
                &&& same_listings(*old(self), *final(self))
                &&& same_income(*old(self), *final(self))
            },
    {
        match self.registry.available_of(property_id) {
            None => Err(LedgerError::NotFound),
            Some(avail) => {
                if amount > avail {
                    return Err(LedgerError::InsufficientBalance);
                }
                proof {
                    lemma_owned_le_sum(self.ledger.entries@, property_id, to@);
                    lemma_owned_nonneg(self.ledger.entries@, property_id, to@);
                    assert(self.available(property_id) + self.owned_total(property_id)
                        == self.total_shares(property_id));
                }
                let ghost pre = *self;
                self.registry.take_available(property_id, amount);
                self.ledger.credit(property_id, &to, amount);
                proof {
                    let post = *self;
                    assert forall|p2: PropertyId|
                        p2 != property_id implies (#[trigger] post.available(p2)) == pre.available(
                        p2,
                    ) && post.total_shares(p2) == pre.total_shares(p2) && post.has_property(p2)
                        == pre.has_property(p2) by {
                        if pre.has_property(p2) {
                            assert(post.properties()[p2 - 1] == pre.properties()[p2 - 1]);
                        }
                    }
                    assert(post.has_property(property_id) && post.total_shares(property_id)
                        == pre.total_shares(property_id) && post.available(property_id)
                        == pre.available(property_id) - amount);
                    assert(post.shares_conserved()) by {
                        assert forall|pid: PropertyId|
                            post.available(pid) + post.owned_total(pid) == post.total_shares(
                                pid,
                            ) by {
                            assert(pre.available(pid) + pre.owned_total(pid) == pre.total_shares(
                                pid,
                            ));
                        }
                    }
                    assert(post.income_bounded()) by {
                        assert forall|pid: PropertyId, u: Seq<char>|
                            0 <= #[trigger] post.unclaimed(pid, u) <= post.income_total(pid) by {
                            assert(0 <= pre.unclaimed(pid, u) <= pre.income_total(pid));
                        }
                    }
                }
                Ok(())
            },
        }
    }

    /// Buys `amount` shares of `property_id` from `seller`'s first listing
    /// able to serve the request (first-match in listing order, not
    /// best-price). The seller's balance is re-checked at the moment of
    /// sale: a stale listing — the seller no longer holds what it offers —
    /// fails the whole call with `InsufficientBalance` and changes nothing.
    /// On success the shares move to `buyer` and the listing is reduced, or
    /// removed when consumed exactly.
    pub fn buy_shares(
        &mut self,
        property_id: PropertyId,
        seller: String,
        buyer: String,
        amount: u64,
    ) -> (r: Result<(), LedgerError>)
        requires
            old(self).wf(),
        ensures
            final(self).wf(),
            r is Ok <==> (!no_serving(old(self).listings(), property_id, seller@, amount) && amount
                <= old(self).owned(property_id, seller@)),
            no_serving(old(self).listings(), property_id, seller@, amount) ==> r == Err::<
                (),
                LedgerError,
            >(LedgerError::NotFound),
            !no_serving(old(self).listings(), property_id, seller@, amount) && amount > old(
                self,
            ).owned(property_id, seller@) ==> r == Err::<(), LedgerError>(
                LedgerError::InsufficientBalance,
            ),
            r is Err ==> unchanged(*old(self), *final(self)),
            r is Ok ==> forall|i: int|
                first_serving(old(self).listings(), i, property_id, seller@, amount) ==> {
                    &&& old(self).listings()[i].amount == amount ==> final(self).listings() == old(
                        self,
                    ).listings().remove(i)
                    &&& old(self).listings()[i].amount != amount ==> final(self).listings() == old(
                        self,
                    ).listings().update(
                        i,
                        Listing {
                            amount: (old(self).listings()[i].amount - amount) as u64,
                            ..old(self).listings()[i]
                        },
                    )
                },
            r is Ok ==> {
                &&& seller@ != buyer@ ==> final(self).owned(property_id, seller@) == old(
                    self,
                ).owned(property_id, seller@) - amount
                &&& seller@ != buyer@ ==> final(self).owned(property_id, buyer@) == old(self).owned(
                    property_id,
                    buyer@,
                ) + amount
                &&& seller@ == buyer@ ==> final(self).owned(property_id, seller@) == old(
                    self,
                ).owned(property_id, seller@)
                &&& forall|p2: PropertyId, u2: Seq<char>|
                    !(p2 == property_id && (u2 == seller@ || u2 == buyer@))
                        ==> (#[trigger] final(self).owned(p2, u2)) == old(self).owned(p2, u2)
                &&& forall|p2: PropertyId|
                    (#[trigger] final(self).owned_total(p2)) == old(self).owned_total(p2)
                &&& same_properties(*old(self), *final(self))
                &&& same_income(*old(self), *final(self))
            },
    {
        match self.market.find_serving(property_id, &seller, amount) {
            None => Err(LedgerError::NotFound),
            Some(pos) => {
                let balance = self.ledger.balance_of(property_id, &seller);
                if balance < amount {
                    return Err(LedgerError::InsufficientBalance);
                }
                proof {
                    lemma_owned_nonneg(self.ledger.entries@, property_id, buyer@);
                    if seller@ != buyer@ {
                        lemma_owned_pair_le_sum(self.ledger.entries@, property_id, seller@, buyer@);
                    }
                    assert(self.available(property_id) + self.owned_total(property_id)
                        == self.total_shares(property_id));
                }
                let ghost pre = *self;
                self.ledger.transfer(property_id, &seller, &buyer, amount);
                self.market.consume(pos, amount);
                proof {
                    let post = *self;
                    assert forall|i: int|
                        first_serving(pre.listings(), i, property_id, seller@, amount) implies i
                        == pos as int by {
                        if i < pos as int {
                            assert(listing_serves(pre.listings()[i], property_id, seller@, amount));
                        }
                        if (pos as int) < i {
                            assert(listing_serves(
                                pre.listings()[pos as int],
                                property_id,
                                seller@,
                                amount,
                            ));
                        }
                    }
                    assert(post.shares_conserved()) by {
                        assert forall|pid: PropertyId|
                            post.available(pid) + post.owned_total(pid) == post.total_shares(
                                pid,
                            ) by {
                            assert(pre.available(pid) + pre.owned_total(pid) == pre.total_shares(
                                pid,
                            ));
                        }
                    }
                    assert(post.income_bounded()) by {
                        assert forall|pid: PropertyId, u: Seq<char>|
                            0 <= #[trigger] post.unclaimed(pid, u) <= post.income_total(pid) by {
                            assert(0 <= pre.unclaimed(pid, u) <= pre.income_total(pid));
                        }
                    }
                }
                Ok(())
            },
        }
    }

    /// Deposits `amount` of rental income for `property_id` and distributes
    /// it at once: the cumulative total grows by `amount`, and every owner
    /// with a positive balance is credited their pro-rata cut, rounded
    /// down. Rounding dust is not tracked or redistributed. Fails with
    /// `NotFound` unless the property is registered with a positive total
    /// share count. The one precondition beyond well-formedness is the
    /// machine limit on the cumulative total.
    pub fn deposit_rental_income(&mut self, property_id: PropertyId, amount: u64) -> (r: Result<
        (),
        LedgerError,
    >)
        requires
            old(self).wf(),
            old(self).income_total(property_id) + amount <= u64::MAX,
        ensures
            final(self).wf(),
            r is Ok <==> old(self).total_shares(property_id) > 0,
            r is Err ==> r == Err::<(), LedgerError>(LedgerError::NotFound) && unchanged(
                *old(self),
                *final(self),
            ),
            r is Ok ==> {
                &&& final(self).income_total(property_id) == old(self).income_total(property_id)
                    + amount
                &&& forall|p2: PropertyId|
                    p2 != property_id ==> (#[trigger] final(self).income_total(p2)) == old(
                        self,
                    ).income_total(p2)
                &&& forall|u: Seq<char>|
                    (#[trigger] final(self).unclaimed(property_id, u)) == old(self).unclaimed(
                        property_id,
                        u,
                    ) + share_of(
                        amount as int,
                        old(self).owned(property_id, u),
                        old(self).total_shares(property_id),
                    )
                &&& forall|p2: PropertyId, u: Seq<char>|
                    p2 != property_id ==> (#[trigger] final(self).unclaimed(p2, u)) == old(
                        self,
                    ).unclaimed(p2, u)
                &&& same_properties(*old(self), *final(self))
                &&& same_balances(*old(self), *final(self))
                &&& same_listings(*old(self), *final(self))
            },
    {
        let total: u64 = match self.registry.total_shares_of(property_id) {
            Some(t) => t,
            None => 0,
        };
        if total == 0 {
            return Err(LedgerError::NotFound);
        }
        let ghost pre = *self;
        self.income.add_total(property_id, amount);
        proof {
            assert forall|p2: PropertyId, u: Seq<char>|
                0 <= #[trigger] self.income.unclaimed_of(p2, u) <= self.income.total_of(p2) by {
                assert(0 <= pre.unclaimed(p2, u) <= pre.income_total(p2));
            }
            assert(pre.ledger.entries@.take(0) =~= Seq::<crate::ownership::OwnEntry>::empty());
            assert forall|u: Seq<char>|
                (#[trigger] self.income.unclaimed_of(property_id, u)) == pre.unclaimed(
                    property_id,
                    u,
                ) + share_of(
                    amount as int,
                    owned_in(pre.ledger.entries@.take(0), property_id, u),
                    total as int,
                ) by {
                lemma_share_zero(amount as int, total as int);
            }
        }
        let n = self.ledger.entries.len();
        let mut j: usize = 0;
        while j < n
            invariant
                j <= n,
                n == self.ledger.entries@.len(),
                self.registry == pre.registry,
                self.ledger == pre.ledger,
                self.market == pre.market,
                self.income.wf(),
                pre.wf(),
                0 < total,
                total as int == pre.total_shares(property_id),
                pre.has_property(property_id),
                pre.income_total(property_id) + amount <= u64::MAX,
                self.income.total_of(property_id) == pre.income_total(property_id) + amount,
                forall|p2: PropertyId|
                    p2 != property_id ==> (#[trigger] self.income.total_of(p2))
                        == pre.income_total(p2),
                forall|u: Seq<char>|
                    (#[trigger] self.income.unclaimed_of(property_id, u)) == pre.unclaimed(
                        property_id,
                        u,
                    ) + share_of(
                        amount as int,
                        owned_in(pre.ledger.entries@.take(j as int), property_id, u),
                        total as int,
                    ),
                forall|p2: PropertyId, u: Seq<char>|
                    p2 != property_id ==> (#[trigger] self.income.unclaimed_of(p2, u))
                        == pre.unclaimed(p2, u),
                forall|p2: PropertyId, u: Seq<char>|
                    0 <= #[trigger] self.income.unclaimed_of(p2, u) <= self.income.total_of(p2),
            decreases n - j,
        {
            let ghost s = pre.ledger.entries@;
            let ghost jj = j as int;
            let e_pid = self.ledger.entries[j].property_id;
            let e_shares = self.ledger.entries[j].shares;
            if e_pid == property_id && e_shares > 0 {
                let owner = self.ledger.entries[j].owner.clone();
                proof {
                    let u = owner@;
                    assert(entry_matches(s[jj], property_id, u));
                    lemma_owned_at_index(s, jj, property_id, u);
                    lemma_owned_le_sum(s, property_id, u);
                    assert(pre.available(property_id) + pre.owned_total(property_id)
                        == pre.total_shares(property_id));
                    assert(e_shares <= total);
                    assert forall|k: int| 0 <= k < jj implies !entry_matches(
                        #[trigger] s.take(jj)[k],
                        property_id,
                        u,
                    ) by {
                        assert(s.take(jj)[k] == s[k]);
                    }
                    lemma_owned_absent(s.take(jj), property_id, u);
                    lemma_share_zero(amount as int, total as int);
                    assert(self.income.unclaimed_of(property_id, u) == pre.unclaimed(
                        property_id,
                        u,
                    ));
                    assert(0 <= pre.unclaimed(property_id, u) <= pre.income_total(property_id));
                }
                let credit = compute_share(amount, e_shares, total);
                let ghost inc0 = self.income;
                self.income.credit_unclaimed(property_id, &owner, credit);
                proof {
                    let u = owner@;
                    assert(self.income.totals == inc0.totals);
                    assert(self.income.total_of(property_id) == inc0.total_of(property_id));
                    assert forall|p2: PropertyId|
                        p2 != property_id implies (#[trigger] self.income.total_of(p2))
                        == pre.income_total(p2) by {
                        assert(self.income.total_of(p2) == inc0.total_of(p2));
                        assert(inc0.total_of(p2) == pre.income_total(p2));
                    }
                    assert forall|u2: Seq<char>|
                        (#[trigger] self.income.unclaimed_of(property_id, u2)) == pre.unclaimed(
                            property_id,
                            u2,
                        ) + share_of(
                            amount as int,
                            owned_in(s.take(jj + 1), property_id, u2),
                            total as int,
                        ) by {
                        lemma_owned_take_step(s, jj, property_id, u2);
                        if u2 != u {
                            assert(!entry_matches(s[jj], property_id, u2));
                        }
                    }
                    assert forall|p2: PropertyId, u2: Seq<char>|
                        0 <= #[trigger] self.income.unclaimed_of(p2, u2) <= self.income.total_of(
                            p2,
                        ) by {
                        if p2 == property_id {
                            lemma_owned_take_step(s, jj, property_id, u2);
                            lemma_owned_take_le(s, jj + 1, property_id, u2);
                            lemma_owned_le_sum(s, property_id, u2);
                            lemma_owned_nonneg(s.take(jj + 1), property_id, u2);
                            assert(pre.available(property_id) + pre.owned_total(property_id)
                                == pre.total_shares(property_id));
                            lemma_share_nonneg(
                                amount as int,
                                owned_in(s.take(jj + 1), property_id, u2),
                                total as int,
                            );
                            lemma_share_le(
                                amount as int,
                                owned_in(s.take(jj + 1), property_id, u2),
                                total as int,
                            );
                            assert(0 <= pre.unclaimed(property_id, u2) <= pre.income_total(
                                property_id,
                            ));
                        } else {
                            assert(0 <= pre.unclaimed(p2, u2) <= pre.income_total(p2));
                        }
                    }
                }
            } else {
                proof {
                    assert forall|u2: Seq<char>|
                        (#[trigger] self.income.unclaimed_of(property_id, u2)) == pre.unclaimed(
                            property_id,
                            u2,
                        ) + share_of(
                            amount as int,
                            owned_in(s.take(jj + 1), property_id, u2),
                            total as int,
                        ) by {
                        lemma_owned_take_step(s, jj, property_id, u2);
                    }
                }
            }
            j = j + 1;
        }
        proof {
            let post = *self;
            assert(pre.ledger.entries@.take(n as int) =~= pre.ledger.entries@);
            assert(post.shares_conserved()) by {
                assert forall|pid: PropertyId|
                    post.available(pid) + post.owned_total(pid) == post.total_shares(pid) by {
                    assert(pre.available(pid) + pre.owned_total(pid) == pre.total_shares(pid));
                }
            }
            assert(post.income_bounded()) by {
                assert forall|pid: PropertyId, u: Seq<char>|
                    0 <= #[trigger] post.unclaimed(pid, u) <= post.income_total(pid) by {
                    assert(0 <= self.income.unclaimed_of(pid, u) <= self.income.total_of(pid));
                }
            }
        }
        Ok(())
    }

    /// The grand total one deposit of `amount` would credit across all
    /// owners of `property_id`, each cut rounded down.
    pub closed spec fn credited_sum(self, pid: PropertyId, amount: u64) -> int {
        credited_in(self.ledger.entries@, pid, amount as int, self.total_shares(pid))
    }

    /// Atomically reads and zeroes the unclaimed income of
    /// `(property_id, user)`, returning the amount claimed. Never fails:
    /// an absent balance claims zero.
    pub fn claim_income(&mut self, property_id: PropertyId, user: String) -> (r: u64)
        requires
            old(self).wf(),
        ensures
            final(self).wf(),
            claim_step(*old(self), *final(self), property_id, user@, r),
    {
        let ghost pre = *self;
        let r = self.income.take_unclaimed(property_id, &user);
        proof {
            let post = *self;
            assert(post.shares_conserved()) by {
                assert forall|pid: PropertyId|
                    post.available(pid) + post.owned_total(pid) == post.total_shares(pid) by {
                    assert(pre.available(pid) + pre.owned_total(pid) == pre.total_shares(pid));
                }
            }
            assert(post.income_bounded()) by {
                assert forall|pid: PropertyId, u: Seq<char>|
                    0 <= #[trigger] post.unclaimed(pid, u) <= post.income_total(pid) by {
                    assert(0 <= pre.unclaimed(pid, u) <= pre.income_total(pid));
                    assert(post.income_total(pid) == pre.income_total(pid));
                }
            }
        }
        r
    }
}

/// One claim: it returns exactly what was unclaimed, leaves zero behind,
/// and touches nothing else.
pub open spec fn claim_step(
    pre: System,
    post: System,
    pid: PropertyId,
    user: Seq<char>,
    r: u64,
) -> bool {
    &&& r as int == pre.unclaimed(pid, user)
    &&& post.unclaimed(pid, user) == 0
    &&& forall|p2: PropertyId, u2: Seq<char>|
        !(p2 == pid && u2 == user) ==> #[trigger] post.unclaimed(p2, u2) == pre.unclaimed(p2, u2)
    &&& forall|p2: PropertyId| #[trigger] post.income_total(p2) == pre.income_total(p2)
    &&& same_properties(pre, post)
    &&& same_balances(pre, post)
    &&& same_listings(pre, post)
}

/// Claim idempotence: two claims in a row with no deposit in between
/// return the owed amount first and then necessarily zero.
pub proof fn lemma_claim_idempotent(
    s0: System,
    s1: System,
    s2: System,
    pid: PropertyId,
    user: Seq<char>,
    r1: u64,
    r2: u64,
)
    requires
        claim_step(s0, s1, pid, user, r1),
        claim_step(s1, s2, pid, user, r2),
    ensures
        r2 == 0,
{
}

/// Conservation, by name: in a well-formed system the shares still
/// available plus the sum of all owner balances equal the property's total
/// share count — for every property, registered or not.
pub proof fn lemma_conservation(s: System, pid: PropertyId)
    requires
        s.wf(),
    ensures
        s.available(pid) + s.owned_total(pid) == s.total_shares(pid),
{
}

/// Balances are never negative, whatever the state.
pub proof fn lemma_balance_nonneg(s: System, pid: PropertyId, user: Seq<char>)
    ensures
        0 <= s.owned(pid, user),
{
    lemma_owned_nonneg(s.ledger.entries@, pid, user);
}

/// Distribution bound: one deposit of `amount` credits the owners of a
/// property a grand total of at most `amount`. Integer rounding loses
/// dust; it never inflates what was deposited.
pub proof fn lemma_distribution_bounded(s: System, pid: PropertyId, amount: u64)
    requires
        s.wf(),
        s.total_shares(pid) > 0,
    ensures
        s.credited_sum(pid, amount) <= amount,
{
    let total = s.total_shares(pid);
    lemma_credited_le_pooled(s.ledger.entries@, pid, amount as int, total);
    lemma_sum_nonneg(s.ledger.entries@, pid);
    assert(s.available(pid) + s.owned_total(pid) == s.total_shares(pid));
    lemma_share_le(amount as int, s.owned_total(pid), total);
}

/// The property table is untouched: same records, hence the same ids,
/// totals, and availability.
pub open spec fn same_properties(pre: System, post: System) -> bool {
    &&& post.property_count() == pre.property_count()
    &&& post.properties() == pre.properties()
    &&& forall|p: PropertyId| #![trigger post.has_property(p)]
        post.has_property(p) == pre.has_property(p)
    &&& forall|p: PropertyId| #![trigger post.total_shares(p)]
        post.total_shares(p) == pre.total_shares(p)
    &&& forall|p: PropertyId| #![trigger post.available(p)]
        post.available(p) == pre.available(p)
}

/// No share balance moved: every owner holds exactly what they held.
pub open spec fn same_balances(pre: System, post: System) -> bool {
    &&& forall|p: PropertyId, u: Seq<char>| #![trigger post.owned(p, u)]
        post.owned(p, u) == pre.owned(p, u)
    &&& forall|p: PropertyId| #![trigger post.owned_total(p)]
        post.owned_total(p) == pre.owned_total(p)
}

/// The listing book is untouched.
pub open spec fn same_listings(pre: System, post: System) -> bool {
    post.listings() == pre.listings()
}

/// The income tables are untouched: cumulative totals and unclaimed
/// balances all stand.
pub open spec fn same_income(pre: System, post: System) -> bool {
    &&& forall|p: PropertyId| #![trigger post.income_total(p)]
        post.income_total(p) == pre.income_total(p)
    &&& forall|p: PropertyId, u: Seq<char>| #![trigger post.unclaimed(p, u)]
        post.unclaimed(p, u) == pre.unclaimed(p, u)
}

/// Nothing observable changed at all.
pub open spec fn unchanged(pre: System, post: System) -> bool {
    &&& same_properties(pre, post)
    &&& same_balances(pre, post)
    &&& same_listings(pre, post)
    &&& same_income(pre, post)
}

} // verus!
