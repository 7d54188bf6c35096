use vstd::prelude::*;

verus! {

/// Identifies a registered property. Ids are allocated densely, starting at 1.
pub type PropertyId = u64;

/// A real-estate asset divided into tradable shares.
///
/// `shares_available` is the portion of `total_shares` not yet issued to any
/// owner. It starts equal to `total_shares` and is decreased only by
/// issuance; it never exceeds `total_shares`.
#[derive(Clone, Debug, PartialEq, Eq)]
pub struct Property {
    pub id: PropertyId,
    pub name: String,
    pub total_shares: u64,
    pub shares_available: u64,
}

/// Creates and looks up [`Property`] records; owns id allocation.
pub struct PropertyRegistry {
    pub(crate) properties: Vec<Property>,
}

impl PropertyRegistry {
    /// Ids are dense: the property with id `i + 1` sits at index `i`, and no
    /// property has more shares available than its total.
    pub(crate) open spec fn wf(self) -> bool {
        forall|i: int|
            0 <= i < self.properties@.len() ==> (#[trigger] self.properties@[i]).id == i + 1
                && self.properties@[i].shares_available <= self.properties@[i].total_shares
    }

    pub(crate) open spec fn count(self) -> int {
        self.properties@.len() as int
    }

    pub(crate) open spec fn has(self, pid: PropertyId) -> bool {
        1 <= pid <= self.properties@.len()
    }

    pub(crate) open spec fn at(self, pid: PropertyId) -> Property {
        self.properties@[pid - 1]
    }

    pub(crate) open spec fn total_shares(self, pid: PropertyId) -> int {
        if self.has(pid) {
            self.at(pid).total_shares as int
        } else {
            0
        }
    }

    pub(crate) open spec fn available(self, pid: PropertyId) -> int {
        if self.has(pid) {
            self.at(pid).shares_available as int
        } else {
            0
        }
    }

    pub(crate) fn new() -> (r: PropertyRegistry)
        ensures
            r.wf(),
            r.count() == 0,
    {
        PropertyRegistry { properties: Vec::new() }
    }

    /// Allocates the next id, stores the new property, and returns a copy of
    /// the stored record.
    pub(crate) fn register(&mut self, name: String, total_shares: u64) -> (r: Property)
        requires
            old(self).wf(),
            old(self).count() < u64::MAX,
        ensures
            final(self).wf(),
            r.id == old(self).count() + 1,
            r.name == name,
            r.total_shares == total_shares,
            r.shares_available == total_shares,
            final(self).properties@ == old(self).properties@.push(r),
    {
        let id: u64 = (self.properties.len() as u64) + 1;
        let r = Property { id, name, total_shares, shares_available: total_shares };
        let stored = Property {
            id,
            name: r.name.clone(),
            total_shares,
            shares_available: total_shares,
        };
        self.properties.push(stored);
        r
    }

    /// Pure lookup: a copy of the record when the id is registered.
    pub(crate) fn get(&self, pid: PropertyId) -> (r: Option<Property>)
        requires
            self.wf(),
        ensures
            self.has(pid) ==> r == Some(self.at(pid)),
            !self.has(pid) ==> r is None,
    {
        let n: u64 = self.properties.len() as u64;
        if 1 <= pid && pid <= n {
            let p = &self.properties[(pid - 1) as usize];
            Some(
                Property {
                    id: p.id,
                    name: p.name.clone(),
                    total_shares: p.total_shares,
                    shares_available: p.shares_available,
                },
            )
        } else {
            None
        }
    }

    /// The shares still available for issuance, when the id is registered.
    pub(crate) fn available_of(&self, pid: PropertyId) -> (r: Option<u64>)
        requires
            self.wf(),
        ensures
            match r {
                Some(a) => self.has(pid) && a as int == self.available(pid),
                None => !self.has(pid),
            },
    {
        let n: u64 = self.properties.len() as u64;
        if 1 <= pid && pid <= n {
            Some(self.properties[(pid - 1) as usize].shares_available)
        } else {
            None
        }
    }

    /// The total share count, when the id is registered.
    pub(crate) fn total_shares_of(&self, pid: PropertyId) -> (r: Option<u64>)
        requires
            self.wf(),
        ensures
            match r {
                Some(t) => self.has(pid) && t as int == self.total_shares(pid),
                None => !self.has(pid),
            },
    {
        let n: u64 = self.properties.len() as u64;
        if 1 <= pid && pid <= n {
            Some(self.properties[(pid - 1) as usize].total_shares)
        } else {
            None
        }
    }

    /// Moves `amount` shares out of the property's available pool.
    pub(crate) fn take_available(&mut self, pid: PropertyId, amount: u64)
        requires
            old(self).wf(),
            old(self).has(pid),
            amount <= old(self).available(pid),
        ensures
            final(self).wf(),
            final(self).properties@ == old(self).properties@.update(
                pid - 1,
                Property {
                    shares_available: (old(self).available(pid) - amount) as u64,
                    ..old(self).at(pid)
                },
            ),
    {
        proof {
            assert(self.properties@.len() == self.properties.len());
            assert(pid - 1 < self.properties@.len());
        }
        let i: usize = (pid - 1) as usize;
        let p = &mut self.properties[i];
        p.shares_available = p.shares_available - amount;
    }
}

} // verus!
