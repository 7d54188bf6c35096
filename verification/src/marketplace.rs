use vstd::prelude::*;
use crate::ownership::UserId;
use crate::registry::PropertyId;

verus! {

/// An offer to sell a quantity of shares at a fixed per-share price.
///
/// A listing has no id of its own: its identity is its position among the
/// active listings. Its lifecycle is implicit: created with some amount,
/// possibly reduced by partial buys, and removed outright when a buy
/// consumes it exactly — a listing never lingers after its amount reaches
/// its end.
#[derive(Clone, Debug, PartialEq, Eq)]
pub struct Listing {
    pub property_id: PropertyId,
    pub seller: UserId,
    pub amount: u64,
    pub price_per_share: u64,
}

/// `l` can serve a buy of `amount` shares of `pid` offered by `seller`.
pub open spec fn listing_serves(l: Listing, pid: PropertyId, seller: Seq<char>, amount: u64) -> bool {
    l.property_id == pid && l.seller@ == seller && l.amount >= amount
}

/// `i` is the position of the first listing able to serve the request:
/// matching is first-match in listing order, not best-price.
pub open spec fn first_serving(
    s: Seq<Listing>,
    i: int,
    pid: PropertyId,
    seller: Seq<char>,
    amount: u64,
) -> bool {
    &&& 0 <= i < s.len()
    &&& listing_serves(s[i], pid, seller, amount)
    &&& forall|k: int| 0 <= k < i ==> !listing_serves(#[trigger] s[k], pid, seller, amount)
}

/// No active listing can serve the request.
pub open spec fn no_serving(s: Seq<Listing>, pid: PropertyId, seller: Seq<char>, amount: u64) -> bool {
    forall|k: int| 0 <= k < s.len() ==> !listing_serves(#[trigger] s[k], pid, seller, amount)
}

/// Holds the active sale listings and matches buy requests against them.
pub struct Marketplace {
    pub(crate) listings: Vec<Listing>,
}

impl Marketplace {
    pub(crate) fn new() -> (r: Marketplace)
        ensures
            r.listings@.len() == 0,
    {
        Marketplace { listings: Vec::new() }
    }

    /// Appends a new listing at the end of the book.
    pub(crate) fn push_listing(&mut self, l: Listing)
        ensures
            final(self).listings@ == old(self).listings@.push(l),
    {
        self.listings.push(l);
    }

    /// The position of the first listing able to serve the request, if any.
    pub(crate) fn find_serving(&self, pid: PropertyId, seller: &String, amount: u64) -> (r: Option<
        usize,
    >)
        ensures
            match r {
                Some(i) => first_serving(self.listings@, i as int, pid, seller@, amount),
                None => no_serving(self.listings@, pid, seller@, amount),
            },
    {
        let n = self.listings.len();
        let mut j: usize = 0;
        while j < n
            invariant
                j <= n,
                n == self.listings@.len(),
                forall|k: int|
                    0 <= k < j ==> !listing_serves(#[trigger] self.listings@[k], pid, seller@, amount),
            decreases n - j,
        {
            let l = &self.listings[j];
            if l.property_id == pid && l.seller == *seller && l.amount >= amount {
                return Some(j);
            }
            j = j + 1;
        }
        None
    }

    /// Settles `amount` shares against the listing at position `i`: the
    /// listing is removed when consumed exactly, otherwise its remaining
    /// amount is reduced.
    pub(crate) fn consume(&mut self, i: usize, amount: u64)
        requires
            i < old(self).listings@.len(),
            amount <= old(self).listings@[i as int].amount,
        ensures
            old(self).listings@[i as int].amount == amount ==> final(self).listings@ == old(
                self,
            ).listings@.remove(i as int),
            old(self).listings@[i as int].amount != amount ==> final(self).listings@ == old(
                self,
            ).listings@.update(
                i as int,
                Listing {
                    amount: (old(self).listings@[i as int].amount - amount) as u64,
                    ..old(self).listings@[i as int]
                },
            ),
    {
        if self.listings[i].amount == amount {
            let _ = self.listings.remove(i);
        } else {
            let l = &mut self.listings[i];
            l.amount = l.amount - amount;
        }
    }

    /// A snapshot copy of all active listings, in listing order.
    pub(crate) fn snapshot(&self) -> (r: Vec<Listing>)
        ensures
            r@ == self.listings@,
    {
        let n = self.listings.len();
        let mut out: Vec<Listing> = Vec::new();
        let mut j: usize = 0;
        while j < n
            invariant
                j <= n,
                n == self.listings@.len(),
                out@.len() == j,
                forall|k: int| 0 <= k < j ==> #[trigger] out@[k] == self.listings@[k],
            decreases n - j,
        {
            let l = &self.listings[j];
            out.push(
                Listing {
                    property_id: l.property_id,
                    seller: l.seller.clone(),
                    amount: l.amount,
                    price_per_share: l.price_per_share,
                },
            );
            j = j + 1;
        }
        proof {
            assert(out@ =~= self.listings@);
        }
        out
    }
}

} // verus!
