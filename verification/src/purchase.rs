//! Purchase catalog: immutable records of what can be bought.

use vstd::prelude::*;

use crate::store::State;
use crate::store::StoreError;

verus! {

/// What a purchase record sells. Only `GamePurchase` moves a game into the
/// receiver's library when a transaction completes.
#[derive(Clone, Copy, Debug, PartialEq, Eq, Structural)]
pub enum PurchaseType {
    GamePurchase,
    InGamePurchase,
    Subscriptions,
    Dlc,
    Etc,
}

/// One catalog record: purchase `pid` sells something for game `gid` at
/// `price_cents`. Immutable once inserted.
#[derive(Clone, Copy, Debug, PartialEq, Eq, Structural)]
pub struct Purchase {
    pub pid: usize,
    pub gid: usize,
    pub purchase_type: PurchaseType,
    pub price_cents: u64,
    pub created_at: Option<u64>,
}

/// The catalog record with id `pid`, if any: the last matching row (the only
/// one in a well-formed store).
pub open spec fn purchase_for(ps: Seq<Purchase>, pid: usize) -> Option<Purchase>
    decreases ps.len(),
{
    if ps.len() == 0 {
        None
    } else if ps.last().pid == pid {
        Some(ps.last())
    } else {
        purchase_for(ps.drop_last(), pid)
    }
}

/// Whether the catalog holds a record with id `pid`.
pub open spec fn has_purchase(ps: Seq<Purchase>, pid: usize) -> bool {
    exists|i: int| 0 <= i < ps.len() && (#[trigger] ps[i]).pid == pid
}

/// The catalog records selling for game `gid`, in row order.
pub open spec fn purchases_for_game(ps: Seq<Purchase>, gid: usize) -> Seq<Purchase>
    decreases ps.len(),
{
    if ps.len() == 0 {
        Seq::empty()
    } else if ps.last().gid == gid {
        purchases_for_game(ps.drop_last(), gid) + seq![ps.last()]
    } else {
        purchases_for_game(ps.drop_last(), gid)
    }
}

/// Catalog invariant: purchase ids are unique.
pub open spec fn wf_purchases(ps: Seq<Purchase>) -> bool {
    forall|i: int, j: int|
        0 <= i < j < ps.len() ==> (#[trigger] ps[i]).pid != (#[trigger] ps[j]).pid
}

proof fn lemma_purchase_for_is_has(ps: Seq<Purchase>, pid: usize)
    ensures
        (purchase_for(ps, pid) is Some) <==> has_purchase(ps, pid),
        purchase_for(ps, pid) matches Some(p) ==> p.pid == pid && exists|i: int|
            0 <= i < ps.len() && #[trigger] ps[i] == p,
    decreases ps.len(),
{
    if ps.len() > 0 {
        let d = ps.drop_last();
        lemma_purchase_for_is_has(d, pid);
        if ps.last().pid == pid {
            assert(ps[ps.len() - 1] == ps.last());
            assert(has_purchase(ps, pid));
        } else {
            if has_purchase(ps, pid) {
                let i = choose|i: int| 0 <= i < ps.len() && (#[trigger] ps[i]).pid == pid;
                assert(i < ps.len() - 1);
                assert(d[i] == ps[i]);
                assert(has_purchase(d, pid));
            }
            if has_purchase(d, pid) {
                let i = choose|i: int| 0 <= i < d.len() && (#[trigger] d[i]).pid == pid;
                assert(ps[i] == d[i]);
                assert(has_purchase(ps, pid));
            }
            match purchase_for(d, pid) {
                Some(p) => {
                    let i = choose|i: int| 0 <= i < d.len() && #[trigger] d[i] == p;
                    assert(ps[i] == d[i]);
                },
                None => {},
            }
        }
    }
}

impl PurchaseType {
    /// The display label of the purchase kind.
    pub fn label(&self) -> (r: &'static str)
        ensures
            self is GamePurchase ==> r@ == "Game purchase"@,
            self is InGamePurchase ==> r@ == "In-game purchase"@,
            self is Subscriptions ==> r@ == "Subscription"@,
            self is Dlc ==> r@ == "DLC"@,
            self is Etc ==> r@ == "etc."@,
    {
        match self {
            PurchaseType::GamePurchase => "Game purchase",
            PurchaseType::InGamePurchase => "In-game purchase",
            PurchaseType::Subscriptions => "Subscription",
            PurchaseType::Dlc => "DLC",
            PurchaseType::Etc => "etc.",
        }
    }
}

impl State {
    /// The index of the catalog row with id `pid`, if any.
    #[verifier::loop_isolation(false)]
    fn find_purchase(&self, pid: usize) -> (r: Option<usize>)
        ensures
            match r {
                Some(k) => k < self.catalog().len() && self.catalog()[k as int].pid == pid
                    && purchase_for(self.catalog(), pid) == Some(self.catalog()[k as int])
                    && has_purchase(self.catalog(), pid),
                None => !has_purchase(self.catalog(), pid) && purchase_for(self.catalog(), pid)
                    is None,
            },
    {
        let n = self.purchases.len();
        let mut i: usize = 0;
        let mut found: Option<usize> = None;
        while i < n
            invariant
                i <= n,
                match found {
                    Some(k) => k < i && self.purchases@[k as int].pid == pid && purchase_for(
                        self.purchases@.take(i as int),
                        pid,
                    ) == Some(self.purchases@[k as int]),
                    None => purchase_for(self.purchases@.take(i as int), pid) is None,
                },
            decreases n - i,
        {
            let p = self.purchases[i];
            proof {
                let ps = self.purchases@;
                assert(ps.take(i as int + 1).drop_last() =~= ps.take(i as int));
                assert(ps.take(i as int + 1).last() == ps[i as int]);
            }
            if p.pid == pid {
                found = Some(i);
            }
            i = i + 1;
        }
        proof {
            assert(self.purchases@.take(n as int) =~= self.purchases@);
            lemma_purchase_for_is_has(self.purchases@, pid);
        }
        found
    }

    /// Seeds the catalog with a record. Succeeds exactly when the id is not
    /// already taken; otherwise refuses without touching any row.
    pub fn insert_purchase(&mut self, p: Purchase) -> (r: Result<(), StoreError>)
        requires
            old(self).wf(),
        ensures
            final(self).wf(),
            r is Ok <==> !has_purchase(old(self).catalog(), p.pid),
            r is Ok ==> final(self).catalog() == old(self).catalog().push(p),
            !(r is Ok) ==> r == Err::<(), StoreError>(StoreError::PreconditionViolation)
                && final(self).catalog() == old(self).catalog(),
            final(self).edges() == old(self).edges(),
            final(self).plays() == old(self).plays(),
            final(self).stock() == old(self).stock(),
            final(self).ledger() == old(self).ledger(),
    {
        if self.find_purchase(p.pid).is_some() {
            return Err(StoreError::PreconditionViolation);
        }
        self.purchases.push(p);
        proof {
            let os = old(self).catalog();
            let ns = self.purchases@;
            assert forall|i: int, j: int| 0 <= i < j < ns.len() implies (#[trigger] ns[i]).pid
                != (#[trigger] ns[j]).pid by {
                if j == ns.len() - 1 {
                    assert(ns[i] == os[i]);
                    assert(os[i].pid == p.pid ==> has_purchase(os, p.pid));
                } else {
                    assert(ns[i] == os[i] && ns[j] == os[j]);
                }
            }
        }
        Ok(())
    }

    /// The catalog records selling for game `gid`, in row order. Pure read.
    #[verifier::loop_isolation(false)]
    pub fn query_purchases(&self, gid: usize) -> (r: Vec<Purchase>)
        ensures
            r@ == purchases_for_game(self.catalog(), gid),
    {
        let n = self.purchases.len();
        let mut out: Vec<Purchase> = Vec::new();
        let mut i: usize = 0;
        while i < n
            invariant
                i <= n,
                out@ == purchases_for_game(self.purchases@.take(i as int), gid),
            decreases n - i,
        {
            let p = self.purchases[i];
            proof {
                let ps = self.purchases@;
                assert(ps.take(i as int + 1).drop_last() =~= ps.take(i as int));
                assert(ps.take(i as int + 1).last() == ps[i as int]);
            }
            if p.gid == gid {
                proof {
                    assert(out@.push(p) =~= out@ + seq![p]);
                }
                out.push(p);
            }
            i = i + 1;
        }
        proof {
            assert(self.purchases@.take(n as int) =~= self.purchases@);
        }
        out
    }

    /// The catalog record with id `pid`, or `None` when absent. Pure read.
    pub fn query_purchase(&self, pid: usize) -> (r: Option<Purchase>)
        ensures
            r == purchase_for(self.catalog(), pid),
            r is Some <==> has_purchase(self.catalog(), pid),
    {
        match self.find_purchase(pid) {
            Some(k) => Some(self.purchases[k]),
            None => None,
        }
    }

    /// The catalog record with id `pid`; fails with `NotFound` exactly when
    /// no such record exists. Pure read.
    pub fn expect_purchase(&self, pid: usize) -> (r: Result<Purchase, StoreError>)
        ensures
            r is Ok <==> has_purchase(self.catalog(), pid),
            r matches Ok(p) ==> purchase_for(self.catalog(), pid) == Some(p),
            !(r is Ok) ==> r == Err::<Purchase, StoreError>(StoreError::NotFound),
    {
        match self.find_purchase(pid) {
            Some(k) => Ok(self.purchases[k]),
            None => Err(StoreError::NotFound),
        }
    }
}

} // verus!
