//! Transaction ledger: append-only records of completed purchases.

use vstd::prelude::*;

use crate::game::library_add_rows;
use crate::game::owns;
use crate::game::wishlist_remove_rows;
use crate::game::wishlisted;
use crate::purchase::PurchaseType;
use crate::purchase::has_purchase;
use crate::purchase::purchase_for;
use crate::store::State;
use crate::store::StoreError;

verus! {

/// Parsing a payment method from its wire string failed.
#[derive(Clone, Copy, Debug, PartialEq, Eq, Structural)]
pub struct ParsePaymentMethodError;

/// How a transaction was paid.
#[derive(Clone, Copy, Debug, PartialEq, Eq, Structural)]
pub enum PaymentMethod {
    CreditCard,
    DebitCard,
    Paypal,
    Etc,
}

/// One ledger row: payer `uid` bought catalog record `pid` for user
/// `receiver_uid`. Rows are appended by `create_transaction` and never
/// mutated afterwards; `status` is a settlement code written outside this
/// core, always recorded unset here.
#[derive(Clone, Copy, Debug, PartialEq, Eq, Structural)]
pub struct Transaction {
    pub tid: usize,
    pub uid: usize,
    pub receiver_uid: usize,
    pub pid: usize,
    pub payment_method: PaymentMethod,
    pub amount: usize,
    pub bought_at: u64,
    pub status: Option<u64>,
}

/// The ledger rows paid for by user `u`, in row order (oldest first).
pub open spec fn history_for(ts: Seq<Transaction>, u: usize) -> Seq<Transaction>
    decreases ts.len(),
{
    if ts.len() == 0 {
        Seq::empty()
    } else if ts.last().uid == u {
        history_for(ts.drop_last(), u) + seq![ts.last()]
    } else {
        history_for(ts.drop_last(), u)
    }
}

/// Ledger invariant: row ids equal row positions (append-only numbering) and
/// purchase times are non-decreasing in row order.
pub open spec fn wf_transactions(ts: Seq<Transaction>) -> bool {
    &&& forall|i: int| 0 <= i < ts.len() ==> (#[trigger] ts[i]).tid == i
    &&& forall|i: int, j: int|
        0 <= i < j < ts.len() ==> (#[trigger] ts[i]).bought_at <= (#[trigger] ts[j]).bought_at
}

/// The ledger row with id `tid`, if any: the last matching row (the only one
/// in a well-formed ledger, where ids equal positions).
pub open spec fn transaction_for(ts: Seq<Transaction>, tid: usize) -> Option<Transaction>
    decreases ts.len(),
{
    if ts.len() == 0 {
        None
    } else if ts.last().tid == tid {
        Some(ts.last())
    } else {
        transaction_for(ts.drop_last(), tid)
    }
}

/// How a payment-method wire string parses: the four known lower-case names
/// parse to their method, anything else is rejected.
pub open spec fn parse_payment_method(s: Seq<char>) -> Result<PaymentMethod, ParsePaymentMethodError> {
    if s == "credit_card"@ {
        Ok(PaymentMethod::CreditCard)
    } else if s == "debit_card"@ {
        Ok(PaymentMethod::DebitCard)
    } else if s == "paypal"@ {
        Ok(PaymentMethod::Paypal)
    } else if s == "etc"@ {
        Ok(PaymentMethod::Etc)
    } else {
        Err(ParsePaymentMethodError)
    }
}

proof fn lemma_transaction_for_indexed(ts: Seq<Transaction>, tid: usize)
    requires
        forall|i: int| 0 <= i < ts.len() ==> (#[trigger] ts[i]).tid == i,
    ensures
        tid < ts.len() ==> transaction_for(ts, tid) == Some(ts[tid as int]),
        tid >= ts.len() ==> transaction_for(ts, tid) is None,
    decreases ts.len(),
{
    if ts.len() > 0 {
        let d = ts.drop_last();
        assert(forall|i: int| 0 <= i < d.len() ==> (#[trigger] d[i]).tid == i);
        lemma_transaction_for_indexed(d, tid);
        assert(ts.last() == ts[ts.len() - 1]);
        if tid < d.len() {
            assert(d[tid as int] == ts[tid as int]);
        }
    }
}

proof fn lemma_history_bounded(ts: Seq<Transaction>, u: usize, bound: u64)
    requires
        forall|i: int| 0 <= i < ts.len() ==> (#[trigger] ts[i]).bought_at <= bound,
    ensures
        forall|k: int|
            0 <= k < history_for(ts, u).len() ==> (#[trigger] history_for(ts, u)[k]).bought_at
                <= bound,
    decreases ts.len(),
{
    if ts.len() > 0 {
        let d = ts.drop_last();
        assert(forall|i: int| 0 <= i < d.len() ==> (#[trigger] d[i]).bought_at <= bound);
        lemma_history_bounded(d, u, bound);
        assert forall|k: int| 0 <= k < history_for(ts, u).len() implies (#[trigger] history_for(
            ts,
            u,
        )[k]).bought_at <= bound by {
            if ts.last().uid == u && k == history_for(d, u).len() {
                assert(history_for(ts, u)[k] == ts.last());
                assert(ts.last() == ts[ts.len() - 1]);
            } else {
                assert(history_for(ts, u)[k] == history_for(d, u)[k]);
            }
        }
    }
}

/// Filtering to one payer preserves the non-decreasing purchase-time order.
pub proof fn lemma_history_sorted(ts: Seq<Transaction>, u: usize)
    requires
        forall|i: int, j: int|
            0 <= i < j < ts.len() ==> (#[trigger] ts[i]).bought_at <= (#[trigger] ts[j]).bought_at,
    ensures
        forall|i: int, j: int|
            0 <= i < j < history_for(ts, u).len() ==> (#[trigger] history_for(ts, u)[i]).bought_at
                <= (#[trigger] history_for(ts, u)[j]).bought_at,
    decreases ts.len(),
{
    if ts.len() > 0 {
        let d = ts.drop_last();
        assert(forall|i: int, j: int|
            0 <= i < j < d.len() ==> (#[trigger] d[i]).bought_at <= (#[trigger] d[j]).bought_at);
        lemma_history_sorted(d, u);
        assert(forall|i: int|
            0 <= i < d.len() ==> (#[trigger] d[i]).bought_at <= ts.last().bought_at);
        lemma_history_bounded(d, u, ts.last().bought_at);
        assert forall|i: int, j: int|
            0 <= i < j < history_for(ts, u).len() implies (#[trigger] history_for(
            ts,
            u,
        )[i]).bought_at <= (#[trigger] history_for(ts, u)[j]).bought_at by {
            if ts.last().uid == u && j == history_for(d, u).len() {
                assert(history_for(ts, u)[j] == ts.last());
                assert(history_for(ts, u)[i] == history_for(d, u)[i]);
            } else {
                assert(history_for(ts, u)[i] == history_for(d, u)[i]);
                assert(history_for(ts, u)[j] == history_for(d, u)[j]);
            }
        }
    }
}

/// View-level string equality, built on owned-string comparison.
fn str_eq(a: &str, b: &str) -> (r: bool)
    ensures
        r == (a@ == b@),
{
    let sa = a.to_owned();
    let sb = b.to_owned();
    sa == sb
}

impl PaymentMethod {
    /// Parses a payment method from its wire string; exactly the four known
    /// lower-case names are accepted.
    pub fn from_str(s: &str) -> (r: Result<PaymentMethod, ParsePaymentMethodError>)
        ensures
            r == parse_payment_method(s@),
    {
        if str_eq(s, "credit_card") {
            Ok(PaymentMethod::CreditCard)
        } else if str_eq(s, "debit_card") {
            Ok(PaymentMethod::DebitCard)
        } else if str_eq(s, "paypal") {
            Ok(PaymentMethod::Paypal)
        } else if str_eq(s, "etc") {
            Ok(PaymentMethod::Etc)
        } else {
            Err(ParsePaymentMethodError)
        }
    }

    /// The display label of the payment method.
    pub fn label(&self) -> (r: &'static str)
        ensures
            self is CreditCard ==> r@ == "Credit Card"@,
            self is DebitCard ==> r@ == "Debit Card"@,
            self is Paypal ==> r@ == "PayPal"@,
            self is Etc ==> r@ == "etc."@,
    {
        match self {
            PaymentMethod::CreditCard => "Credit Card",
            PaymentMethod::DebitCard => "Debit Card",
            PaymentMethod::Paypal => "PayPal",
            PaymentMethod::Etc => "etc.",
        }
    }
}

impl State {
    /// Records a completed purchase: payer `uid` buys catalog record `pid`
    /// for receiver `ruid` at time `now`. When the record sells a game, the
    /// receiver's wishlist row for that game is removed and an owned row
    /// inserted, so that afterwards the receiver owns the game; other kinds
    /// leave the inventory untouched. One ledger row is appended with the
    /// next id and an unset status. The whole update is a single atomic
    /// mutation of the store: when the purchase id is unknown the call fails
    /// with `NotFound` and no row is touched. `now` must not lie before any
    /// recorded purchase time (the clock is non-decreasing).
    pub fn create_transaction(
        &mut self,
        uid: usize,
        pid: usize,
        ruid: usize,
        payment_method: PaymentMethod,
        amount: usize,
        now: u64,
    ) -> (r: Result<(), StoreError>)
        requires
            old(self).wf(),
            forall|i: int|
                0 <= i < old(self).ledger().len() ==> (#[trigger] old(self).ledger()[i]).bought_at
                    <= now,
        ensures
            final(self).wf(),
            r is Ok <==> has_purchase(old(self).catalog(), pid),
            !(r is Ok) ==> r == Err::<(), StoreError>(StoreError::NotFound) && final(self).stock()
                == old(self).stock() && final(self).ledger() == old(self).ledger(),
            r is Ok ==> final(self).ledger() == old(self).ledger().push(
                Transaction {
                    tid: old(self).ledger().len() as usize,
                    uid,
                    receiver_uid: ruid,
                    pid,
                    payment_method,
                    amount,
                    bought_at: now,
                    status: None,
                },
            ),
            r is Ok ==> (purchase_for(old(self).catalog(), pid) matches Some(p) ==> {
                &&& p.purchase_type is GamePurchase ==> final(self).stock() == library_add_rows(
                    wishlist_remove_rows(old(self).stock(), ruid, p.gid),
                    ruid,
                    p.gid,
                ) && owns(final(self).stock(), ruid, p.gid) && !wishlisted(
                    final(self).stock(),
                    ruid,
                    p.gid,
                )
                &&& !(p.purchase_type is GamePurchase) ==> final(self).stock() == old(self).stock()
            }),
            final(self).edges() == old(self).edges(),
            final(self).plays() == old(self).plays(),
            final(self).catalog() == old(self).catalog(),
    {
        let purchase = match self.expect_purchase(pid) {
            Ok(p) => p,
            Err(e) => {
                return Err(e);
            },
        };
        if purchase.purchase_type == PurchaseType::GamePurchase {
            match self.remove_game_from_wishlist(ruid, purchase.gid) {
                Ok(()) => (),
                Err(e) => {
                    return Err(e);
                },
            }
            match self.add_game_to_library(ruid, purchase.gid) {
                Ok(()) => (),
                Err(e) => {
                    return Err(e);
                },
            }
        }
        let tid = self.transactions.len();
        let t = Transaction {
            tid,
            uid,
            receiver_uid: ruid,
            pid,
            payment_method,
            amount,
            bought_at: now,
            status: None,
        };
        self.transactions.push(t);
        proof {
            let os = old(self).ledger();
            let ns = self.transactions@;
            assert forall|i: int| 0 <= i < ns.len() implies (#[trigger] ns[i]).tid == i by {
                if i < ns.len() - 1 {
                    assert(ns[i] == os[i]);
                }
            }
            assert forall|i: int, j: int|
                0 <= i < j < ns.len() implies (#[trigger] ns[i]).bought_at
                <= (#[trigger] ns[j]).bought_at by {
                if j < ns.len() - 1 {
                    assert(ns[i] == os[i] && ns[j] == os[j]);
                } else {
                    assert(ns[i] == os[i]);
                }
            }
        }
        Ok(())
    }

    /// The ledger row with id `tid`, or `None` when absent. Pure read.
    #[verifier::loop_isolation(false)]
    pub fn query_rich_transaction(&self, tid: usize) -> (r: Option<Transaction>)
        ensures
            r == transaction_for(self.ledger(), tid),
            wf_transactions(self.ledger()) ==> {
                &&& tid < self.ledger().len() ==> r == Some(self.ledger()[tid as int])
                &&& tid >= self.ledger().len() ==> r is None
            },
    {
        let n = self.transactions.len();
        let mut i: usize = 0;
        let mut found: Option<Transaction> = None;
        while i < n
            invariant
                i <= n,
                found == transaction_for(self.transactions@.take(i as int), tid),
            decreases n - i,
        {
            let t = self.transactions[i];
            proof {
                let ts = self.transactions@;
                assert(ts.take(i as int + 1).drop_last() =~= ts.take(i as int));
                assert(ts.take(i as int + 1).last() == ts[i as int]);
            }
            if t.tid == tid {
                found = Some(t);
            }
            i = i + 1;
        }
        proof {
            assert(self.transactions@.take(n as int) =~= self.transactions@);
            if wf_transactions(self.ledger()) {
                lemma_transaction_for_indexed(self.ledger(), tid);
            }
        }
        found
    }

    /// The purchase history paid for by `uid`: all of the payer's ledger
    /// rows, most recent first. Pure read.
    #[verifier::loop_isolation(false)]
    pub fn query_transaction_history(&self, uid: usize) -> (r: Vec<Transaction>)
        ensures
            r@ == history_for(self.ledger(), uid).reverse(),
            wf_transactions(self.ledger()) ==> forall|i: int, j: int|
                0 <= i < j < r@.len() ==> (#[trigger] r@[i]).bought_at
                    >= (#[trigger] r@[j]).bought_at,
    {
        let n = self.transactions.len();
        let mut picked: Vec<Transaction> = Vec::new();
        let mut i: usize = 0;
        while i < n
            invariant
                i <= n,
                picked@ == history_for(self.transactions@.take(i as int), uid),
            decreases n - i,
        {
            let t = self.transactions[i];
            proof {
                let ts = self.transactions@;
                assert(ts.take(i as int + 1).drop_last() =~= ts.take(i as int));
                assert(ts.take(i as int + 1).last() == ts[i as int]);
            }
            if t.uid == uid {
                proof {
                    assert(picked@.push(t) =~= picked@ + seq![t]);
                }
                picked.push(t);
            }
            i = i + 1;
        }
        proof {
            assert(self.transactions@.take(n as int) =~= self.transactions@);
        }
        let m = picked.len();
        let mut out: Vec<Transaction> = Vec::new();
        let mut k: usize = 0;
        while k < m
            invariant
                k <= m,
                out@.len() == k,
                forall|j: int| 0 <= j < k ==> out@[j] == picked@[m - 1 - j],
            decreases m - k,
        {
            out.push(picked[m - 1 - k]);
            k = k + 1;
        }
        proof {
            assert(out@ =~= history_for(self.ledger(), uid).reverse());
            if wf_transactions(self.ledger()) {
                lemma_history_sorted(self.ledger(), uid);
            }
        }
        out
    }
}

} // verus!
