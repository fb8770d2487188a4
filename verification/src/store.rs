//! The shared store: every row set the three components read and write, with
//! the well-formedness invariant that ties them together.
//!
//! The store is passed into each operation explicitly, so the core can be
//! exercised in isolation. Each operation takes `&mut self` and performs its
//! whole multi-row update in one call: either all of its writes are applied
//! or, on a rejected call, none.

use vstd::prelude::*;

use crate::activity::PlaySession;
use crate::activity::wf_sessions;
use crate::friendship::FriendEdge;
use crate::friendship::wf_friends;
use crate::game::InventoryEntry;
use crate::game::wf_inventory;
use crate::purchase::Purchase;
use crate::purchase::wf_purchases;
use crate::transaction::Transaction;
use crate::transaction::wf_transactions;

verus! {

/// Why an operation was refused.
#[derive(Clone, Copy, Debug, PartialEq, Eq, Structural)]
pub enum StoreError {
    /// The backing storage could not be reached. Never produced by the
    /// in-memory store itself; reserved for the boundary that wraps it.
    StorageUnavailable,
    /// A row whose existence the operation required is absent.
    NotFound,
    /// A payment-method value could not be parsed at the boundary.
    InvalidPaymentMethod,
    /// The operation was called from a state its contract rejects.
    PreconditionViolation,
}

/// The row sets of the core: friendship edges, play sessions, per-user
/// inventory, the purchase catalog and the transaction ledger.
pub struct State {
    pub friends: Vec<FriendEdge>,
    pub sessions: Vec<PlaySession>,
    pub inventory: Vec<InventoryEntry>,
    pub purchases: Vec<Purchase>,
    pub transactions: Vec<Transaction>,
}

impl State {
    /// The friendship edge rows, in insertion order.
    pub open spec fn edges(self) -> Seq<FriendEdge> {
        self.friends@
    }

    /// The play-session rows, in insertion order.
    pub open spec fn plays(self) -> Seq<PlaySession> {
        self.sessions@
    }

    /// The inventory rows, in insertion order.
    pub open spec fn stock(self) -> Seq<InventoryEntry> {
        self.inventory@
    }

    /// The purchase catalog rows, in insertion order.
    pub open spec fn catalog(self) -> Seq<Purchase> {
        self.purchases@
    }

    /// The transaction ledger rows, in insertion order.
    pub open spec fn ledger(self) -> Seq<Transaction> {
        self.transactions@
    }

    /// Store invariant: every component's row invariant holds. Established
    /// by `new` and preserved by every operation.
    pub open spec fn wf(self) -> bool {
        &&& wf_friends(self.edges())
        &&& wf_sessions(self.plays())
        &&& wf_inventory(self.stock())
        &&& wf_purchases(self.catalog())
        &&& wf_transactions(self.ledger())
    }

    /// An empty, well-formed store.
    pub fn new() -> (s: State)
        ensures
            s.wf(),
            s.edges() == Seq::<FriendEdge>::empty(),
            s.plays() == Seq::<PlaySession>::empty(),
            s.stock() == Seq::<InventoryEntry>::empty(),
            s.catalog() == Seq::<Purchase>::empty(),
            s.ledger() == Seq::<Transaction>::empty(),
    {
        State {
            friends: Vec::new(),
            sessions: Vec::new(),
            inventory: Vec::new(),
            purchases: Vec::new(),
            transactions: Vec::new(),
        }
    }
}

} // verus!
