//! Relationship, play-session and purchase bookkeeping for a game catalog.
//!
//! The store keeps the rows that back a friendship ledger, a per-(user, game)
//! play-session tracker and a purchase/transaction engine, and maintains the
//! multi-row invariants that tie them together: a valid edge configuration for
//! every pair of users, at most one open session per (user, game) pair, at
//! most one inventory entry per (user, game) pair, and an append-only
//! transaction ledger. Every mutating operation is a single atomic update of
//! the store: either the whole operation is applied or none of it is.

pub mod activity;
pub mod friendship;
pub mod game;
pub mod purchase;
pub mod store;
pub mod transaction;
pub mod util;

pub use activity::PlaySession;
pub use friendship::FriendshipStatus;
pub use game::GameRating;
pub use game::InventoryEntry;
pub use game::WishlistStatus;
pub use purchase::Purchase;
pub use purchase::PurchaseType;
pub use store::State;
pub use store::StoreError;
pub use transaction::ParsePaymentMethodError;
pub use transaction::PaymentMethod;
pub use transaction::Transaction;
pub use util::i32_to_usize;
pub use util::usize_to_i32;
