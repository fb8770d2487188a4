//! Per-user game inventory: wishlist membership and owned library.
//!
//! One row per (user, game) pair at most, marked either wishlisted or owned.
//! Ownership supersedes wishlist membership: adding an owned entry upgrades a
//! wishlist row in place, and adding to the wishlist never downgrades an
//! owned row.

use vstd::prelude::*;

use crate::store::State;
use crate::store::StoreError;

verus! {

/// Audience rating of a game in the catalog.
#[derive(Clone, Copy, Debug, PartialEq, Eq, Structural)]
pub enum GameRating {
    General,
    Mature,
    Sensitive,
}

/// One inventory row: game `gid` is on user `uid`'s wishlist when `wishlist`
/// is true, and in the owned library otherwise.
#[derive(Clone, Copy, Debug, PartialEq, Eq, Structural)]
pub struct InventoryEntry {
    pub uid: usize,
    pub gid: usize,
    pub wishlist: bool,
}

/// Where a game stands for a user: absent, wishlisted, or owned.
#[derive(Clone, Copy, Debug, PartialEq, Eq, Structural)]
pub enum WishlistStatus {
    NotInWishlist,
    InWishlist,
    Owned,
}

/// Whether the inventory row belongs to the pair `(u, g)`.
pub open spec fn entry_matches(e: InventoryEntry, u: usize, g: usize) -> bool {
    e.uid == u && e.gid == g
}

/// Whether any inventory row exists for the pair `(u, g)`.
pub open spec fn has_entry(inv: Seq<InventoryEntry>, u: usize, g: usize) -> bool {
    exists|i: int| 0 <= i < inv.len() && entry_matches(#[trigger] inv[i], u, g)
}

/// Whether user `u` owns game `g`.
pub open spec fn owns(inv: Seq<InventoryEntry>, u: usize, g: usize) -> bool {
    exists|i: int|
        0 <= i < inv.len() && entry_matches(#[trigger] inv[i], u, g) && !inv[i].wishlist
}

/// Whether game `g` is on user `u`'s wishlist.
pub open spec fn wishlisted(inv: Seq<InventoryEntry>, u: usize, g: usize) -> bool {
    exists|i: int| 0 <= i < inv.len() && entry_matches(#[trigger] inv[i], u, g) && inv[i].wishlist
}

/// The pair's inventory row, if any: the last matching row (the only one in a
/// well-formed store).
pub open spec fn entry_for(inv: Seq<InventoryEntry>, u: usize, g: usize) -> Option<InventoryEntry>
    decreases inv.len(),
{
    if inv.len() == 0 {
        None
    } else if entry_matches(inv.last(), u, g) {
        Some(inv.last())
    } else {
        entry_for(inv.drop_last(), u, g)
    }
}

/// Classification of the pair's row as a wishlist status.
pub open spec fn spec_wishlist_status(inv: Seq<InventoryEntry>, u: usize, g: usize) -> WishlistStatus {
    match entry_for(inv, u, g) {
        None => WishlistStatus::NotInWishlist,
        Some(e) => if e.wishlist {
            WishlistStatus::InWishlist
        } else {
            WishlistStatus::Owned
        },
    }
}

/// Row image of `add_game_to_wishlist(u, g)`: a no-op while any row for the
/// pair exists (ownership supersedes wishlist membership), otherwise one
/// appended wishlist row.
pub open spec fn wishlist_add_rows(inv: Seq<InventoryEntry>, u: usize, g: usize) -> Seq<
    InventoryEntry,
> {
    if has_entry(inv, u, g) {
        inv
    } else {
        inv.push(InventoryEntry { uid: u, gid: g, wishlist: true })
    }
}

/// Row image of `add_game_to_library(u, g)`: every row of the pair (at most
/// one in a well-formed store) is upgraded to owned in place; with no row,
/// one owned row is appended.
pub open spec fn library_add_rows(inv: Seq<InventoryEntry>, u: usize, g: usize) -> Seq<
    InventoryEntry,
> {
    if has_entry(inv, u, g) {
        Seq::new(
            inv.len(),
            |i: int|
                if entry_matches(inv[i], u, g) {
                    InventoryEntry { uid: u, gid: g, wishlist: false }
                } else {
                    inv[i]
                },
        )
    } else {
        inv.push(InventoryEntry { uid: u, gid: g, wishlist: false })
    }
}

/// Row image of `remove_game_from_wishlist(u, g)`: every wishlist row of the
/// pair removed; owned rows are untouched.
pub open spec fn wishlist_remove_rows(inv: Seq<InventoryEntry>, u: usize, g: usize) -> Seq<
    InventoryEntry,
>
    decreases inv.len(),
{
    if inv.len() == 0 {
        Seq::empty()
    } else if entry_matches(inv.last(), u, g) && inv.last().wishlist {
        wishlist_remove_rows(inv.drop_last(), u, g)
    } else {
        wishlist_remove_rows(inv.drop_last(), u, g) + seq![inv.last()]
    }
}

/// The games user `u` has wishlisted, in row order.
pub open spec fn wishlist_ids(inv: Seq<InventoryEntry>, u: usize) -> Seq<usize>
    decreases inv.len(),
{
    if inv.len() == 0 {
        Seq::empty()
    } else if inv.last().uid == u && inv.last().wishlist {
        wishlist_ids(inv.drop_last(), u) + seq![inv.last().gid]
    } else {
        wishlist_ids(inv.drop_last(), u)
    }
}

/// The games user `u` owns, in row order.
pub open spec fn library_ids(inv: Seq<InventoryEntry>, u: usize) -> Seq<usize>
    decreases inv.len(),
{
    if inv.len() == 0 {
        Seq::empty()
    } else if inv.last().uid == u && !inv.last().wishlist {
        library_ids(inv.drop_last(), u) + seq![inv.last().gid]
    } else {
        library_ids(inv.drop_last(), u)
    }
}

/// Inventory invariant: at most one row per (user, game) pair.
pub open spec fn wf_inventory(inv: Seq<InventoryEntry>) -> bool {
    forall|i: int, j: int|
        0 <= i < j < inv.len() ==> !((#[trigger] inv[i]).uid == (#[trigger] inv[j]).uid && inv[i].gid
            == inv[j].gid)
}

proof fn lemma_entry_for_is_has(inv: Seq<InventoryEntry>, u: usize, g: usize)
    ensures
        (entry_for(inv, u, g) is Some) <==> has_entry(inv, u, g),
        entry_for(inv, u, g) matches Some(e) ==> exists|i: int|
            0 <= i < inv.len() && #[trigger] inv[i] == e && entry_matches(e, u, g),
    decreases inv.len(),
{
    if inv.len() > 0 {
        let d = inv.drop_last();
        lemma_entry_for_is_has(d, u, g);
        if entry_matches(inv.last(), u, g) {
            assert(inv[inv.len() - 1] == inv.last());
            assert(has_entry(inv, u, g));
        } else {
            if has_entry(inv, u, g) {
                let i = choose|i: int|
                    0 <= i < inv.len() && entry_matches(#[trigger] inv[i], u, g);
                assert(i < inv.len() - 1);
                assert(d[i] == inv[i]);
                assert(has_entry(d, u, g));
            }
            if has_entry(d, u, g) {
                let i = choose|i: int| 0 <= i < d.len() && entry_matches(#[trigger] d[i], u, g);
                assert(inv[i] == d[i]);
                assert(has_entry(inv, u, g));
            }
            match entry_for(d, u, g) {
                Some(e2) => {
                    let i = choose|i: int|
                        0 <= i < d.len() && #[trigger] d[i] == e2 && entry_matches(e2, u, g);
                    assert(inv[i] == d[i]);
                },
                None => {},
            }
        }
    }
}

proof fn lemma_wishlist_remove_keeps_other(inv: Seq<InventoryEntry>, u: usize, g: usize, x: usize, y: usize)
    requires
        forall|i: int| 0 <= i < inv.len() ==> !((#[trigger] inv[i]).uid == x && inv[i].gid == y),
    ensures
        forall|k: int|
            0 <= k < wishlist_remove_rows(inv, u, g).len() ==> !((#[trigger] wishlist_remove_rows(
                inv,
                u,
                g,
            )[k]).uid == x && wishlist_remove_rows(inv, u, g)[k].gid == y),
    decreases inv.len(),
{
    if inv.len() > 0 {
        let d = inv.drop_last();
        assert(forall|i: int| 0 <= i < d.len() ==> !((#[trigger] d[i]).uid == x && d[i].gid == y));
        lemma_wishlist_remove_keeps_other(d, u, g, x, y);
        let e = inv.last();
        assert forall|k: int| 0 <= k < wishlist_remove_rows(inv, u, g).len() implies !((
        #[trigger] wishlist_remove_rows(inv, u, g)[k]).uid == x && wishlist_remove_rows(
            inv,
            u,
            g,
        )[k].gid == y) by {
            if !(entry_matches(e, u, g) && e.wishlist) && k == wishlist_remove_rows(d, u, g).len() {
                assert(wishlist_remove_rows(inv, u, g)[k] == e);
                assert(e == inv[inv.len() - 1]);
            } else {
                assert(wishlist_remove_rows(inv, u, g)[k] == wishlist_remove_rows(d, u, g)[k]);
            }
        }
    }
}

/// Removing a pair's wishlist row keeps the inventory well-formed and
/// leaves no wishlist row for the pair.
pub proof fn lemma_wishlist_remove_ok(inv: Seq<InventoryEntry>, u: usize, g: usize)
    requires
        wf_inventory(inv),
    ensures
        wf_inventory(wishlist_remove_rows(inv, u, g)),
        !wishlisted(wishlist_remove_rows(inv, u, g), u, g),
    decreases inv.len(),
{
    if inv.len() > 0 {
        let d = inv.drop_last();
        assert(wf_inventory(d)) by {
            assert(forall|i: int| 0 <= i < d.len() ==> d[i] == inv[i]);
        }
        lemma_wishlist_remove_ok(d, u, g);
        let e = inv.last();
        let r = wishlist_remove_rows(inv, u, g);
        let rd = wishlist_remove_rows(d, u, g);
        if !(entry_matches(e, u, g) && e.wishlist) {
            assert(r == rd + seq![e]);
            // Rows kept from the front never share the last row's pair.
            assert(forall|i: int|
                0 <= i < d.len() ==> !((#[trigger] d[i]).uid == e.uid && d[i].gid == e.gid)) by {
                assert(forall|i: int| 0 <= i < inv.len() - 1 ==> #[trigger] inv[i] == d[i]);
                assert(e == inv[inv.len() - 1]);
            }
            lemma_wishlist_remove_keeps_other(d, u, g, e.uid, e.gid);
            assert forall|i: int, j: int| 0 <= i < j < r.len() implies !((#[trigger] r[i]).uid
                == (#[trigger] r[j]).uid && r[i].gid == r[j].gid) by {
                if j == r.len() - 1 {
                    assert(r[j] == e);
                    assert(r[i] == rd[i]);
                } else {
                    assert(r[i] == rd[i] && r[j] == rd[j]);
                }
            }
            assert forall|k: int|
                0 <= k < r.len() && entry_matches(#[trigger] r[k], u, g) implies !r[k].wishlist by {
                if k < r.len() - 1 {
                    assert(r[k] == rd[k]);
                    assert(!wishlisted(rd, u, g));
                }
            }
        }
    }
}

/// Adding a game to the library keeps the inventory well-formed and leaves
/// the receiver owning the game with no wishlist row for it.
pub proof fn lemma_library_add_ok(inv: Seq<InventoryEntry>, u: usize, g: usize)
    requires
        wf_inventory(inv),
    ensures
        wf_inventory(library_add_rows(inv, u, g)),
        owns(library_add_rows(inv, u, g), u, g),
        !wishlisted(library_add_rows(inv, u, g), u, g),
{
    let r = library_add_rows(inv, u, g);
    if has_entry(inv, u, g) {
        let w = choose|i: int| 0 <= i < inv.len() && entry_matches(#[trigger] inv[i], u, g);
        assert forall|i: int, j: int| 0 <= i < j < r.len() implies !((#[trigger] r[i]).uid
            == (#[trigger] r[j]).uid && r[i].gid == r[j].gid) by {
            assert(r[i].uid == inv[i].uid && r[i].gid == inv[i].gid);
            assert(r[j].uid == inv[j].uid && r[j].gid == inv[j].gid);
        }
        assert(entry_matches(r[w], u, g) && !r[w].wishlist);
        assert forall|k: int|
            0 <= k < r.len() && entry_matches(#[trigger] r[k], u, g) implies !r[k].wishlist by {
            assert(entry_matches(inv[k], u, g));
        }
    } else {
        assert forall|i: int, j: int| 0 <= i < j < r.len() implies !((#[trigger] r[i]).uid
            == (#[trigger] r[j]).uid && r[i].gid == r[j].gid) by {
            if j == r.len() - 1 {
                assert(r[i] == inv[i]);
                assert(entry_matches(inv[i], u, g) ==> has_entry(inv, u, g));
            } else {
                assert(r[i] == inv[i] && r[j] == inv[j]);
            }
        }
        assert(entry_matches(r[r.len() - 1], u, g) && !r[r.len() - 1].wishlist);
        assert forall|k: int|
            0 <= k < r.len() && entry_matches(#[trigger] r[k], u, g) implies !r[k].wishlist by {
            if k < r.len() - 1 {
                assert(r[k] == inv[k]);
                assert(has_entry(inv, u, g));
            }
        }
    }
}

/// In a well-formed inventory the row classification agrees with the
/// ownership and wishlist predicates: the pair is owned, wishlisted or
/// absent exactly as its status says.
pub proof fn lemma_wishlist_status_meaning(inv: Seq<InventoryEntry>, u: usize, g: usize)
    requires
        wf_inventory(inv),
    ensures
        spec_wishlist_status(inv, u, g) is Owned <==> owns(inv, u, g),
        spec_wishlist_status(inv, u, g) is InWishlist <==> wishlisted(inv, u, g),
        spec_wishlist_status(inv, u, g) is NotInWishlist <==> !has_entry(inv, u, g),
{
    lemma_entry_for_is_has(inv, u, g);
    match entry_for(inv, u, g) {
        Some(e) => {
            let i = choose|i: int|
                0 <= i < inv.len() && #[trigger] inv[i] == e && entry_matches(e, u, g);
            // The pair's row is unique, so any matching witness is this one.
            if owns(inv, u, g) {
                let j = choose|j: int|
                    0 <= j < inv.len() && entry_matches(#[trigger] inv[j], u, g) && !inv[j].wishlist;
                assert(j == i);
            }
            if wishlisted(inv, u, g) {
                let j = choose|j: int|
                    0 <= j < inv.len() && entry_matches(#[trigger] inv[j], u, g) && inv[j].wishlist;
                assert(j == i);
            }
        },
        None => {},
    }
}

/// Completing a game purchase grants ownership: removing the receiver's
/// wishlist row for the game and inserting the owned row leaves the
/// receiver owning the game, with any prior wishlist row gone.
pub proof fn lemma_game_purchase_grants_ownership(inv: Seq<InventoryEntry>, u: usize, g: usize)
    requires
        wf_inventory(inv),
    ensures
        wf_inventory(library_add_rows(wishlist_remove_rows(inv, u, g), u, g)),
        owns(library_add_rows(wishlist_remove_rows(inv, u, g), u, g), u, g),
        !wishlisted(library_add_rows(wishlist_remove_rows(inv, u, g), u, g), u, g),
{
    lemma_wishlist_remove_ok(inv, u, g);
    lemma_library_add_ok(wishlist_remove_rows(inv, u, g), u, g);
}

impl GameRating {
    /// The display label of the rating.
    pub fn label(&self) -> (r: &'static str)
        ensures
            self is General ==> r@ == "General"@,
            self is Mature ==> r@ == "Mature"@,
            self is Sensitive ==> r@ == "Sensitive"@,
    {
        match self {
            GameRating::General => "General",
            GameRating::Mature => "Mature",
            GameRating::Sensitive => "Sensitive",
        }
    }
}

impl State {
    /// The index of the pair's inventory row, if any.
    #[verifier::loop_isolation(false)]
    fn find_entry(&self, uid: usize, gid: usize) -> (r: Option<usize>)
        ensures
            match r {
                Some(k) => k < self.stock().len() && entry_matches(self.stock()[k as int], uid, gid)
                    && entry_for(self.stock(), uid, gid) == Some(self.stock()[k as int])
                    && has_entry(self.stock(), uid, gid),
                None => !has_entry(self.stock(), uid, gid) && entry_for(self.stock(), uid, gid)
                    is None,
            },
    {
        let n = self.inventory.len();
        let mut i: usize = 0;
        let mut found: Option<usize> = None;
        while i < n
            invariant
                i <= n,
                match found {
                    Some(k) => k < i && entry_matches(self.inventory@[k as int], uid, gid)
                        && entry_for(self.inventory@.take(i as int), uid, gid) == Some(
                        self.inventory@[k as int],
                    ),
                    None => entry_for(self.inventory@.take(i as int), uid, gid) is None,
                },
            decreases n - i,
        {
            let e = self.inventory[i];
            proof {
                let inv = self.inventory@;
                assert(inv.take(i as int + 1).drop_last() =~= inv.take(i as int));
                assert(inv.take(i as int + 1).last() == inv[i as int]);
            }
            if e.uid == uid && e.gid == gid {
                found = Some(i);
            }
            i = i + 1;
        }
        proof {
            assert(self.inventory@.take(n as int) =~= self.inventory@);
            lemma_entry_for_is_has(self.inventory@, uid, gid);
        }
        found
    }

    /// Puts `gid` on `uid`'s wishlist. A no-op when any row for the pair
    /// already exists: an owned game is never downgraded and a wishlisted
    /// one stays wishlisted.
    pub fn add_game_to_wishlist(&mut self, uid: usize, gid: usize) -> (r: Result<(), StoreError>)
        requires
            old(self).wf(),
        ensures
            final(self).wf(),
            r is Ok,
            final(self).stock() == wishlist_add_rows(old(self).stock(), uid, gid),
            final(self).edges() == old(self).edges(),
            final(self).plays() == old(self).plays(),
            final(self).catalog() == old(self).catalog(),
            final(self).ledger() == old(self).ledger(),
    {
        if self.find_entry(uid, gid).is_some() {
            return Ok(());
        }
        let e = InventoryEntry { uid, gid, wishlist: true };
        self.inventory.push(e);
        proof {
            let os = old(self).stock();
            let ns = self.inventory@;
            assert forall|i: int, j: int| 0 <= i < j < ns.len() implies !((#[trigger] ns[i]).uid
                == (#[trigger] ns[j]).uid && ns[i].gid == ns[j].gid) by {
                if j == ns.len() - 1 {
                    assert(ns[i] == os[i]);
                    assert(entry_matches(os[i], uid, gid) ==> has_entry(os, uid, gid));
                } else {
                    assert(ns[i] == os[i] && ns[j] == os[j]);
                }
            }
        }
        Ok(())
    }

    /// Puts `gid` in `uid`'s owned library. Any wishlist row for the pair is
    /// upgraded in place; an already owned game stays owned; otherwise an
    /// owned row is appended.
    pub fn add_game_to_library(&mut self, uid: usize, gid: usize) -> (r: Result<(), StoreError>)
        requires
            old(self).wf(),
        ensures
            final(self).wf(),
            r is Ok,
            final(self).stock() == library_add_rows(old(self).stock(), uid, gid),
            owns(final(self).stock(), uid, gid),
            !wishlisted(final(self).stock(), uid, gid),
            final(self).edges() == old(self).edges(),
            final(self).plays() == old(self).plays(),
            final(self).catalog() == old(self).catalog(),
            final(self).ledger() == old(self).ledger(),
    {
        proof {
            lemma_library_add_ok(self.inventory@, uid, gid);
        }
        let e = InventoryEntry { uid, gid, wishlist: false };
        match self.find_entry(uid, gid) {
            Some(k) => {
                self.inventory[k] = e;
                proof {
                    let os = old(self).stock();
                    let ns = self.inventory@;
                    assert forall|j: int| 0 <= j < ns.len() implies ns[j] == library_add_rows(
                        os,
                        uid,
                        gid,
                    )[j] by {
                        if j != k {
                            assert(entry_matches(os[j], uid, gid) ==> false) by {
                                if entry_matches(os[j], uid, gid) {
                                    if j < k {
                                        assert(!(os[j].uid == os[k as int].uid && os[j].gid
                                            == os[k as int].gid));
                                    } else {
                                        assert(!(os[k as int].uid == os[j].uid && os[k as int].gid
                                            == os[j].gid));
                                    }
                                }
                            }
                        }
                    }
                    assert(ns =~= library_add_rows(os, uid, gid));
                }
            },
            None => {
                self.inventory.push(e);
            },
        }
        Ok(())
    }

    /// Deletes `uid`'s wishlist row for `gid`. A no-op, not an error, when
    /// no wishlist row exists; an owned row is never touched.
    #[verifier::loop_isolation(false)]
    pub fn remove_game_from_wishlist(&mut self, uid: usize, gid: usize) -> (r: Result<
        (),
        StoreError,
    >)
        requires
            old(self).wf(),
        ensures
            final(self).wf(),
            r is Ok,
            final(self).stock() == wishlist_remove_rows(old(self).stock(), uid, gid),
            !wishlisted(final(self).stock(), uid, gid),
            final(self).edges() == old(self).edges(),
            final(self).plays() == old(self).plays(),
            final(self).catalog() == old(self).catalog(),
            final(self).ledger() == old(self).ledger(),
    {
        proof {
            lemma_wishlist_remove_ok(self.inventory@, uid, gid);
        }
        let n = self.inventory.len();
        let mut kept: Vec<InventoryEntry> = Vec::new();
        let mut i: usize = 0;
        while i < n
            invariant
                i <= n,
                kept@ == wishlist_remove_rows(self.inventory@.take(i as int), uid, gid),
            decreases n - i,
        {
            let e = self.inventory[i];
            proof {
                let inv = self.inventory@;
                assert(inv.take(i as int + 1).drop_last() =~= inv.take(i as int));
                assert(inv.take(i as int + 1).last() == inv[i as int]);
            }
            if !(e.uid == uid && e.gid == gid && e.wishlist) {
                proof {
                    assert(kept@.push(e) =~= kept@ + seq![e]);
                }
                kept.push(e);
            }
            i = i + 1;
        }
        proof {
            assert(self.inventory@.take(n as int) =~= self.inventory@);
        }
        self.inventory = kept;
        Ok(())
    }

    /// Where `gid` stands for `uid`: absent, wishlisted, or owned. Pure
    /// read.
    pub fn get_wishlist_status(&self, uid: usize, gid: usize) -> (st: WishlistStatus)
        ensures
            st == spec_wishlist_status(self.stock(), uid, gid),
    {
        match self.find_entry(uid, gid) {
            Some(k) => {
                if self.inventory[k].wishlist {
                    WishlistStatus::InWishlist
                } else {
                    WishlistStatus::Owned
                }
            },
            None => WishlistStatus::NotInWishlist,
        }
    }

    /// The games on `uid`'s wishlist, in row order. Pure read.
    #[verifier::loop_isolation(false)]
    pub fn query_wishlist(&self, uid: usize) -> (r: Vec<usize>)
        ensures
            r@ == wishlist_ids(self.stock(), uid),
    {
        let n = self.inventory.len();
        let mut out: Vec<usize> = Vec::new();
        let mut i: usize = 0;
        while i < n
            invariant
                i <= n,
                out@ == wishlist_ids(self.inventory@.take(i as int), uid),
            decreases n - i,
        {
            let e = self.inventory[i];
            proof {
                let inv = self.inventory@;
                assert(inv.take(i as int + 1).drop_last() =~= inv.take(i as int));
                assert(inv.take(i as int + 1).last() == inv[i as int]);
            }
            if e.uid == uid && e.wishlist {
                proof {
                    assert(out@.push(e.gid) =~= out@ + seq![e.gid]);
                }
                out.push(e.gid);
            }
            i = i + 1;
        }
        proof {
            assert(self.inventory@.take(n as int) =~= self.inventory@);
        }
        out
    }

    /// The games `uid` owns, in row order. Pure read.
    #[verifier::loop_isolation(false)]
    pub fn query_library(&self, uid: usize) -> (r: Vec<usize>)
        ensures
            r@ == library_ids(self.stock(), uid),
    {
        let n = self.inventory.len();
        let mut out: Vec<usize> = Vec::new();
        let mut i: usize = 0;
        while i < n
            invariant
                i <= n,
                out@ == library_ids(self.inventory@.take(i as int), uid),
            decreases n - i,
        {
            let e = self.inventory[i];
            proof {
                let inv = self.inventory@;
                assert(inv.take(i as int + 1).drop_last() =~= inv.take(i as int));
                assert(inv.take(i as int + 1).last() == inv[i as int]);
            }
            if e.uid == uid && !e.wishlist {
                proof {
                    assert(out@.push(e.gid) =~= out@ + seq![e.gid]);
                }
                out.push(e.gid);
            }
            i = i + 1;
        }
        proof {
            assert(self.inventory@.take(n as int) =~= self.inventory@);
        }
        out
    }
}

} // verus!
