use zenki::PaymentMethod;
use zenki::Purchase;
use zenki::PurchaseType;
use zenki::State;
use zenki::StoreError;
use zenki::WishlistStatus;

fn game_purchase(pid: usize, gid: usize) -> Purchase {
    Purchase {
        pid,
        gid,
        purchase_type: PurchaseType::GamePurchase,
        price_cents: 1999,
        created_at: Some(1),
    }
}

#[test]
fn game_purchase_moves_wishlist_to_library() {
    let mut s = State::new();
    assert_eq!(s.insert_purchase(game_purchase(1, 7)), Ok(()));
    assert_eq!(s.add_game_to_wishlist(2, 7), Ok(()));
    let method = PaymentMethod::from_str("credit_card").unwrap();
    assert_eq!(s.create_transaction(1, 1, 2, method, 1, 50), Ok(()));
    assert_eq!(s.query_wishlist(2), Vec::<usize>::new());
    assert_eq!(s.query_library(2), vec![7]);
    let history = s.query_transaction_history(1);
    assert_eq!(history.len(), 1);
    assert_eq!(history[0].pid, 1);
    let sold = s.query_purchase(history[0].pid).unwrap();
    assert_eq!(sold.gid, 7);
}

#[test]
fn game_purchase_grants_ownership_without_wishlist() {
    let mut s = State::new();
    assert_eq!(s.insert_purchase(game_purchase(1, 7)), Ok(()));
    assert_eq!(s.get_wishlist_status(2, 7), WishlistStatus::NotInWishlist);
    assert_eq!(
        s.create_transaction(1, 1, 2, PaymentMethod::Paypal, 1, 50),
        Ok(())
    );
    assert_eq!(s.get_wishlist_status(2, 7), WishlistStatus::Owned);
    assert_eq!(s.query_library(2), vec![7]);
}

#[test]
fn non_game_purchase_leaves_inventory_unchanged() {
    let mut s = State::new();
    let dlc = Purchase {
        pid: 3,
        gid: 7,
        purchase_type: PurchaseType::Dlc,
        price_cents: 499,
        created_at: None,
    };
    assert_eq!(s.insert_purchase(dlc), Ok(()));
    assert_eq!(s.add_game_to_wishlist(2, 7), Ok(()));
    assert_eq!(
        s.create_transaction(1, 3, 2, PaymentMethod::DebitCard, 5, 60),
        Ok(())
    );
    assert_eq!(s.query_wishlist(2), vec![7]);
    assert_eq!(s.query_library(2), Vec::<usize>::new());
    let history = s.query_transaction_history(1);
    assert_eq!(history.len(), 1);
    assert_eq!(history[0].uid, 1);
    assert_eq!(history[0].receiver_uid, 2);
    assert_eq!(history[0].pid, 3);
    assert_eq!(history[0].amount, 5);
    assert_eq!(history[0].bought_at, 60);
    assert_eq!(history[0].status, None);
}

#[test]
fn create_transaction_unknown_purchase_not_found() {
    let mut s = State::new();
    assert_eq!(s.add_game_to_wishlist(2, 7), Ok(()));
    assert_eq!(
        s.create_transaction(1, 9, 2, PaymentMethod::Etc, 1, 50),
        Err(StoreError::NotFound)
    );
    assert_eq!(s.query_wishlist(2), vec![7]);
    assert!(s.query_transaction_history(1).is_empty());
}

#[test]
fn insert_purchase_duplicate_id_rejected() {
    let mut s = State::new();
    assert_eq!(s.insert_purchase(game_purchase(1, 7)), Ok(()));
    assert_eq!(
        s.insert_purchase(game_purchase(1, 8)),
        Err(StoreError::PreconditionViolation)
    );
    assert_eq!(s.query_purchase(1).unwrap().gid, 7);
}

#[test]
fn expect_purchase_found_and_missing() {
    let mut s = State::new();
    assert_eq!(s.insert_purchase(game_purchase(4, 9)), Ok(()));
    assert_eq!(s.expect_purchase(4), Ok(game_purchase(4, 9)));
    assert_eq!(s.expect_purchase(5), Err(StoreError::NotFound));
    assert_eq!(s.query_purchase(5), None);
}

#[test]
fn query_purchases_filters_by_game() {
    let mut s = State::new();
    assert_eq!(s.insert_purchase(game_purchase(1, 7)), Ok(()));
    assert_eq!(s.insert_purchase(game_purchase(2, 8)), Ok(()));
    assert_eq!(s.insert_purchase(game_purchase(3, 7)), Ok(()));
    let for_seven = s.query_purchases(7);
    assert_eq!(for_seven.len(), 2);
    assert_eq!(for_seven[0].pid, 1);
    assert_eq!(for_seven[1].pid, 3);
}

#[test]
fn transactions_get_sequential_ids() {
    let mut s = State::new();
    assert_eq!(s.insert_purchase(game_purchase(1, 7)), Ok(()));
    assert_eq!(
        s.create_transaction(1, 1, 2, PaymentMethod::CreditCard, 1, 50),
        Ok(())
    );
    assert_eq!(
        s.create_transaction(3, 1, 3, PaymentMethod::Paypal, 2, 55),
        Ok(())
    );
    let first = s.query_rich_transaction(0).unwrap();
    assert_eq!(first.tid, 0);
    assert_eq!(first.uid, 1);
    let second = s.query_rich_transaction(1).unwrap();
    assert_eq!(second.tid, 1);
    assert_eq!(second.uid, 3);
    assert_eq!(s.query_rich_transaction(2), None);
}

#[test]
fn transaction_history_most_recent_first() {
    let mut s = State::new();
    assert_eq!(s.insert_purchase(game_purchase(1, 7)), Ok(()));
    assert_eq!(s.insert_purchase(game_purchase(2, 8)), Ok(()));
    assert_eq!(
        s.create_transaction(1, 1, 1, PaymentMethod::CreditCard, 1, 50),
        Ok(())
    );
    assert_eq!(
        s.create_transaction(9, 1, 9, PaymentMethod::Etc, 1, 55),
        Ok(())
    );
    assert_eq!(
        s.create_transaction(1, 2, 1, PaymentMethod::DebitCard, 2, 60),
        Ok(())
    );
    let history = s.query_transaction_history(1);
    assert_eq!(history.len(), 2);
    assert_eq!(history[0].bought_at, 60);
    assert_eq!(history[0].pid, 2);
    assert_eq!(history[1].bought_at, 50);
    assert_eq!(history[1].pid, 1);
}

#[test]
fn wishlist_status_transitions() {
    let mut s = State::new();
    assert_eq!(s.get_wishlist_status(2, 7), WishlistStatus::NotInWishlist);
    assert_eq!(s.add_game_to_wishlist(2, 7), Ok(()));
    assert_eq!(s.get_wishlist_status(2, 7), WishlistStatus::InWishlist);
    assert_eq!(s.add_game_to_library(2, 7), Ok(()));
    assert_eq!(s.get_wishlist_status(2, 7), WishlistStatus::Owned);
    // Ownership supersedes wishlist membership: re-adding to the wishlist
    // does not downgrade the owned row.
    assert_eq!(s.add_game_to_wishlist(2, 7), Ok(()));
    assert_eq!(s.get_wishlist_status(2, 7), WishlistStatus::Owned);
}

#[test]
fn remove_from_wishlist_keeps_owned_games() {
    let mut s = State::new();
    assert_eq!(s.add_game_to_library(2, 7), Ok(()));
    assert_eq!(s.add_game_to_wishlist(2, 8), Ok(()));
    assert_eq!(s.remove_game_from_wishlist(2, 7), Ok(()));
    assert_eq!(s.remove_game_from_wishlist(2, 8), Ok(()));
    assert_eq!(s.query_library(2), vec![7]);
    assert_eq!(s.query_wishlist(2), Vec::<usize>::new());
}
