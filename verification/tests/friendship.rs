use zenki::FriendshipStatus;
use zenki::State;
use zenki::StoreError;

#[test]
fn send_then_status_sent_and_received() {
    let mut s = State::new();
    assert_eq!(s.send_friend_request(1, 2, 10), Ok(()));
    assert_eq!(s.get_friendship_status(1, 2), FriendshipStatus::RequestSent);
    assert_eq!(s.get_friendship_status(2, 1), FriendshipStatus::RequestReceived);
}

#[test]
fn send_then_cancel_round_trip() {
    let mut s = State::new();
    assert_eq!(s.send_friend_request(1, 2, 10), Ok(()));
    assert_eq!(s.cancel_friend_request(1, 2), Ok(()));
    assert_eq!(s.get_friendship_status(1, 2), FriendshipStatus::NotFriends);
    assert_eq!(s.get_friendship_status(2, 1), FriendshipStatus::NotFriends);
}

#[test]
fn send_then_accept_friends_both_ways() {
    let mut s = State::new();
    assert_eq!(s.send_friend_request(1, 2, 10), Ok(()));
    assert_eq!(s.accept_friend_request(2, 1, 11), Ok(()));
    assert_eq!(s.get_friendship_status(1, 2), FriendshipStatus::Friends);
    assert_eq!(s.get_friendship_status(2, 1), FriendshipStatus::Friends);
}

#[test]
fn remove_friend_clears_both_directions() {
    let mut s = State::new();
    assert_eq!(s.send_friend_request(1, 2, 10), Ok(()));
    assert_eq!(s.accept_friend_request(2, 1, 11), Ok(()));
    assert_eq!(s.remove_friend(1, 2), Ok(()));
    assert_eq!(s.get_friendship_status(1, 2), FriendshipStatus::NotFriends);
    assert_eq!(s.get_friendship_status(2, 1), FriendshipStatus::NotFriends);
}

#[test]
fn decline_removes_pending_request() {
    let mut s = State::new();
    assert_eq!(s.send_friend_request(1, 2, 10), Ok(()));
    assert_eq!(s.decline_friend_request(2, 1), Ok(()));
    assert_eq!(s.get_friendship_status(1, 2), FriendshipStatus::NotFriends);
}

#[test]
fn send_rejected_while_request_pending() {
    let mut s = State::new();
    assert_eq!(s.send_friend_request(1, 2, 10), Ok(()));
    assert_eq!(
        s.send_friend_request(1, 2, 11),
        Err(StoreError::PreconditionViolation)
    );
    assert_eq!(
        s.send_friend_request(2, 1, 11),
        Err(StoreError::PreconditionViolation)
    );
    assert_eq!(s.get_friendship_status(1, 2), FriendshipStatus::RequestSent);
}

#[test]
fn send_rejected_for_self() {
    let mut s = State::new();
    assert_eq!(
        s.send_friend_request(5, 5, 10),
        Err(StoreError::PreconditionViolation)
    );
    assert_eq!(s.get_friendship_status(5, 5), FriendshipStatus::NotFriends);
}

#[test]
fn accept_rejected_without_request() {
    let mut s = State::new();
    assert_eq!(
        s.accept_friend_request(2, 1, 11),
        Err(StoreError::PreconditionViolation)
    );
    let mut t = State::new();
    assert_eq!(t.send_friend_request(1, 2, 10), Ok(()));
    // The sender cannot accept its own request.
    assert_eq!(
        t.accept_friend_request(1, 2, 11),
        Err(StoreError::PreconditionViolation)
    );
}

#[test]
fn cancel_without_request_is_noop() {
    let mut s = State::new();
    assert_eq!(s.cancel_friend_request(1, 2), Ok(()));
    assert_eq!(s.get_friendship_status(1, 2), FriendshipStatus::NotFriends);
}

#[test]
fn remove_friend_leaves_pending_request() {
    let mut s = State::new();
    assert_eq!(s.send_friend_request(1, 2, 10), Ok(()));
    assert_eq!(s.remove_friend(1, 2), Ok(()));
    assert_eq!(s.get_friendship_status(1, 2), FriendshipStatus::RequestSent);
}

#[test]
fn query_friends_lists_accepted_targets() {
    let mut s = State::new();
    assert_eq!(s.send_friend_request(1, 2, 10), Ok(()));
    assert_eq!(s.accept_friend_request(2, 1, 11), Ok(()));
    assert_eq!(s.send_friend_request(1, 3, 12), Ok(()));
    assert_eq!(s.accept_friend_request(3, 1, 13), Ok(()));
    assert_eq!(s.send_friend_request(1, 4, 14), Ok(()));
    assert_eq!(s.query_friends(1), vec![2, 3]);
    assert_eq!(s.query_friends(2), vec![1]);
    assert_eq!(s.query_friends(4), Vec::<usize>::new());
}
