use zenki::State;

#[test]
fn start_then_is_playing() {
    let mut s = State::new();
    assert!(!s.is_playing(1, 7));
    assert_eq!(s.start_playing(1, 7, 100), Ok(()));
    assert!(s.is_playing(1, 7));
    assert!(!s.is_playing(1, 8));
    assert!(!s.is_playing(2, 7));
}

#[test]
fn stop_then_not_playing_with_duration() {
    let mut s = State::new();
    assert_eq!(s.start_playing(1, 7, 100), Ok(()));
    assert_eq!(s.stop_playing(1, 7, 160), Ok(()));
    assert!(!s.is_playing(1, 7));
    let history = s.query_game_activity(1);
    assert_eq!(history.len(), 1);
    assert_eq!(history[0].startplay_at, 100);
    assert_eq!(history[0].duration, Some(60));
}

#[test]
fn stop_without_open_session_is_noop() {
    let mut s = State::new();
    assert_eq!(s.stop_playing(1, 7, 50), Ok(()));
    assert!(s.query_game_activity(1).is_empty());
    assert_eq!(s.start_playing(1, 7, 100), Ok(()));
    assert_eq!(s.stop_playing(1, 7, 110), Ok(()));
    let before = s.query_game_activity(1);
    // A second stop finds no open session and mutates no row.
    assert_eq!(s.stop_playing(1, 7, 120), Ok(()));
    assert_eq!(s.query_game_activity(1), before);
}

#[test]
fn start_while_open_is_idempotent() {
    let mut s = State::new();
    assert_eq!(s.start_playing(1, 7, 100), Ok(()));
    assert_eq!(s.start_playing(1, 7, 105), Ok(()));
    assert!(s.is_playing(1, 7));
    assert_eq!(s.query_game_activity(1).len(), 1);
    assert_eq!(s.stop_playing(1, 7, 130), Ok(()));
    let history = s.query_game_activity(1);
    assert_eq!(history.len(), 1);
    assert_eq!(history[0].duration, Some(30));
}

#[test]
fn activity_lists_most_recent_first() {
    let mut s = State::new();
    assert_eq!(s.start_playing(1, 7, 100), Ok(()));
    assert_eq!(s.stop_playing(1, 7, 110), Ok(()));
    assert_eq!(s.start_playing(1, 8, 120), Ok(()));
    assert_eq!(s.stop_playing(1, 8, 125), Ok(()));
    assert_eq!(s.start_playing(1, 7, 130), Ok(()));
    assert_eq!(s.start_playing(2, 7, 140), Ok(()));
    let history = s.query_game_activity(1);
    assert_eq!(history.len(), 3);
    assert_eq!(history[0].startplay_at, 130);
    assert_eq!(history[0].gid, 7);
    assert_eq!(history[0].duration, None);
    assert_eq!(history[1].startplay_at, 120);
    assert_eq!(history[1].gid, 8);
    assert_eq!(history[2].startplay_at, 100);
    assert_eq!(history[2].duration, Some(10));
}

#[test]
fn sessions_with_equal_start_times() {
    let mut s = State::new();
    assert_eq!(s.start_playing(1, 7, 100), Ok(()));
    assert_eq!(s.stop_playing(1, 7, 100), Ok(()));
    assert!(!s.is_playing(1, 7));
    // A new session may start on the same tick the previous one closed on.
    assert_eq!(s.start_playing(1, 7, 100), Ok(()));
    assert!(s.is_playing(1, 7));
    let history = s.query_game_activity(1);
    assert_eq!(history.len(), 2);
    assert_eq!(history[0].duration, None);
    assert_eq!(history[1].duration, Some(0));
}

#[test]
fn sessions_are_tracked_per_pair() {
    let mut s = State::new();
    assert_eq!(s.start_playing(1, 7, 100), Ok(()));
    assert_eq!(s.start_playing(1, 8, 101), Ok(()));
    assert_eq!(s.stop_playing(1, 7, 102), Ok(()));
    assert!(!s.is_playing(1, 7));
    assert!(s.is_playing(1, 8));
}
