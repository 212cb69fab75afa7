//! The session store and the lifecycle coordinator: the one-open-session
//! invariant, idempotent creation, closing, and reconciliation.

use genkai_point::bot::GenkaiPointBot;
use genkai_point::db::{GenkaiError, GenkaiPointDatabase, MemoryStore};
use genkai_point::model::{FullHourScoring, Session};

fn store() -> MemoryStore<FullHourScoring> {
    MemoryStore::new(FullHourScoring)
}

#[test]
fn create_is_idempotent() {
    let mut db = store();
    assert_eq!(db.create_new_session(1, 100).unwrap(), true);
    assert_eq!(db.create_new_session(1, 200).unwrap(), false);
    // Only one record exists: closing once closes it, a second close errors.
    db.close_session(1, 300).unwrap();
    assert_eq!(db.close_session(1, 400), Err(GenkaiError::NoOpenSession));
    let sessions = db.get_users_all_sessions(1).unwrap();
    assert_eq!(sessions.len(), 1);
    assert_eq!(
        sessions[0],
        Session { user_id: 1, joined_at: 100, left_at: Some(300) }
    );
}

#[test]
fn at_most_one_open_session_per_user() {
    let mut db = store();
    db.create_new_session(7, 10).unwrap();
    db.create_new_session(7, 20).unwrap();
    db.create_new_session(7, 30).unwrap();
    let open = db.get_all_users_who_has_unclosed_session().unwrap();
    assert_eq!(open, vec![7]);
    db.close_session(7, 40).unwrap();
    assert!(db.get_all_users_who_has_unclosed_session().unwrap().is_empty());
}

#[test]
fn unclosed_session_exists_tracks_state() {
    let mut db = store();
    assert!(!db.unclosed_session_exists(5).unwrap());
    db.create_new_session(5, 0).unwrap();
    assert!(db.unclosed_session_exists(5).unwrap());
    db.close_session(5, 60).unwrap();
    assert!(!db.unclosed_session_exists(5).unwrap());
}

#[test]
fn close_without_open_session_is_an_error() {
    let mut db = store();
    assert_eq!(db.close_session(9, 10), Err(GenkaiError::NoOpenSession));
}

#[test]
fn close_never_ends_before_start() {
    let mut db = store();
    db.create_new_session(2, 1000).unwrap();
    // A clock that went backwards: the end is clamped to the start.
    db.close_session(2, 500).unwrap();
    let sessions = db.get_users_all_sessions(2).unwrap();
    assert_eq!(sessions[0].left_at, Some(1000));
}

#[test]
fn closed_sessions_only_are_returned() {
    let mut db = store();
    db.create_new_session(3, 0).unwrap();
    db.close_session(3, 100).unwrap();
    db.create_new_session(3, 200).unwrap();
    let sessions = db.get_users_all_sessions(3).unwrap();
    assert_eq!(sessions.len(), 1);
    assert_eq!(sessions[0].left_at, Some(100));
}

#[test]
fn join_then_leave_cycle() {
    let bot = GenkaiPointBot::new();
    let mut db = store();
    bot.on_vc_join(&mut db, 1, 100).unwrap();
    assert!(db.unclosed_session_exists(1).unwrap());
    // A second join is the designed no-op, not an error.
    bot.on_vc_join(&mut db, 1, 150).unwrap();
    let n = bot.on_vc_leave(&mut db, 1, 700).unwrap();
    assert!(n.is_none()); // 600 seconds earn no full hour
    assert!(!db.unclosed_session_exists(1).unwrap());
    assert_eq!(db.get_users_all_sessions(1).unwrap().len(), 1);
}

#[test]
fn leave_with_points_notifies_with_total_and_delta() {
    let bot = GenkaiPointBot::new();
    let mut db = store();
    // One earlier closed session worth 1 point.
    bot.on_vc_join(&mut db, 4, 0).unwrap();
    bot.on_vc_leave(&mut db, 4, 3600).unwrap();
    // A second session worth 2 points.
    bot.on_vc_join(&mut db, 4, 10000).unwrap();
    let n = bot.on_vc_leave(&mut db, 4, 17200).unwrap().unwrap();
    assert_eq!(n.user_id, 4);
    assert_eq!(n.delta, 2);
    assert_eq!(n.points, 3);
}

#[test]
fn leave_without_open_session_is_an_error() {
    let bot = GenkaiPointBot::new();
    let mut db = store();
    assert!(bot.on_vc_leave(&mut db, 1, 100).is_err());
}

#[test]
fn reconciliation_repairs_missed_events() {
    let bot = GenkaiPointBot::new();
    let mut db = store();
    // X and Y were open before the restart; Z too. The snapshot holds
    // {X, Y, W}: Z left during downtime, W joined during downtime.
    let (x, y, z, w) = (1u64, 2u64, 3u64, 4u64);
    db.create_new_session(x, 100).unwrap();
    db.create_new_session(y, 200).unwrap();
    db.create_new_session(z, 300).unwrap();
    let now = 5000u64;
    bot.on_vc_data_available(&mut db, &vec![x, y, w], now).unwrap();

    // X and Y each still have exactly one open session, untouched.
    let mut open = db.get_all_users_who_has_unclosed_session().unwrap();
    open.sort();
    assert_eq!(open, vec![x, y, w]);
    assert!(db.get_users_all_sessions(x).unwrap().is_empty());
    assert!(db.get_users_all_sessions(y).unwrap().is_empty());

    // Z's session was closed at (or after) reconciliation time.
    let z_sessions = db.get_users_all_sessions(z).unwrap();
    assert_eq!(z_sessions.len(), 1);
    assert!(z_sessions[0].left_at.unwrap() >= now);

    // W got exactly one fresh open session starting "now".
    assert!(db.unclosed_session_exists(w).unwrap());
    assert!(db.get_users_all_sessions(w).unwrap().is_empty());
}

#[test]
fn reconciliation_keeps_a_present_users_session_start() {
    let bot = GenkaiPointBot::new();
    let mut db = store();
    db.create_new_session(1, 100).unwrap();
    bot.on_vc_data_available(&mut db, &vec![1], 5000).unwrap();
    // The preserved open session still starts at its original join time.
    db.close_session(1, 8000).unwrap();
    assert_eq!(
        db.get_users_all_sessions(1).unwrap(),
        vec![Session { user_id: 1, joined_at: 100, left_at: Some(8000) }]
    );
}

#[test]
fn reconciliation_backfills_a_session_starting_now() {
    let bot = GenkaiPointBot::new();
    let mut db = store();
    bot.on_vc_data_available(&mut db, &vec![9], 4000).unwrap();
    db.close_session(9, 4100).unwrap();
    assert_eq!(
        db.get_users_all_sessions(9).unwrap(),
        vec![Session { user_id: 9, joined_at: 4000, left_at: Some(4100) }]
    );
}

#[test]
fn reconciliation_is_stable_when_repeated() {
    let bot = GenkaiPointBot::new();
    let mut db = store();
    bot.on_vc_data_available(&mut db, &vec![1, 2], 100).unwrap();
    bot.on_vc_data_available(&mut db, &vec![1, 2], 200).unwrap();
    let open = db.get_all_users_who_has_unclosed_session().unwrap();
    assert_eq!(open.len(), 2);
    assert!(db.get_users_all_sessions(1).unwrap().is_empty());
    assert!(db.get_users_all_sessions(2).unwrap().is_empty());
}

#[test]
fn stats_cover_every_user_with_closed_sessions() {
    let mut db = store();
    db.create_new_session(1, 0).unwrap();
    db.close_session(1, 7200).unwrap();
    db.create_new_session(2, 0).unwrap();
    db.close_session(2, 3600).unwrap();
    db.create_new_session(3, 0).unwrap(); // still open: no stat entry
    let mut stats = db.get_all_users_stats().unwrap();
    stats.sort_by_key(|s| s.user_id);
    assert_eq!(stats.len(), 2);
    assert_eq!(stats[0].user_id, 1);
    assert_eq!(stats[0].genkai_point, 2);
    assert_eq!(stats[0].total_vc_duration, 7200);
    assert_eq!(stats[1].user_id, 2);
    assert_eq!(stats[1].genkai_point, 1);
    assert_eq!(stats[1].total_vc_duration, 3600);
}
