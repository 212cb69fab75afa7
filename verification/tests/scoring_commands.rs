//! Scoring, aggregation, ranking order, command parsing and rendering.

use genkai_point::bot::GenkaiPointBot;
use genkai_point::commands::{
    help_text, parse_message, render_notification, render_ranking, render_summary, Command,
};
use genkai_point::db::{GenkaiError, GenkaiPointDatabase, MemoryStore};
use genkai_point::model::{aggregate, FullHourScoring, Scoring, Session, UserStat};

fn store() -> MemoryStore<FullHourScoring> {
    MemoryStore::new(FullHourScoring)
}

#[test]
fn zero_duration_session_earns_zero_points() {
    assert_eq!(FullHourScoring::point(1234, 1234), 0);
    let s = Session { user_id: 1, joined_at: 1234, left_at: Some(1234) };
    assert_eq!(s.calc_point::<FullHourScoring>(), 0);
}

#[test]
fn full_hours_earn_points() {
    assert_eq!(FullHourScoring::point(0, 3599), 0);
    assert_eq!(FullHourScoring::point(0, 3600), 1);
    assert_eq!(FullHourScoring::point(500, 7700), 2);
}

#[test]
fn aggregate_of_nothing_is_the_additive_identity() {
    assert_eq!(aggregate::<FullHourScoring>(&vec![]), (0, 0));
}

#[test]
fn aggregate_sums_points_and_durations() {
    let sessions = vec![
        Session { user_id: 1, joined_at: 0, left_at: Some(3600) },
        Session { user_id: 1, joined_at: 5000, left_at: Some(12500) },
    ];
    assert_eq!(aggregate::<FullHourScoring>(&sessions), (3, 11100));
}

fn seeded_store() -> MemoryStore<FullHourScoring> {
    let mut db = store();
    // user 1: 2 points, 7400 s; user 2: 3 points, 11000 s; user 3: 2
    // points, 7200 s.
    db.create_new_session(1, 0).unwrap();
    db.close_session(1, 7400).unwrap();
    db.create_new_session(2, 0).unwrap();
    db.close_session(2, 11000).unwrap();
    db.create_new_session(3, 0).unwrap();
    db.close_session(3, 7200).unwrap();
    db
}

#[test]
fn ranking_by_point_puts_the_maximum_first() {
    let bot = GenkaiPointBot::new();
    let db = seeded_store();
    let page = bot.ranking(&db, false).unwrap();
    assert_eq!(page.len(), 3);
    assert_eq!(page[0].user_id, 2);
    // Equal keys fall back to the user id, higher first.
    assert_eq!(page[1].user_id, 3);
    assert_eq!(page[2].user_id, 1);
}

#[test]
fn ranking_by_duration_orders_by_voice_time() {
    let bot = GenkaiPointBot::new();
    let db = seeded_store();
    let page = bot.ranking(&db, true).unwrap();
    let ids: Vec<u64> = page.iter().map(|s| s.user_id).collect();
    assert_eq!(ids, vec![2, 1, 3]);
}

#[test]
fn ranking_is_deterministic_across_calls() {
    let bot = GenkaiPointBot::new();
    let db = seeded_store();
    let a = bot.ranking(&db, false).unwrap();
    let b = bot.ranking(&db, false).unwrap();
    assert_eq!(a, b);
}

#[test]
fn ranking_page_is_cut_to_twenty() {
    let bot = GenkaiPointBot::new();
    let mut db = store();
    for uid in 0..25u64 {
        db.create_new_session(uid, 0).unwrap();
        db.close_session(uid, 3600 * (uid + 1)).unwrap();
    }
    let page = bot.ranking(&db, false).unwrap();
    assert_eq!(page.len(), 20);
    assert_eq!(page[0].user_id, 24);
    assert_eq!(page[19].user_id, 5);
}

#[test]
fn user_summary_reports_points_and_duration() {
    let bot = GenkaiPointBot::new();
    let db = seeded_store();
    assert_eq!(bot.user_summary(&db, 1).unwrap(), (2, 7400));
    assert_eq!(bot.user_summary(&db, 99).unwrap(), (0, 0));
}

#[test]
fn short_session_shows_zero_points_and_its_minutes() {
    // A ten-minute session with a scoring policy that gives nothing for
    // short sessions: no notification, and the summary shows 0 points and
    // about ten minutes.
    let bot = GenkaiPointBot::new();
    let mut db = store();
    let t = 50_000u64;
    bot.on_vc_join(&mut db, 8, t).unwrap();
    let n = bot.on_vc_leave(&mut db, 8, t + 600).unwrap();
    assert!(n.is_none());
    let (points, duration) = bot.user_summary(&db, 8).unwrap();
    assert_eq!(points, 0);
    assert_eq!(duration, 600);
    let text = render_summary("somebody", points, duration);
    assert_eq!(
        text,
        "```\nsomebody\n  - points: 0\n  - total vc duration: 0.17 h \n```"
    );
}

#[test]
fn parse_recognizes_the_command_table() {
    let parse = |s: &str| parse_message(&s.as_bytes().to_vec());
    assert_eq!(parse("g!point ranking duration"), Command::RankingByDuration);
    assert_eq!(parse("g!point ranking point"), Command::RankingByPoint);
    assert_eq!(parse("g!point ranking"), Command::RankingByPoint);
    assert_eq!(parse("g!point show"), Command::Show);
    assert_eq!(parse("g!point show me everything"), Command::Show);
    assert_eq!(parse("g!point 限界ポイント"), Command::Show);
    assert_eq!(parse("g!point help"), Command::Help);
    assert_eq!(parse("g!point ranking nonsense"), Command::Help);
    assert_eq!(parse("g!point ranking point extra"), Command::Help);
    assert_eq!(parse("g!point"), Command::Help);
    assert_eq!(parse("hello there"), Command::NotForMe);
    assert_eq!(parse(""), Command::NotForMe);
    assert_eq!(parse("g!points"), Command::NotForMe);
}

#[test]
fn parse_splits_on_any_ascii_whitespace() {
    let parse = |s: &str| parse_message(&s.as_bytes().to_vec());
    assert_eq!(parse("  g!point\t ranking \n duration "), Command::RankingByDuration);
    assert_eq!(parse("\n\ng!point\tshow\n"), Command::Show);
}

#[test]
fn render_ranking_formats_the_block() {
    let entries = vec![
        UserStat { user_id: 2, genkai_point: 10, total_vc_duration: 36000 },
        UserStat { user_id: 1, genkai_point: 5, total_vc_duration: 1800 },
    ];
    let names = vec![Some("alice".to_string()), Some("bob".to_string())];
    let text = render_ranking("sorted by genkai point", &entries, &names).unwrap();
    assert_eq!(
        text,
        "```\nsorted by genkai point\n#01   10pt. 10.00h alice\n#02    5pt. 0.50h bob\n```"
    );
}

#[test]
fn render_ranking_fails_closed_on_a_missing_name() {
    let entries = vec![
        UserStat { user_id: 2, genkai_point: 10, total_vc_duration: 36000 },
        UserStat { user_id: 1, genkai_point: 5, total_vc_duration: 1800 },
    ];
    let names = vec![Some("alice".to_string()), None];
    assert_eq!(
        render_ranking("sorted by genkai point", &entries, &names),
        Err(GenkaiError::Lookup)
    );
}

#[test]
fn render_notification_mentions_total_and_delta() {
    let bot = GenkaiPointBot::new();
    let mut db = store();
    bot.on_vc_join(&mut db, 4, 0).unwrap();
    let n = bot.on_vc_leave(&mut db, 4, 7200).unwrap().unwrap();
    assert_eq!(render_notification(&n), "now <@!4> has 2 genkai point (+2)");
}

#[test]
fn help_text_lists_the_subcommands() {
    let help = help_text();
    assert!(help.starts_with("```asciidoc"));
    assert!(help.contains("g!point [subcommand] [args...]"));
    assert!(help.contains("ranking [duration or point]"));
    assert!(help.ends_with("```"));
}
