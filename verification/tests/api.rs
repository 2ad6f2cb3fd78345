use words_with_fam::api::{
    ActiveField, GameTally, RosterEntry, Standing, WordPlay, bearer_token, display_name,
    game_name, game_players, leaderboard, roster_active, roster_color, roster_entry, seat_names,
    standing_label, user_from_header,
};

fn s(x: &str) -> String {
    x.to_string()
}

#[test]
fn bearer_token_is_trimmed_after_prefix() {
    assert_eq!(bearer_token("Bearer abc123  "), Some(s("abc123")));
    assert_eq!(bearer_token("Bearer    tok"), Some(s("tok")));
    assert_eq!(bearer_token("Bearer "), Some(s("")));
}

#[test]
fn bearer_token_needs_the_prefix() {
    assert_eq!(bearer_token("Basic abc"), None);
    assert_eq!(bearer_token("bearer abc"), None);
    assert_eq!(bearer_token("Bearer"), None);
    assert_eq!(bearer_token(""), None);
}

#[test]
fn user_header_must_be_present_and_non_empty() {
    assert_eq!(user_from_header(Some("u1")), Some(s("u1")));
    assert_eq!(user_from_header(Some("")), None);
    assert_eq!(user_from_header(None), None);
}

#[test]
fn creator_goes_first_and_opponents_are_deduplicated() {
    let opps = vec![s("b"), s("a"), s("b"), s("c")];
    assert_eq!(game_players("a", &opps), Some(vec![s("a"), s("b"), s("c")]));
}

#[test]
fn a_game_needs_an_opponent() {
    assert_eq!(game_players("a", &[]), None);
    assert_eq!(game_players("a", &[s("a"), s("a")]), None);
}

#[test]
fn game_name_is_trimmed_or_defaulted() {
    assert_eq!(game_name("  Sunday Match "), "Sunday Match");
    assert_eq!(game_name("   "), "Family Game");
    assert_eq!(game_name(""), "Family Game");
}

#[test]
fn display_name_falls_back_when_missing_or_empty() {
    assert_eq!(display_name(Some("Mom"), "u1"), "Mom");
    assert_eq!(display_name(Some(""), "u1"), "u1");
    assert_eq!(display_name(None, "u1"), "u1");
}

#[test]
fn roster_color_defaults_when_empty() {
    assert_eq!(roster_color(""), "#34D399");
    assert_eq!(roster_color("#FF0000"), "#FF0000");
}

#[test]
fn roster_activity_flags() {
    assert!(roster_active(&ActiveField::Flag(true)));
    assert!(!roster_active(&ActiveField::Flag(false)));
    assert!(roster_active(&ActiveField::Number(Some(1))));
    assert!(!roster_active(&ActiveField::Number(Some(0))));
    assert!(!roster_active(&ActiveField::Number(None)));
    assert!(roster_active(&ActiveField::Unset));
}

#[test]
fn standing_label_uses_roster_or_id() {
    assert_eq!(standing_label(Some(("Dad", "#123456")), "u2"), (s("Dad"), s("#123456")));
    assert_eq!(standing_label(Some(("", "")), "u2"), (s(""), s("#34D399")));
    assert_eq!(standing_label(None, "u2"), (s("u2"), s("#34D399")));
}

fn game(players: &[(&str, i32)], winner: Option<&str>) -> GameTally {
    GameTally {
        players: players.iter().map(|(id, p)| (s(id), *p)).collect(),
        winner_id: winner.map(s),
    }
}

fn word(player: &str, text: &str, points: i32) -> WordPlay {
    WordPlay { player_id: s(player), text: s(text), points }
}

fn line(rows: &[Standing], id: &str) -> (u32, u32, i64, String, i32) {
    let r = rows.iter().find(|r| r.player_id == id).unwrap();
    (r.games_played, r.games_won, r.total_points, r.best_word.clone(), r.best_word_score)
}

#[test]
fn leaderboard_tallies_and_ranks_players() {
    let games = vec![
        game(&[("a", 100), ("b", 80)], Some("a")),
        game(&[("a", 50), ("b", 120)], Some("b")),
        game(&[("a", 90), ("c", 10)], Some("a")),
    ];
    let words = vec![
        word("a", "QUIZ", 30),
        word("b", "JAZZ", 40),
        word("a", "FOX", 30),
        word("c", "HI", 0),
    ];
    let rows = leaderboard(&games, &words);
    assert_eq!(rows.len(), 3);
    let order: Vec<&str> = rows.iter().map(|r| r.player_id.as_str()).collect();
    assert_eq!(order, vec!["a", "b", "c"]);
    assert_eq!(line(&rows, "a"), (3, 2, 240, s("QUIZ"), 30));
    assert_eq!(line(&rows, "b"), (2, 1, 200, s("JAZZ"), 40));
    assert_eq!(line(&rows, "c"), (1, 0, 10, s(""), 0));
}

#[test]
fn leaderboard_breaks_win_ties_by_points() {
    let games = vec![
        game(&[("a", 10), ("b", 300)], Some("b")),
        game(&[("a", 200), ("b", 100)], Some("a")),
    ];
    let rows = leaderboard(&games, &[]);
    assert_eq!(rows[0].player_id, "b");
    assert_eq!(rows[1].player_id, "a");
    assert_eq!(rows[0].total_points, 400);
    assert_eq!(rows[1].total_points, 210);
}

#[test]
fn leaderboard_lists_word_only_players_and_nothing_for_no_games() {
    assert!(leaderboard(&[], &[]).is_empty());
    let rows = leaderboard(&[], &[word("d", "ZAP", 14), word("d", "ZIP", -3)]);
    assert_eq!(rows.len(), 1);
    assert_eq!(line(&rows, "d"), (0, 0, 0, s("ZAP"), 14));
}

#[test]
fn game_without_winner_counts_no_win() {
    let rows = leaderboard(&[game(&[("a", 5), ("b", 5)], None)], &[]);
    assert_eq!(line(&rows, "a"), (1, 0, 5, s(""), 0));
    assert_eq!(line(&rows, "b"), (1, 0, 5, s(""), 0));
}

fn member(id: &str, name: &str, color: &str) -> RosterEntry {
    RosterEntry { id: s(id), name: s(name), color: s(color) }
}

#[test]
fn later_roster_entry_for_an_id_counts() {
    let roster = vec![member("a", "Ann", "#1"), member("b", "Ben", ""), member("a", "Annie", "#2")];
    assert_eq!(roster_entry(&roster, "a"), Some(2));
    assert_eq!(roster_entry(&roster, "b"), Some(1));
    assert_eq!(roster_entry(&roster, "z"), None);
    assert_eq!(roster_entry(&[], "a"), None);
}

#[test]
fn seats_are_named_from_the_roster_or_by_id() {
    let roster = vec![member("a", "Ann", "#1"), member("b", "", "")];
    let pairs = seat_names(&[s("a"), s("b"), s("c")], &roster);
    assert_eq!(pairs, vec![(s("a"), s("Ann")), (s("b"), s("b")), (s("c"), s("c"))]);
}
