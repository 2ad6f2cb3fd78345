use rand::SeedableRng;
use rand::rngs::StdRng;
use words_with_fam::engine::board::PlacedTile;
use words_with_fam::engine::game::GameEngine;
use words_with_fam::store::GameRecord;
use words_with_fam::view::{build_summary, build_view, colors_from, status_str};

fn s(x: &str) -> String {
    x.to_string()
}

fn record() -> GameRecord {
    GameRecord {
        id: s("g1"),
        name: s("Sunday"),
        status: s("active"),
        state: s("{}"),
        player_ids: vec![s("a"), s("b")],
        current_player_id: s("a"),
        winner_id: None,
        created_by: s("a"),
        created_at: s("2024-01-01T00:00:00Z"),
        updated_at: s("2024-01-02T00:00:00Z"),
    }
}

fn engine() -> GameEngine {
    let mut rng = StdRng::seed_from_u64(7);
    let players = vec![(s("a"), s("Alice")), (s("b"), s("Bob"))];
    GameEngine::new(&players, &mut rng).unwrap()
}

#[test]
fn later_color_pair_wins() {
    let m = colors_from(&[(s("a"), s("#111")), (s("b"), s("#222")), (s("a"), s("#333"))]);
    let g = engine();
    let v = build_view(&record(), &g, &m, None);
    assert_eq!(v.players[0].color, "#333");
    assert_eq!(v.players[1].color, "#222");
}

#[test]
fn view_shows_the_viewers_rack_only() {
    let mut g = engine();
    g.board.place(7, 7, PlacedTile { letter: 'Q', is_blank: false });
    let colors = colors_from(&[(s("a"), s("#111"))]);
    let v = build_view(&record(), &g, &colors, Some("b"));
    assert_eq!(v.id, "g1");
    assert_eq!(v.name, "Sunday");
    assert_eq!(v.status, "active");
    assert_eq!(v.your_rack, g.players[1].rack);
    assert_eq!(v.your_player_id, Some(s("b")));
    assert_eq!(v.current_player_id, "a");
    assert_eq!(v.bag_remaining, 90);
    assert_eq!(v.players.len(), 2);
    assert_eq!(v.players[0].name, "Alice");
    assert_eq!(v.players[0].color, "#111");
    assert_eq!(v.players[1].color, "#34D399");
    assert_eq!(v.players[1].rack_count, 7);
    assert!(!v.players[1].resigned);
    assert_eq!(v.board.len(), 15);
    assert!(v.board.iter().all(|row| row.len() == 15));
    assert_eq!(v.board[7][7], Some(PlacedTile { letter: 'Q', is_blank: false }));
    assert_eq!(v.board[0][0], None);
    let stranger = build_view(&record(), &g, &colors, Some("zed"));
    assert!(stranger.your_rack.is_empty());
    let anonymous = build_view(&record(), &g, &colors, None);
    assert!(anonymous.your_rack.is_empty());
    assert_eq!(anonymous.your_player_id, None);
}

#[test]
fn summary_names_the_current_player() {
    let mut g = engine();
    g.current_turn = 1;
    let sum = build_summary(&record(), &g, &colors_from(&[]));
    assert_eq!(sum.current_player_id, "b");
    assert_eq!(sum.current_player_name, "Bob");
    assert_eq!(sum.updated_at, "2024-01-02T00:00:00Z");
    assert_eq!(sum.status, "active");
    assert_eq!(sum.winner_id, None);
}

#[test]
fn status_follows_finished_flag() {
    let mut g = engine();
    assert_eq!(status_str(&g), "active");
    g.finished = true;
    assert_eq!(status_str(&g), "finished");
}
