use words_with_fam::engine::bag::TileBag;
use rand::SeedableRng;
use rand::rngs::StdRng;
use words_with_fam::engine::board::Placement;
use words_with_fam::engine::dictionary::Dictionary;
use words_with_fam::engine::game::{GameEngine, GameError};
use words_with_fam::engine::validation::MoveError;

fn engine() -> (GameEngine, StdRng) {
    let mut rng = StdRng::seed_from_u64(42);
    let players = vec![
        ("a".to_string(), "Alice".to_string()),
        ("b".to_string(), "Bob".to_string()),
    ];
    (GameEngine::new(&players, &mut rng).unwrap(), rng)
}

#[test]
fn new_game_deals_racks() {
    let (g, _) = engine();
    assert_eq!(g.players.len(), 2);
    assert_eq!(g.players[0].rack.len(), 7);
    assert_eq!(g.players[1].rack.len(), 7);
    assert_eq!(g.bag.remaining(), 104 - 14);
    assert_eq!(g.current_turn, 0);
}

#[test]
fn needs_two_players() {
    let mut rng = StdRng::seed_from_u64(1);
    let one = vec![("a".to_string(), "A".to_string())];
    assert_eq!(
        GameEngine::new(&one, &mut rng).unwrap_err(),
        GameError::NotEnoughPlayers
    );
}

#[test]
fn cannot_play_out_of_turn() {
    let (mut g, mut rng) = engine();
    let dict = Dictionary::from_words(&["CAT"]);
    let placements = vec![Placement {
        row: 7,
        col: 7,
        letter: 'C',
        is_blank: false,
    }];
    let err = g.apply_play("b", &placements, &dict, &mut rng).unwrap_err();
    assert_eq!(err, GameError::NotYourTurn);
}

#[test]
fn missing_tiles_rejected() {
    let (mut g, mut rng) = engine();
    g.players[0].rack = vec!['C', 'A', 'T', 'X', 'Y', 'Z', 'Q'];
    let dict = Dictionary::from_words(&["DOG", "DO"]);
    let placements = vec![
        Placement { row: 7, col: 7, letter: 'D', is_blank: false },
        Placement { row: 7, col: 8, letter: 'O', is_blank: false },
    ];
    assert_eq!(
        g.apply_play("a", &placements, &dict, &mut rng).unwrap_err(),
        GameError::MissingTiles
    );
}

#[test]
fn full_play_scores_and_advances() {
    let (mut g, mut rng) = engine();
    g.players[0].rack = vec!['C', 'A', 'T', 'E', 'R', 'S', 'O'];
    let dict = Dictionary::from_words(&["CAT", "CATS"]);
    let placements = vec![
        Placement { row: 7, col: 7, letter: 'C', is_blank: false },
        Placement { row: 7, col: 8, letter: 'A', is_blank: false },
        Placement { row: 7, col: 9, letter: 'T', is_blank: false },
    ];
    let outcome = g.apply_play("a", &placements, &dict, &mut rng).unwrap();
    assert!(outcome.score > 0);
    assert_eq!(outcome.words[0].text, "CAT");
    assert_eq!(g.players[0].rack.len(), 7);
    assert_eq!(g.current_turn, 1);
    assert!(!g.board.is_empty());
}

#[test]
fn pass_advances_and_streak_ends_game() {
    let (mut g, _) = engine();
    g.apply_pass("a").unwrap();
    assert_eq!(g.current_turn, 1);
    g.apply_pass("b").unwrap();
    g.apply_pass("a").unwrap();
    assert!(!g.finished);
    g.apply_pass("b").unwrap();
    assert!(g.finished);
}

#[test]
fn resign_ends_two_player_game() {
    let (mut g, _) = engine();
    g.apply_resign("a").unwrap();
    assert!(g.finished);
    assert_eq!(g.winner_id.as_deref(), Some("b"));
}

#[test]
fn play_errors_leave_the_game_unchanged() {
    let (mut g, mut rng) = engine();
    g.players[0].rack = vec!['Z', 'Z', 'A', 'B', 'C', 'D', 'E'];
    let dict = Dictionary::from_words(&["CAT"]);
    let placements = vec![
        Placement { row: 7, col: 7, letter: 'z', is_blank: false },
        Placement { row: 7, col: 8, letter: 'z', is_blank: false },
    ];
    let err = g.apply_play("a", &placements, &dict, &mut rng).unwrap_err();
    assert_eq!(err, GameError::Move(MoveError::InvalidWord("ZZ".to_string())));
    assert_eq!(g.players[0].rack.len(), 7);
    assert!(g.board.is_empty());
    assert_eq!(g.current_turn, 0);
    assert_eq!(g.move_count, 0);
    assert_eq!(
        g.apply_play("nobody", &placements, &dict, &mut rng).unwrap_err(),
        GameError::UnknownPlayer
    );
}

#[test]
fn blank_play_uses_the_blank_tile_and_scores_zero_for_it() {
    let (mut g, mut rng) = engine();
    g.players[0].rack = vec!['_', 'A', 'T', 'E', 'R', 'S', 'O'];
    let dict = Dictionary::from_words(&["CAT"]);
    let placements = vec![
        Placement { row: 7, col: 7, letter: 'C', is_blank: true },
        Placement { row: 7, col: 8, letter: 'A', is_blank: false },
        Placement { row: 7, col: 9, letter: 'T', is_blank: false },
    ];
    let outcome = g.apply_play("a", &placements, &dict, &mut rng).unwrap();
    assert_eq!(outcome.score, 2);
    assert_eq!(g.players[0].score, 2);
    assert!(g.board.get(7, 7).unwrap().is_blank);
    assert!(!g.players[0].rack.contains(&'_') || g.players[0].rack.len() == 7);
    assert_eq!(g.bag.remaining(), 104 - 14 - 3);
    assert_eq!(g.move_count, 1);
}

#[test]
fn swap_refreshes_rack_and_keeps_the_bag_size() {
    let (mut g, mut rng) = engine();
    g.players[0].rack = vec!['Q', 'Q', 'A', 'B', 'C', 'D', 'E'];
    let before = g.bag.remaining();
    g.apply_swap("a", &['q', 'q'], &mut rng).unwrap();
    assert_eq!(g.players[0].rack.len(), 7);
    assert_eq!(&g.players[0].rack[0..5], &['A', 'B', 'C', 'D', 'E']);
    assert_eq!(g.bag.remaining(), before);
    assert_eq!(g.bag.tiles.iter().filter(|&&c| c == 'Q').count() >= 2, true);
    assert_eq!(g.current_turn, 1);
    assert_eq!(g.pass_streak, 1);
    assert_eq!(
        g.apply_swap("b", &['#'], &mut rng).unwrap_err(),
        GameError::MissingTiles
    );
}

#[test]
fn swap_needs_enough_tiles_in_the_bag() {
    let (mut g, mut rng) = engine();
    let _ = g.bag.draw(1000);
    let tile = g.players[0].rack[0];
    assert_eq!(
        g.apply_swap("a", &[tile], &mut rng).unwrap_err(),
        GameError::CannotSwap
    );
}

#[test]
fn finished_game_refuses_moves() {
    let (mut g, mut rng) = engine();
    g.apply_resign("b").unwrap();
    assert!(g.finished);
    assert_eq!(g.winner_id.as_deref(), Some("a"));
    assert_eq!(g.apply_pass("a").unwrap_err(), GameError::GameFinished);
    assert_eq!(g.apply_resign("a").unwrap_err(), GameError::GameFinished);
    assert_eq!(
        g.apply_swap("a", &[], &mut rng).unwrap_err(),
        GameError::GameFinished
    );
}

#[test]
fn resign_out_of_turn_keeps_current_turn_and_skips_resigned() {
    let mut rng = StdRng::seed_from_u64(5);
    let players = vec![
        ("a".to_string(), "A".to_string()),
        ("b".to_string(), "B".to_string()),
        ("c".to_string(), "C".to_string()),
    ];
    let mut g = GameEngine::new(&players, &mut rng).unwrap();
    g.apply_resign("b").unwrap();
    assert!(!g.finished);
    assert_eq!(g.current_turn, 0);
    g.apply_pass("a").unwrap();
    assert_eq!(g.current_turn, 2);
    assert_eq!(g.current_player_id(), "c");
}

#[test]
fn going_out_with_an_empty_bag_ends_the_game() {
    let (mut g, mut rng) = engine();
    let _ = g.bag.draw(1000);
    g.players[0].rack = vec!['A', 'T'];
    g.players[1].rack = vec!['Q'];
    let dict = Dictionary::from_words(&["AT"]);
    let placements = vec![
        Placement { row: 7, col: 7, letter: 'A', is_blank: false },
        Placement { row: 7, col: 8, letter: 'T', is_blank: false },
    ];
    let outcome = g.apply_play("a", &placements, &dict, &mut rng).unwrap();
    assert!(outcome.game_over);
    assert!(g.finished);
    // AT = 2, plus Bob's Q (10).
    assert_eq!(g.players[0].score, 12);
    assert_eq!(g.players[1].score, -10);
    assert_eq!(g.winner_id.as_deref(), Some("a"));
}

#[test]
fn winner_is_the_top_scorer_still_in_the_game() {
    let mut rng = StdRng::seed_from_u64(9);
    let players = vec![
        ("a".to_string(), "A".to_string()),
        ("b".to_string(), "B".to_string()),
        ("c".to_string(), "C".to_string()),
    ];
    let mut g = GameEngine::new(&players, &mut rng).unwrap();
    g.players[0].score = 100;
    g.players[1].score = 50;
    g.players[2].score = 60;
    g.apply_resign("a").unwrap();
    assert!(!g.finished);
    assert_eq!(g.current_player_id(), "b");
    g.apply_resign("b").unwrap();
    assert!(g.finished);
    assert_eq!(g.winner_id.as_deref(), Some("c"));
}

#[test]
fn error_messages_read_as_shown_to_players() {
    assert_eq!(GameError::NotYourTurn.message(), "it is not your turn");
    assert_eq!(GameError::CannotSwap.message(), "not enough tiles in the bag to swap");
    assert_eq!(
        GameError::Move(MoveError::InvalidWord("ZZZ".to_string())).message(),
        "'ZZZ' is not a valid word"
    );
    assert_eq!(GameError::Move(MoveError::HasGaps).message(), "the placed tiles leave a gap");
}

fn cat_play() -> Vec<Placement> {
    vec![
        Placement { row: 7, col: 6, letter: 'C', is_blank: false },
        Placement { row: 7, col: 7, letter: 'A', is_blank: false },
        Placement { row: 7, col: 8, letter: 'T', is_blank: false },
    ]
}

#[test]
fn range_checks_pass_for_ordinary_moves() {
    let (mut g, _) = engine();
    let dict = Dictionary::from_words(&["CAT"]);
    g.players[0].rack = vec!['C', 'A', 'T', 'X', 'Y', 'Z', 'Q'];
    assert!(g.can_play("a", &cat_play(), &dict));
    assert!(g.can_pass("a"));
    assert!(g.can_swap("a", &['c']));
    assert!(g.can_resign("a"));
}

#[test]
fn range_checks_catch_overflowing_moves() {
    let (mut g, _) = engine();
    let dict = Dictionary::from_words(&["CAT"]);
    g.players[0].rack = vec!['C', 'A', 'T', 'X', 'Y', 'Z', 'Q'];
    g.players[0].score = i32::MAX;
    assert!(!g.can_play("a", &cat_play(), &dict));
    // A move that would be refused anyway is not held back by the range check.
    assert!(g.can_play("b", &cat_play(), &dict));
    g.move_count = u32::MAX;
    assert!(!g.can_pass("a"));
    assert!(!g.can_swap("a", &['C']));
}

#[test]
fn resign_check_sees_an_end_score_that_would_underflow() {
    let (mut g, _) = engine();
    g.players[1].score = i32::MIN;
    g.players[1].rack = vec!['Q'];
    assert!(!g.can_resign("a"));
    g.players[1].score = 0;
    assert!(g.can_resign("a"));
}

#[test]
fn deal_takes_racks_off_the_top_in_turn() {
    let players = vec![
        ("a".to_string(), "Alice".to_string()),
        ("b".to_string(), "Bob".to_string()),
    ];
    let (dealt, rest) = GameEngine::deal(TileBag::full(), &players);
    assert_eq!(dealt.len(), 2);
    assert_eq!(dealt[0].rack, vec!['W', 'X', 'Y', 'Y', 'Z', '_', '_']);
    assert_eq!(dealt[1].rack, vec!['U', 'U', 'U', 'U', 'V', 'V', 'W']);
    assert_eq!(dealt[1].name, "Bob");
    assert_eq!(dealt[0].score, 0);
    assert_eq!(rest.remaining(), 90);
    let full = TileBag::full();
    assert_eq!(rest.tiles[..], full.tiles[..90]);
}
