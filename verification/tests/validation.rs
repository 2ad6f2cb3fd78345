use words_with_fam::engine::board::{Board, PlacedTile, Placement};
use words_with_fam::engine::dictionary::Dictionary;
use words_with_fam::engine::validation::{
    Axis, MoveError, collect_formed_words, validate_geometry, validate_play,
};

fn p(row: usize, col: usize, letter: char) -> Placement {
    Placement {
        row,
        col,
        letter,
        is_blank: false,
    }
}

fn dict() -> Dictionary {
    Dictionary::from_words(&["CAT", "CATS", "AT", "AS", "TO", "CATSUP"])
}

fn cat_board() -> Board {
    let mut board = Board::empty();
    for (c, ch) in [(6, 'C'), (7, 'A'), (8, 'T')] {
        board.place(
            7,
            c,
            PlacedTile {
                letter: ch,
                is_blank: false,
            },
        );
    }
    board
}

#[test]
fn first_move_must_cover_center() {
    let board = Board::empty();
    let placements = vec![p(0, 0, 'C'), p(0, 1, 'A'), p(0, 2, 'T')];
    assert_eq!(
        validate_geometry(&board, &placements),
        Err(MoveError::FirstMoveMissesCenter)
    );
}

#[test]
fn first_move_on_center_is_valid() {
    let board = Board::empty();
    let placements = vec![p(7, 6, 'C'), p(7, 7, 'A'), p(7, 8, 'T')];
    let words = validate_play(&board, &placements, &dict()).unwrap();
    assert_eq!(words.len(), 1);
    assert_eq!(words[0].text, "CAT");
}

#[test]
fn gaps_rejected() {
    let board = Board::empty();
    let placements = vec![p(7, 6, 'C'), p(7, 8, 'T')];
    assert_eq!(
        validate_geometry(&board, &placements),
        Err(MoveError::HasGaps)
    );
}

#[test]
fn not_in_line_rejected() {
    let board = Board::empty();
    let placements = vec![p(7, 7, 'C'), p(8, 8, 'A')];
    assert_eq!(
        validate_geometry(&board, &placements),
        Err(MoveError::NotInLine)
    );
}

#[test]
fn second_move_must_connect() {
    let board = cat_board();
    let placements = vec![p(0, 0, 'A'), p(0, 1, 'T')];
    assert_eq!(
        validate_geometry(&board, &placements),
        Err(MoveError::Disconnected)
    );
}

#[test]
fn cross_word_collected_and_validated() {
    let board = cat_board();
    let placements = vec![p(8, 7, 'S')];
    let words = validate_play(&board, &placements, &dict()).unwrap();
    assert!(words.iter().any(|w| w.text == "AS"));
}

#[test]
fn invalid_word_rejected() {
    let board = Board::empty();
    let placements = vec![p(7, 7, 'Z'), p(7, 8, 'Z')];
    assert_eq!(
        validate_play(&board, &placements, &dict()),
        Err(MoveError::InvalidWord("ZZ".to_string()))
    );
}

#[test]
fn extending_existing_word() {
    let board = cat_board();
    let placements = vec![p(7, 9, 'S')];
    let words = validate_play(&board, &placements, &dict()).unwrap();
    assert!(words.iter().any(|w| w.text == "CATS"));
}

#[test]
fn each_cell_error_is_reported() {
    let board = cat_board();
    assert_eq!(validate_geometry(&board, &[]), Err(MoveError::EmptyPlacement));
    assert_eq!(
        validate_geometry(&board, &[p(15, 0, 'A')]),
        Err(MoveError::OffBoard)
    );
    assert_eq!(
        validate_geometry(&board, &[p(6, 6, 'A'), p(6, 6, 'T')]),
        Err(MoveError::DuplicateCell)
    );
    assert_eq!(
        validate_geometry(&board, &[p(7, 7, 'A')]),
        Err(MoveError::OverlapsExisting)
    );
}

#[test]
fn single_tile_axis_follows_neighbours() {
    let board = cat_board();
    assert_eq!(validate_geometry(&board, &[p(7, 9, 'S')]), Ok(Axis::Horizontal));
    assert_eq!(validate_geometry(&board, &[p(8, 7, 'S')]), Ok(Axis::Vertical));
}

#[test]
fn single_letter_forms_no_word() {
    let board = Board::empty();
    assert_eq!(
        validate_play(&board, &[p(7, 7, 'A')], &dict()),
        Err(MoveError::NoWordFormed)
    );
}

#[test]
fn formed_words_record_new_tiles_and_lowercase_is_upcased() {
    let board = cat_board();
    let placements = vec![p(8, 6, 'a'), p(8, 7, 's')];
    let words = collect_formed_words(&board, &placements, Axis::Horizontal);
    let texts: Vec<&str> = words.iter().map(|w| w.text.as_str()).collect();
    assert_eq!(texts, vec!["AS", "CA", "AS"]);
    assert!(words[0].cells.iter().all(|c| c.is_new));
    assert!(!words[1].cells[0].is_new);
    assert!(words[1].cells[1].is_new);
}
