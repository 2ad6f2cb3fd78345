use words_with_fam::engine::board::{Board, PlacedTile};

#[test]
fn empty_board_state() {
    let b = Board::empty();
    assert!(b.is_empty());
    assert!(b.get(7, 7).is_none());
    assert!(!b.is_occupied(0, 0));
}

#[test]
fn place_and_read() {
    let mut b = Board::empty();
    b.place(
        7,
        7,
        PlacedTile {
            letter: 'A',
            is_blank: false,
        },
    );
    assert!(!b.is_empty());
    assert_eq!(b.get(7, 7).unwrap().letter, 'A');
    assert!(b.is_occupied(7, 7));
}

#[test]
fn out_of_bounds_is_safe() {
    let b = Board::empty();
    assert!(!Board::in_bounds(15, 0));
    assert!(b.get(99, 99).is_none());
}

#[test]
fn place_records_blank_and_keeps_other_squares() {
    let mut b = Board::empty();
    b.place(0, 14, PlacedTile { letter: 'Q', is_blank: true });
    assert_eq!(b.get(0, 14), Some(&PlacedTile { letter: 'Q', is_blank: true }));
    assert!(!b.is_occupied(0, 13));
    assert!(!b.is_occupied(1, 14));
    assert!(Board::in_bounds(14, 14));
    assert!(!Board::in_bounds(0, 15));
}

#[test]
fn default_board_is_empty() {
    let b = Board::default();
    assert!(b.is_empty());
    assert!(b.get(7, 7).is_none());
}
