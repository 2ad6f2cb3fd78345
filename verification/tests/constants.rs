use words_with_fam::engine::constants::{
    BAG_SIZE, BOARD_SIZE, CENTER, Premium, letter_count, letter_points, premium_at, premium_grid,
};

#[test]
fn bag_has_104_tiles_including_two_blanks() {
    let letters: u32 = (b'A'..=b'Z').map(|b| letter_count(b as char) as u32).sum();
    assert_eq!(letters, 102, "letter tiles");
    assert_eq!(letters as usize + 2, BAG_SIZE, "with 2 blanks");
}

#[test]
fn premium_counts_match_wwf() {
    let grid = premium_grid();
    let mut tw = 0;
    let mut tl = 0;
    let mut dw = 0;
    let mut dl = 0;
    for row in &grid {
        for cell in row {
            match cell {
                Premium::TW => tw += 1,
                Premium::TL => tl += 1,
                Premium::DW => dw += 1,
                Premium::DL => dl += 1,
                Premium::Plain => {}
            }
        }
    }
    assert_eq!((tw, tl, dw, dl), (8, 16, 8, 16));
}

#[test]
fn premium_grid_is_fully_symmetric() {
    let g = premium_grid();
    let n = BOARD_SIZE - 1;
    for r in 0..BOARD_SIZE {
        for c in 0..BOARD_SIZE {
            assert_eq!(g[r][c], g[n - r][c], "horizontal mirror at {r},{c}");
            assert_eq!(g[r][c], g[r][n - c], "vertical mirror at {r},{c}");
            assert_eq!(g[r][c], g[c][r], "diagonal mirror at {r},{c}");
        }
    }
}

#[test]
fn center_has_no_multiplier() {
    assert_eq!(premium_at(CENTER.0, CENTER.1), Premium::Plain);
}

#[test]
fn high_value_letters() {
    assert_eq!(letter_points('Q'), 10);
    assert_eq!(letter_points('z'), 10);
    assert_eq!(letter_points('X'), 8);
    assert_eq!(letter_points('A'), 1);
    assert_eq!(letter_points('_'), 0);
}

#[test]
fn letter_values_and_counts_by_class() {
    assert_eq!(letter_points('d'), 2);
    assert_eq!(letter_points('H'), 3);
    assert_eq!(letter_points('w'), 4);
    assert_eq!(letter_points('K'), 5);
    assert_eq!(letter_points('1'), 0);
    assert_eq!(letter_count('e'), 13);
    assert_eq!(letter_count('A'), 9);
    assert_eq!(letter_count('Q'), 1);
    assert_eq!(letter_count('_'), 0);
}

#[test]
fn premium_squares_by_class() {
    assert_eq!(premium_at(0, 3), Premium::TW);
    assert_eq!(premium_at(2, 7), Premium::TL);
    assert_eq!(premium_at(4, 4), Premium::DW);
    assert_eq!(premium_at(1, 5), Premium::DL);
    assert_eq!(premium_at(0, 0), Premium::Plain);
}
