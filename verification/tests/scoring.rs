use words_with_fam::engine::constants::BINGO_BONUS;
use words_with_fam::engine::scoring::{
    final_adjustments, move_fits, rack_value, racks_fit, score_move, score_word, word_fits,
};
use words_with_fam::engine::validation::{FormedWord, WordCell};

fn word(cells: Vec<WordCell>) -> FormedWord {
    let text = cells.iter().map(|c| c.letter).collect();
    FormedWord { text, cells }
}

fn cell(row: usize, col: usize, letter: char, is_new: bool) -> WordCell {
    WordCell {
        row,
        col,
        letter,
        is_blank: false,
        is_new,
    }
}

#[test]
fn plain_word_no_premium() {
    let w = word(vec![
        cell(7, 6, 'C', true),
        cell(7, 7, 'A', true),
        cell(7, 8, 'T', true),
    ]);
    assert_eq!(score_word(&w), 6);
}

#[test]
fn triple_word_on_new_tile() {
    let w = word(vec![
        cell(0, 3, 'C', true),
        cell(0, 4, 'A', true),
        cell(0, 5, 'T', true),
    ]);
    assert_eq!(score_word(&w), 18);
}

#[test]
fn double_letter_under_new_tile() {
    let w = word(vec![cell(1, 5, 'A', true), cell(1, 6, 'T', true)]);
    assert_eq!(score_word(&w), 3);
}

#[test]
fn premium_ignored_for_existing_tile() {
    let w = word(vec![cell(1, 5, 'A', false), cell(1, 6, 'T', true)]);
    assert_eq!(score_word(&w), 2);
}

#[test]
fn blank_scores_zero() {
    let mut blank_c = cell(7, 6, 'C', true);
    blank_c.is_blank = true;
    let w = word(vec![blank_c, cell(7, 7, 'A', true), cell(7, 8, 'T', true)]);
    assert_eq!(score_word(&w), 2);
}

#[test]
fn bingo_bonus_added_for_seven() {
    let w = word(vec![cell(7, 6, 'C', true), cell(7, 7, 'A', true)]);
    let (total, _) = score_move(std::slice::from_ref(&w), 7);
    assert_eq!(total, score_word(&w) + BINGO_BONUS);
    let (total6, _) = score_move(std::slice::from_ref(&w), 6);
    assert_eq!(total6, score_word(&w));
}

#[test]
fn endgame_finisher_gains_others_tiles() {
    let racks = vec![
        ("a".to_string(), vec![]),
        ("b".to_string(), vec!['Q', 'Z']),
    ];
    let deltas = final_adjustments(&racks, Some("a"));
    assert_eq!(deltas[0], ("a".to_string(), 20));
    assert_eq!(deltas[1], ("b".to_string(), -20));
}

#[test]
fn word_multipliers_stack() {
    // Two new tiles on triple-word squares (0,3) and (0,11) in one word.
    let mut cells = Vec::new();
    for c in 3..=11 {
        cells.push(cell(0, c, 'A', c == 3 || c == 11));
    }
    let w = word(cells);
    // Nine A's = 9 points; (0,6) and (0,8) are TL but hold old tiles.
    assert_eq!(score_word(&w), 9 * 9);
}

#[test]
fn move_breakdown_lists_each_word() {
    let a = word(vec![cell(7, 6, 'C', true), cell(7, 7, 'A', true)]);
    let b = word(vec![cell(7, 7, 'A', false), cell(8, 7, 'S', true)]);
    let (total, breakdown) = score_move(&[a.clone(), b.clone()], 3);
    assert_eq!(total, 5 + 2);
    assert_eq!(breakdown.len(), 2);
    assert_eq!(breakdown[0].text, "CA");
    assert_eq!(breakdown[0].points, 5);
    assert_eq!(breakdown[1].text, "AS");
    assert_eq!(breakdown[1].points, 2);
}

#[test]
fn rack_value_counts_blanks_as_zero() {
    assert_eq!(rack_value(&['Q', '_', 'e']), 11);
    assert_eq!(rack_value(&[]), 0);
}

#[test]
fn endgame_without_finisher_everyone_loses() {
    let racks = vec![
        ("a".to_string(), vec!['A']),
        ("b".to_string(), vec!['X']),
    ];
    let deltas = final_adjustments(&racks, None);
    assert_eq!(deltas, vec![("a".to_string(), -1), ("b".to_string(), -8)]);
}

#[test]
fn adjustments_with_a_finisher_sum_to_zero() {
    let racks = vec![
        ("a".to_string(), vec!['Q', 'A']),
        ("b".to_string(), vec![]),
        ("c".to_string(), vec!['Z', '_', 'E']),
    ];
    let deltas = final_adjustments(&racks, Some("b"));
    assert_eq!(deltas.iter().map(|d| d.1).sum::<i32>(), 0);
    assert_eq!(deltas[1], ("b".to_string(), 11 + 11));
    let none = final_adjustments(&racks, None);
    assert_eq!(none.iter().map(|d| d.1).sum::<i32>(), -22);
}

#[test]
fn fit_checks_match_scoring_limits() {
    let w = word(vec![cell(7, 6, 'C', true), cell(7, 7, 'A', true)]);
    assert!(word_fits(&w));
    assert!(move_fits(std::slice::from_ref(&w), 2));
    let off = word(vec![cell(20, 6, 'C', true)]);
    assert!(!word_fits(&off));
    let racks = vec![("a".to_string(), vec!['Q', 'Z'])];
    assert!(racks_fit(&racks));
}
