//! Board, tile and scoring constants of Words With Friends: letter values, the
//! letter distribution of a full bag, and the premium-square layout of the
//! 15x15 board.
use vstd::prelude::*;

verus! {

pub const BOARD_SIZE: usize = 15;

pub const RACK_SIZE: usize = 7;

/// The start square `(row, col)`.
pub const CENTER: (usize, usize) = (7, 7);

/// Total tiles in a full bag: the letter tiles plus two blanks.
pub const BAG_SIZE: usize = 104;

/// Bonus for playing all the tiles of a full rack in one move.
pub const BINGO_BONUS: i32 = 35;

/// The blank tile as it appears in the bag and on a rack.
pub const BLANK: char = '_';

/// Premium square multiplier classes.
#[derive(Debug, Clone, Copy, PartialEq, Eq, Structural)]
pub enum Premium {
    Plain,
    DL,
    TL,
    DW,
    TW,
}

/// ASCII upper-casing of one character; every other character is unchanged.
pub open spec fn upper(c: char) -> char {
    if 'a' <= c && c <= 'z' {
        ((c as u32) - 32) as char
    } else {
        c
    }
}

pub fn ascii_upper(c: char) -> (r: char)
    ensures
        r == upper(c),
{
    if 'a' <= c && c <= 'z' {
        let b: u8 = (c as u32 - 32) as u8;
        b as char
    } else {
        c
    }
}

/// Point value of a letter, case-insensitively; anything else (the blank
/// included) is worth 0.
pub open spec fn points_of(c: char) -> int {
    let u = upper(c);
    if u == 'A' || u == 'E' || u == 'I' || u == 'O' || u == 'R' || u == 'S' || u == 'T' {
        1
    } else if u == 'D' || u == 'L' || u == 'N' || u == 'U' {
        2
    } else if u == 'G' || u == 'H' {
        3
    } else if u == 'B' || u == 'C' || u == 'F' || u == 'M' || u == 'P' || u == 'W' || u == 'Y' {
        4
    } else if u == 'K' || u == 'V' {
        5
    } else if u == 'X' {
        8
    } else if u == 'J' || u == 'Q' || u == 'Z' {
        10
    } else {
        0
    }
}

/// Number of copies of a letter in a full bag, case-insensitively; 0 for
/// anything that is not a letter.
pub open spec fn count_of(c: char) -> nat {
    let u = upper(c);
    if u == 'E' {
        13
    } else if u == 'A' {
        9
    } else if u == 'I' || u == 'O' {
        8
    } else if u == 'T' {
        7
    } else if u == 'R' {
        6
    } else if u == 'D' || u == 'N' || u == 'S' {
        5
    } else if u == 'H' || u == 'L' || u == 'U' {
        4
    } else if u == 'G' {
        3
    } else if u == 'B' || u == 'C' || u == 'F' || u == 'M' || u == 'P' || u == 'V' || u == 'W'
        || u == 'Y' {
        2
    } else if u == 'J' || u == 'K' || u == 'Q' || u == 'X' || u == 'Z' {
        1
    } else {
        0
    }
}

pub fn letter_points(c: char) -> (r: i32)
    ensures
        r == points_of(c),
        0 <= r <= 10,
{
    let u = ascii_upper(c);
    match u {
        'A' | 'E' | 'I' | 'O' | 'R' | 'S' | 'T' => 1,
        'D' | 'L' | 'N' | 'U' => 2,
        'G' | 'H' => 3,
        'B' | 'C' | 'F' | 'M' | 'P' | 'W' | 'Y' => 4,
        'K' | 'V' => 5,
        'X' => 8,
        'J' | 'Q' | 'Z' => 10,
        _ => 0,
    }
}

pub fn letter_count(c: char) -> (r: u8)
    ensures
        r == count_of(c),
{
    let u = ascii_upper(c);
    match u {
        'E' => 13,
        'A' => 9,
        'I' | 'O' => 8,
        'T' => 7,
        'R' => 6,
        'D' | 'N' | 'S' => 5,
        'H' | 'L' | 'U' => 4,
        'G' => 3,
        'B' | 'C' | 'F' | 'M' | 'P' | 'V' | 'W' | 'Y' => 2,
        'J' | 'K' | 'Q' | 'X' | 'Z' => 1,
        _ => 0,
    }
}

/// Triple-word squares.
pub open spec fn tw_squares() -> Seq<(usize, usize)> {
    seq![(0, 3), (0, 11), (3, 0), (3, 14), (11, 0), (11, 14), (14, 3), (14, 11)]
}

/// Triple-letter squares.
pub open spec fn tl_squares() -> Seq<(usize, usize)> {
    seq![
        (0, 6), (0, 8), (2, 7), (5, 5), (5, 9), (6, 0), (6, 14), (7, 2),
        (7, 12), (8, 0), (8, 14), (9, 5), (9, 9), (12, 7), (14, 6), (14, 8),
    ]
}

/// Double-word squares.
pub open spec fn dw_squares() -> Seq<(usize, usize)> {
    seq![(4, 4), (4, 10), (6, 6), (6, 8), (8, 6), (8, 8), (10, 4), (10, 10)]
}

/// Double-letter squares.
pub open spec fn dl_squares() -> Seq<(usize, usize)> {
    seq![
        (1, 5), (1, 9), (2, 2), (2, 12), (3, 3), (3, 11), (5, 1), (5, 13),
        (9, 1), (9, 13), (11, 3), (11, 11), (12, 2), (12, 12), (13, 5), (13, 9),
    ]
}

/// Whether the square `(r, c)` is among the first `n` squares of `s`.
pub open spec fn listed_upto(s: Seq<(usize, usize)>, n: nat, r: usize, c: usize) -> bool
    decreases n,
{
    if n == 0 {
        false
    } else {
        s[n - 1] == (r, c) || listed_upto(s, (n - 1) as nat, r, c)
    }
}

/// Whether the square `(r, c)` is listed in `s`.
pub open spec fn listed(s: Seq<(usize, usize)>, r: usize, c: usize) -> bool {
    listed_upto(s, s.len(), r, c)
}

/// The premium class of a square: the lists are laid down in the order
/// TW, TL, DW, DL, a later list winning over an earlier one.
pub open spec fn premium_of(r: usize, c: usize) -> Premium {
    if listed(dl_squares(), r, c) {
        Premium::DL
    } else if listed(dw_squares(), r, c) {
        Premium::DW
    } else if listed(tl_squares(), r, c) {
        Premium::TL
    } else if listed(tw_squares(), r, c) {
        Premium::TW
    } else {
        Premium::Plain
    }
}

/// Lays the squares of `list` down on `grid` with class `p`.
fn lay_squares(grid: &mut [[Premium; 15]; 15], list: &Vec<(usize, usize)>, p: Premium)
    requires
        forall|i: int| 0 <= i < list@.len() ==> #[trigger] list@[i].0 < 15 && list@[i].1 < 15,
    ensures
        forall|r: int, c: int|
            0 <= r < 15 && 0 <= c < 15 ==> #[trigger] final(grid)@[r]@[c] == if listed(
                list@,
                r as usize,
                c as usize,
            ) {
                p
            } else {
                old(grid)@[r]@[c]
            },
{
    let n = list.len();
    for i in 0..n
        invariant
            n == list@.len(),
            forall|k: int| 0 <= k < list@.len() ==> #[trigger] list@[k].0 < 15 && list@[k].1 < 15,
            forall|r: int, c: int|
                0 <= r < 15 && 0 <= c < 15 ==> #[trigger] grid@[r]@[c] == if listed_upto(
                    list@,
                    i as nat,
                    r as usize,
                    c as usize,
                ) {
                    p
                } else {
                    old(grid)@[r]@[c]
                },
    {
        let (sr, sc) = list[i];
        let mut row = grid[sr];
        row[sc] = p;
        grid[sr] = row;
    }
}

/// The full 15x15 premium grid.
pub fn premium_grid() -> (grid: [[Premium; 15]; 15])
    ensures
        forall|r: int, c: int|
            0 <= r < 15 && 0 <= c < 15 ==> #[trigger] grid@[r]@[c] == premium_of(
                r as usize,
                c as usize,
            ),
{
    let mut grid = [[Premium::Plain;15];15];
    let tw: Vec<(usize, usize)> = vec![(0, 3), (0, 11), (3, 0), (3, 14), (11, 0), (11, 14), (14, 3), (14, 11)];
    let tl: Vec<(usize, usize)> = vec![
        (0, 6), (0, 8), (2, 7), (5, 5), (5, 9), (6, 0), (6, 14), (7, 2),
        (7, 12), (8, 0), (8, 14), (9, 5), (9, 9), (12, 7), (14, 6), (14, 8),
    ];
    let dw: Vec<(usize, usize)> = vec![(4, 4), (4, 10), (6, 6), (6, 8), (8, 6), (8, 8), (10, 4), (10, 10)];
    let dl: Vec<(usize, usize)> = vec![
        (1, 5), (1, 9), (2, 2), (2, 12), (3, 3), (3, 11), (5, 1), (5, 13),
        (9, 1), (9, 13), (11, 3), (11, 11), (12, 2), (12, 12), (13, 5), (13, 9),
    ];
    assert(tw@ == tw_squares());
    assert(tl@ == tl_squares());
    assert(dw@ == dw_squares());
    assert(dl@ == dl_squares());
    lay_squares(&mut grid, &tw, Premium::TW);
    lay_squares(&mut grid, &tl, Premium::TL);
    lay_squares(&mut grid, &dw, Premium::DW);
    lay_squares(&mut grid, &dl, Premium::DL);
    grid
}

/// The premium class at a board coordinate.
pub fn premium_at(r: usize, c: usize) -> (p: Premium)
    requires
        r < BOARD_SIZE,
        c < BOARD_SIZE,
    ensures
        p == premium_of(r, c),
{
    let grid = premium_grid();
    grid[r][c]
}

/// Each list of premium squares is closed under the reflections of the board.
proof fn lemma_lists_symmetric(r: usize, c: usize)
    requires
        r < BOARD_SIZE,
        c < BOARD_SIZE,
    ensures
        listed(tw_squares(), r, c) ==> listed(tw_squares(), (14 - r) as usize, c)
            && listed(tw_squares(), r, (14 - c) as usize) && listed(tw_squares(), c, r),
        listed(tl_squares(), r, c) ==> listed(tl_squares(), (14 - r) as usize, c)
            && listed(tl_squares(), r, (14 - c) as usize) && listed(tl_squares(), c, r),
        listed(dw_squares(), r, c) ==> listed(dw_squares(), (14 - r) as usize, c)
            && listed(dw_squares(), r, (14 - c) as usize) && listed(dw_squares(), c, r),
        listed(dl_squares(), r, c) ==> listed(dl_squares(), (14 - r) as usize, c)
            && listed(dl_squares(), r, (14 - c) as usize) && listed(dl_squares(), c, r),
{
    reveal_with_fuel(listed_upto, 17);
}

/// The premium layout is symmetric under reflection across the horizontal
/// axis, the vertical axis and the main diagonal.
pub proof fn lemma_premium_layout_symmetric(r: usize, c: usize)
    requires
        r < BOARD_SIZE,
        c < BOARD_SIZE,
    ensures
        premium_of(r, c) == premium_of((14 - r) as usize, c),
        premium_of(r, c) == premium_of(r, (14 - c) as usize),
        premium_of(r, c) == premium_of(c, r),
{
    let r2 = (14 - r) as usize;
    let c2 = (14 - c) as usize;
    lemma_lists_symmetric(r, c);
    lemma_lists_symmetric(r2, c);
    lemma_lists_symmetric(r, c2);
    lemma_lists_symmetric(c, r);
    assert((14 - r2) as usize == r);
    assert((14 - c2) as usize == c);
}

/// The start square carries no multiplier.
pub proof fn lemma_center_is_plain()
    ensures
        premium_of(CENTER.0, CENTER.1) == Premium::Plain,
{
    reveal_with_fuel(listed_upto, 17);
}

} // verus!