//! Move scoring. Premium squares apply only to newly placed tiles; word
//! multipliers stack across a word; blank tiles score 0; using all the tiles
//! of a full rack in one move earns `BINGO_BONUS`.
use vstd::prelude::*;

use crate::engine::board::on_board;
use crate::engine::constants::{
    BINGO_BONUS, Premium, RACK_SIZE, letter_points, points_of, premium_at, premium_of,
};
use crate::engine::text::str_eq;
use crate::engine::validation::{FormedWord, WordCell};

verus! {

#[derive(Debug, Clone, PartialEq, Eq)]
pub struct WordScore {
    pub text: String,
    pub points: i32,
}

/// The face value of a tile in a word: 0 for a blank.
pub open spec fn base_points(c: WordCell) -> int {
    if c.is_blank {
        0
    } else {
        points_of(c.letter)
    }
}

/// The letter multiplier of a cell: premiums count under new tiles only.
pub open spec fn letter_mult(c: WordCell) -> int {
    if c.is_new {
        match premium_of(c.row, c.col) {
            Premium::DL => 2,
            Premium::TL => 3,
            _ => 1,
        }
    } else {
        1
    }
}

/// The word multiplier of a cell: premiums count under new tiles only.
pub open spec fn word_mult(c: WordCell) -> int {
    if c.is_new {
        match premium_of(c.row, c.col) {
            Premium::DW => 2,
            Premium::TW => 3,
            _ => 1,
        }
    } else {
        1
    }
}

/// The sum of the letter scores of `cells`.
pub open spec fn letter_sum(cells: Seq<WordCell>) -> int
    decreases cells.len(),
{
    if cells.len() == 0 {
        0
    } else {
        letter_sum(cells.drop_last()) + base_points(cells.last()) * letter_mult(cells.last())
    }
}

/// The product of the word multipliers of `cells`.
pub open spec fn mult_product(cells: Seq<WordCell>) -> int
    decreases cells.len(),
{
    if cells.len() == 0 {
        1
    } else {
        mult_product(cells.drop_last()) * word_mult(cells.last())
    }
}

/// The score of a word made of `cells`.
pub open spec fn word_score(cells: Seq<WordCell>) -> int {
    letter_sum(cells) * mult_product(cells)
}

/// A word can be scored: every new tile stands on the board, and the sums and
/// products of its scoring fit in an `i32`.
pub open spec fn scorable(cells: Seq<WordCell>) -> bool {
    &&& forall|i: int|
        0 <= i < cells.len() && #[trigger] cells[i].is_new ==> on_board(
            cells[i].row as int,
            cells[i].col as int,
        )
    &&& letter_sum(cells) <= i32::MAX
    &&& mult_product(cells) <= i32::MAX
    &&& word_score(cells) <= i32::MAX
}

proof fn lemma_cell_nonneg(c: WordCell)
    ensures
        base_points(c) * letter_mult(c) >= 0,
        word_mult(c) >= 1,
{
}

proof fn lemma_prefix_bounds(cells: Seq<WordCell>, k: int)
    requires
        0 <= k <= cells.len(),
    ensures
        0 <= letter_sum(cells.take(k)) <= letter_sum(cells),
        1 <= mult_product(cells.take(k)) <= mult_product(cells),
    decreases cells.len(),
{
    if cells.len() == 0 {
        assert(cells.take(k) =~= cells);
    } else {
        let d = cells.drop_last();
        lemma_prefix_bounds(d, d.len() as int);
        assert(d.take(d.len() as int) =~= d);
        lemma_cell_nonneg(cells.last());
        let a = mult_product(d);
        let f = word_mult(cells.last());
        assert(a * f >= a) by (nonlinear_arith)
            requires
                a >= 1,
                f >= 1,
        ;
        if k == cells.len() {
            assert(cells.take(k) =~= cells);
        } else {
            lemma_prefix_bounds(d, k);
            assert(d.take(k) =~= cells.take(k));
        }
    }
}

/// `c` as a tile that was already on the board.
pub open spec fn as_old(c: WordCell) -> WordCell {
    WordCell { row: c.row, col: c.col, letter: c.letter, is_blank: c.is_blank, is_new: false }
}

proof fn lemma_premium_parts(cells: Seq<WordCell>, i: int)
    requires
        0 <= i < cells.len(),
    ensures
        letter_sum(cells) == letter_sum(cells.update(i, as_old(cells[i]))) + base_points(cells[i]) * (
        letter_mult(cells[i]) - 1),
        mult_product(cells) == mult_product(cells.update(i, as_old(cells[i]))) * word_mult(cells[i]),
    decreases cells.len(),
{
    let c2 = as_old(cells[i]);
    let upd = cells.update(i, c2);
    let d = cells.drop_last();
    let b = base_points(cells[i]);
    let lm = letter_mult(cells[i]);
    let wm = word_mult(cells[i]);
    assert(base_points(c2) == b);
    if i == cells.len() - 1 {
        assert(upd.drop_last() =~= d);
        assert(b * lm == b * 1 + b * (lm - 1)) by (nonlinear_arith);
    } else {
        assert(upd.drop_last() =~= d.update(i, c2));
        assert(d[i] == cells[i]);
        lemma_premium_parts(d, i);
        let a = mult_product(d.update(i, c2));
        let wx = word_mult(cells.last());
        assert(upd.last() == cells.last());
        assert((a * wm) * wx == (a * wx) * wm) by (nonlinear_arith);
    }
}

/// Premium squares count under a newly placed tile: compared with the same
/// tile already on the board, a double-word square doubles the word's score
/// and a triple-word square triples it, while a double- or triple-letter
/// square adds that tile's face value once or twice more, times the word's
/// multipliers.
pub proof fn lemma_premium_under_new_tile(cells: Seq<WordCell>, i: int)
    requires
        0 <= i < cells.len(),
        cells[i].is_new,
    ensures
        ({
            let before = cells.update(i, as_old(cells[i]));
            let p = premium_of(cells[i].row, cells[i].col);
            let b = base_points(cells[i]);
            &&& p == Premium::DW ==> word_score(cells) == 2 * word_score(before)
            &&& p == Premium::TW ==> word_score(cells) == 3 * word_score(before)
            &&& p == Premium::DL ==> word_score(cells) == word_score(before) + b * mult_product(before)
            &&& p == Premium::TL ==> word_score(cells) == word_score(before) + 2 * b * mult_product(before)
            &&& p == Premium::Plain ==> word_score(cells) == word_score(before)
        }),
{
    lemma_premium_parts(cells, i);
    let before = cells.update(i, as_old(cells[i]));
    let ls = letter_sum(before);
    let mp = mult_product(before);
    let b = base_points(cells[i]);
    assert(ls * (mp * 2) == 2 * (ls * mp)) by (nonlinear_arith);
    assert(ls * (mp * 3) == 3 * (ls * mp)) by (nonlinear_arith);
    assert((ls + b) * (mp * 1) == ls * mp + b * mp) by (nonlinear_arith);
    assert((ls + b * 2) * (mp * 1) == ls * mp + 2 * b * mp) by (nonlinear_arith);
    assert((ls + b * 0) * (mp * 1) == ls * mp) by (nonlinear_arith);
}

/// Scores a single formed word, honoring premium squares under newly placed
/// tiles only.
pub fn score_word(word: &FormedWord) -> (s: i32)
    requires
        scorable(word.cells@),
    ensures
        s == word_score(word.cells@),
{
    let cells = &word.cells;
    let n = cells.len();
    let mut sum: i32 = 0;
    let mut mult: i32 = 1;
    for i in 0..n
        invariant
            n == cells@.len(),
            scorable(cells@),
            sum == letter_sum(cells@.take(i as int)),
            mult == mult_product(cells@.take(i as int)),
    {
        let cell = cells[i];
        let base: i32 = if cell.is_blank {
            0
        } else {
            letter_points(cell.letter)
        };
        let (lm, wm): (i32, i32) = if cell.is_new {
            match premium_at(cell.row, cell.col) {
                Premium::DL => (2, 1),
                Premium::TL => (3, 1),
                Premium::DW => (1, 2),
                Premium::TW => (1, 3),
                Premium::Plain => (1, 1),
            }
        } else {
            (1, 1)
        };
        proof {
            assert(cells@.take(i + 1).drop_last() =~= cells@.take(i as int));
            assert(cells@.take(i + 1).last() == cell);
            lemma_prefix_bounds(cells@, i + 1);
        }
        sum = sum + base * lm;
        mult = mult * wm;
    }
    proof {
        assert(cells@.take(n as int) =~= cells@);
        lemma_prefix_bounds(cells@, n as int);
        assert(sum * mult >= 0) by (nonlinear_arith)
            requires
                sum >= 0,
                mult >= 1,
        ;
    }
    sum * mult
}

/// Whether `word` can be scored: its new tiles stand on the board, and its
/// sums and products fit in an `i32`.
pub fn word_fits(word: &FormedWord) -> (b: bool)
    ensures
        b == scorable(word.cells@),
{
    let cells = &word.cells;
    let n = cells.len();
    let mut sum: i64 = 0;
    let mut mult: i64 = 1;
    assert(cells@ == word.cells@);
    for i in 0..n
        invariant
            n == cells@.len(),
            cells@ == word.cells@,
            sum == letter_sum(cells@.take(i as int)),
            mult == mult_product(cells@.take(i as int)),
            0 <= sum <= i32::MAX,
            1 <= mult <= i32::MAX,
            forall|k: int|
                0 <= k < i && #[trigger] cells@[k].is_new ==> on_board(
                    cells@[k].row as int,
                    cells@[k].col as int,
                ),
    {
        let cell = cells[i];
        proof {
            assert(cells@.take(i + 1).drop_last() =~= cells@.take(i as int));
            assert(cells@.take(i + 1).last() == cell);
            lemma_prefix_bounds(cells@, i + 1);
        }
        if cell.is_new && !(cell.row < 15 && cell.col < 15) {
            assert(word.cells@[i as int].is_new && !on_board(
                word.cells@[i as int].row as int,
                word.cells@[i as int].col as int,
            ));
            assert(!scorable(word.cells@));
            return false;
        }
        let base: i64 = if cell.is_blank {
            0
        } else {
            letter_points(cell.letter) as i64
        };
        let (lm, wm): (i64, i64) = if cell.is_new {
            match premium_at(cell.row, cell.col) {
                Premium::DL => (2, 1),
                Premium::TL => (3, 1),
                Premium::DW => (1, 2),
                Premium::TW => (1, 3),
                Premium::Plain => (1, 1),
            }
        } else {
            (1, 1)
        };
        assert(base * lm == base_points(cell) * letter_mult(cell));
        assert(wm == word_mult(cell));
        sum = sum + base * lm;
        mult = mult * wm;
        assert(sum == letter_sum(cells@.take(i + 1)));
        assert(mult == mult_product(cells@.take(i + 1)));
        if sum > i32::MAX as i64 || mult > i32::MAX as i64 {
            assert(letter_sum(word.cells@) > i32::MAX || mult_product(word.cells@) > i32::MAX);
            assert(!scorable(word.cells@));
            return false;
        }
    }
    proof {
        assert(cells@.take(n as int) =~= cells@);
    }
    assert(sum * mult <= i32::MAX * i32::MAX) by (nonlinear_arith)
        requires
            0 <= sum <= i32::MAX,
            1 <= mult <= i32::MAX,
    ;
    assert(sum * mult >= 0) by (nonlinear_arith)
        requires
            0 <= sum,
            1 <= mult,
    ;
    sum * mult <= i32::MAX as i64
}

/// The cells of each of `words`.
pub open spec fn cells_of(words: Seq<FormedWord>) -> Seq<Seq<WordCell>> {
    words.map_values(|w: FormedWord| w.cells@)
}

/// The total of the scores of the words `ws`.
pub open spec fn words_total(ws: Seq<Seq<WordCell>>) -> int
    decreases ws.len(),
{
    if ws.len() == 0 {
        0
    } else {
        words_total(ws.drop_last()) + word_score(ws.last())
    }
}

/// The bingo bonus earned by a move that places `tiles_placed` tiles.
pub open spec fn bingo(tiles_placed: int) -> int {
    if tiles_placed == RACK_SIZE {
        BINGO_BONUS as int
    } else {
        0
    }
}

/// The score of a move forming the words `ws` with `tiles_placed` tiles.
pub open spec fn move_score(ws: Seq<Seq<WordCell>>, tiles_placed: int) -> int {
    words_total(ws) + bingo(tiles_placed)
}

/// A move can be scored: each word can, and the move total fits in an `i32`.
pub open spec fn move_scorable(ws: Seq<Seq<WordCell>>, tiles_placed: int) -> bool {
    &&& forall|i: int| 0 <= i < ws.len() ==> scorable(#[trigger] ws[i])
    &&& move_score(ws, tiles_placed) <= i32::MAX
}

proof fn lemma_words_total_prefix(words: Seq<Seq<WordCell>>, k: int)
    requires
        0 <= k <= words.len(),
    ensures
        0 <= words_total(words.take(k)) <= words_total(words),
    decreases words.len(),
{
    if words.len() == 0 {
        assert(words.take(k) =~= words);
    } else {
        let d = words.drop_last();
        let c = words.last();
        lemma_prefix_bounds(c, c.len() as int);
        assert(c.take(c.len() as int) =~= c);
        let a = letter_sum(c);
        let b = mult_product(c);
        assert(a * b >= 0) by (nonlinear_arith)
            requires
                a >= 0,
                b >= 1,
        ;
        if k == words.len() {
            assert(words.take(k) =~= words);
            lemma_words_total_prefix(d, d.len() as int);
            assert(d.take(d.len() as int) =~= d);
        } else {
            lemma_words_total_prefix(d, k);
            assert(d.take(k) =~= words.take(k));
        }
    }
}

proof fn lemma_words_step(words: Seq<Seq<WordCell>>, i: int)
    requires
        0 <= i < words.len(),
    ensures
        words_total(words.take(i + 1)) == words_total(words.take(i)) + word_score(words[i]),
        0 <= words_total(words.take(i + 1)) <= words_total(words),
{
    assert(words.take(i + 1).drop_last() =~= words.take(i));
    lemma_words_total_prefix(words, i + 1);
}

/// A move never scores below zero.
pub proof fn lemma_move_score_nonneg(ws: Seq<Seq<WordCell>>, tiles_placed: int)
    ensures
        move_score(ws, tiles_placed) >= 0,
{
    lemma_words_total_prefix(ws, 0);
    assert(ws.take(0) =~= Seq::<Seq<WordCell>>::empty());
}

/// Whether a move forming `words` with `tiles_placed` tiles can be scored:
/// every word can, and the move's total fits in an `i32`.
pub fn move_fits(words: &[FormedWord], tiles_placed: usize) -> (b: bool)
    ensures
        b == move_scorable(cells_of(words@), tiles_placed as int),
{
    let ghost ws = cells_of(words@);
    let n = words.len();
    let mut total: i64 = 0;
    for i in 0..n
        invariant
            n == words@.len(),
            ws == cells_of(words@),
            total == words_total(ws.take(i as int)),
            0 <= total <= i32::MAX,
            forall|k: int| 0 <= k < i ==> scorable(#[trigger] ws[k]),
    {
        assert(ws[i as int] == words@[i as int].cells@);
        if !word_fits(&words[i]) {
            return false;
        }
        let s = score_word(&words[i]);
        proof {
            lemma_words_step(ws, i as int);
        }
        total = total + s as i64;
        if total > i32::MAX as i64 {
            proof {
                lemma_move_score_nonneg(ws, tiles_placed as int);
                assert(bingo(tiles_placed as int) >= 0);
            }
            return false;
        }
    }
    proof {
        assert(ws.take(n as int) =~= ws);
    }
    let bonus: i64 = if tiles_placed == RACK_SIZE {
        BINGO_BONUS as i64
    } else {
        0
    };
    total + bonus <= i32::MAX as i64
}

/// Scores a whole move: the sum of all formed words, plus the bingo bonus if a
/// full rack was used. Returns the total and the per-word breakdown.
pub fn score_move(words: &[FormedWord], tiles_placed: usize) -> (r: (i32, Vec<WordScore>))
    requires
        move_scorable(cells_of(words@), tiles_placed as int),
    ensures
        r.0 == move_score(cells_of(words@), tiles_placed as int),
        r.1@.len() == words@.len(),
        forall|i: int|
            0 <= i < words@.len() ==> (#[trigger] r.1@[i]).text@ == words@[i].text@ && r.1@[i].points
                == word_score(words@[i].cells@),
{
    let ghost ws = cells_of(words@);
    let n = words.len();
    let mut total: i32 = 0;
    let mut breakdown: Vec<WordScore> = Vec::with_capacity(n);
    for i in 0..n
        invariant
            n == words@.len(),
            ws == cells_of(words@),
            move_scorable(ws, tiles_placed as int),
            total == words_total(ws.take(i as int)),
            breakdown@.len() == i,
            forall|k: int|
                0 <= k < i ==> (#[trigger] breakdown@[k]).text@ == words@[k].text@
                    && breakdown@[k].points == word_score(words@[k].cells@),
    {
        let w = &words[i];
        assert(ws[i as int] == w.cells@);
        assert(scorable(ws[i as int]));
        let pts = score_word(w);
        proof {
            lemma_words_step(ws, i as int);
        }
        total = total + pts;
        breakdown.push(WordScore { text: w.text.clone(), points: pts });
    }
    proof {
        assert(ws.take(n as int) =~= ws);
    }
    assert(total == words_total(ws));
    if tiles_placed == RACK_SIZE {
        total = total + BINGO_BONUS;
    }
    (total, breakdown)
}

/// The point value of the tiles `tiles` (blanks count 0).
pub open spec fn rack_sum(tiles: Seq<char>) -> int
    decreases tiles.len(),
{
    if tiles.len() == 0 {
        0
    } else {
        rack_sum(tiles.drop_last()) + points_of(tiles.last())
    }
}

proof fn lemma_rack_sum_prefix(tiles: Seq<char>, k: int)
    requires
        0 <= k <= tiles.len(),
    ensures
        0 <= rack_sum(tiles.take(k)) <= rack_sum(tiles),
    decreases tiles.len(),
{
    if tiles.len() == 0 {
        assert(tiles.take(k) =~= tiles);
    } else if k == tiles.len() {
        assert(tiles.take(k) =~= tiles);
        lemma_rack_sum_prefix(tiles.drop_last(), k - 1);
        assert(tiles.drop_last().take(k - 1) =~= tiles.drop_last());
    } else {
        lemma_rack_sum_prefix(tiles.drop_last(), k);
        assert(tiles.drop_last().take(k) =~= tiles.take(k));
    }
}

/// Point value of the tiles left on a rack (blanks count 0).
pub fn rack_value(tiles: &[char]) -> (v: i32)
    requires
        rack_sum(tiles@) <= i32::MAX,
    ensures
        v == rack_sum(tiles@),
        v >= 0,
{
    let n = tiles.len();
    let mut sum: i32 = 0;
    for i in 0..n
        invariant
            n == tiles@.len(),
            rack_sum(tiles@) <= i32::MAX,
            sum == rack_sum(tiles@.take(i as int)),
    {
        proof {
            assert(tiles@.take(i + 1).drop_last() =~= tiles@.take(i as int));
            lemma_rack_sum_prefix(tiles@, i + 1);
        }
        sum = sum + letter_points(tiles[i]);
    }
    proof {
        assert(tiles@.take(n as int) =~= tiles@);
        lemma_rack_sum_prefix(tiles@, n as int);
    }
    sum
}

/// Whether the tiles left on all of `racks` are worth at most `i32::MAX`
/// together.
pub fn racks_fit(racks: &[(String, Vec<char>)]) -> (b: bool)
    ensures
        b == (racks_total(rack_entries(racks@)) <= i32::MAX),
{
    let ghost es = rack_entries(racks@);
    let n = racks.len();
    let mut total: i64 = 0;
    for i in 0..n
        invariant
            n == racks@.len(),
            es == rack_entries(racks@),
            total == racks_total(es.take(i as int)),
            0 <= total <= i32::MAX,
    {
        let tiles = &racks[i].1;
        let m = tiles.len();
        assert(es[i as int].1 == tiles@);
        proof {
            assert(es.take(i + 1).drop_last() =~= es.take(i as int));
            lemma_racks_total_prefix(es, i + 1);
        }
        let mut sub: i64 = total;
        for t in 0..m
            invariant
                m == tiles@.len(),
                n == racks@.len(),
                i < n,
                es == rack_entries(racks@),
                es[i as int].1 == tiles@,
                total == racks_total(es.take(i as int)),
                racks_total(es.take(i + 1)) == total + rack_sum(tiles@),
                racks_total(es.take(i + 1)) <= racks_total(es),
                sub == total + rack_sum(tiles@.take(t as int)),
                0 <= total <= sub <= i32::MAX,
        {
            proof {
                assert(tiles@.take(t + 1).drop_last() =~= tiles@.take(t as int));
                lemma_rack_sum_prefix(tiles@, t + 1);
            }
            sub = sub + letter_points(tiles[t]) as i64;
            if sub > i32::MAX as i64 {
                return false;
            }
        }
        proof {
            assert(tiles@.take(m as int) =~= tiles@);
        }
        total = sub;
    }
    proof {
        assert(es.take(n as int) =~= es);
    }
    true
}

/// A rack entry seen as plain values: the player's id and tiles.
pub type RackEntry = (Seq<char>, Seq<char>);

/// The entries of `racks` as plain values.
pub open spec fn rack_entries(racks: Seq<(String, Vec<char>)>) -> Seq<RackEntry> {
    racks.map_values(|e: (String, Vec<char>)| (e.0@, e.1@))
}

/// The total value of the tiles left on all racks.
pub open spec fn racks_total(racks: Seq<RackEntry>) -> int
    decreases racks.len(),
{
    if racks.len() == 0 {
        0
    } else {
        racks_total(racks.drop_last()) + rack_sum(racks.last().1)
    }
}

proof fn lemma_racks_total_prefix(racks: Seq<RackEntry>, k: int)
    requires
        0 <= k <= racks.len(),
    ensures
        0 <= racks_total(racks.take(k)) <= racks_total(racks),
        forall|i: int| 0 <= i < racks.len() ==> rack_sum(#[trigger] racks[i].1) <= racks_total(racks),
    decreases racks.len(),
{
    if racks.len() == 0 {
        assert(racks.take(k) =~= racks);
    } else {
        let d = racks.drop_last();
        let t = racks.last().1;
        lemma_rack_sum_prefix(t, 0);
        assert(t.take(0) =~= Seq::<char>::empty());
        lemma_racks_total_prefix(d, d.len() as int);
        assert(d.take(d.len() as int) =~= d);
        if k == racks.len() {
            assert(racks.take(k) =~= racks);
        } else {
            lemma_racks_total_prefix(d, k);
            assert(d.take(k) =~= racks.take(k));
        }
        assert forall|i: int| 0 <= i < racks.len() implies rack_sum(#[trigger] racks[i].1)
            <= racks_total(racks) by {
            if i < racks.len() - 1 {
                assert(racks[i] == d[i]);
            }
        }
    }
}

/// The end-of-game adjustment of rack entry `i`: every player loses the value
/// of the tiles left on their rack; the finisher gains the value left on all
/// racks but their own.
pub open spec fn adjustment(racks: Seq<RackEntry>, finisher: Option<Seq<char>>, i: int) -> int {
    let own = rack_sum(racks[i].1);
    if finisher == Some(racks[i].0) {
        racks_total(racks) - own
    } else {
        -own
    }
}

/// The characters of an optional string slice.
pub open spec fn opt_str(o: Option<&str>) -> Option<Seq<char>> {
    match o {
        Some(s) => Some(s@),
        None => None,
    }
}

/// End-of-game scoring adjustments. Every player loses the value of the tiles
/// left on their rack. If a player emptied their rack (`finisher`), they gain
/// the sum of everyone else's remaining tiles.
pub fn final_adjustments(racks: &[(String, Vec<char>)], finisher: Option<&str>) -> (r: Vec<
    (String, i32),
>)
    requires
        racks_total(rack_entries(racks@)) <= i32::MAX,
    ensures
        r@.len() == racks@.len(),
        forall|i: int|
            0 <= i < racks@.len() ==> (#[trigger] r@[i]).0@ == racks@[i].0@ && r@[i].1
                == adjustment(rack_entries(racks@), opt_str(finisher), i),
{
    let ghost es = rack_entries(racks@);
    let n = racks.len();
    let mut total: i32 = 0;
    for i in 0..n
        invariant
            n == racks@.len(),
            es == rack_entries(racks@),
            racks_total(es) <= i32::MAX,
            total == racks_total(es.take(i as int)),
    {
        proof {
            assert(es.take(i + 1).drop_last() =~= es.take(i as int));
            lemma_racks_total_prefix(es, i + 1);
            assert(es[i as int].1 == racks@[i as int].1@);
        }
        total = total + rack_value(racks[i].1.as_slice());
    }
    proof {
        assert(es.take(n as int) =~= es);
        lemma_racks_total_prefix(es, n as int);
    }
    let mut out: Vec<(String, i32)> = Vec::with_capacity(n);
    for i in 0..n
        invariant
            n == racks@.len(),
            es == rack_entries(racks@),
            total == racks_total(es),
            forall|k: int| 0 <= k < es.len() ==> rack_sum(#[trigger] es[k].1) <= total,
            out@.len() == i,
            forall|k: int|
                0 <= k < i ==> (#[trigger] out@[k]).0@ == racks@[k].0@ && out@[k].1
                    == adjustment(es, opt_str(finisher), k),
    {
        let (id, tiles) = &racks[i];
        assert(es[i as int].1 == tiles@);
        let own = rack_value(tiles.as_slice());
        let is_finisher = match finisher {
            Some(f) => str_eq(id.as_str(), f),
            None => false,
        };
        if is_finisher {
            out.push((id.clone(), total - own));
        } else {
            out.push((id.clone(), -own));
        }
    }
    out
}

/// The sum of the first `n` end-of-game adjustments.
pub open spec fn adjustments_total(racks: Seq<RackEntry>, finisher: Option<Seq<char>>, n: int) -> int
    decreases n,
{
    if n <= 0 {
        0
    } else {
        adjustments_total(racks, finisher, n - 1) + adjustment(racks, finisher, n - 1)
    }
}

/// How many of the first `n` rack entries belong to the finisher.
pub open spec fn finisher_entries(racks: Seq<RackEntry>, finisher: Option<Seq<char>>, n: int) -> int
    decreases n,
{
    if n <= 0 {
        0
    } else {
        finisher_entries(racks, finisher, n - 1) + if finisher == Some(racks[n - 1].0) {
            1int
        } else {
            0int
        }
    }
}

proof fn lemma_adjustments_prefix(racks: Seq<RackEntry>, finisher: Option<Seq<char>>, n: int)
    requires
        0 <= n <= racks.len(),
    ensures
        adjustments_total(racks, finisher, n) == finisher_entries(racks, finisher, n) * racks_total(racks)
            - racks_total(racks.take(n)),
    decreases n,
{
    if n == 0 {
        assert(racks.take(0) =~= Seq::<RackEntry>::empty());
    } else {
        lemma_adjustments_prefix(racks, finisher, n - 1);
        assert(racks.take(n).drop_last() =~= racks.take(n - 1));
        let c = finisher_entries(racks, finisher, n - 1);
        let t = racks_total(racks);
        assert((c + 1) * t == c * t + t) by (nonlinear_arith);
    }
}

/// The end-of-game adjustments only move points: when exactly one rack entry
/// is the finisher's, they add up to zero; when none is, everyone just loses
/// what is left on the racks.
pub proof fn lemma_adjustments_balance(racks: Seq<RackEntry>, finisher: Option<Seq<char>>)
    ensures
        finisher_entries(racks, finisher, racks.len() as int) == 1 ==> adjustments_total(
            racks,
            finisher,
            racks.len() as int,
        ) == 0,
        finisher_entries(racks, finisher, racks.len() as int) == 0 ==> adjustments_total(
            racks,
            finisher,
            racks.len() as int,
        ) == -racks_total(racks),
{
    lemma_adjustments_prefix(racks, finisher, racks.len() as int);
    assert(racks.take(racks.len() as int) =~= racks);
}

} // verus!
