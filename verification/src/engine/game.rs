//! The authoritative game state machine: racks, turn order, and the four move
//! kinds (play, swap, pass, resign), plus end-game detection and final
//! scoring.
use vstd::prelude::*;
use vstd::multiset::Multiset;
use rand::rngs::StdRng;

use crate::engine::bag::{TileBag, full_bag};
use crate::engine::board::{
    Board, PlacedTile, Placement, all_empty, cell_at, lemma_place_then_read, num_cells, on_board,
};
use crate::engine::constants::{BAG_SIZE, BOARD_SIZE, BLANK, RACK_SIZE, ascii_upper, upper};
use crate::engine::dictionary::Dictionary;
use crate::engine::rack::{take_all, try_take};
use crate::engine::scoring::{
    RackEntry, WordScore, adjustment, cells_of, final_adjustments, move_scorable, move_score,
    lemma_move_score_nonneg, rack_entries, racks_total, score_move, word_score,
};
use crate::engine::text::{str_eq, upper_all};
use crate::engine::validation::{
    MoveError, WordCell, lemma_geometry_ok, cell_error, first_cell_error, first_unknown, formed_words, geometry,
    letters, play_outcome, validate_play,
};

verus! {

#[derive(Debug, Clone)]
pub struct PlayerState {
    pub id: String,
    pub name: String,
    pub rack: Vec<char>,
    pub score: i32,
    pub resigned: bool,
}

#[derive(Debug, Clone)]
pub struct GameEngine {
    pub board: Board,
    pub bag: TileBag,
    pub players: Vec<PlayerState>,
    pub current_turn: usize,
    pub pass_streak: u32,
    pub move_count: u32,
    pub finished: bool,
    pub winner_id: Option<String>,
}

#[derive(Debug, Clone, PartialEq, Eq)]
pub enum GameError {
    NotYourTurn,
    GameFinished,
    UnknownPlayer,
    MissingTiles,
    CannotSwap,
    NotEnoughPlayers,
    Move(MoveError),
}

/// The text shown for a refused move.
pub open spec fn game_error_text(e: GameError) -> Seq<char> {
    match e {
        GameError::NotYourTurn => "it is not your turn"@,
        GameError::GameFinished => "the game is already finished"@,
        GameError::UnknownPlayer => "unknown player"@,
        GameError::MissingTiles => "you don't hold the tiles for that move"@,
        GameError::CannotSwap => "not enough tiles in the bag to swap"@,
        GameError::NotEnoughPlayers => "need at least two players"@,
        GameError::Move(m) => crate::engine::validation::move_error_text(m),
    }
}

impl GameError {
    /// The text shown for this error.
    pub fn message(&self) -> (s: String)
        ensures
            s@ == game_error_text(*self),
    {
        match self {
            GameError::NotYourTurn => "it is not your turn".to_owned(),
            GameError::GameFinished => "the game is already finished".to_owned(),
            GameError::UnknownPlayer => "unknown player".to_owned(),
            GameError::MissingTiles => "you don't hold the tiles for that move".to_owned(),
            GameError::CannotSwap => "not enough tiles in the bag to swap".to_owned(),
            GameError::NotEnoughPlayers => "need at least two players".to_owned(),
            GameError::Move(m) => m.message(),
        }
    }
}

/// Result of a successful scoring move.
#[derive(Debug, Clone)]
pub struct MoveOutcome {
    pub score: i32,
    pub words: Vec<WordScore>,
    pub game_over: bool,
}

/// A player as plain values: id, rack, score, resigned.
pub type Seat = (Seq<char>, Seq<char>, int, bool);

/// The players as plain values.
pub open spec fn seats(players: Seq<PlayerState>) -> Seq<Seat> {
    players.map_values(|p: PlayerState| (p.id@, p.rack@, p.score as int, p.resigned))
}

/// The characters of an optional string.
pub open spec fn opt_view(o: Option<String>) -> Option<Seq<char>> {
    match o {
        Some(s) => Some(s@),
        None => None,
    }
}

/// The index of the first seat from `i` on with id `id`.
pub open spec fn find_seat(ss: Seq<Seat>, id: Seq<char>, i: int) -> Option<int>
    decreases ss.len() - i,
{
    if i < 0 || i >= ss.len() {
        None
    } else if ss[i].0 == id {
        Some(i)
    } else {
        find_seat(ss, id, i + 1)
    }
}

/// The number of players who have not resigned.
pub open spec fn count_active(ss: Seq<Seat>) -> nat
    decreases ss.len(),
{
    if ss.len() == 0 {
        0
    } else {
        count_active(ss.drop_last()) + if ss.last().3 {
            0nat
        } else {
            1nat
        }
    }
}

/// Moves the turn on from `cur`, at most `steps` times, stopping at the first
/// player who has not resigned.
pub open spec fn advance(ss: Seq<Seat>, cur: int, steps: int) -> int
    decreases steps,
{
    if steps <= 0 {
        cur
    } else {
        let c = (cur + 1) % (ss.len() as int);
        if !ss[c].3 {
            c
        } else {
            advance(ss, c, steps - 1)
        }
    }
}

/// Whose turn comes after `cur`: the next player in list order (wrapping
/// around) who has not resigned; `cur` again when every player has resigned.
pub open spec fn next_turn(ss: Seq<Seat>, cur: int) -> int {
    advance(ss, cur, ss.len() as int)
}

/// The rack entries of the players who have not resigned, in order.
pub open spec fn active_entries(ss: Seq<Seat>) -> Seq<RackEntry>
    decreases ss.len(),
{
    if ss.len() == 0 {
        Seq::empty()
    } else {
        active_entries(ss.drop_last()) + if ss.last().3 {
            Seq::<RackEntry>::empty()
        } else {
            seq![(ss.last().0, ss.last().1)]
        }
    }
}

/// Applies the first `k` end-of-game adjustments: each goes to the first
/// player with the entry's id. `None` when a score leaves the `i32` range.
pub open spec fn settle(ss: Seq<Seat>, es: Seq<RackEntry>, fin: Option<Seq<char>>, k: int) -> Option<
    Seq<Seat>,
>
    decreases k,
{
    if k <= 0 {
        Some(ss)
    } else {
        match settle(ss, es, fin, k - 1) {
            None => None,
            Some(q) => match find_seat(q, es[k - 1].0, 0) {
                None => Some(q),
                Some(j) => {
                    let v = q[j].2 + adjustment(es, fin, k - 1);
                    if i32::MIN <= v <= i32::MAX {
                        Some(q.update(j, (q[j].0, q[j].1, v, q[j].3)))
                    } else {
                        None
                    }
                },
            },
        }
    }
}

/// The seats after all the end-of-game adjustments.
pub open spec fn settled(ss: Seq<Seat>, fin: Option<Seq<char>>) -> Option<Seq<Seat>> {
    let es = active_entries(ss);
    settle(ss, es, fin, es.len() as int)
}

/// The end of the game can be scored: the racks' total and every adjusted
/// score fit in an `i32`.
pub open spec fn can_finalize(ss: Seq<Seat>, fin: Option<Seq<char>>) -> bool {
    racks_total(active_entries(ss)) <= i32::MAX && settled(ss, fin) is Some
}

/// The winner among the first `n` seats: the last of the players who have
/// not resigned with the highest score.
pub open spec fn best_upto(ss: Seq<Seat>, n: int) -> Option<int>
    decreases n,
{
    if n <= 0 {
        None
    } else {
        let b = best_upto(ss, n - 1);
        if ss[n - 1].3 {
            b
        } else {
            match b {
                None => Some(n - 1),
                Some(k) => if ss[n - 1].2 >= ss[k].2 {
                    Some(n - 1)
                } else {
                    Some(k)
                },
            }
        }
    }
}

/// The id of the winner of seats `ss`.
pub open spec fn winner_of(ss: Seq<Seat>) -> Option<Seq<char>> {
    match best_upto(ss, ss.len() as int) {
        Some(k) => Some(ss[k].0),
        None => None,
    }
}

/// Whether the player `id` may move now, and their index if so.
pub open spec fn turn_check(finished: bool, ss: Seq<Seat>, current: int, id: Seq<char>) -> Result<
    int,
    GameError,
> {
    if finished {
        Err(GameError::GameFinished)
    } else {
        match find_seat(ss, id, 0) {
            None => Err(GameError::UnknownPlayer),
            Some(i) => if i != current {
                Err(GameError::NotYourTurn)
            } else {
                Ok(i)
            },
        }
    }
}

pub(crate) proof fn lemma_find_seat(ss: Seq<Seat>, id: Seq<char>, i: int)
    requires
        0 <= i,
    ensures
        find_seat(ss, id, i) matches Some(k) ==> i <= k < ss.len() && ss[k].0 == id,
    decreases ss.len() - i,
{
    if i < ss.len() && ss[i].0 != id {
        lemma_find_seat(ss, id, i + 1);
    }
}

/// The seat `e` places after `cur` around a table of `n` seats.
pub open spec fn seat_after(n: int, cur: int, e: int) -> int {
    (cur + e) % n
}

/// Every seat fewer than `e` places after `cur` is of a player who resigned.
pub open spec fn passed_resigned(ss: Seq<Seat>, cur: int, e: int) -> bool {
    forall|f: int| 1 <= f < e ==> (#[trigger] ss[seat_after(ss.len() as int, cur, f)]).3
}

proof fn lemma_advance(ss: Seq<Seat>, cur: int, steps: int, d: int)
    requires
        ss.len() > 0,
        0 <= cur < ss.len(),
        1 <= d <= steps,
        !ss[(cur + d) % (ss.len() as int)].3,
    ensures
        0 <= advance(ss, cur, steps) < ss.len(),
        !ss[advance(ss, cur, steps)].3,
        exists|e: int|
            1 <= e <= steps && advance(ss, cur, steps) == #[trigger] seat_after(ss.len() as int, cur, e)
                && passed_resigned(ss, cur, e),
    decreases steps,
{
    let n = ss.len() as int;
    let c = (cur + 1) % n;
    vstd::arithmetic::div_mod::lemma_mod_pos_bound(cur + 1, n);
    if !ss[c].3 {
        assert(advance(ss, cur, steps) == seat_after(n, cur, 1));
        assert(passed_resigned(ss, cur, 1));
    } else {
        assert(d >= 2);
        vstd::arithmetic::div_mod::lemma_add_mod_noop_right(d - 1, cur + 1, n);
        assert((c + (d - 1)) % n == (cur + d) % n);
        lemma_advance(ss, c, steps - 1, d - 1);
        let e0 = choose|e: int|
            1 <= e <= steps - 1 && advance(ss, c, steps - 1) == #[trigger] seat_after(n, c, e)
                && passed_resigned(ss, c, e);
        vstd::arithmetic::div_mod::lemma_add_mod_noop_right(e0, cur + 1, n);
        assert forall|f: int| 1 <= f < e0 + 1 implies (#[trigger] ss[seat_after(n, cur, f)]).3 by {
            if f > 1 {
                vstd::arithmetic::div_mod::lemma_add_mod_noop_right(f - 1, cur + 1, n);
                assert(ss[seat_after(n, c, f - 1)].3);
            }
        }
        assert(passed_resigned(ss, cur, e0 + 1));
        assert(advance(ss, cur, steps) == seat_after(n, cur, e0 + 1));
    }
}

proof fn lemma_some_active(ss: Seq<Seat>)
    requires
        count_active(ss) > 0,
    ensures
        exists|a: int| 0 <= a < ss.len() && !(#[trigger] ss[a]).3,
    decreases ss.len(),
{
    let d = ss.drop_last();
    if !ss.last().3 {
        assert(!ss[ss.len() - 1].3);
    } else {
        lemma_some_active(d);
        let a = choose|a: int| 0 <= a < d.len() && !(#[trigger] d[a]).3;
        assert(ss[a] == d[a]);
    }
}

/// The turn passes to the next player in list order, wrapping around, who
/// has not resigned: while someone is still in the game, the turn lands on
/// such a player, and every player passed over on the way has resigned.
pub proof fn lemma_next_turn_skips_resigned(ss: Seq<Seat>, cur: int)
    requires
        0 <= cur < ss.len(),
        count_active(ss) > 0,
    ensures
        0 <= next_turn(ss, cur) < ss.len(),
        !ss[next_turn(ss, cur)].3,
        exists|e: int|
            1 <= e <= ss.len() && next_turn(ss, cur) == #[trigger] seat_after(ss.len() as int, cur, e)
                && passed_resigned(ss, cur, e),
{
    let n = ss.len() as int;
    lemma_some_active(ss);
    let a = choose|a: int| 0 <= a < ss.len() && !(#[trigger] ss[a]).3;
    let d = if a > cur { a - cur } else { a - cur + n };
    if a > cur {
        vstd::arithmetic::div_mod::lemma_small_mod(a as nat, n as nat);
    } else {
        vstd::arithmetic::div_mod::lemma_mod_add_multiples_vanish(a, n);
        vstd::arithmetic::div_mod::lemma_small_mod(a as nat, n as nat);
    }
    assert((cur + d) % n == a);
    lemma_advance(ss, cur, n, d);
}

proof fn lemma_best_upto(ss: Seq<Seat>, n: int)
    requires
        0 <= n <= ss.len(),
    ensures
        match best_upto(ss, n) {
            Some(k) => 0 <= k < n && !ss[k].3 && forall|i: int|
                0 <= i < n && !(#[trigger] ss[i]).3 ==> ss[i].2 <= ss[k].2,
            None => forall|i: int| 0 <= i < n ==> (#[trigger] ss[i]).3,
        },
    decreases n,
{
    if n > 0 {
        lemma_best_upto(ss, n - 1);
    }
}

/// The winner is a player still in the game whose score no other such player
/// beats; there is no winner only when every player has resigned.
pub proof fn lemma_winner_has_top_score(ss: Seq<Seat>)
    ensures
        match winner_of(ss) {
            Some(id) => exists|k: int|
                0 <= k < ss.len() && (#[trigger] ss[k]).0 == id && !ss[k].3 && forall|i: int|
                    0 <= i < ss.len() && !(#[trigger] ss[i]).3 ==> ss[i].2 <= ss[k].2,
            None => forall|i: int| 0 <= i < ss.len() ==> (#[trigger] ss[i]).3,
        },
{
    lemma_best_upto(ss, ss.len() as int);
}

proof fn lemma_count_active_flags(a: Seq<Seat>, b: Seq<Seat>)
    requires
        a.len() == b.len(),
        forall|i: int| 0 <= i < a.len() ==> (#[trigger] a[i]).3 == b[i].3,
    ensures
        count_active(a) == count_active(b),
    decreases a.len(),
{
    if a.len() > 0 {
        let (da, db) = (a.drop_last(), b.drop_last());
        assert forall|i: int| 0 <= i < da.len() implies (#[trigger] da[i]).3 == db[i].3 by {
            assert(da[i] == a[i] && db[i] == b[i]);
        }
        lemma_count_active_flags(da, db);
        assert(a.last().3 == b[b.len() - 1].3);
    }
}

proof fn lemma_count_active_all(ss: Seq<Seat>)
    requires
        forall|i: int| 0 <= i < ss.len() ==> !(#[trigger] ss[i]).3,
    ensures
        count_active(ss) == ss.len(),
    decreases ss.len(),
{
    if ss.len() > 0 {
        let d = ss.drop_last();
        assert forall|i: int| 0 <= i < d.len() implies !(#[trigger] d[i]).3 by {
            assert(d[i] == ss[i]);
        }
        lemma_count_active_all(d);
        assert(!ss[ss.len() - 1].3);
    }
}

/// After a move that resigns nobody, with at least two players still in,
/// the turn passes to a player who has not resigned.
proof fn lemma_turn_moves_on(before: Seq<Seat>, after: Seq<Seat>, cur: int)
    requires
        before.len() == after.len(),
        forall|i: int| 0 <= i < before.len() ==> (#[trigger] after[i]).3 == before[i].3,
        0 <= cur < before.len(),
        count_active(before) >= 2,
    ensures
        count_active(after) >= 2,
        0 <= next_turn(after, cur) < after.len(),
        !after[next_turn(after, cur)].3,
{
    lemma_count_active_flags(after, before);
    lemma_next_turn_skips_resigned(after, cur);
}

/// The players keep their names.
pub open spec fn same_names(a: Seq<PlayerState>, b: Seq<PlayerState>) -> bool {
    a.len() == b.len() && forall|i: int| 0 <= i < a.len() ==> #[trigger] a[i].name == b[i].name
}

/// The game was scored to its end from the seats `before`: adjustments
/// applied, finished, and the winner decided.
pub open spec fn ended_from(
    before: Seq<Seat>,
    fin: Option<Seq<char>>,
    players: Seq<PlayerState>,
    finished: bool,
    winner: Option<String>,
) -> bool {
    &&& Some(seats(players)) == settled(before, fin)
    &&& finished
    &&& opt_view(winner) == winner_of(seats(players))
}

/// A scoreless turn (pass or swap) ends the game: the scoreless streak
/// reaches two full rounds of the players still in the game.
pub open spec fn streak_ends(pass_streak: int, ss: Seq<Seat>) -> bool {
    pass_streak + 1 >= 2 * count_active(ss)
}

/// The players of `ss` who have not resigned.
pub open spec fn still_in(ss: Seq<Seat>) -> Seq<Seat> {
    ss.filter(|s: Seat| !s.3)
}

proof fn lemma_count_active_is_still_in(ss: Seq<Seat>)
    ensures
        count_active(ss) == still_in(ss).len(),
    decreases ss.len(),
{
    reveal(Seq::filter);
    if ss.len() > 0 {
        lemma_count_active_is_still_in(ss.drop_last());
    }
}

/// A scoreless turn ends the game exactly when the scoreless streak after it
/// reaches twice the number of players who have not resigned; resigned
/// players do not count.
pub proof fn lemma_scoreless_end(pass_streak: int, ss: Seq<Seat>)
    ensures
        streak_ends(pass_streak, ss) <==> pass_streak + 1 >= 2 * still_in(ss).len(),
{
    lemma_count_active_is_still_in(ss);
}

/// A scoreless turn stays within the counters' ranges, and the game can be
/// scored if it ends.
pub open spec fn scoreless_fits(pass_streak: u32, move_count: u32, ss: Seq<Seat>) -> bool {
    &&& pass_streak < u32::MAX
    &&& move_count < u32::MAX
    &&& 2 * count_active(ss) <= u32::MAX
    &&& streak_ends(pass_streak as int, ss) ==> can_finalize(ss, None)
}

/// The seats after the player at `idx` resigns.
pub open spec fn resigned_seats(ss: Seq<Seat>, idx: int) -> Seq<Seat> {
    ss.update(idx, (ss[idx].0, ss[idx].1, ss[idx].2, true))
}

/// The seats after the player at `idx` gets the rack `rack`.
pub open spec fn with_rack(ss: Seq<Seat>, idx: int, rack: Seq<char>) -> Seq<Seat> {
    ss.update(idx, (ss[idx].0, rack, ss[idx].2, ss[idx].3))
}

/// The `k` tiles on top of the bag (its end), drawn in bag order.
pub open spec fn top_tiles(bag: Seq<char>, k: int) -> Seq<char> {
    bag.subrange(bag.len() - k, bag.len() as int)
}

/// The bag once its top `k` tiles are drawn.
pub open spec fn bag_after_draw(bag: Seq<char>, k: int) -> Seq<char> {
    bag.subrange(0, bag.len() - k)
}

/// The placements with their letters upper-cased.
pub open spec fn upper_placements(ps: Seq<Placement>) -> Seq<Placement> {
    ps.map_values(
        |p: Placement| Placement { row: p.row, col: p.col, letter: upper(p.letter), is_blank: p.is_blank },
    )
}

/// The rack tiles a move uses: a blank for each blank placement, else the
/// letter.
pub open spec fn needed_tiles(ps: Seq<Placement>) -> Seq<char> {
    ps.map_values(|p: Placement| if p.is_blank { BLANK } else { p.letter })
}

/// The board cells after laying the placements `ps` down in order.
pub open spec fn placed(cells: Seq<Option<PlacedTile>>, ps: Seq<Placement>) -> Seq<Option<PlacedTile>>
    decreases ps.len(),
{
    if ps.len() == 0 {
        cells
    } else {
        let p = ps.last();
        placed(cells, ps.drop_last()).update(
            p.row * BOARD_SIZE + p.col,
            Some(PlacedTile { letter: p.letter, is_blank: p.is_blank }),
        )
    }
}

/// Laying tiles down puts each placed tile on its own square, and leaves
/// every square where nothing was placed as it was; the placements must be
/// on distinct squares of the board.
pub proof fn lemma_placed_squares(cells: Seq<Option<PlacedTile>>, ps: Seq<Placement>)
    requires
        cells.len() == num_cells(),
        forall|k: int| 0 <= k < ps.len() ==> on_board(#[trigger] ps[k].row as int, ps[k].col as int),
        forall|i: int, j: int|
            0 <= i < j < ps.len() ==> !(#[trigger] ps[i].row == #[trigger] ps[j].row && ps[i].col
                == ps[j].col),
    ensures
        placed(cells, ps).len() == num_cells(),
        forall|k: int|
            0 <= k < ps.len() ==> cell_at(placed(cells, ps), ps[k].row as int, ps[k].col as int) == Some(
                PlacedTile { letter: (#[trigger] ps[k]).letter, is_blank: ps[k].is_blank },
            ),
        forall|r: int, c: int|
            (forall|k: int| 0 <= k < ps.len() ==> !(#[trigger] ps[k].row == r && ps[k].col == c))
                ==> #[trigger] cell_at(placed(cells, ps), r, c) == cell_at(cells, r, c),
    decreases ps.len(),
{
    if ps.len() > 0 {
        let d = ps.drop_last();
        let p = ps.last();
        assert forall|k: int| 0 <= k < d.len() implies on_board(#[trigger] d[k].row as int, d[k].col as int) by {
            assert(d[k] == ps[k]);
        }
        assert forall|i: int, j: int| 0 <= i < j < d.len() implies !(#[trigger] d[i].row == #[trigger] d[j].row
            && d[i].col == d[j].col) by {
            assert(d[i] == ps[i] && d[j] == ps[j]);
        }
        lemma_placed_squares(cells, d);
        let before = placed(cells, d);
        let t = PlacedTile { letter: p.letter, is_blank: p.is_blank };
        assert(on_board(ps[ps.len() - 1].row as int, ps[ps.len() - 1].col as int));
        assert forall|k: int| 0 <= k < ps.len() implies cell_at(placed(cells, ps), ps[k].row as int, ps[k].col as int)
            == Some(PlacedTile { letter: (#[trigger] ps[k]).letter, is_blank: ps[k].is_blank }) by {
            lemma_place_then_read(before, p.row as int, p.col as int, t, ps[k].row as int, ps[k].col as int);
            if k < ps.len() - 1 {
                assert(d[k] == ps[k]);
                assert(!(ps[k].row == ps[ps.len() - 1].row && ps[k].col == ps[ps.len() - 1].col));
            }
        }
        assert forall|r: int, c: int|
            (forall|k: int| 0 <= k < ps.len() ==> !(#[trigger] ps[k].row == r && ps[k].col == c)) implies
                #[trigger] cell_at(placed(cells, ps), r, c) == cell_at(cells, r, c) by {
            lemma_place_then_read(before, p.row as int, p.col as int, t, r, c);
            assert(!(ps[ps.len() - 1].row == r && ps[ps.len() - 1].col == c));
            assert forall|k: int| 0 <= k < d.len() implies !(#[trigger] d[k].row == r && d[k].col == c) by {
                assert(d[k] == ps[k]);
            }
        }
    }
}

/// The words of a valid play, or `None` when validation fails.
pub open spec fn play_words(board: Seq<Option<PlacedTile>>, ps: Seq<Placement>, dict: Set<Seq<char>>) -> Option<
    Seq<Seq<WordCell>>,
> {
    match geometry(board, ps) {
        Err(_) => None,
        Ok(axis) => {
            let ws = formed_words(board, ps, axis);
            if ws.len() == 0 || first_unknown(ws, dict, 0) is Some {
                None
            } else {
                Some(ws)
            }
        },
    }
}

/// The player's rack after a play: what is left of it, refilled from the top
/// of the bag with up to as many tiles as were placed.
pub open spec fn refilled(rest: Seq<char>, bag: Seq<char>, placed_count: int) -> Seq<char> {
    rest + top_tiles(bag, drawn_count(bag, placed_count))
}

/// How many tiles a draw of `n` takes from the bag: `n`, or all that is left.
pub open spec fn drawn_count(bag: Seq<char>, n: int) -> int {
    if n < bag.len() {
        n
    } else {
        bag.len() as int
    }
}

/// The seats after a play by the player at `idx`: new rack and score.
pub open spec fn seats_after_play(
    ss: Seq<Seat>,
    idx: int,
    rest: Seq<char>,
    bag: Seq<char>,
    placed_count: int,
    points: int,
) -> Seq<Seat> {
    ss.update(idx, (ss[idx].0, refilled(rest, bag, placed_count), ss[idx].2 + points, ss[idx].3))
}

/// A valid play by the player at `idx` stays within the ranges of the
/// scores and counters, and the game can be scored if it ends.
pub open spec fn play_fits(
    ss: Seq<Seat>,
    idx: int,
    rest: Seq<char>,
    bag: Seq<char>,
    ws: Seq<Seq<WordCell>>,
    placed_count: int,
    move_count: u32,
    player: Seq<char>,
) -> bool {
    let points = move_score(ws, placed_count);
    let after = seats_after_play(ss, idx, rest, bag, placed_count, points);
    &&& move_scorable(ws, placed_count)
    &&& ss[idx].2 + points <= i32::MAX
    &&& move_count < u32::MAX
    &&& (refilled(rest, bag, placed_count).len() == 0 && placed_count >= bag.len()) ==> can_finalize(
        after,
        Some(player),
    )
}

/// All the tiles on the racks of `ss`.
pub open spec fn racks_pool(ss: Seq<Seat>) -> Multiset<char>
    decreases ss.len(),
{
    if ss.len() == 0 {
        Multiset::empty()
    } else {
        racks_pool(ss.drop_last()).add(ss.last().1.to_multiset())
    }
}

/// The tiles still in play off the board: the bag and all racks.
pub open spec fn pool(bag: Seq<char>, ss: Seq<Seat>) -> Multiset<char> {
    bag.to_multiset().add(racks_pool(ss))
}

/// How many tiles are left in a fresh bag after `i` racks are dealt.
pub open spec fn left_after_deal(i: int) -> int {
    if BAG_SIZE - RACK_SIZE * i > 0 {
        BAG_SIZE - RACK_SIZE * i
    } else {
        0
    }
}

/// Where the top of a bag of `len` tiles stands once `i` racks have been
/// dealt from it: `RACK_SIZE` tiles each, or all that is left.
pub open spec fn deal_top(len: int, i: int) -> int {
    if len - RACK_SIZE * i > 0 {
        len - RACK_SIZE * i
    } else {
        0
    }
}

/// The rack of the `i`-th player dealt from `bag`: the next `RACK_SIZE`
/// tiles off its top (its end), or all that is left, in bag order.
pub open spec fn dealt_rack(bag: Seq<char>, i: int) -> Seq<char> {
    bag.subrange(deal_top(bag.len() as int, i + 1), deal_top(bag.len() as int, i))
}

/// The racks of `players` and the bag `rest` are what dealing from `bag`
/// leaves: rack `i` is `dealt_rack(bag, i)`, and the rest stays in the bag.
pub open spec fn dealt_from(bag: Seq<char>, players: Seq<PlayerState>, rest: Seq<char>) -> bool {
    &&& rest == bag.subrange(0, deal_top(bag.len() as int, players.len() as int))
    &&& forall|i: int| 0 <= i < players.len() ==> (#[trigger] players[i]).rack@ == dealt_rack(bag, i)
}

/// The size of the `i`-th rack dealt from a fresh bag: a full rack, or what
/// is left.
pub open spec fn dealt(i: int) -> int {
    if left_after_deal(i) >= RACK_SIZE {
        RACK_SIZE as int
    } else {
        left_after_deal(i)
    }
}

proof fn lemma_racks_pool_update(ss: Seq<Seat>, i: int, x: Seat)
    requires
        0 <= i < ss.len(),
    ensures
        racks_pool(ss.update(i, x)).add(ss[i].1.to_multiset()) == racks_pool(ss).add(
            x.1.to_multiset(),
        ),
    decreases ss.len(),
{
    broadcast use vstd::multiset::group_multiset_axioms;

    let u = ss.update(i, x);
    if i == ss.len() - 1 {
        assert(u.drop_last() =~= ss.drop_last());
        assert(racks_pool(u).add(ss[i].1.to_multiset()) =~= racks_pool(ss).add(x.1.to_multiset()));
    } else {
        lemma_racks_pool_update(ss.drop_last(), i, x);
        assert(u.drop_last() =~= ss.drop_last().update(i, x));
        assert(ss.drop_last()[i] == ss[i]);
        assert(u.last() == ss.last());
        let a = racks_pool(ss.drop_last().update(i, x));
        let b = racks_pool(ss.drop_last());
        assert(racks_pool(u) == a.add(ss.last().1.to_multiset()));
        assert(racks_pool(ss) == b.add(ss.last().1.to_multiset()));
        let mi = ss[i].1.to_multiset();
        let mx = x.1.to_multiset();
        let l = ss.last().1.to_multiset();
        assert forall|v: char| #[trigger] a.add(l).add(mi).count(v) == b.add(l).add(mx).count(v) by {
            assert(a.add(mi).count(v) == b.add(mx).count(v));
        }
        assert(racks_pool(u).add(ss[i].1.to_multiset()) =~= racks_pool(ss).add(x.1.to_multiset()));
    }
}

proof fn lemma_racks_pool_same(a: Seq<Seat>, b: Seq<Seat>)
    requires
        a.len() == b.len(),
        forall|i: int| 0 <= i < a.len() ==> #[trigger] a[i].1 == b[i].1,
    ensures
        racks_pool(a) == racks_pool(b),
    decreases a.len(),
{
    if a.len() > 0 {
        lemma_racks_pool_same(a.drop_last(), b.drop_last());
    }
}

proof fn lemma_settle_keeps_racks(ss: Seq<Seat>, es: Seq<RackEntry>, fin: Option<Seq<char>>, k: int)
    requires
        settle(ss, es, fin, k) is Some,
    ensures
        settle(ss, es, fin, k)->Some_0.len() == ss.len(),
        forall|i: int|
            0 <= i < ss.len() ==> (#[trigger] settle(ss, es, fin, k)->Some_0[i]).1 == ss[i].1
                && settle(ss, es, fin, k)->Some_0[i].0 == ss[i].0 && settle(
                ss,
                es,
                fin,
                k,
            )->Some_0[i].3 == ss[i].3,
    decreases k,
{
    if k > 0 {
        lemma_settle_keeps_racks(ss, es, fin, k - 1);
        let q = settle(ss, es, fin, k - 1)->Some_0;
        lemma_find_seat(q, es[k - 1].0, 0);
    }
}

/// Ending the game changes scores only: ids, racks and resignations stay,
/// and so do the tiles in play.
pub proof fn lemma_settled_keeps_tiles(ss: Seq<Seat>, fin: Option<Seq<char>>)
    requires
        settled(ss, fin) is Some,
    ensures
        settled(ss, fin)->Some_0.len() == ss.len(),
        forall|i: int|
            0 <= i < ss.len() ==> (#[trigger] settled(ss, fin)->Some_0[i]).1 == ss[i].1
                && settled(ss, fin)->Some_0[i].0 == ss[i].0 && settled(ss, fin)->Some_0[i].3
                == ss[i].3,
        racks_pool(settled(ss, fin)->Some_0) == racks_pool(ss),
{
    let es = active_entries(ss);
    lemma_settle_keeps_racks(ss, es, fin, es.len() as int);
    lemma_racks_pool_same(settled(ss, fin)->Some_0, ss);
}

/// The tiles a player's rack changes by, seen from the pool: when the rack
/// `rack` of seat `i` becomes `rest + top`, with `rest` the rack without
/// `used`, and the bag gives up its top tiles `top`.
proof fn lemma_rack_change_pool(
    ss: Seq<Seat>,
    i: int,
    used: Seq<char>,
    rest: Seq<char>,
    bag: Seq<char>,
    k: int,
    x: Seat,
)
    requires
        0 <= i < ss.len(),
        0 <= k <= bag.len(),
        take_all(ss[i].1, used) == Some(rest),
        x.1 == rest + top_tiles(bag, k),
    ensures
        bag_after_draw(bag, k).to_multiset().add(racks_pool(ss.update(i, x))).add(
            used.to_multiset(),
        ) == pool(bag, ss),
{
    broadcast use vstd::multiset::group_multiset_axioms;

    let rack = ss[i].1;
    let top = top_tiles(bag, k);
    let bad = bag_after_draw(bag, k);
    crate::engine::rack::lemma_take_all_multiset(rack, used);
    lemma_racks_pool_update(ss, i, x);
    vstd::seq_lib::lemma_multiset_commutative(rest, top);
    assert(bag =~= bad + top);
    vstd::seq_lib::lemma_multiset_commutative(bad, top);
    let r2 = racks_pool(ss.update(i, x));
    let r = racks_pool(ss);
    assert forall|v: char| #[trigger] bad.to_multiset().add(r2).add(used.to_multiset()).count(v)
        == pool(bag, ss).count(v) by {
        assert(r2.add(rack.to_multiset()).count(v) == r.add(x.1.to_multiset()).count(v));
        assert(used.to_multiset().count(v) <= rack.to_multiset().count(v));
    }
    assert(bad.to_multiset().add(r2).add(used.to_multiset()) =~= pool(bag, ss));
}

pub(crate) proof fn lemma_settle_prefix(
    ss: Seq<Seat>,
    es: Seq<RackEntry>,
    fin: Option<Seq<char>>,
    j: int,
    k: int,
)
    requires
        0 <= j <= k,
        settle(ss, es, fin, k) is Some,
    ensures
        settle(ss, es, fin, j) is Some,
    decreases k,
{
    if j < k {
        lemma_settle_prefix(ss, es, fin, j, k - 1);
    }
}

/// The number of players who have not resigned.
pub(crate) fn active_of(players: &Vec<PlayerState>) -> (n: usize)
    ensures
        n == count_active(seats(players@)),
        n <= players@.len(),
{
    let ghost ss = seats(players@);
    let len = players.len();
    let mut n: usize = 0;
    for i in 0..len
        invariant
            len == ss.len(),
            ss == seats(players@),
            n == count_active(ss.take(i as int)),
            n <= i,
    {
        assert(ss.take(i + 1).drop_last() =~= ss.take(i as int));
        if !players[i].resigned {
            n = n + 1;
        }
    }
    assert(ss.take(len as int) =~= ss);
    n
}

impl GameEngine {
    /// The game state is well formed: a full board, and the current turn
    /// names a player.
    pub open spec fn wf(&self) -> bool {
        self.board.wf() && self.current_turn < self.players@.len()
    }

    /// The turn is in order: while the game runs, the current seat is that of
    /// a player who has not resigned, and at least two players are still in.
    /// A new game starts so, and every move keeps it so.
    pub open spec fn turn_valid(&self) -> bool {
        self.finished || {
            &&& self.current_turn < self.players@.len()
            &&& !self.players@[self.current_turn as int].resigned
            &&& count_active(seats(self.players@)) >= 2
        }
    }

    pub fn current_player_id(&self) -> (id: &str)
        requires
            self.current_turn < self.players@.len(),
        ensures
            id@ == self.players@[self.current_turn as int].id@,
    {
        self.players[self.current_turn].id.as_str()
    }

    pub(crate) fn player_index(&self, id: &str) -> (r: Result<usize, GameError>)
        ensures
            match r {
                Ok(i) => find_seat(seats(self.players@), id@, 0) == Some(i as int),
                Err(e) => find_seat(seats(self.players@), id@, 0) is None && e == GameError::UnknownPlayer,
            },
    {
        let ghost ss = seats(self.players@);
        let n = self.players.len();
        for i in 0..n
            invariant
                n == ss.len(),
                ss == seats(self.players@),
                find_seat(ss, id@, 0) == find_seat(ss, id@, i as int),
        {
            if str_eq(self.players[i].id.as_str(), id) {
                return Ok(i);
            }
        }
        Err(GameError::UnknownPlayer)
    }

    pub(crate) fn ensure_turn(&self, id: &str) -> (r: Result<usize, GameError>)
        ensures
            match r {
                Ok(i) => turn_check(self.finished, seats(self.players@), self.current_turn as int, id@)
                    == Ok::<int, GameError>(i as int) && i == self.current_turn && i < self.players@.len(),
                Err(e) => turn_check(self.finished, seats(self.players@), self.current_turn as int, id@)
                    == Err::<int, GameError>(e),
            },
    {
        proof {
            lemma_find_seat(seats(self.players@), id@, 0);
        }
        if self.finished {
            return Err(GameError::GameFinished);
        }
        let idx = match self.player_index(id) {
            Ok(i) => i,
            Err(e) => {
                return Err(e);
            },
        };
        if idx != self.current_turn {
            return Err(GameError::NotYourTurn);
        }
        Ok(idx)
    }

    fn active_count(&self) -> (n: usize)
        ensures
            n == count_active(seats(self.players@)),
    {
        active_of(&self.players)
    }

    fn advance_turn(&mut self)
        requires
            old(self).current_turn < old(self).players@.len(),
        ensures
            final(self).current_turn == next_turn(
                seats(old(self).players@),
                old(self).current_turn as int,
            ),
            final(self).current_turn < final(self).players@.len(),
            final(self).players == old(self).players,
            final(self).board == old(self).board,
            final(self).bag == old(self).bag,
            final(self).pass_streak == old(self).pass_streak,
            final(self).move_count == old(self).move_count,
            final(self).finished == old(self).finished,
            final(self).winner_id == old(self).winner_id,
    {
        let ghost ss = seats(self.players@);
        let ghost start = self.current_turn as int;
        let n = self.players.len();
        for k in 0..n
            invariant
                n == ss.len(),
                ss == seats(self.players@),
                self.current_turn < n,
                next_turn(ss, start) == advance(ss, self.current_turn as int, n - k),
                start == old(self).current_turn,
                self.players == old(self).players,
                self.board == old(self).board,
                self.bag == old(self).bag,
                self.pass_streak == old(self).pass_streak,
                self.move_count == old(self).move_count,
                self.finished == old(self).finished,
                self.winner_id == old(self).winner_id,
        {
            let ghost cur = self.current_turn as int;
            self.current_turn = (self.current_turn + 1) % n;
            assert(ss[self.current_turn as int].3 == self.players@[self.current_turn as int].resigned);
            assert(advance(ss, cur, n - k) == if !ss[self.current_turn as int].3 {
                self.current_turn as int
            } else {
                advance(ss, self.current_turn as int, n - k - 1)
            });
            if !self.players[self.current_turn].resigned {
                return;
            }
        }
    }

    /// Applies the end-of-game rack adjustments and decides the winner.
    fn finalize(&mut self, finisher: Option<String>)
        requires
            can_finalize(seats(old(self).players@), opt_view(finisher)),
        ensures
            ended_from(
                seats(old(self).players@),
                opt_view(finisher),
                final(self).players@,
                final(self).finished,
                final(self).winner_id,
            ),
            same_names(final(self).players@, old(self).players@),
            final(self).board == old(self).board,
            final(self).bag == old(self).bag,
            final(self).current_turn == old(self).current_turn,
            final(self).pass_streak == old(self).pass_streak,
            final(self).move_count == old(self).move_count,
    {
        let ghost ss0 = seats(self.players@);
        let ghost fin_v = opt_view(finisher);
        let ghost es = active_entries(ss0);
        let n = self.players.len();
        let mut racks: Vec<(String, Vec<char>)> = Vec::new();
        for i in 0..n
            invariant
                n == ss0.len(),
                ss0 == seats(self.players@),
                rack_entries(racks@) =~= active_entries(ss0.take(i as int)),
        {
            let p = &self.players[i];
            assert(ss0.take(i + 1).drop_last() =~= ss0.take(i as int));
            if !p.resigned {
                let r = p.rack.clone();
                assert(r@ =~= p.rack@);
                racks.push((p.id.clone(), r));
            }
        }
        assert(ss0.take(n as int) =~= ss0);
        assert(rack_entries(racks@) == es);
        let fin: Option<&str> = match &finisher {
            Some(f) => Some(f.as_str()),
            None => None,
        };
        assert(crate::engine::scoring::opt_str(fin) == fin_v);
        let deltas = final_adjustments(&racks, fin);
        let m = deltas.len();
        for j in 0..m
            invariant
                m == deltas@.len(),
                m == es.len(),
                es == active_entries(ss0),
                settle(ss0, es, fin_v, m as int) is Some,
                settle(ss0, es, fin_v, j as int) == Some(seats(self.players@)),
                self.players@.len() == old(self).players@.len(),
                forall|i: int|
                    0 <= i < old(self).players@.len() ==> (#[trigger] self.players@[i]).name
                        == old(self).players@[i].name,
                forall|k: int|
                    0 <= k < m ==> (#[trigger] deltas@[k]).0@ == es[k].0 && deltas@[k].1
                        == adjustment(es, fin_v, k),
                self.board == old(self).board,
                self.bag == old(self).bag,
                self.current_turn == old(self).current_turn,
                self.pass_streak == old(self).pass_streak,
                self.move_count == old(self).move_count,
        {
            let ghost q = seats(self.players@);
            let id = deltas[j].0.as_str();
            let delta = deltas[j].1;
            proof {
                lemma_settle_prefix(ss0, es, fin_v, j + 1, m as int);
            }
            let len = self.players.len();
            let mut k: usize = 0;
            while k < len && !str_eq(self.players[k].id.as_str(), id)
                invariant
                    k <= len,
                    len == q.len(),
                    q == seats(self.players@),
                    find_seat(q, id@, 0) == find_seat(q, id@, k as int),
                decreases len - k,
            {
                k = k + 1;
            }
            if k < len {
                let v = self.players[k].score + delta;
                self.players[k].score = v;
                proof {
                    assert(seats(self.players@) =~= q.update(
                        k as int,
                        (q[k as int].0, q[k as int].1, v as int, q[k as int].3),
                    ));
                }
            }
        }
        self.finished = true;
        let ghost ss1 = seats(self.players@);
        let mut best: Option<usize> = None;
        for i in 0..n
            invariant
                n == ss1.len(),
                ss1 == seats(self.players@),
                match best {
                    Some(b) => best_upto(ss1, i as int) == Some(b as int) && b < i,
                    None => best_upto(ss1, i as int) is None,
                },
        {
            if !self.players[i].resigned {
                match best {
                    None => {
                        best = Some(i);
                    },
                    Some(b) => {
                        if self.players[i].score >= self.players[b].score {
                            best = Some(i);
                        }
                    },
                }
            }
        }
        self.winner_id = match best {
            Some(b) => Some(self.players[b].id.clone()),
            None => None,
        };
    }
}

impl GameEngine {
    /// Shared handling for pass and swap: bumps the scoreless streak, ends the
    /// game after two full scoreless rounds, otherwise advances the turn.
    fn scoreless_turn(&mut self)
        requires
            old(self).current_turn < old(self).players@.len(),
            scoreless_fits(old(self).pass_streak, old(self).move_count, seats(old(self).players@)),
        ensures
            final(self).pass_streak == old(self).pass_streak + 1,
            final(self).move_count == old(self).move_count + 1,
            final(self).board == old(self).board,
            final(self).bag == old(self).bag,
            same_names(final(self).players@, old(self).players@),
            final(self).current_turn < final(self).players@.len(),
            if streak_ends(old(self).pass_streak as int, seats(old(self).players@)) {
                &&& ended_from(
                    seats(old(self).players@),
                    None,
                    final(self).players@,
                    final(self).finished,
                    final(self).winner_id,
                )
                &&& final(self).current_turn == old(self).current_turn
            } else {
                &&& final(self).players == old(self).players
                &&& final(self).finished == old(self).finished
                &&& final(self).winner_id == old(self).winner_id
                &&& final(self).current_turn == next_turn(
                    seats(old(self).players@),
                    old(self).current_turn as int,
                )
            },
    {
        self.pass_streak = self.pass_streak + 1;
        self.move_count = self.move_count + 1;
        let active = self.active_count();
        if self.pass_streak >= 2 * active as u32 {
            self.finalize(None);
        } else {
            self.advance_turn();
        }
    }

    /// Removes `tiles` from a rack if the rack holds them all (a multiset
    /// check); the rack is unchanged otherwise.
    fn take_from_rack(rack: &mut Vec<char>, tiles: &[char]) -> (b: bool)
        ensures
            match take_all(old(rack)@, tiles@) {
                Some(w) => b && final(rack)@ == w,
                None => !b && *final(rack) == *old(rack),
            },
    {
        match try_take(rack, tiles) {
            Some(w) => {
                *rack = w;
                true
            },
            None => false,
        }
    }

    /// Deals a rack to each of `players` from the top of `bag`, in order:
    /// the first player gets the top `RACK_SIZE` tiles, the next the
    /// following ones, and so on while tiles last. Returns the players, with
    /// no score, and the bag that is left.
    pub fn deal(bag: TileBag, players: &[(String, String)]) -> (r: (Vec<PlayerState>, TileBag))
        ensures
            r.0@.len() == players@.len(),
            forall|i: int|
                0 <= i < players@.len() ==> {
                    &&& (#[trigger] r.0@[i]).id@ == players@[i].0@
                    &&& r.0@[i].name@ == players@[i].1@
                    &&& r.0@[i].rack@ == dealt_rack(bag@, i)
                    &&& r.0@[i].score == 0
                    &&& !r.0@[i].resigned
                },
            r.1@ == bag@.subrange(0, deal_top(bag@.len() as int, players@.len() as int)),
            pool(r.1@, seats(r.0@)) == bag@.to_multiset(),
    {
        let ghost orig = bag@;
        let ghost len = orig.len() as int;
        let mut bag = bag;
        let n = players.len();
        let mut states: Vec<PlayerState> = Vec::with_capacity(n);
        proof {
            assert(orig.subrange(0, deal_top(len, 0)) =~= orig);
            assert(pool(bag@, seats(states@)) =~= orig.to_multiset()) by {
                broadcast use vstd::multiset::group_multiset_axioms;
                assert(seats(states@) =~= Seq::<Seat>::empty());
            }
        }
        for i in 0..n
            invariant
                n == players@.len(),
                len == orig.len(),
                states@.len() == i,
                bag@ == orig.subrange(0, deal_top(len, i as int)),
                pool(bag@, seats(states@)) == orig.to_multiset(),
                forall|k: int|
                    0 <= k < i ==> {
                        &&& (#[trigger] states@[k]).id@ == players@[k].0@
                        &&& states@[k].name@ == players@[k].1@
                        &&& states@[k].rack@ == dealt_rack(orig, k)
                        &&& states@[k].score == 0
                        &&& !states@[k].resigned
                    },
        {
            let ghost before = bag@;
            let rack = bag.draw(RACK_SIZE);
            proof {
                assert(before =~= bag@ + rack@);
                vstd::seq_lib::lemma_multiset_commutative(bag@, rack@);
                assert(bag@ =~= orig.subrange(0, deal_top(len, i + 1)));
                assert(rack@ =~= dealt_rack(orig, i as int));
            }
            let ghost prev = states@;
            states.push(
                PlayerState {
                    id: players[i].0.clone(),
                    name: players[i].1.clone(),
                    rack,
                    score: 0,
                    resigned: false,
                },
            );
            proof {
                assert(seats(states@).drop_last() =~= seats(prev));
                broadcast use vstd::multiset::group_multiset_axioms;
                assert(pool(bag@, seats(states@)) =~= pool(before, seats(prev)));
            }
        }
        (states, bag)
    }

    /// Starts a new game, dealing a rack to each player from a shuffled bag.
    /// `players` is an ordered list of `(id, name)`; turn order follows it.
    pub fn new(players: &[(String, String)], rng: &mut StdRng) -> (r: Result<GameEngine, GameError>)
        ensures
            players@.len() < 2 <==> r is Err,
            r is Err ==> r->Err_0 == GameError::NotEnoughPlayers,
            r matches Ok(g) ==> {
                &&& g.wf()
                &&& g.turn_valid()
                &&& all_empty(g.board@)
                &&& g.players@.len() == players@.len()
                &&& forall|i: int|
                    0 <= i < players@.len() ==> {
                        &&& (#[trigger] g.players@[i]).id@ == players@[i].0@
                        &&& g.players@[i].name@ == players@[i].1@
                        &&& g.players@[i].rack@.len() == dealt(i)
                        &&& g.players@[i].score == 0
                        &&& !g.players@[i].resigned
                    }
                &&& pool(g.bag@, seats(g.players@)) == full_bag().to_multiset()
                &&& g.bag@.len() == left_after_deal(players@.len() as int)
                &&& exists|b: Seq<char>|
                    #[trigger] dealt_from(b, g.players@, g.bag@) && b.to_multiset()
                        == full_bag().to_multiset() && b.len() == BAG_SIZE
                &&& g.current_turn == 0
                &&& g.pass_streak == 0
                &&& g.move_count == 0
                &&& !g.finished
                &&& g.winner_id is None
            },
    {
        if players.len() < 2 {
            return Err(GameError::NotEnoughPlayers);
        }
        let bag = TileBag::shuffled(rng);
        let ghost full = bag@;
        let (states, bag) = Self::deal(bag, players);
        proof {
            assert forall|i: int| 0 <= i < players@.len() implies (#[trigger] states@[i]).rack@.len() == dealt(i) by {
                assert(deal_top(full.len() as int, i) == left_after_deal(i));
                assert(deal_top(full.len() as int, i + 1) == left_after_deal(i + 1));
            }
            assert(dealt_from(full, states@, bag@));
            lemma_count_active_all(seats(states@));
        }
        Ok(
            GameEngine {
                board: Board::empty(),
                bag,
                players: states,
                current_turn: 0,
                pass_streak: 0,
                move_count: 0,
                finished: false,
                winner_id: None,
            },
        )
    }

    /// Plays tiles onto the board.
    pub fn apply_play(
        &mut self,
        player_id: &str,
        placements: &[Placement],
        dict: &Dictionary,
        _rng: &mut StdRng,
    ) -> (r: Result<MoveOutcome, GameError>)
        requires
            ({
                let ss = seats(old(self).players@);
                let ps = upper_placements(placements@);
                match turn_check(old(self).finished, ss, old(self).current_turn as int, player_id@) {
                    Ok(i) => match take_all(ss[i].1, needed_tiles(ps)) {
                        Some(rest) => match play_words(old(self).board@, ps, dict@) {
                            Some(ws) => play_fits(
                                ss,
                                i,
                                rest,
                                old(self).bag@,
                                ws,
                                ps.len() as int,
                                old(self).move_count,
                                player_id@,
                            ),
                            None => true,
                        },
                        None => true,
                    },
                    Err(_) => true,
                }
            }),
        ensures
            r is Ok ==> pool(old(self).bag@, seats(old(self).players@)) == pool(
                final(self).bag@,
                seats(final(self).players@),
            ).add(needed_tiles(upper_placements(placements@)).to_multiset()),
            r is Ok ==> final(self).wf(),
            old(self).turn_valid() ==> final(self).turn_valid(),
            ({
                let ss = seats(old(self).players@);
                let ps = upper_placements(placements@);
                let n = ps.len() as int;
                match turn_check(old(self).finished, ss, old(self).current_turn as int, player_id@) {
                    Err(e) => r is Err && r->Err_0 == e && *final(self) == *old(self),
                    Ok(i) => match take_all(ss[i].1, needed_tiles(ps)) {
                        None => r is Err && r->Err_0 == GameError::MissingTiles && *final(self)
                            == *old(self),
                        Some(rest) => match play_words(old(self).board@, ps, dict@) {
                            None => r matches Err(GameError::Move(e)) && play_outcome(
                                old(self).board@,
                                ps,
                                dict@,
                                Err(e),
                            ) && *final(self) == *old(self),
                            Some(ws) => {
                                let points = move_score(ws, n);
                                let after = seats_after_play(ss, i, rest, old(self).bag@, n, points);
                                let over = refilled(rest, old(self).bag@, n).len() == 0 && n
                                    >= old(self).bag@.len();
                                &&& r is Ok
                                &&& r->Ok_0.score == points
                                &&& r->Ok_0.game_over == over
                                &&& r->Ok_0.words@.len() == ws.len()
                                &&& forall|k: int|
                                    0 <= k < ws.len() ==> (#[trigger] r->Ok_0.words@[k]).text@
                                        == letters(ws[k]) && r->Ok_0.words@[k].points
                                        == word_score(ws[k])
                                &&& final(self).board@ == placed(old(self).board@, ps)
                                &&& forall|k: int|
                                    0 <= k < n ==> cell_at(
                                        final(self).board@,
                                        ps[k].row as int,
                                        ps[k].col as int,
                                    ) == Some(
                                        PlacedTile { letter: (#[trigger] ps[k]).letter, is_blank: ps[k].is_blank },
                                    )
                                &&& forall|r: int, c: int|
                                    (forall|k: int| 0 <= k < n ==> !(#[trigger] ps[k].row == r && ps[k].col == c))
                                        ==> #[trigger] cell_at(final(self).board@, r, c) == cell_at(
                                        old(self).board@,
                                        r,
                                        c,
                                    )
                                &&& final(self).bag@ == bag_after_draw(
                                    old(self).bag@,
                                    drawn_count(old(self).bag@, n),
                                )
                                &&& final(self).pass_streak == 0
                                &&& final(self).move_count == old(self).move_count + 1
                                &&& same_names(final(self).players@, old(self).players@)
                                &&& if over {
                                    &&& ended_from(
                                        after,
                                        Some(player_id@),
                                        final(self).players@,
                                        final(self).finished,
                                        final(self).winner_id,
                                    )
                                    &&& final(self).current_turn == old(self).current_turn
                                } else {
                                    &&& seats(final(self).players@) == after
                                    &&& final(self).finished == old(self).finished
                                    &&& final(self).winner_id == old(self).winner_id
                                    &&& final(self).current_turn == next_turn(after, i)
                                }
                            },
                        },
                    },
                }
            }),
    {
        let idx = match self.ensure_turn(player_id) {
            Ok(i) => i,
            Err(e) => {
                return Err(e);
            },
        };
        let ghost ss = seats(self.players@);
        // Upper-case the letters, and collect the rack tiles the move uses.
        let n = placements.len();
        let mut ps: Vec<Placement> = Vec::with_capacity(n);
        let mut needed: Vec<char> = Vec::with_capacity(n);
        for i in 0..n
            invariant
                n == placements@.len(),
                ps@ =~= upper_placements(placements@.take(i as int)),
                needed@ =~= needed_tiles(ps@),
        {
            let p = placements[i];
            let q = Placement { row: p.row, col: p.col, letter: ascii_upper(p.letter), is_blank: p.is_blank };
            ps.push(q);
            needed.push(if q.is_blank { BLANK } else { q.letter });
        }
        assert(placements@.take(n as int) =~= placements@);
        let ghost ups = ps@;
        if try_take(&self.players[idx].rack, needed.as_slice()).is_none() {
            return Err(GameError::MissingTiles);
        }
        let words = match validate_play(&self.board, ps.as_slice(), dict) {
            Ok(w) => w,
            Err(e) => {
                return Err(GameError::Move(e));
            },
        };
        let ghost ws = cells_of(words@);
        proof {
            assert(ws =~= formed_words(self.board@, ups, geometry(self.board@, ups)->Ok_0));
            lemma_geometry_ok(self.board@, ups);
            assert(ups == upper_placements(placements@));
            assert(play_words(self.board@, ups, dict@) == Some(ws));
            use_type_invariant(&self.board);
            lemma_placed_squares(self.board@, ups);
            assert(take_all(ss[idx as int].1, needed_tiles(ups)) is Some);
            lemma_move_score_nonneg(ws, n as int);
        }
        let (score, breakdown) = score_move(words.as_slice(), n);
        let ghost old_bag = self.bag@;
        let ok = Self::take_from_rack(&mut self.players[idx].rack, needed.as_slice());
        let ghost rest = self.players@[idx as int].rack@;
        let ghost pre = *self;
        proof {
            use_type_invariant(&self.board);
        }
        // Commit: place the tiles, score, refill.
        for i in 0..n
            invariant
                self.players == pre.players,
                self.bag == pre.bag,
                self.current_turn == pre.current_turn,
                self.pass_streak == pre.pass_streak,
                self.move_count == pre.move_count,
                self.finished == pre.finished,
                self.winner_id == pre.winner_id,
                n == ups.len(),
                ps@ == ups,
                self.board@ == placed(old(self).board@, ups.take(i as int)),
                self.board.wf(),
                forall|k: int| 0 <= k < ups.len() ==> on_board(#[trigger] ups[k].row as int, ups[k].col as int),
        {
            let p = ps[i];
            assert(ups.take(i + 1).drop_last() =~= ups.take(i as int));
            assert(on_board(ups[i as int].row as int, ups[i as int].col as int));
            self.board.place(p.row, p.col, PlacedTile { letter: p.letter, is_blank: p.is_blank });
        }
        assert(ups.take(n as int) =~= ups);
        self.players[idx].score = self.players[idx].score + score;
        let mut refill = self.bag.draw(n);
        self.players[idx].rack.append(&mut refill);
        self.pass_streak = 0;
        self.move_count = self.move_count + 1;
        let ghost after = seats(self.players@);
        proof {
            assert(after =~= seats_after_play(ss, idx as int, rest, old_bag, n as int, score as int));
            lemma_rack_change_pool(ss, idx as int, needed@, rest, old_bag, drawn_count(old_bag, n as int), after[idx as int]);
            assert(after == ss.update(idx as int, after[idx as int]));
        }
        let mut game_over = false;
        let fin = player_id.to_owned();
        if self.players[idx].rack.len() == 0 && self.bag.is_empty() {
            self.finalize(Some(fin));
            game_over = true;
            proof {
                lemma_settled_keeps_tiles(after, Some(player_id@));
            }
        } else {
            proof {
                if old(self).turn_valid() {
                    lemma_turn_moves_on(ss, after, idx as int);
                }
            }
            self.advance_turn();
        }
        proof {
            assert(racks_pool(seats(self.players@)) == racks_pool(after));
        }
        proof {
            use_type_invariant(&self.board);
        }
        Ok(MoveOutcome { score, words: breakdown, game_over })
    }

    /// Swaps tiles back into the bag for fresh ones; forfeits the turn.
    pub fn apply_swap(&mut self, player_id: &str, tiles: &[char], rng: &mut StdRng) -> (r: Result<
        (),
        GameError,
    >)
        requires
            ({
                let ss = seats(old(self).players@);
                let blen = old(self).bag@.len();
                match turn_check(old(self).finished, ss, old(self).current_turn as int, player_id@) {
                    Ok(i) => (blen >= tiles@.len() && blen > 0) ==> match take_all(
                        ss[i].1,
                        upper_all(tiles@),
                    ) {
                        Some(rest) => scoreless_fits(
                            old(self).pass_streak,
                            old(self).move_count,
                            with_rack(ss, i, rest + top_tiles(old(self).bag@, tiles@.len() as int)),
                        ),
                        None => true,
                    },
                    Err(_) => true,
                }
            }),
        ensures
            r is Ok ==> pool(final(self).bag@, seats(final(self).players@)) == pool(
                old(self).bag@,
                seats(old(self).players@),
            ),
            r is Ok ==> final(self).wf(),
            old(self).turn_valid() ==> final(self).turn_valid(),
            ({
                let ss = seats(old(self).players@);
                let blen = old(self).bag@.len();
                let k = tiles@.len() as int;
                match turn_check(old(self).finished, ss, old(self).current_turn as int, player_id@) {
                    Err(e) => r == Err::<(), GameError>(e) && *final(self) == *old(self),
                    Ok(i) => if blen < k || blen == 0 {
                        r == Err::<(), GameError>(GameError::CannotSwap) && *final(self) == *old(self)
                    } else {
                        match take_all(ss[i].1, upper_all(tiles@)) {
                            None => r == Err::<(), GameError>(GameError::MissingTiles)
                                && *final(self) == *old(self),
                            Some(rest) => {
                                let mid = with_rack(ss, i, rest + top_tiles(old(self).bag@, k));
                                &&& r == Ok::<(), GameError>(())
                                &&& final(self).bag@.to_multiset() == bag_after_draw(
                                    old(self).bag@,
                                    k,
                                ).to_multiset().add(upper_all(tiles@).to_multiset())
                                &&& final(self).bag@.len() == blen
                                &&& final(self).board == old(self).board
                                &&& final(self).pass_streak == old(self).pass_streak + 1
                                &&& final(self).move_count == old(self).move_count + 1
                                &&& same_names(final(self).players@, old(self).players@)
                                &&& if streak_ends(old(self).pass_streak as int, mid) {
                                    &&& ended_from(
                                        mid,
                                        None,
                                        final(self).players@,
                                        final(self).finished,
                                        final(self).winner_id,
                                    )
                                    &&& final(self).current_turn == old(self).current_turn
                                } else {
                                    &&& seats(final(self).players@) == mid
                                    &&& final(self).finished == old(self).finished
                                    &&& final(self).winner_id == old(self).winner_id
                                    &&& final(self).current_turn == next_turn(
                                        mid,
                                        old(self).current_turn as int,
                                    )
                                }
                            },
                        }
                    },
                }
            }),
    {
        let idx = match self.ensure_turn(player_id) {
            Ok(i) => i,
            Err(e) => {
                return Err(e);
            },
        };
        if self.bag.remaining() < tiles.len() || self.bag.is_empty() {
            return Err(GameError::CannotSwap);
        }
        let n = tiles.len();
        let mut up: Vec<char> = Vec::with_capacity(n);
        for i in 0..n
            invariant
                n == tiles@.len(),
                up@ =~= upper_all(tiles@.take(i as int)),
        {
            up.push(ascii_upper(tiles[i]));
        }
        assert(tiles@.take(n as int) =~= tiles@);
        let ghost ss = seats(self.players@);
        let ghost old_bag = self.bag@;
        match try_take(&self.players[idx].rack, up.as_slice()) {
            None => {
                return Err(GameError::MissingTiles);
            },
            Some(w) => {
                self.players[idx].rack = w;
            },
        }
        let mut fresh = self.bag.draw(n);
        self.players[idx].rack.append(&mut fresh);
        let ghost drawn_bag = self.bag@;
        self.bag.return_tiles(up.as_slice(), rng);
        let ghost mid = seats(self.players@);
        proof {
            assert(mid =~= with_rack(ss, idx as int, self.players@[idx as int].rack@));
            lemma_rack_change_pool(ss, idx as int, up@, take_all(ss[idx as int].1, up@)->Some_0, old_bag, n as int, mid[idx as int]);
            assert(mid == ss.update(idx as int, mid[idx as int]));
        }
        proof {
            if old(self).turn_valid() {
                lemma_turn_moves_on(ss, mid, idx as int);
            }
        }
        self.scoreless_turn();
        proof {
            if streak_ends(old(self).pass_streak as int, mid) {
                lemma_settled_keeps_tiles(mid, None);
            }
            assert(racks_pool(seats(self.players@)) == racks_pool(mid));
            broadcast use vstd::multiset::group_multiset_axioms;
            assert(pool(self.bag@, seats(self.players@)) =~= pool(old_bag, ss));
        }
        proof {
            use_type_invariant(&self.board);
        }
        Ok(())
    }

    /// Passes the turn.
    pub fn apply_pass(&mut self, player_id: &str) -> (r: Result<(), GameError>)
        requires
            turn_check(
                old(self).finished,
                seats(old(self).players@),
                old(self).current_turn as int,
                player_id@,
            ) is Ok ==> scoreless_fits(
                old(self).pass_streak,
                old(self).move_count,
                seats(old(self).players@),
            ),
        ensures
            r is Ok ==> pool(final(self).bag@, seats(final(self).players@)) == pool(
                old(self).bag@,
                seats(old(self).players@),
            ),
            r is Ok ==> final(self).wf(),
            old(self).turn_valid() ==> final(self).turn_valid(),
            match turn_check(
                old(self).finished,
                seats(old(self).players@),
                old(self).current_turn as int,
                player_id@,
            ) {
                Err(e) => r == Err::<(), GameError>(e) && *final(self) == *old(self),
                Ok(_) => {
                    &&& r == Ok::<(), GameError>(())
                    &&& final(self).pass_streak == old(self).pass_streak + 1
                    &&& final(self).move_count == old(self).move_count + 1
                    &&& final(self).board == old(self).board
                    &&& final(self).bag == old(self).bag
                    &&& same_names(final(self).players@, old(self).players@)
                    &&& if streak_ends(old(self).pass_streak as int, seats(old(self).players@)) {
                        &&& ended_from(
                            seats(old(self).players@),
                            None,
                            final(self).players@,
                            final(self).finished,
                            final(self).winner_id,
                        )
                        &&& final(self).current_turn == old(self).current_turn
                    } else {
                        &&& final(self).players == old(self).players
                        &&& final(self).finished == old(self).finished
                        &&& final(self).winner_id == old(self).winner_id
                        &&& final(self).current_turn == next_turn(
                            seats(old(self).players@),
                            old(self).current_turn as int,
                        )
                    }
                },
            },
    {
        match self.ensure_turn(player_id) {
            Ok(_) => {},
            Err(e) => {
                return Err(e);
            },
        }
        let ghost ss = seats(self.players@);
        proof {
            if old(self).turn_valid() {
                lemma_turn_moves_on(ss, ss, self.current_turn as int);
            }
        }
        self.scoreless_turn();
        proof {
            if streak_ends(old(self).pass_streak as int, ss) {
                lemma_settled_keeps_tiles(ss, None);
            }
        }
        proof {
            use_type_invariant(&self.board);
        }
        Ok(())
    }

    /// Resigns from the game. If only one active player remains, the game
    /// ends.
    pub fn apply_resign(&mut self, player_id: &str) -> (r: Result<(), GameError>)
        requires
            !old(self).finished ==> match find_seat(seats(old(self).players@), player_id@, 0) {
                Some(i) => count_active(resigned_seats(seats(old(self).players@), i)) <= 1
                    ==> can_finalize(resigned_seats(seats(old(self).players@), i), None),
                None => true,
            },
        ensures
            r is Ok ==> pool(final(self).bag@, seats(final(self).players@)) == pool(
                old(self).bag@,
                seats(old(self).players@),
            ),
            old(self).wf() ==> final(self).wf(),
            old(self).turn_valid() ==> final(self).turn_valid(),
            if old(self).finished {
                r == Err::<(), GameError>(GameError::GameFinished) && *final(self) == *old(self)
            } else {
                match find_seat(seats(old(self).players@), player_id@, 0) {
                    None => r == Err::<(), GameError>(GameError::UnknownPlayer) && *final(self)
                        == *old(self),
                    Some(i) => {
                        let after = resigned_seats(seats(old(self).players@), i);
                        &&& r == Ok::<(), GameError>(())
                        &&& final(self).board == old(self).board
                        &&& final(self).bag == old(self).bag
                        &&& final(self).pass_streak == old(self).pass_streak
                        &&& final(self).move_count == old(self).move_count
                        &&& same_names(final(self).players@, old(self).players@)
                        &&& if count_active(after) <= 1 {
                            &&& ended_from(
                                after,
                                None,
                                final(self).players@,
                                final(self).finished,
                                final(self).winner_id,
                            )
                            &&& final(self).current_turn == old(self).current_turn
                        } else {
                            &&& seats(final(self).players@) == after
                            &&& final(self).finished == old(self).finished
                            &&& final(self).winner_id == old(self).winner_id
                            &&& final(self).current_turn == if i == old(self).current_turn {
                                next_turn(after, i)
                            } else {
                                old(self).current_turn as int
                            }
                        }
                    },
                }
            },
    {
        proof {
            lemma_find_seat(seats(self.players@), player_id@, 0);
        }
        if self.finished {
            return Err(GameError::GameFinished);
        }
        let idx = match self.player_index(player_id) {
            Ok(i) => i,
            Err(e) => {
                return Err(e);
            },
        };
        let was_current = idx == self.current_turn;
        let ghost before = seats(self.players@);
        self.players[idx].resigned = true;
        let ghost after = seats(self.players@);
        assert(after =~= resigned_seats(before, idx as int));
        proof {
            lemma_racks_pool_same(after, before);
        }
        if self.active_count() <= 1 {
            self.finalize(None);
            proof {
                lemma_settled_keeps_tiles(after, None);
            }
        } else if was_current {
            proof {
                lemma_next_turn_skips_resigned(after, idx as int);
            }
            self.advance_turn();
        } else {
            proof {
                if old(self).turn_valid() {
                    assert(after[self.current_turn as int] == before[self.current_turn as int]);
                }
            }
        }
        proof {
            use_type_invariant(&self.board);
        }
        Ok(())
    }
}

} // verus!
