//! Whether a move keeps the game's scores and counters within their ranges:
//! the checks a caller makes before handing a move to the engine.
use vstd::prelude::*;

use crate::engine::board::Placement;
use crate::engine::constants::{BLANK, ascii_upper};
use crate::engine::dictionary::Dictionary;
use crate::engine::game::{
    GameEngine, PlayerState, Seat, active_entries, active_of, can_finalize, count_active, drawn_count,
    find_seat, lemma_find_seat, lemma_settle_prefix, needed_tiles, play_fits, play_words, refilled,
    resigned_seats, scoreless_fits, seats, seats_after_play, settle, settled, top_tiles,
    turn_check, upper_placements, with_rack,
};
use crate::engine::rack::{take_all, try_take};
use crate::engine::scoring::{
    cells_of, lemma_move_score_nonneg, move_fits, move_score, score_move,
};
use crate::engine::text::upper_all;
use crate::engine::validation::{formed_words, geometry, lemma_geometry_ok, validate_play};
use crate::engine::scoring::{adjustment, final_adjustments, opt_str, rack_entries, racks_fit};
use crate::engine::text::str_eq;

verus! {

/// The seats `ss` with their scores replaced by `scores`.
pub open spec fn with_scores(ss: Seq<Seat>, scores: Seq<i64>) -> Seq<Seat> {
    Seq::new(ss.len(), |i: int| (ss[i].0, ss[i].1, scores[i] as int, ss[i].3))
}

proof fn lemma_find_seat_ids(a: Seq<Seat>, b: Seq<Seat>, id: Seq<char>, i: int)
    requires
        a.len() == b.len(),
        forall|k: int| 0 <= k < a.len() ==> (#[trigger] a[k]).0 == b[k].0,
    ensures
        find_seat(a, id, i) == find_seat(b, id, i),
    decreases a.len() - i,
{
    if 0 <= i < a.len() {
        lemma_find_seat_ids(a, b, id, i + 1);
    }
}

/// A fresh copy of the players.
fn copy_players(players: &Vec<PlayerState>) -> (r: Vec<PlayerState>)
    ensures
        seats(r@) == seats(players@),
{
    let n = players.len();
    let mut r: Vec<PlayerState> = Vec::with_capacity(n);
    for i in 0..n
        invariant
            n == players@.len(),
            r@.len() == i,
            forall|k: int|
                0 <= k < i ==> {
                    &&& (#[trigger] r@[k]).id@ == players@[k].id@
                    &&& r@[k].rack@ == players@[k].rack@
                    &&& r@[k].score == players@[k].score
                    &&& r@[k].resigned == players@[k].resigned
                },
    {
        let p = &players[i];
        let rack = p.rack.clone();
        assert(rack@ =~= p.rack@);
        r.push(PlayerState { id: p.id.clone(), name: p.name.clone(), rack, score: p.score, resigned: p.resigned });
    }
    assert(seats(r@) =~= seats(players@));
    r
}

/// Whether the end of the game can be scored for `players` with finisher
/// `fin`: the racks' total and every adjusted score fit in an `i32`.
fn finalize_check(players: &Vec<PlayerState>, fin: Option<&str>) -> (b: bool)
    ensures
        b == can_finalize(seats(players@), opt_str(fin)),
{
    let ghost ss = seats(players@);
    let ghost es = active_entries(ss);
    let ghost fv = opt_str(fin);
    let n = players.len();
    let mut racks: Vec<(String, Vec<char>)> = Vec::new();
    for i in 0..n
        invariant
            n == ss.len(),
            ss == seats(players@),
            rack_entries(racks@) =~= active_entries(ss.take(i as int)),
    {
        let p = &players[i];
        assert(ss.take(i + 1).drop_last() =~= ss.take(i as int));
        if !p.resigned {
            let r = p.rack.clone();
            assert(r@ =~= p.rack@);
            racks.push((p.id.clone(), r));
        }
    }
    assert(ss.take(n as int) =~= ss);
    assert(rack_entries(racks@) == es);
    if !racks_fit(racks.as_slice()) {
        return false;
    }
    let deltas = final_adjustments(&racks, fin);
    let m = deltas.len();
    let mut scores: Vec<i64> = Vec::with_capacity(n);
    for i in 0..n
        invariant
            n == ss.len(),
            ss == seats(players@),
            scores@.len() == i,
            forall|k: int| 0 <= k < i ==> #[trigger] scores@[k] == ss[k].2,
    {
        scores.push(players[i].score as i64);
    }
    assert(with_scores(ss, scores@) =~= ss);
    for j in 0..m
        invariant
            m == deltas@.len(),
            m == es.len(),
            n == ss.len(),
            ss == seats(players@),
            es == active_entries(ss),
            fv == opt_str(fin),
            scores@.len() == n,
            forall|k: int|
                0 <= k < m ==> (#[trigger] deltas@[k]).0@ == es[k].0 && deltas@[k].1 == adjustment(
                    es,
                    fv,
                    k,
                ),
            forall|k: int| 0 <= k < n ==> i32::MIN <= #[trigger] scores@[k] <= i32::MAX,
            settle(ss, es, fv, j as int) == Some(with_scores(ss, scores@)),
    {
        let ghost q = with_scores(ss, scores@);
        let id = deltas[j].0.as_str();
        let delta = deltas[j].1;
        proof {
            lemma_find_seat_ids(q, ss, id@, 0);
        }
        let mut k: usize = 0;
        while k < n && !str_eq(players[k].id.as_str(), id)
            invariant
                k <= n,
                n == ss.len(),
                ss == seats(players@),
                find_seat(ss, id@, 0) == find_seat(ss, id@, k as int),
            decreases n - k,
        {
            k = k + 1;
        }
        if k < n {
            let v = scores[k] + delta as i64;
            if v < i32::MIN as i64 || v > i32::MAX as i64 {
                proof {
                    assert(find_seat(ss, id@, k as int) == Some(k as int));
                    assert(settle(ss, es, fv, j + 1) is None);
                    if settled(ss, fv) is Some {
                        lemma_settle_prefix(ss, es, fv, j + 1, m as int);
                    }
                }
                return false;
            }
            let ghost before = scores@;
            scores.set(k, v);
            proof {
                assert(with_scores(ss, scores@) =~= q.update(k as int, (q[k as int].0, q[k as int].1, v as int, q[k as int].3)));
            }
        }
    }
    true
}

/// Whether a scoreless turn keeps the counters in range for `players`, and
/// the game can be scored if it ends it.
fn scoreless_check(pass_streak: u32, move_count: u32, players: &Vec<PlayerState>) -> (b: bool)
    ensures
        b == scoreless_fits(pass_streak, move_count, seats(players@)),
{
    let a = active_of(players);
    if pass_streak == u32::MAX || move_count == u32::MAX || a > 2147483647usize {
        return false;
    }
    if pass_streak as u64 + 1 >= 2 * (a as u64) {
        finalize_check(players, None)
    } else {
        true
    }
}

impl GameEngine {
    /// Whether a pass by `player_id` keeps the counters in range and leaves a
    /// game that can be scored if it ends; true when the pass would be
    /// refused anyway.
    pub fn can_pass(&self, player_id: &str) -> (b: bool)
        ensures
            b == (turn_check(
                self.finished,
                seats(self.players@),
                self.current_turn as int,
                player_id@,
            ) is Ok ==> scoreless_fits(self.pass_streak, self.move_count, seats(self.players@))),
    {
        match self.ensure_turn(player_id) {
            Err(_) => true,
            Ok(_) => scoreless_check(self.pass_streak, self.move_count, &self.players),
        }
    }

    /// Whether a resignation by `player_id` leaves a game that can be scored
    /// if it ends it; true when the resignation would be refused anyway.
    pub fn can_resign(&self, player_id: &str) -> (b: bool)
        ensures
            b == (!self.finished ==> match find_seat(seats(self.players@), player_id@, 0) {
                Some(i) => count_active(resigned_seats(seats(self.players@), i)) <= 1 ==> can_finalize(
                    resigned_seats(seats(self.players@), i),
                    None,
                ),
                None => true,
            }),
    {
        if self.finished {
            return true;
        }
        match self.player_index(player_id) {
            Err(_) => true,
            Ok(i) => {
                proof {
                    lemma_find_seat(seats(self.players@), player_id@, 0);
                }
                let mut h = copy_players(&self.players);
                h[i].resigned = true;
                assert(seats(h@) =~= resigned_seats(seats(self.players@), i as int));
                if active_of(&h) <= 1 {
                    finalize_check(&h, None)
                } else {
                    true
                }
            },
        }
    }

    /// Whether a swap of `tiles` by `player_id` keeps the counters in range
    /// and leaves a game that can be scored if it ends; true when the swap
    /// would be refused anyway.
    pub fn can_swap(&self, player_id: &str, tiles: &[char]) -> (b: bool)
        ensures
            b == ({
                let ss = seats(self.players@);
                let blen = self.bag@.len();
                match turn_check(self.finished, ss, self.current_turn as int, player_id@) {
                    Ok(i) => (blen >= tiles@.len() && blen > 0) ==> match take_all(
                        ss[i].1,
                        upper_all(tiles@),
                    ) {
                        Some(rest) => scoreless_fits(
                            self.pass_streak,
                            self.move_count,
                            with_rack(ss, i, rest + top_tiles(self.bag@, tiles@.len() as int)),
                        ),
                        None => true,
                    },
                    Err(_) => true,
                }
            }),
    {
        let idx = match self.ensure_turn(player_id) {
            Ok(i) => i,
            Err(_) => {
                return true;
            },
        };
        proof {
            lemma_find_seat(seats(self.players@), player_id@, 0);
        }
        let blen = self.bag.tiles.len();
        let k = tiles.len();
        if !(blen >= k && blen > 0) {
            return true;
        }
        let mut up: Vec<char> = Vec::with_capacity(k);
        for i in 0..k
            invariant
                k == tiles@.len(),
                up@ =~= upper_all(tiles@.take(i as int)),
        {
            up.push(ascii_upper(tiles[i]));
        }
        assert(tiles@.take(k as int) =~= tiles@);
        let rest = match try_take(&self.players[idx].rack, up.as_slice()) {
            Some(r) => r,
            None => {
                return true;
            },
        };
        let mut rack = rest;
        let ghost rest_v = rack@;
        for t in blen - k..blen
            invariant
                blen == self.bag@.len(),
                k <= blen,
                rack@ =~= rest_v + self.bag@.subrange(blen - k, t as int),
        {
            rack.push(self.bag.tiles[t]);
        }
        let mut h = copy_players(&self.players);
        h[idx].rack = rack;
        assert(seats(h@) =~= with_rack(
            seats(self.players@),
            idx as int,
            rest_v + top_tiles(self.bag@, k as int),
        ));
        scoreless_check(self.pass_streak, self.move_count, &h)
    }

    /// Whether a play of `placements` by `player_id` keeps the scores and
    /// counters in range and leaves a game that can be scored if it ends;
    /// true when the play would be refused anyway.
    pub fn can_play(&self, player_id: &str, placements: &[Placement], dict: &Dictionary) -> (b: bool)
        ensures
            b == ({
                let ss = seats(self.players@);
                let ps = upper_placements(placements@);
                match turn_check(self.finished, ss, self.current_turn as int, player_id@) {
                    Ok(i) => match take_all(ss[i].1, needed_tiles(ps)) {
                        Some(rest) => match play_words(self.board@, ps, dict@) {
                            Some(ws) => play_fits(
                                ss,
                                i,
                                rest,
                                self.bag@,
                                ws,
                                ps.len() as int,
                                self.move_count,
                                player_id@,
                            ),
                            None => true,
                        },
                        None => true,
                    },
                    Err(_) => true,
                }
            }),
    {
        let idx = match self.ensure_turn(player_id) {
            Ok(i) => i,
            Err(_) => {
                return true;
            },
        };
        proof {
            lemma_find_seat(seats(self.players@), player_id@, 0);
        }
        let ghost ss = seats(self.players@);
        let n = placements.len();
        let mut ps: Vec<Placement> = Vec::with_capacity(n);
        let mut needed: Vec<char> = Vec::with_capacity(n);
        for i in 0..n
            invariant
                n == placements@.len(),
                ps@ =~= upper_placements(placements@.take(i as int)),
                needed@ =~= needed_tiles(ps@),
        {
            let p = placements[i];
            let q = Placement { row: p.row, col: p.col, letter: ascii_upper(p.letter), is_blank: p.is_blank };
            ps.push(q);
            needed.push(if q.is_blank { BLANK } else { q.letter });
        }
        assert(placements@.take(n as int) =~= placements@);
        let ghost ups = ps@;
        let rest = match try_take(&self.players[idx].rack, needed.as_slice()) {
            Some(r) => r,
            None => {
                return true;
            },
        };
        let words = match validate_play(&self.board, ps.as_slice(), dict) {
            Ok(w) => w,
            Err(_) => {
                return true;
            },
        };
        let ghost ws = cells_of(words@);
        proof {
            assert(ws =~= formed_words(self.board@, ups, geometry(self.board@, ups)->Ok_0));
            lemma_geometry_ok(self.board@, ups);
            assert(play_words(self.board@, ups, dict@) == Some(ws));
            lemma_move_score_nonneg(ws, n as int);
        }
        if !move_fits(words.as_slice(), n) {
            return false;
        }
        let (score, _) = score_move(words.as_slice(), n);
        let cur = self.players[idx].score;
        if cur as i64 + score as i64 > i32::MAX as i64 {
            return false;
        }
        if self.move_count == u32::MAX {
            return false;
        }
        let blen = self.bag.tiles.len();
        let drawn = if n < blen {
            n
        } else {
            blen
        };
        assert(drawn == drawn_count(self.bag@, n as int));
        if rest.len() == 0 && drawn == 0 && n >= blen {
            let mut h = copy_players(&self.players);
            h[idx].rack = Vec::new();
            h[idx].score = cur + score;
            assert(refilled(rest@, self.bag@, n as int) =~= Seq::<char>::empty());
            assert(seats(h@) =~= seats_after_play(ss, idx as int, rest@, self.bag@, n as int, score as int));
            finalize_check(&h, Some(player_id))
        } else {
            true
        }
    }
}

} // verus!
