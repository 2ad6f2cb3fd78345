//! The decisions behind the game's HTTP API, on plain values: reading the
//! caller's identity and token from header values, planning a new game, the
//! names and colors shown for players, and the family leaderboard.
use vstd::prelude::*;

use crate::engine::text::{chars_of, str_eq, string_from_chars, trim, trim_chars};

verus! {

/// The prefix of an `Authorization` header value that carries a token.
pub open spec fn bearer_prefix() -> Seq<char> {
    seq!['B', 'e', 'a', 'r', 'e', 'r', ' ']
}

/// The token of an `Authorization` header value: what follows the bearer
/// prefix, trimmed; `None` without the prefix.
pub open spec fn bearer_of(header: Seq<char>) -> Option<Seq<char>> {
    let p = bearer_prefix();
    if header.len() >= p.len() && header.subrange(0, p.len() as int) == p {
        Some(trim(header.subrange(p.len() as int, header.len() as int)))
    } else {
        None
    }
}

/// The token carried by an `Authorization` header value.
pub fn bearer_token(header: &str) -> (t: Option<String>)
    ensures
        match t {
            Some(s) => bearer_of(header@) == Some(s@),
            None => bearer_of(header@) is None,
        },
{
    let mut v = chars_of(header);
    let p: [char; 7] = ['B', 'e', 'a', 'r', 'e', 'r', ' '];
    assert(p@ == bearer_prefix());
    if v.len() < 7 {
        return None;
    }
    let mut k: usize = 0;
    while k < 7
        invariant
            k <= 7,
            v@.len() >= 7,
            v@ == header@,
            p@ == bearer_prefix(),
            forall|q: int| 0 <= q < k ==> v@[q] == p@[q],
        decreases 7 - k,
    {
        if v[k] != p[k] {
            assert(v@.subrange(0, 7)[k as int] != bearer_prefix()[k as int]);
            return None;
        }
        k = k + 1;
    }
    assert(v@.subrange(0, 7) =~= bearer_prefix());
    let rest = v.split_off(7);
    let t = trim_chars(rest.as_slice());
    Some(string_from_chars(t.as_slice()))
}

/// The acting user from the value of the header that names them; a missing
/// or empty value names nobody.
pub fn user_from_header(value: Option<&str>) -> (u: Option<String>)
    ensures
        match value {
            Some(v) => if v@.len() > 0 {
                u matches Some(s) && s@ == v@
            } else {
                u is None
            },
            None => u is None,
        },
{
    match value {
        Some(v) => if v.is_empty() {
            None
        } else {
            Some(v.to_owned())
        },
        None => None,
    }
}

/// The players of a new game: the creator first, then each opponent not
/// already listed, in the order given.
pub open spec fn game_player_ids(me: Seq<char>, opponents: Seq<Seq<char>>) -> Seq<Seq<char>>
    decreases opponents.len(),
{
    if opponents.len() == 0 {
        seq![me]
    } else {
        let a = game_player_ids(me, opponents.drop_last());
        if a.contains(opponents.last()) {
            a
        } else {
            a.push(opponents.last())
        }
    }
}

/// The players of a new game start with its creator, include every
/// opponent, name nobody twice, and name nobody else.
pub proof fn lemma_game_players_distinct(me: Seq<char>, opponents: Seq<Seq<char>>)
    ensures
        ({
            let ids = game_player_ids(me, opponents);
            &&& ids.len() >= 1
            &&& ids[0] == me
            &&& forall|i: int, j: int| 0 <= i < j < ids.len() ==> #[trigger] ids[i] != #[trigger] ids[j]
            &&& forall|k: int| 0 <= k < opponents.len() ==> ids.contains(#[trigger] opponents[k])
            &&& forall|i: int| 0 <= i < ids.len() ==> #[trigger] ids[i] == me || opponents.contains(ids[i])
        }),
    decreases opponents.len(),
{
    if opponents.len() > 0 {
        let d = opponents.drop_last();
        let x = opponents.last();
        lemma_game_players_distinct(me, d);
        let a = game_player_ids(me, d);
        let ids = game_player_ids(me, opponents);
        assert forall|k: int| 0 <= k < opponents.len() implies ids.contains(#[trigger] opponents[k]) by {
            if k < d.len() {
                assert(d[k] == opponents[k]);
                assert(a.contains(d[k]));
                let w = choose|w: int| 0 <= w < a.len() && a[w] == d[k];
                assert(ids[w] == a[w]);
            } else if !a.contains(x) {
                assert(ids[a.len() as int] == x);
            }
        }
        assert forall|i: int| 0 <= i < ids.len() implies #[trigger] ids[i] == me || opponents.contains(ids[i]) by {
            if i < a.len() {
                assert(ids[i] == a[i]);
                if a[i] != me {
                    let w = choose|w: int| 0 <= w < d.len() && d[w] == a[i];
                    assert(opponents[w] == d[w]);
                }
            } else {
                assert(opponents[opponents.len() - 1] == x);
            }
        }
        if !a.contains(x) {
            assert forall|i: int, j: int| 0 <= i < j < ids.len() implies #[trigger] ids[i] != #[trigger] ids[j] by {
                if j == a.len() {
                    assert(ids[i] == a[i]);
                }
            }
        }
    }
}

/// The players of a new game started by `me` against `opponent_ids`, or
/// `None` when that leaves no opponent.
pub fn game_players(me: &str, opponent_ids: &[String]) -> (r: Option<Vec<String>>)
    ensures
        ({
            let ids = game_player_ids(me@, opponent_ids@.map_values(|s: String| s@));
            match r {
                Some(v) => ids.len() >= 2 && v@.map_values(|s: String| s@) == ids,
                None => ids.len() < 2,
            }
        }),
{
    let ghost opps = opponent_ids@.map_values(|s: String| s@);
    let mut ids: Vec<String> = Vec::new();
    ids.push(me.to_owned());
    assert(ids@.map_values(|s: String| s@) =~= game_player_ids(me@, opps.take(0)));
    let n = opponent_ids.len();
    for i in 0..n
        invariant
            n == opponent_ids@.len(),
            opps == opponent_ids@.map_values(|s: String| s@),
            ids@.map_values(|s: String| s@) == game_player_ids(me@, opps.take(i as int)),
    {
        let o = &opponent_ids[i];
        let ghost cur = ids@.map_values(|s: String| s@);
        let m = ids.len();
        let mut j: usize = 0;
        while j < m && !(ids[j] == *o)
            invariant
                j <= m,
                m == ids@.len(),
                cur == ids@.map_values(|s: String| s@),
                forall|k: int| 0 <= k < j ==> cur[k] != o@,
            decreases m - j,
        {
            j = j + 1;
        }
        proof {
            assert(opps.take(i + 1).drop_last() =~= opps.take(i as int));
            assert(opps.take(i + 1).last() == o@);
            if j < m {
                assert(cur[j as int] == o@);
                assert(cur.contains(o@));
            } else {
                assert(!cur.contains(o@));
            }
        }
        if j == m {
            ids.push(o.clone());
            assert(ids@.map_values(|s: String| s@) =~= cur.push(o@));
        }
    }
    assert(opps.take(n as int) =~= opps);
    if ids.len() < 2 {
        None
    } else {
        Some(ids)
    }
}

/// The name given to a game when none is.
pub open spec fn default_game_name() -> Seq<char> {
    seq!['F', 'a', 'm', 'i', 'l', 'y', ' ', 'G', 'a', 'm', 'e']
}

/// The name of a new game: the requested one trimmed, or the default name
/// when that is blank.
pub fn game_name(requested: &str) -> (name: String)
    ensures
        name@ == if trim(requested@).len() == 0 {
            default_game_name()
        } else {
            trim(requested@)
        },
{
    let v = chars_of(requested);
    let t = trim_chars(v.as_slice());
    if t.len() == 0 {
        string_from_chars(&['F', 'a', 'm', 'i', 'l', 'y', ' ', 'G', 'a', 'm', 'e'])
    } else {
        string_from_chars(t.as_slice())
    }
}

/// The name shown for player `id`: their roster name if it is not empty,
/// else `fallback`.
pub fn display_name(roster_name: Option<&str>, fallback: &str) -> (name: String)
    ensures
        name@ == match roster_name {
            Some(n) => if n@.len() > 0 {
                n@
            } else {
                fallback@
            },
            None => fallback@,
        },
{
    match roster_name {
        Some(n) => if n.is_empty() {
            fallback.to_owned()
        } else {
            n.to_owned()
        },
        None => fallback.to_owned(),
    }
}

/// A member of the family roster as the game reads it: id, name and raw
/// color (empty when the roster gives none).
pub struct RosterEntry {
    pub id: String,
    pub name: String,
    pub color: String,
}

/// The ids of the roster entries, in order.
pub open spec fn roster_ids(roster: Seq<RosterEntry>) -> Seq<Seq<char>> {
    roster.map_values(|e: RosterEntry| e.id@)
}

/// The index of the last entry of `ids` equal to `id`: where the roster
/// lists a member twice, the later entry counts.
pub open spec fn last_entry(ids: Seq<Seq<char>>, id: Seq<char>) -> Option<int>
    decreases ids.len(),
{
    if ids.len() == 0 {
        None
    } else if ids.last() == id {
        Some(ids.len() - 1)
    } else {
        last_entry(ids.drop_last(), id)
    }
}

/// The roster entry for player `id`: the last one with that id.
pub fn roster_entry(roster: &[RosterEntry], id: &str) -> (r: Option<usize>)
    ensures
        match r {
            Some(k) => last_entry(roster_ids(roster@), id@) == Some(k as int) && k < roster@.len(),
            None => last_entry(roster_ids(roster@), id@) is None,
        },
{
    let ghost ids = roster_ids(roster@);
    let mut j: usize = roster.len();
    proof {
        assert(ids.take(j as int) =~= ids);
    }
    while j > 0 && !str_eq(roster[j - 1].id.as_str(), id)
        invariant
            j <= roster@.len(),
            ids == roster_ids(roster@),
            last_entry(ids, id@) == last_entry(ids.take(j as int), id@),
        decreases j,
    {
        assert(ids.take(j as int).drop_last() =~= ids.take(j - 1));
        j = j - 1;
    }
    if j == 0 {
        assert(ids.take(0) =~= Seq::<Seq<char>>::empty());
        None
    } else {
        assert(ids.take(j as int).last() == id@);
        Some(j - 1)
    }
}

/// The name shown for player `pid` given the roster: the name of their last
/// roster entry if it is not empty, else the id.
pub open spec fn seat_name(roster: Seq<RosterEntry>, pid: Seq<char>) -> Seq<char> {
    match last_entry(roster_ids(roster), pid) {
        Some(k) => if roster[k].name@.len() > 0 {
            roster[k].name@
        } else {
            pid
        },
        None => pid,
    }
}

/// The `(id, name)` pairs a new game is dealt to: each player with the name
/// the roster gives them.
pub fn seat_names(player_ids: &[String], roster: &[RosterEntry]) -> (pairs: Vec<(String, String)>)
    ensures
        pairs@.len() == player_ids@.len(),
        forall|i: int|
            0 <= i < pairs@.len() ==> (#[trigger] pairs@[i]).0@ == player_ids@[i]@ && pairs@[i].1@
                == seat_name(roster@, player_ids@[i]@),
{
    let n = player_ids.len();
    let mut pairs: Vec<(String, String)> = Vec::with_capacity(n);
    for i in 0..n
        invariant
            n == player_ids@.len(),
            pairs@.len() == i,
            forall|k: int|
                0 <= k < i ==> (#[trigger] pairs@[k]).0@ == player_ids@[k]@ && pairs@[k].1@
                    == seat_name(roster@, player_ids@[k]@),
    {
        let pid = player_ids[i].as_str();
        let name = match roster_entry(roster, pid) {
            Some(k) => display_name(Some(roster[k].name.as_str()), pid),
            None => display_name(None, pid),
        };
        pairs.push((pid.to_owned(), name));
    }
    pairs
}

/// The color of a roster entry: its own if it is not empty, else the default
/// color.
pub fn roster_color(color: &str) -> (c: String)
    ensures
        c@ == if color@.len() == 0 {
            crate::view::default_color()
        } else {
            color@
        },
{
    if color.is_empty() {
        string_from_chars(&['#', '3', '4', 'D', '3', '9', '9'])
    } else {
        color.to_owned()
    }
}

/// The `is_active` field of a roster entry, as far as it decides anything:
/// a boolean, a number (`None` when it is not a whole number that fits an
/// `i64`), or missing or of another kind.
pub enum ActiveField {
    Flag(bool),
    Number(Option<i64>),
    Unset,
}

/// Whether a roster entry is an active family member: its flag, a non-zero
/// number, and active when the field says nothing.
pub fn roster_active(field: &ActiveField) -> (b: bool)
    ensures
        b == match field {
            ActiveField::Flag(f) => *f,
            ActiveField::Number(n) => match n {
                Some(v) => *v != 0,
                None => false,
            },
            ActiveField::Unset => true,
        },
{
    match field {
        ActiveField::Flag(f) => *f,
        ActiveField::Number(n) => match n {
            Some(v) => *v != 0,
            None => false,
        },
        ActiveField::Unset => true,
    }
}

/// The name and color a leaderboard line is shown with: the roster's name
/// and color for the player when the roster lists them, else their id and
/// the default color. `entry` holds the roster's name and raw color.
pub fn standing_label(entry: Option<(&str, &str)>, id: &str) -> (label: (String, String))
    ensures
        match entry {
            Some((name, color)) => label.0@ == name@ && label.1@ == (if color@.len() == 0 {
                crate::view::default_color()
            } else {
                color@
            }),
            None => label.0@ == id@ && label.1@ == crate::view::default_color(),
        },
{
    match entry {
        Some((name, color)) => (name.to_owned(), roster_color(color)),
        None => {
            proof {
                reveal_strlit("");
            }
            (id.to_owned(), roster_color(""))
        },
    }
}

/// One player's line of the family leaderboard.
pub struct Standing {
    pub player_id: String,
    pub games_played: u32,
    pub games_won: u32,
    pub total_points: i64,
    pub best_word: String,
    pub best_word_score: i32,
}

/// The final scores of one finished game, and its winner.
pub struct GameTally {
    pub players: Vec<(String, i32)>,
    pub winner_id: Option<String>,
}

/// A word scored in a finished game, with the player who played it.
pub struct WordPlay {
    pub player_id: String,
    pub text: String,
    pub points: i32,
}

/// A player's result in one game: id, final score, whether they won.
pub type GameResult = (Seq<char>, int, bool);

/// The results of one game.
pub open spec fn game_results(g: GameTally) -> Seq<GameResult> {
    g.players@.map_values(
        |e: (String, i32)| (e.0@, e.1 as int, crate::engine::game::opt_view(g.winner_id) == Some(e.0@)),
    )
}

/// The results of all games, game after game.
pub open spec fn all_results(games: Seq<GameTally>) -> Seq<GameResult>
    decreases games.len(),
{
    if games.len() == 0 {
        Seq::empty()
    } else {
        all_results(games.drop_last()) + game_results(games.last())
    }
}

/// A scored word as the leaderboard reads it: player, text, points.
pub type WordView = (Seq<char>, Seq<char>, int);

/// A scored word as plain values: player, text, points.
pub open spec fn word_of(w: WordPlay) -> WordView {
    (w.player_id@, w.text@, w.points as int)
}

/// How many games `id` played.
pub open spec fn played(rs: Seq<GameResult>, id: Seq<char>) -> int
    decreases rs.len(),
{
    if rs.len() == 0 {
        0
    } else {
        played(rs.drop_last(), id) + if rs.last().0 == id {
            1int
        } else {
            0int
        }
    }
}

/// How many games `id` won.
pub open spec fn won(rs: Seq<GameResult>, id: Seq<char>) -> int
    decreases rs.len(),
{
    if rs.len() == 0 {
        0
    } else {
        won(rs.drop_last(), id) + if rs.last().0 == id && rs.last().2 {
            1int
        } else {
            0int
        }
    }
}

/// The total of the final scores of `id`.
pub open spec fn points(rs: Seq<GameResult>, id: Seq<char>) -> int
    decreases rs.len(),
{
    if rs.len() == 0 {
        0
    } else {
        points(rs.drop_last(), id) + if rs.last().0 == id {
            rs.last().1
        } else {
            0int
        }
    }
}

/// The best word of `id` and its points: the first of their words that
/// scored the most, if that is above zero; else no word and zero.
pub open spec fn best_word(ws: Seq<WordView>, id: Seq<char>) -> (Seq<char>, int)
    decreases ws.len(),
{
    if ws.len() == 0 {
        (Seq::empty(), 0)
    } else {
        let b = best_word(ws.drop_last(), id);
        if ws.last().0 == id && ws.last().2 > b.1 {
            (ws.last().1, ws.last().2)
        } else {
            b
        }
    }
}

/// The leaderboard line of a player agrees with the games and words.
pub open spec fn standing_of(r: Standing, rs: Seq<GameResult>, ws: Seq<WordView>) -> bool {
    let id = r.player_id@;
    &&& r.games_played == played(rs, id)
    &&& r.games_won == won(rs, id)
    &&& r.total_points == points(rs, id)
    &&& r.best_word@ == best_word(ws, id).0
    &&& r.best_word_score == best_word(ws, id).1
}

/// Line `a` may stand above line `b`: more wins, or as many wins and at least
/// as many points.
pub open spec fn ranks_above(a: Standing, b: Standing) -> bool {
    a.games_won > b.games_won || (a.games_won == b.games_won && a.total_points >= b.total_points)
}

proof fn lemma_counts_bounds(rs: Seq<GameResult>, id: Seq<char>)
    requires
        forall|k: int| 0 <= k < rs.len() ==> i32::MIN <= #[trigger] rs[k].1 <= i32::MAX,
    ensures
        0 <= won(rs, id) <= played(rs, id) <= rs.len(),
        i32::MIN * played(rs, id) <= points(rs, id) <= i32::MAX * played(rs, id),
        played(rs, id) == 0 ==> points(rs, id) == 0,
    decreases rs.len(),
{
    if rs.len() > 0 {
        let d = rs.drop_last();
        assert forall|k: int| 0 <= k < d.len() implies i32::MIN <= #[trigger] d[k].1 <= i32::MAX by {
            assert(d[k] == rs[k]);
        }
        lemma_counts_bounds(d, id);
        assert(i32::MIN <= rs[rs.len() - 1].1 <= i32::MAX);
    }
}

proof fn lemma_absent(rs: Seq<GameResult>, ws: Seq<WordView>, id: Seq<char>)
    requires
        forall|k: int| 0 <= k < rs.len() ==> #[trigger] rs[k].0 != id,
        forall|k: int| 0 <= k < ws.len() ==> #[trigger] ws[k].0 != id,
    ensures
        played(rs, id) == 0,
        won(rs, id) == 0,
        points(rs, id) == 0,
        best_word(ws, id) == (Seq::<char>::empty(), 0int),
    decreases rs.len() + ws.len(),
{
    if rs.len() > 0 {
        let d = rs.drop_last();
        assert forall|k: int| 0 <= k < d.len() implies #[trigger] d[k].0 != id by {
            assert(d[k] == rs[k]);
        }
        lemma_absent(d, ws, id);
    } else if ws.len() > 0 {
        let d = ws.drop_last();
        assert forall|k: int| 0 <= k < d.len() implies #[trigger] d[k].0 != id by {
            assert(d[k] == ws[k]);
        }
        lemma_absent(rs, d, id);
    }
}

/// Whether some line of `rows` is for player `id`.
pub open spec fn has_line(rows: Seq<Standing>, id: Seq<char>) -> bool {
    exists|j: int| 0 <= j < rows.len() && (#[trigger] rows[j]).player_id@ == id
}

/// The lines are for distinct players.
pub open spec fn distinct_lines(rows: Seq<Standing>) -> bool {
    forall|i: int, j: int|
        0 <= i < j < rows.len() ==> (#[trigger] rows[i]).player_id@ != (#[trigger] rows[j]).player_id@
}

/// The index of the line of player `id`, adding a blank line for them if
/// there is none.
fn line_for(rows: &mut Vec<Standing>, id: &String) -> (j: usize)
    requires
        distinct_lines(old(rows)@),
    ensures
        j < final(rows)@.len(),
        final(rows)@[j as int].player_id@ == id@,
        distinct_lines(final(rows)@),
        has_line(old(rows)@, id@) ==> final(rows)@ == old(rows)@,
        !has_line(old(rows)@, id@) ==> final(rows)@ == old(rows)@.push(final(rows)@[j as int])
            && final(rows)@[j as int].games_played == 0 && final(rows)@[j as int].games_won == 0
            && final(rows)@[j as int].total_points == 0 && final(rows)@[j as int].best_word@.len()
            == 0 && final(rows)@[j as int].best_word_score == 0,
{
    let n = rows.len();
    let mut j: usize = 0;
    while j < n && !(rows[j].player_id == *id)
        invariant
            j <= n,
            n == rows@.len(),
            forall|k: int| 0 <= k < j ==> (#[trigger] rows@[k]).player_id@ != id@,
        decreases n - j,
    {
        j = j + 1;
    }
    if j < n {
        return j;
    }
    rows.push(
        Standing {
            player_id: id.clone(),
            games_played: 0,
            games_won: 0,
            total_points: 0,
            best_word: string_from_chars(&[]),
            best_word_score: 0,
        },
    );
    n
}

/// A player's result as carried between the passes of the leaderboard.
pub open spec fn result_view(e: (String, i32, bool)) -> GameResult {
    (e.0@, e.1 as int, e.2)
}

/// Player `id` has a result in `rs`.
pub open spec fn in_results(rs: Seq<GameResult>, id: Seq<char>) -> bool {
    exists|k: int| 0 <= k < rs.len() && (#[trigger] rs[k]).0 == id
}

/// Player `id` has a word in `ws`.
pub open spec fn in_words(ws: Seq<WordView>, id: Seq<char>) -> bool {
    exists|k: int| 0 <= k < ws.len() && (#[trigger] ws[k]).0 == id
}

/// Every line stands at least as high as every line below it.
pub open spec fn sorted_lines(rows: Seq<Standing>) -> bool {
    forall|i: int, j: int| 0 <= i < j < rows.len() ==> ranks_above(#[trigger] rows[i], #[trigger] rows[j])
}

/// The lines of `rows` are exactly the players of `rs` and `ws`, each with
/// their tally.
pub open spec fn tallies(rows: Seq<Standing>, rs: Seq<GameResult>, ws: Seq<WordView>) -> bool {
    &&& distinct_lines(rows)
    &&& forall|j: int| 0 <= j < rows.len() ==> standing_of(#[trigger] rows[j], rs, ws)
    &&& forall|k: int| 0 <= k < rs.len() ==> has_line(rows, (#[trigger] rs[k]).0)
    &&& forall|k: int| 0 <= k < ws.len() ==> has_line(rows, (#[trigger] ws[k]).0)
    &&& forall|j: int|
        0 <= j < rows.len() ==> in_results(rs, (#[trigger] rows[j]).player_id@) || in_words(
            ws,
            rows[j].player_id@,
        )
}

/// The results of all games, one entry per player and game.
fn flat_results(games: &[GameTally]) -> (v: Vec<(String, i32, bool)>)
    ensures
        v@.map_values(|e: (String, i32, bool)| result_view(e)) == all_results(games@),
{
    let mut v: Vec<(String, i32, bool)> = Vec::new();
    let n = games.len();
    for gi in 0..n
        invariant
            n == games@.len(),
            v@.map_values(|e: (String, i32, bool)| result_view(e)) == all_results(games@.take(gi as int)),
    {
        let g = &games[gi];
        let ghost base = all_results(games@.take(gi as int));
        let m = g.players.len();
        for pi in 0..m
            invariant
                m == g.players@.len(),
                g == games@[gi as int],
                v@.map_values(|e: (String, i32, bool)| result_view(e)) == base + game_results(*g).take(pi as int),
        {
            let p = &g.players[pi];
            let won = match &g.winner_id {
                Some(w) => *w == p.0,
                None => false,
            };
            let ghost before = v@;
            v.push((p.0.clone(), p.1, won));
            proof {
                assert(game_results(*g).take(pi + 1) =~= game_results(*g).take(pi as int).push(
                    game_results(*g)[pi as int],
                ));
                assert(v@ =~= before.push((p.0, p.1, won)));
                assert(v@.map_values(|e: (String, i32, bool)| result_view(e)) =~= before.map_values(
                    |e: (String, i32, bool)| result_view(e),
                ).push(result_view((p.0, p.1, won))));
            }
        }
        proof {
            assert(game_results(*g).take(m as int) =~= game_results(*g));
            assert(games@.take(gi + 1).drop_last() =~= games@.take(gi as int));
        }
    }
    assert(games@.take(n as int) =~= games@);
    v
}

/// The lines of the players of `results`, with their games, wins and points.
fn tally_results(results: &[(String, i32, bool)]) -> (rows: Vec<Standing>)
    requires
        results@.len() <= u32::MAX,
    ensures
        tallies(rows@, results@.map_values(|e: (String, i32, bool)| result_view(e)), Seq::empty()),
{
    let ghost rs = results@.map_values(|e: (String, i32, bool)| result_view(e));
    let ghost no_words: Seq<WordView> = Seq::empty();
    let mut rows: Vec<Standing> = Vec::new();
    let n = results.len();
    for i in 0..n
        invariant
            n == results@.len(),
            n <= u32::MAX,
            rs == results@.map_values(|e: (String, i32, bool)| result_view(e)),
            no_words == Seq::<WordView>::empty(),
            tallies(rows@, rs.take(i as int), no_words),
    {
        let x = &results[i];
        let ghost pre = rs.take(i as int);
        let ghost post = rs.take(i + 1);
        let ghost old_rows = rows@;
        proof {
            assert(post.drop_last() =~= pre);
            assert(post.last() == rs[i as int]);
            assert(rs[i as int] == result_view(results@[i as int]));
            assert forall|k: int| 0 <= k < post.len() implies i32::MIN <= #[trigger] post[k].1
                <= i32::MAX by {
                assert(post[k] == result_view(results@[k]));
            }
        }
        let j = line_for(&mut rows, &x.0);
        proof {
            let id = x.0@;
            if !has_line(old_rows, id) {
                assert forall|k: int| 0 <= k < pre.len() implies #[trigger] pre[k].0 != id by {
                    if pre[k].0 == id {
                        assert(has_line(old_rows, pre[k].0));
                    }
                }
                lemma_absent(pre, no_words, id);
                assert(rows@[j as int].best_word@ =~= Seq::<char>::empty());
            } else {
                assert(rows@[j as int] == old_rows[j as int]);
            }
            lemma_counts_bounds(post, id);
            assert(standing_of(rows@[j as int], pre, no_words));
        }
        let ghost mid = rows@;
        rows[j].games_played = rows[j].games_played + 1;
        rows[j].total_points = rows[j].total_points + x.1 as i64;
        if x.2 {
            rows[j].games_won = rows[j].games_won + 1;
        }
        proof {
            assert forall|q: int| 0 <= q < rows@.len() implies standing_of(
                #[trigger] rows@[q],
                post,
                no_words,
            ) by {
                let id = rows@[q].player_id@;
                assert(played(post, id) == played(pre, id) + if post.last().0 == id {
                    1int
                } else {
                    0int
                });
                assert(won(post, id) == won(pre, id) + if post.last().0 == id && post.last().2 {
                    1int
                } else {
                    0int
                });
                assert(points(post, id) == points(pre, id) + if post.last().0 == id {
                    post.last().1
                } else {
                    0int
                });
                if q != j {
                    assert(rows@[q] == mid[q]);
                    assert(mid[q].player_id@ != mid[j as int].player_id@);
                    assert(q < old_rows.len());
                    assert(mid[q] == old_rows[q]);
                }
            }
            assert forall|k: int| 0 <= k < post.len() implies has_line(rows@, (#[trigger] post[k]).0) by {
                if k < pre.len() {
                    assert(pre[k] == post[k]);
                    let w = choose|w: int| 0 <= w < old_rows.len() && (#[trigger] old_rows[w]).player_id@ == pre[k].0;
                    assert(rows@[w].player_id@ == old_rows[w].player_id@);
                } else {
                    assert(rows@[j as int].player_id@ == post[k].0);
                }
            }
            assert forall|q: int| 0 <= q < rows@.len() implies in_results(post, (#[trigger] rows@[q]).player_id@)
                || in_words(no_words, rows@[q].player_id@) by {
                if q < old_rows.len() && q != j {
                    assert(rows@[q] == old_rows[q]);
                    assert(in_results(pre, old_rows[q].player_id@));
                    let w = choose|w: int| 0 <= w < pre.len() && (#[trigger] pre[w]).0 == old_rows[q].player_id@;
                    assert(post[w] == pre[w]);
                } else {
                    assert(rows@[q].player_id@ == post[i as int].0);
                }
            }
            assert(distinct_lines(rows@)) by {
                assert forall|a: int, b: int| 0 <= a < b < rows@.len() implies (#[trigger] rows@[a]).player_id@
                    != (#[trigger] rows@[b]).player_id@ by {
                    assert(rows@[a].player_id@ == mid[a].player_id@);
                    assert(rows@[b].player_id@ == mid[b].player_id@);
                }
            }
        }
    }
    proof {
        assert(rs.take(n as int) =~= rs);
    }
    rows
}

/// Adds to the lines each player's best word among `words`.
fn tally_words(rows: &mut Vec<Standing>, Ghost(rs): Ghost<Seq<GameResult>>, words: &[WordPlay])
    requires
        tallies(old(rows)@, rs, Seq::empty()),
    ensures
        tallies(final(rows)@, rs, words@.map_values(|w: WordPlay| word_of(w))),
{
    let ghost ws = words@.map_values(|w: WordPlay| word_of(w));
    let n = words.len();
    proof {
        assert(ws.take(0) =~= Seq::<WordView>::empty());
    }
    for k in 0..n
        invariant
            n == words@.len(),
            ws == words@.map_values(|w: WordPlay| word_of(w)),
            tallies(rows@, rs, ws.take(k as int)),
    {
        let w = &words[k];
        let ghost pre = ws.take(k as int);
        let ghost post = ws.take(k + 1);
        let ghost old_rows = rows@;
        proof {
            assert(post.drop_last() =~= pre);
            assert(post.last() == ws[k as int]);
            assert(ws[k as int] == word_of(words@[k as int]));
        }
        let j = line_for(rows, &w.player_id);
        proof {
            let id = w.player_id@;
            if !has_line(old_rows, id) {
                assert forall|q: int| 0 <= q < rs.len() implies #[trigger] rs[q].0 != id by {
                    if rs[q].0 == id {
                        assert(has_line(old_rows, rs[q].0));
                    }
                }
                assert forall|q: int| 0 <= q < pre.len() implies #[trigger] pre[q].0 != id by {
                    if pre[q].0 == id {
                        assert(has_line(old_rows, pre[q].0));
                    }
                }
                lemma_absent(rs, pre, id);
                assert(rows@[j as int].best_word@ =~= Seq::<char>::empty());
            } else {
                assert(rows@[j as int] == old_rows[j as int]);
            }
            assert(standing_of(rows@[j as int], rs, pre));
        }
        let ghost mid = rows@;
        if w.points > rows[j].best_word_score {
            rows[j].best_word = w.text.clone();
            rows[j].best_word_score = w.points;
        }
        proof {
            assert forall|q: int| 0 <= q < rows@.len() implies standing_of(#[trigger] rows@[q], rs, post) by {
                let id = rows@[q].player_id@;
                assert(best_word(post, id) == {
                    let b = best_word(pre, id);
                    if post.last().0 == id && post.last().2 > b.1 {
                        (post.last().1, post.last().2)
                    } else {
                        b
                    }
                });
                if q != j {
                    assert(rows@[q] == mid[q]);
                    assert(mid[q].player_id@ != mid[j as int].player_id@);
                    assert(q < old_rows.len());
                    assert(mid[q] == old_rows[q]);
                }
            }
            assert forall|q: int| 0 <= q < rs.len() implies has_line(rows@, (#[trigger] rs[q]).0) by {
                let v = choose|v: int| 0 <= v < old_rows.len() && (#[trigger] old_rows[v]).player_id@ == rs[q].0;
                assert(rows@[v].player_id@ == old_rows[v].player_id@);
            }
            assert forall|q: int| 0 <= q < post.len() implies has_line(rows@, (#[trigger] post[q]).0) by {
                if q < pre.len() {
                    assert(pre[q] == post[q]);
                    let v = choose|v: int| 0 <= v < old_rows.len() && (#[trigger] old_rows[v]).player_id@ == pre[q].0;
                    assert(rows@[v].player_id@ == old_rows[v].player_id@);
                } else {
                    assert(rows@[j as int].player_id@ == post[q].0);
                }
            }
            assert forall|q: int| 0 <= q < rows@.len() implies in_results(rs, (#[trigger] rows@[q]).player_id@)
                || in_words(post, rows@[q].player_id@) by {
                if q < old_rows.len() && q != j {
                    assert(rows@[q] == old_rows[q]);
                    if !in_results(rs, old_rows[q].player_id@) {
                        assert(in_words(pre, old_rows[q].player_id@));
                        let v = choose|v: int| 0 <= v < pre.len() && (#[trigger] pre[v]).0 == old_rows[q].player_id@;
                        assert(post[v] == pre[v]);
                    }
                } else {
                    assert(rows@[q].player_id@ == post[k as int].0);
                }
            }
            assert(distinct_lines(rows@)) by {
                assert forall|a: int, b: int| 0 <= a < b < rows@.len() implies (#[trigger] rows@[a]).player_id@
                    != (#[trigger] rows@[b]).player_id@ by {
                    assert(rows@[a].player_id@ == mid[a].player_id@);
                    assert(rows@[b].player_id@ == mid[b].player_id@);
                }
            }
        }
    }
    proof {
        assert(ws.take(n as int) =~= ws);
    }
}

/// The lines of `rows`, ordered by wins then points, highest first.
fn rank_lines(rows: Vec<Standing>, Ghost(rs): Ghost<Seq<GameResult>>, Ghost(ws): Ghost<Seq<WordView>>) -> (out: Vec<Standing>)
    requires
        tallies(rows@, rs, ws),
    ensures
        tallies(out@, rs, ws),
        sorted_lines(out@),
{
    let ghost src = rows@;
    let mut rows = rows;
    let mut out: Vec<Standing> = Vec::new();
    while rows.len() > 0
        invariant
            rows@.len() <= src.len(),
            rows@ == src.take(rows@.len() as int),
            out@.len() + rows@.len() == src.len(),
            tallies(src, rs, ws),
            distinct_lines(out@),
            sorted_lines(out@),
            forall|a: int| 0 <= a < out@.len() ==> standing_of(#[trigger] out@[a], rs, ws),
            forall|b: int| rows@.len() <= b < src.len() ==> has_line(out@, (#[trigger] src[b]).player_id@),
            forall|a: int|
                0 <= a < out@.len() ==> exists|b: int|
                    rows@.len() <= b < src.len() && (#[trigger] src[b]).player_id@ == (#[trigger] out@[a]).player_id@,
        decreases rows@.len(),
    {
        let ghost before = rows@;
        let x = rows.pop().unwrap();
        let ghost r = rows@.len() as int;
        proof {
            assert(x == src[r]);
            assert(rows@ =~= src.take(r));
        }
        let m = out.len();
        let mut p: usize = 0;
        while p < m && !(x.games_won > out[p].games_won || (x.games_won == out[p].games_won
            && x.total_points >= out[p].total_points))
            invariant
                p <= m,
                m == out@.len(),
                forall|q: int| 0 <= q < p ==> !ranks_above(x, #[trigger] out@[q]),
            decreases m - p,
        {
            p = p + 1;
        }
        let ghost prev = out@;
        out.insert(p, x);
        proof {
            let cur = out@;
            assert(cur.len() == prev.len() + 1);
            assert(cur[p as int] == x);
            assert forall|a: int| 0 <= a < cur.len() implies #[trigger] cur[a] == if a < p {
                prev[a]
            } else if a == p {
                x
            } else {
                prev[a - 1]
            } by {}
            assert forall|i: int, j: int| 0 <= i < j < cur.len() implies ranks_above(
                #[trigger] cur[i],
                #[trigger] cur[j],
            ) by {
                if j == p {
                    assert(!ranks_above(x, prev[i]));
                } else if i == p {
                    assert(p < m);
                    assert(ranks_above(x, prev[p as int]));
                    if j - 1 > p {
                        assert(ranks_above(prev[p as int], prev[j - 1]));
                    }
                } else if i < p && j > p {
                    assert(ranks_above(prev[i], prev[j - 1]));
                } else if i > p {
                    assert(ranks_above(prev[i - 1], prev[j - 1]));
                } else {
                    assert(ranks_above(prev[i], prev[j]));
                }
            }
            assert forall|a: int| 0 <= a < cur.len() implies standing_of(#[trigger] cur[a], rs, ws) by {
                if a < p {
                    assert(standing_of(prev[a], rs, ws));
                } else if a > p {
                    assert(standing_of(prev[a - 1], rs, ws));
                } else {
                    assert(standing_of(src[r], rs, ws));
                }
            }
            assert forall|a: int| 0 <= a < cur.len() implies exists|b: int|
                r <= b < src.len() && (#[trigger] src[b]).player_id@ == (#[trigger] cur[a]).player_id@ by {
                if a == p {
                    assert(src[r].player_id@ == cur[a].player_id@);
                } else {
                    let a0 = if a < p { a } else { a - 1 };
                    assert(cur[a] == prev[a0]);
                    let b = choose|b: int|
                        before.len() <= b < src.len() && (#[trigger] src[b]).player_id@ == prev[a0].player_id@;
                    assert(src[b].player_id@ == cur[a].player_id@);
                }
            }
            assert forall|b: int| r <= b < src.len() implies has_line(cur, (#[trigger] src[b]).player_id@) by {
                if b == r {
                    assert(cur[p as int].player_id@ == src[b].player_id@);
                } else {
                    let a0 = choose|a0: int| 0 <= a0 < prev.len() && (#[trigger] prev[a0]).player_id@ == src[b].player_id@;
                    if a0 < p {
                        assert(cur[a0] == prev[a0]);
                    } else {
                        assert(cur[a0 + 1] == prev[a0]);
                    }
                }
            }
            assert forall|i: int, j: int| 0 <= i < j < cur.len() implies (#[trigger] cur[i]).player_id@
                != (#[trigger] cur[j]).player_id@ by {
                if i == p || j == p {
                    let o = if i == p { j } else { i };
                    let a0 = if o < p { o } else { o - 1 };
                    assert(cur[o] == prev[a0]);
                    let b = choose|b: int|
                        before.len() <= b < src.len() && (#[trigger] src[b]).player_id@ == prev[a0].player_id@;
                    assert(src[b].player_id@ != src[r].player_id@);
                } else {
                    let i0 = if i < p { i } else { i - 1 };
                    let j0 = if j < p { j } else { j - 1 };
                    assert(cur[i] == prev[i0]);
                    assert(cur[j] == prev[j0]);
                    assert(i0 < j0);
                }
            }
        }
    }
    proof {
        let cur = out@;
        assert forall|k: int| 0 <= k < rs.len() implies has_line(cur, (#[trigger] rs[k]).0) by {
            let b = choose|b: int| 0 <= b < src.len() && (#[trigger] src[b]).player_id@ == rs[k].0;
            assert(has_line(cur, src[b].player_id@));
        }
        assert forall|k: int| 0 <= k < ws.len() implies has_line(cur, (#[trigger] ws[k]).0) by {
            let b = choose|b: int| 0 <= b < src.len() && (#[trigger] src[b]).player_id@ == ws[k].0;
            assert(has_line(cur, src[b].player_id@));
        }
        assert forall|a: int| 0 <= a < cur.len() implies in_results(rs, (#[trigger] cur[a]).player_id@)
            || in_words(ws, cur[a].player_id@) by {
            let b = choose|b: int| 0 <= b < src.len() && (#[trigger] src[b]).player_id@ == cur[a].player_id@;
            assert(in_results(rs, src[b].player_id@) || in_words(ws, src[b].player_id@));
        }
    }
    out
}

/// The family leaderboard over the finished games `games` and the words
/// scored in them: one line for each player who has a result or a word, with
/// their games, wins, total points and best word, ordered by wins and then by
/// points, highest first.
pub fn leaderboard(games: &[GameTally], words: &[WordPlay]) -> (rows: Vec<Standing>)
    requires
        all_results(games@).len() <= u32::MAX,
    ensures
        tallies(rows@, all_results(games@), words@.map_values(|w: WordPlay| word_of(w))),
        sorted_lines(rows@),
{
    let flat = flat_results(games);
    let ghost rs = all_results(games@);
    let mut rows = tally_results(flat.as_slice());
    tally_words(&mut rows, Ghost(rs), words);
    rank_lines(rows, Ghost(rs), Ghost(words@.map_values(|w: WordPlay| word_of(w))))
}

} // verus!
