//! What the UI is shown of a game: per-player views, the board grid, and the
//! game view and summary built from a stored game record and its engine.
use vstd::prelude::*;
use vstd::hash_map::StringHashMap;

use crate::engine::board::{PlacedTile, cell_at};
use crate::engine::constants::BOARD_SIZE;
use crate::engine::game::GameEngine;
use crate::store::GameRecord;

verus! {

pub struct PlayerView {
    pub id: String,
    pub name: String,
    pub color: String,
    pub score: i32,
    pub rack_count: usize,
    pub resigned: bool,
}

pub struct GameView {
    pub id: String,
    pub name: String,
    pub status: String,
    /// The board row by row; each square empty or holding a tile.
    pub board: Vec<Vec<Option<PlacedTile>>>,
    pub players: Vec<PlayerView>,
    pub current_player_id: String,
    pub bag_remaining: usize,
    pub move_count: u32,
    pub finished: bool,
    pub winner_id: Option<String>,
    pub your_rack: Vec<char>,
    pub your_player_id: Option<String>,
}

pub struct GameSummary {
    pub id: String,
    pub name: String,
    pub status: String,
    pub current_player_id: String,
    pub current_player_name: String,
    pub players: Vec<PlayerView>,
    pub winner_id: Option<String>,
    pub updated_at: String,
}

/// Player colors by player id.
pub type ColorMap = StringHashMap<String>;

/// The color shown for a player with no color of their own.
pub open spec fn default_color() -> Seq<char> {
    seq!['#', '3', '4', 'D', '3', '9', '9']
}

/// The color of player `id`: theirs, or the default one.
pub open spec fn color_for(colors: Map<Seq<char>, String>, id: Seq<char>) -> Seq<char> {
    if colors.contains_key(id) {
        colors[id]@
    } else {
        default_color()
    }
}

fn default_color_string() -> (s: String)
    ensures
        s@ == default_color(),
{
    crate::engine::text::string_from_chars(&['#', '3', '4', 'D', '3', '9', '9'])
}

/// A color map from `(id, color)` pairs; a later pair for the same id wins.
pub fn colors_from(pairs: &[(String, String)]) -> (m: ColorMap)
    ensures
        forall|id: Seq<char>|
            #![trigger m@.contains_key(id)]
            m@.contains_key(id) <==> exists|i: int| 0 <= i < pairs@.len() && pairs@[i].0@ == id,
        forall|i: int|
            0 <= i < pairs@.len() && (forall|j: int| i < j < pairs@.len() ==> pairs@[j].0@ != pairs@[i].0@)
                ==> (#[trigger] m@[pairs@[i].0@])@ == pairs@[i].1@,
{
    let mut m: ColorMap = StringHashMap::new();
    let n = pairs.len();
    for i in 0..n
        invariant
            n == pairs@.len(),
            forall|id: Seq<char>|
                #![trigger m@.contains_key(id)]
                m@.contains_key(id) <==> exists|k: int| 0 <= k < i && pairs@[k].0@ == id,
            forall|k: int|
                0 <= k < i && (forall|j: int| k < j < i ==> pairs@[j].0@ != pairs@[k].0@)
                    ==> (#[trigger] m@[pairs@[k].0@])@ == pairs@[k].1@,
    {
        let (id, color) = &pairs[i];
        m.insert(id.clone(), color.clone());
        proof {
            assert forall|id2: Seq<char>|
                #![trigger m@.contains_key(id2)]
                m@.contains_key(id2) <==> exists|k: int| 0 <= k < i + 1 && pairs@[k].0@ == id2 by {
                if id2 == pairs@[i as int].0@ {
                    assert(pairs@[i as int].0@ == id2);
                }
            }
        }
    }
    m
}

fn color_of(colors: &ColorMap, id: &str) -> (c: String)
    ensures
        c@ == color_for(colors@, id@),
{
    match colors.get(id) {
        Some(c) => c.clone(),
        None => default_color_string(),
    }
}

/// The view of one player.
pub open spec fn player_view_of(p: crate::engine::game::PlayerState, colors: Map<Seq<char>, String>, v: PlayerView) -> bool {
    &&& v.id@ == p.id@
    &&& v.name@ == p.name@
    &&& v.color@ == color_for(colors, p.id@)
    &&& v.score == p.score
    &&& v.rack_count == p.rack@.len()
    &&& v.resigned == p.resigned
}

fn player_views(engine: &GameEngine, colors: &ColorMap) -> (vs: Vec<PlayerView>)
    ensures
        vs@.len() == engine.players@.len(),
        forall|i: int|
            0 <= i < vs@.len() ==> player_view_of(engine.players@[i], colors@, #[trigger] vs@[i]),
{
    let n = engine.players.len();
    let mut vs: Vec<PlayerView> = Vec::with_capacity(n);
    for i in 0..n
        invariant
            n == engine.players@.len(),
            vs@.len() == i,
            forall|k: int|
                0 <= k < i ==> player_view_of(engine.players@[k], colors@, #[trigger] vs@[k]),
    {
        let p = &engine.players[i];
        vs.push(
            PlayerView {
                id: p.id.clone(),
                name: p.name.clone(),
                color: color_of(colors, p.id.as_str()),
                score: p.score,
                rack_count: p.rack.len(),
                resigned: p.resigned,
            },
        );
    }
    vs
}

/// The board as rows of squares.
fn board_grid(engine: &GameEngine) -> (rows: Vec<Vec<Option<PlacedTile>>>)
    ensures
        rows@.len() == BOARD_SIZE,
        forall|r: int|
            0 <= r < BOARD_SIZE ==> (#[trigger] rows@[r])@.len() == BOARD_SIZE && forall|c: int|
                0 <= c < BOARD_SIZE ==> #[trigger] rows@[r]@[c] == cell_at(engine.board@, r, c),
{
    proof {
        use_type_invariant(&engine.board);
    }
    let mut rows: Vec<Vec<Option<PlacedTile>>> = Vec::with_capacity(BOARD_SIZE);
    for r in 0..BOARD_SIZE
        invariant
            engine.board.wf(),
            rows@.len() == r,
            forall|i: int|
                0 <= i < r ==> (#[trigger] rows@[i])@.len() == BOARD_SIZE && forall|c: int|
                    0 <= c < BOARD_SIZE ==> #[trigger] rows@[i]@[c] == cell_at(engine.board@, i, c),
    {
        let mut row: Vec<Option<PlacedTile>> = Vec::with_capacity(BOARD_SIZE);
        for c in 0..BOARD_SIZE
            invariant
                engine.board.wf(),
                r < BOARD_SIZE,
                row@.len() == c,
                forall|k: int| 0 <= k < c ==> #[trigger] row@[k] == cell_at(engine.board@, r as int, k),
        {
            match engine.board.get(r, c) {
                Some(t) => row.push(Some(*t)),
                None => row.push(None),
            }
        }
        rows.push(row);
    }
    rows
}

/// The status word of a game.
pub open spec fn status_of(finished: bool) -> Seq<char> {
    if finished {
        seq!['f', 'i', 'n', 'i', 's', 'h', 'e', 'd']
    } else {
        seq!['a', 'c', 't', 'i', 'v', 'e']
    }
}

/// The status stored and shown for a game.
pub fn status_str(engine: &GameEngine) -> (s: String)
    ensures
        s@ == status_of(engine.finished),
{
    if engine.finished {
        crate::engine::text::string_from_chars(&['f', 'i', 'n', 'i', 's', 'h', 'e', 'd'])
    } else {
        crate::engine::text::string_from_chars(&['a', 'c', 't', 'i', 'v', 'e'])
    }
}

/// The rack of player `viewer` (the first player with that id), or an empty
/// rack when the viewer is unknown or absent.
pub open spec fn rack_of_viewer(players: Seq<crate::engine::game::PlayerState>, viewer: Option<Seq<char>>) -> Seq<char> {
    match viewer {
        Some(v) => match crate::engine::game::find_seat(crate::engine::game::seats(players), v, 0) {
            Some(i) => players[i].rack@,
            None => Seq::empty(),
        },
        None => Seq::empty(),
    }
}

pub fn build_view(rec: &GameRecord, engine: &GameEngine, colors: &ColorMap, viewer: Option<&str>) -> (v: GameView)
    requires
        engine.current_turn < engine.players@.len(),
    ensures
        v.id@ == rec.id@,
        v.name@ == rec.name@,
        v.status@ == status_of(engine.finished),
        v.board@.len() == BOARD_SIZE,
        forall|r: int|
            0 <= r < BOARD_SIZE ==> (#[trigger] v.board@[r])@.len() == BOARD_SIZE && forall|c: int|
                0 <= c < BOARD_SIZE ==> #[trigger] v.board@[r]@[c] == cell_at(engine.board@, r, c),
        v.players@.len() == engine.players@.len(),
        forall|i: int|
            0 <= i < v.players@.len() ==> player_view_of(engine.players@[i], colors@, #[trigger] v.players@[i]),
        v.current_player_id@ == engine.players@[engine.current_turn as int].id@,
        v.bag_remaining == engine.bag@.len(),
        v.move_count == engine.move_count,
        v.finished == engine.finished,
        crate::engine::game::opt_view(v.winner_id) == crate::engine::game::opt_view(engine.winner_id),
        v.your_rack@ == rack_of_viewer(engine.players@, crate::engine::scoring::opt_str(viewer)),
        crate::engine::game::opt_view(v.your_player_id) == crate::engine::scoring::opt_str(viewer),
{
    let your_rack = match viewer {
        Some(who) => {
            let ghost ss = crate::engine::game::seats(engine.players@);
            let n = engine.players.len();
            let mut found: Option<usize> = None;
            let mut i: usize = 0;
            while i < n && !crate::engine::text::str_eq(engine.players[i].id.as_str(), who)
                invariant
                    n == ss.len(),
                    ss == crate::engine::game::seats(engine.players@),
                    i <= n,
                    crate::engine::game::find_seat(ss, who@, 0) == crate::engine::game::find_seat(ss, who@, i as int),
                decreases n - i,
            {
                i = i + 1;
            }
            if i < n {
                let r = engine.players[i].rack.clone();
                assert(r@ =~= engine.players@[i as int].rack@);
                r
            } else {
                Vec::new()
            }
        },
        None => Vec::new(),
    };
    let winner_id = match &engine.winner_id {
        Some(w) => Some(w.clone()),
        None => None,
    };
    let your_player_id = match viewer {
        Some(who) => Some(who.to_owned()),
        None => None,
    };
    GameView {
        id: rec.id.clone(),
        name: rec.name.clone(),
        status: status_str(engine),
        board: board_grid(engine),
        players: player_views(engine, colors),
        current_player_id: engine.current_player_id().to_owned(),
        bag_remaining: engine.bag.remaining(),
        move_count: engine.move_count,
        finished: engine.finished,
        winner_id,
        your_rack,
        your_player_id,
    }
}

pub fn build_summary(rec: &GameRecord, engine: &GameEngine, colors: &ColorMap) -> (s: GameSummary)
    requires
        engine.current_turn < engine.players@.len(),
    ensures
        s.id@ == rec.id@,
        s.name@ == rec.name@,
        s.status@ == status_of(engine.finished),
        s.current_player_id@ == engine.players@[engine.current_turn as int].id@,
        s.current_player_name@ == engine.players@[engine.current_turn as int].name@,
        s.players@.len() == engine.players@.len(),
        forall|i: int|
            0 <= i < s.players@.len() ==> player_view_of(engine.players@[i], colors@, #[trigger] s.players@[i]),
        crate::engine::game::opt_view(s.winner_id) == crate::engine::game::opt_view(engine.winner_id),
        s.updated_at@ == rec.updated_at@,
{
    let current_player_name = engine.players[engine.current_turn].name.clone();
    let winner_id = match &engine.winner_id {
        Some(w) => Some(w.clone()),
        None => None,
    };
    GameSummary {
        id: rec.id.clone(),
        name: rec.name.clone(),
        status: status_str(engine),
        current_player_id: engine.current_player_id().to_owned(),
        current_player_name,
        players: player_views(engine, colors),
        winner_id,
        updated_at: rec.updated_at.clone(),
    }
}

} // verus!
