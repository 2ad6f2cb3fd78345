//! The records the game keeps in its database, as plain values.
use vstd::prelude::*;

use crate::engine::text::str_eq;

verus! {

/// A stored game: its columns, with the engine state as JSON text.
pub struct GameRecord {
    pub id: String,
    pub name: String,
    pub status: String,
    pub state: String,
    pub player_ids: Vec<String>,
    pub current_player_id: String,
    pub winner_id: Option<String>,
    pub created_by: String,
    pub created_at: String,
    pub updated_at: String,
}

/// One row of move history, with the player's display name.
pub struct MoveRecord {
    pub id: String,
    pub player_id: String,
    pub player_name: String,
    pub move_no: i64,
    pub kind: String,
    pub words_json: String,
    pub score: i64,
    pub created_at: String,
}

/// Whether `player_id` is one of the players of the stored game `rec`.
pub fn has_player(rec: &GameRecord, player_id: &str) -> (b: bool)
    ensures
        b == exists|i: int| 0 <= i < rec.player_ids@.len() && (#[trigger] rec.player_ids@[i])@ == player_id@,
{
    let n = rec.player_ids.len();
    for i in 0..n
        invariant
            n == rec.player_ids@.len(),
            forall|k: int| 0 <= k < i ==> (#[trigger] rec.player_ids@[k])@ != player_id@,
    {
        if str_eq(rec.player_ids[i].as_str(), player_id) {
            return true;
        }
    }
    false
}

} // verus!
