# Words With Fam

A Words With Friends game for a family: a rules engine, the views the UI is
shown, and the decisions behind a small HTTP API, verified with Verus.

## Layout

| Path | What it holds |
|------|---------------|
| `src/engine/` | The rules: `constants` (letter values, bag contents, premium squares), `board`, `bag`, `dictionary`, `text` (trimming and upper-casing), `validation` (placement geometry and formed words), `scoring`, `rack`, `game` (the turn-by-turn state machine) and `fits` (range checks made before a move). |
| `src/view.rs` | The game view and summary built from a stored game and its engine. |
| `src/api.rs` | Identity and token headers, planning a new game, roster names and colors, and the family leaderboard. |
| `src/store.rs`, `src/helpers.rs` | Stored records as plain values, and random row ids. |
| `app/` | The server: HTTP handlers (axum), SQLite persistence (sqlx), the roster fetch (reqwest), and the JSON forms of the library's types. |
| `tests/` | Tests of the library. |

Every public function of the library states what it returns in its
contract; the laws of the game (tile conservation, turn order, the winner,
end-of-game adjustments, the premium layout, case-insensitive lookups) are
proof functions next to the code they are about.

The server reads its word list from `$WWF_WORDS`, or `enable1.txt` in
`$LEO_DATA_DIR`.
