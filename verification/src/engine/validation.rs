//! Move validation: geometry (in line, no gaps, connected, the first move
//! covers the center) and word formation (main word and cross words), plus
//! dictionary checks. The pending placements are overlaid on the board: a
//! square holds the last placement made on it, else the board's tile.
use vstd::prelude::*;

use crate::engine::board::{Board, PlacedTile, Placement, all_empty, cell_at, on_board};
use crate::engine::constants::{BOARD_SIZE, CENTER, ascii_upper, upper};
use crate::engine::dictionary::Dictionary;
use crate::engine::text::{chars_of, normalized, string_from_chars};

verus! {

#[derive(Debug, Clone, Copy, PartialEq, Eq, Structural)]
pub enum Axis {
    Horizontal,
    Vertical,
}

/// The perpendicular axis.
pub open spec fn cross_of(axis: Axis) -> Axis {
    match axis {
        Axis::Horizontal => Axis::Vertical,
        Axis::Vertical => Axis::Horizontal,
    }
}

impl Axis {
    /// The `(row, col)` step from one square of a line to the next.
    fn step(self) -> (d: (isize, isize))
        ensures
            d == (match self {
                Axis::Horizontal => (0isize, 1isize),
                Axis::Vertical => (1isize, 0isize),
            }),
    {
        match self {
            Axis::Horizontal => (0, 1),
            Axis::Vertical => (1, 0),
        }
    }

    fn cross(self) -> (a: Axis)
        ensures
            a == cross_of(self),
    {
        match self {
            Axis::Horizontal => Axis::Vertical,
            Axis::Vertical => Axis::Horizontal,
        }
    }
}

#[derive(Debug, Clone, PartialEq, Eq)]
pub enum MoveError {
    EmptyPlacement,
    OffBoard,
    DuplicateCell,
    OverlapsExisting,
    NotInLine,
    HasGaps,
    FirstMoveMissesCenter,
    Disconnected,
    NoWordFormed,
    InvalidWord(String),
}

/// The text shown for a refused placement.
pub open spec fn move_error_text(e: MoveError) -> Seq<char> {
    match e {
        MoveError::EmptyPlacement => "no tiles placed"@,
        MoveError::OffBoard => "placement is off the board"@,
        MoveError::DuplicateCell => "two tiles placed on the same square"@,
        MoveError::OverlapsExisting => "a tile was placed on an occupied square"@,
        MoveError::NotInLine => "tiles must be in a single row or column"@,
        MoveError::HasGaps => "the placed tiles leave a gap"@,
        MoveError::FirstMoveMissesCenter => "the first word must cover the center star"@,
        MoveError::Disconnected => "the word must connect to an existing tile"@,
        MoveError::NoWordFormed => "you must form a word of two or more letters"@,
        MoveError::InvalidWord(w) => "'"@ + w@ + "' is not a valid word"@,
    }
}

impl MoveError {
    /// The text shown for this error.
    pub fn message(&self) -> (s: String)
        ensures
            s@ == move_error_text(*self),
    {
        match self {
            MoveError::EmptyPlacement => "no tiles placed".to_owned(),
            MoveError::OffBoard => "placement is off the board".to_owned(),
            MoveError::DuplicateCell => "two tiles placed on the same square".to_owned(),
            MoveError::OverlapsExisting => "a tile was placed on an occupied square".to_owned(),
            MoveError::NotInLine => "tiles must be in a single row or column".to_owned(),
            MoveError::HasGaps => "the placed tiles leave a gap".to_owned(),
            MoveError::FirstMoveMissesCenter => "the first word must cover the center star".to_owned(),
            MoveError::Disconnected => "the word must connect to an existing tile".to_owned(),
            MoveError::NoWordFormed => "you must form a word of two or more letters".to_owned(),
            MoveError::InvalidWord(w) => {
                let mut v = chars_of("'");
                let mut word = chars_of(w.as_str());
                let mut tail = chars_of("' is not a valid word");
                v.append(&mut word);
                v.append(&mut tail);
                string_from_chars(v.as_slice())
            },
        }
    }
}

/// One cell of a formed word.
#[derive(Debug, Clone, Copy, PartialEq, Eq, Structural)]
pub struct WordCell {
    pub row: usize,
    pub col: usize,
    pub letter: char,
    pub is_blank: bool,
    /// True if this tile was placed on the current turn.
    pub is_new: bool,
}

/// A word formed by a move (the main word or a perpendicular cross word).
#[derive(Debug, Clone, PartialEq, Eq)]
pub struct FormedWord {
    pub text: String,
    pub cells: Vec<WordCell>,
}

/// A pending placement as it is overlaid: square, upper-cased letter, blank.
pub type Pending = (usize, usize, char, bool);

/// The overlay entries of `ps`, in order.
pub open spec fn map_of(ps: Seq<Placement>) -> Seq<Pending> {
    ps.map_values(|p: Placement| (p.row, p.col, upper(p.letter), p.is_blank))
}

/// The last of the first `n` overlay entries on square `(r, c)`.
pub open spec fn pending_in(m: Seq<Pending>, n: int, r: int, c: int) -> Option<(char, bool)>
    decreases n,
{
    if n <= 0 {
        None
    } else if m[n - 1].0 == r && m[n - 1].1 == c {
        Some((m[n - 1].2, m[n - 1].3))
    } else {
        pending_in(m, n - 1, r, c)
    }
}

/// The effective tile on square `(r, c)` with the overlay `m` on the board:
/// `(letter, is_blank, is_new)`.
pub open spec fn tile_spec(board: Seq<Option<PlacedTile>>, m: Seq<Pending>, r: int, c: int) -> Option<
    (char, bool, bool),
> {
    if !on_board(r, c) {
        None
    } else {
        match pending_in(m, m.len() as int, r, c) {
            Some(lb) => Some((lb.0, lb.1, true)),
            None => match cell_at(board, r, c) {
                Some(t) => Some((upper(t.letter), t.is_blank, false)),
                None => None,
            },
        }
    }
}

fn placement_map(placements: &[Placement]) -> (m: Vec<Pending>)
    ensures
        m@ == map_of(placements@),
{
    let n = placements.len();
    let mut m: Vec<Pending> = Vec::with_capacity(n);
    for i in 0..n
        invariant
            n == placements@.len(),
            m@ =~= map_of(placements@.take(i as int)),
    {
        let p = placements[i];
        m.push((p.row, p.col, ascii_upper(p.letter), p.is_blank));
    }
    assert(placements@.take(n as int) =~= placements@);
    m
}

/// The effective tile at a coordinate, the pending placements overlaid on the
/// board: `(letter, is_blank, is_new)`.
fn tile_at(board: &Board, map: &Vec<Pending>, r: isize, c: isize) -> (t: Option<(char, bool, bool)>)
    ensures
        t == tile_spec(board@, map@, r as int, c as int),
{
    proof {
        use_type_invariant(board);
    }
    if r < 0 || c < 0 || r as usize >= BOARD_SIZE || c as usize >= BOARD_SIZE {
        return None;
    }
    let ru = r as usize;
    let cu = c as usize;
    let mut k = map.len();
    while k > 0
        invariant
            k <= map@.len(),
            0 <= r < 15,
            0 <= c < 15,
            ru == r,
            cu == c,
            pending_in(map@, map@.len() as int, r as int, c as int) == pending_in(
                map@,
                k as int,
                r as int,
                c as int,
            ),
        decreases k,
    {
        let e = map[k - 1];
        if e.0 == ru && e.1 == cu {
            return Some((e.2, e.3, true));
        }
        k = k - 1;
    }
    match board.get(ru, cu) {
        Some(t) => Some((ascii_upper(t.letter), t.is_blank, false)),
        None => None,
    }
}

/// What is wrong with placement `i` on its own, if anything: off the board,
/// on the square of an earlier placement, or on an occupied square.
pub open spec fn cell_error(board: Seq<Option<PlacedTile>>, ps: Seq<Placement>, i: int) -> Option<
    MoveError,
> {
    let p = ps[i];
    if !on_board(p.row as int, p.col as int) {
        Some(MoveError::OffBoard)
    } else if exists|j: int| 0 <= j < i && #[trigger] ps[j].row == p.row && ps[j].col == p.col {
        Some(MoveError::DuplicateCell)
    } else if cell_at(board, p.row as int, p.col as int) is Some {
        Some(MoveError::OverlapsExisting)
    } else {
        None
    }
}

/// The error of the first placement from index `i` on that has one.
pub open spec fn first_cell_error(board: Seq<Option<PlacedTile>>, ps: Seq<Placement>, i: int) -> Option<
    MoveError,
>
    decreases ps.len() - i,
{
    if i >= ps.len() || i < 0 {
        None
    } else {
        match cell_error(board, ps, i) {
            Some(e) => Some(e),
            None => first_cell_error(board, ps, i + 1),
        }
    }
}

/// The axis of a move of several tiles: the one along which they all share a
/// line. A single tile goes horizontally when it has a horizontal neighbour.
pub open spec fn chosen_axis(board: Seq<Option<PlacedTile>>, ps: Seq<Placement>) -> Option<Axis> {
    if ps.len() == 1 {
        let p = ps[0];
        let m = map_of(ps);
        if tile_spec(board, m, p.row as int, p.col - 1) is Some || tile_spec(
            board,
            m,
            p.row as int,
            p.col + 1,
        ) is Some {
            Some(Axis::Horizontal)
        } else {
            Some(Axis::Vertical)
        }
    } else if forall|i: int| 0 <= i < ps.len() ==> #[trigger] ps[i].row == ps[0].row {
        Some(Axis::Horizontal)
    } else if forall|i: int| 0 <= i < ps.len() ==> #[trigger] ps[i].col == ps[0].col {
        Some(Axis::Vertical)
    } else {
        None
    }
}

/// The coordinate of `p` along `axis`.
pub open spec fn along(p: Placement, axis: Axis) -> int {
    match axis {
        Axis::Horizontal => p.col as int,
        Axis::Vertical => p.row as int,
    }
}

/// The coordinate of `p` across `axis` (the line it stands on).
pub open spec fn across(p: Placement, axis: Axis) -> int {
    match axis {
        Axis::Horizontal => p.row as int,
        Axis::Vertical => p.col as int,
    }
}

/// The tile at position `k` of the line `line` along `axis`.
pub open spec fn line_tile(
    board: Seq<Option<PlacedTile>>,
    m: Seq<Pending>,
    axis: Axis,
    line: int,
    k: int,
) -> Option<(char, bool, bool)> {
    match axis {
        Axis::Horizontal => tile_spec(board, m, line, k),
        Axis::Vertical => tile_spec(board, m, k, line),
    }
}

/// Some square of the move's line, between two placed tiles, holds no tile.
pub open spec fn has_gap(board: Seq<Option<PlacedTile>>, ps: Seq<Placement>, axis: Axis) -> bool {
    exists|k: int|
        #![trigger line_tile(board, map_of(ps), axis, across(ps[0], axis), k)]
        (exists|i: int| 0 <= i < ps.len() && #[trigger] along(ps[i], axis) <= k) && (exists|j: int|
            0 <= j < ps.len() && #[trigger] along(ps[j], axis) >= k) && line_tile(
            board,
            map_of(ps),
            axis,
            across(ps[0], axis),
            k,
        ) is None
}

/// Some placement lands on the start square.
pub open spec fn covers_center(ps: Seq<Placement>) -> bool {
    exists|i: int| 0 <= i < ps.len() && #[trigger] ps[i].row == CENTER.0 && ps[i].col == CENTER.1
}

/// A board tile stands next to square `(r, c)`.
pub open spec fn next_to_tile(board: Seq<Option<PlacedTile>>, r: int, c: int) -> bool {
    cell_at(board, r, c + 1) is Some || cell_at(board, r, c - 1) is Some || cell_at(board, r + 1, c)
        is Some || cell_at(board, r - 1, c) is Some
}

/// Some placement stands next to a tile already on the board.
pub open spec fn touches_board(board: Seq<Option<PlacedTile>>, ps: Seq<Placement>) -> bool {
    exists|i: int|
        0 <= i < ps.len() && #[trigger] next_to_tile(board, ps[i].row as int, ps[i].col as int)
}

/// The outcome of the geometry checks, in the order they are made.
pub open spec fn geometry(board: Seq<Option<PlacedTile>>, ps: Seq<Placement>) -> Result<
    Axis,
    MoveError,
> {
    if ps.len() == 0 {
        Err(MoveError::EmptyPlacement)
    } else {
        match first_cell_error(board, ps, 0) {
            Some(e) => Err(e),
            None => match chosen_axis(board, ps) {
                None => Err(MoveError::NotInLine),
                Some(axis) => if has_gap(board, ps, axis) {
                    Err(MoveError::HasGaps)
                } else if all_empty(board) {
                    if covers_center(ps) {
                        Ok(axis)
                    } else {
                        Err(MoveError::FirstMoveMissesCenter)
                    }
                } else if touches_board(board, ps) {
                    Ok(axis)
                } else {
                    Err(MoveError::Disconnected)
                },
            },
        }
    }
}

proof fn lemma_first_cell_error_none(board: Seq<Option<PlacedTile>>, ps: Seq<Placement>, a: int)
    requires
        0 <= a <= ps.len(),
        first_cell_error(board, ps, a) is None,
    ensures
        forall|i: int| a <= i < ps.len() ==> #[trigger] cell_error(board, ps, i) is None,
    decreases ps.len() - a,
{
    if a < ps.len() {
        lemma_first_cell_error_none(board, ps, a + 1);
    }
}

/// A move that passes the geometry checks is legal: it places at least one
/// tile, every tile on an empty square of the board and on a square of its
/// own, all of them on one line along the returned axis with no empty square
/// between them; on an empty board one tile covers the center, otherwise one
/// tile touches a tile already on the board.
pub proof fn lemma_geometry_ok(board: Seq<Option<PlacedTile>>, ps: Seq<Placement>)
    requires
        geometry(board, ps) is Ok,
    ensures
        ps.len() > 0,
        forall|i: int|
            0 <= i < ps.len() ==> on_board(#[trigger] ps[i].row as int, ps[i].col as int)
                && cell_at(board, ps[i].row as int, ps[i].col as int) is None,
        forall|i: int, j: int|
            0 <= i < j < ps.len() ==> !(#[trigger] ps[i].row == #[trigger] ps[j].row && ps[i].col
                == ps[j].col),
        forall|i: int|
            0 <= i < ps.len() ==> #[trigger] across(ps[i], geometry(board, ps)->Ok_0) == across(
                ps[0],
                geometry(board, ps)->Ok_0,
            ),
        !has_gap(board, ps, geometry(board, ps)->Ok_0),
        all_empty(board) ==> covers_center(ps),
        !all_empty(board) ==> touches_board(board, ps),
{
    lemma_first_cell_error_none(board, ps, 0);
    assert forall|i: int|
        0 <= i < ps.len() implies on_board(#[trigger] ps[i].row as int, ps[i].col as int)
        && cell_at(board, ps[i].row as int, ps[i].col as int) is None by {
        assert(cell_error(board, ps, i) is None);
    }
    assert forall|i: int, j: int|
        0 <= i < j < ps.len() implies !(#[trigger] ps[i].row == #[trigger] ps[j].row && ps[i].col
        == ps[j].col) by {
        assert(cell_error(board, ps, j) is None);
    }
}

proof fn lemma_first_cell_error_skip(board: Seq<Option<PlacedTile>>, ps: Seq<Placement>, a: int, i: int)
    requires
        0 <= a <= i <= ps.len(),
        forall|k: int| a <= k < i ==> #[trigger] cell_error(board, ps, k) is None,
    ensures
        first_cell_error(board, ps, a) == first_cell_error(board, ps, i),
    decreases i - a,
{
    if a < i {
        lemma_first_cell_error_skip(board, ps, a + 1, i);
        assert(cell_error(board, ps, a) is None);
    }
}

fn along_of(p: &Placement, axis: Axis) -> (k: usize)
    ensures
        k == along(*p, axis),
{
    match axis {
        Axis::Horizontal => p.col,
        Axis::Vertical => p.row,
    }
}

/// Whether a board tile stands next to the on-board square `(r, c)`.
fn next_to_board_tile(board: &Board, r: usize, c: usize) -> (b: bool)
    requires
        r < BOARD_SIZE,
        c < BOARD_SIZE,
    ensures
        b == next_to_tile(board@, r as int, c as int),
{
    proof {
        use_type_invariant(board);
    }
    (c + 1 < BOARD_SIZE && board.is_occupied(r, c + 1)) || (c > 0 && board.is_occupied(r, c - 1))
        || (r + 1 < BOARD_SIZE && board.is_occupied(r + 1, c)) || (r > 0 && board.is_occupied(
        r - 1,
        c,
    ))
}

/// Validates the placement geometry and returns the move's main axis.
pub fn validate_geometry(board: &Board, placements: &[Placement]) -> (r: Result<Axis, MoveError>)
    ensures
        r == geometry(board@, placements@),
{
    proof {
        use_type_invariant(board);
    }
    let ghost ps = placements@;
    let n = placements.len();
    if n == 0 {
        return Err(MoveError::EmptyPlacement);
    }
    let map = placement_map(placements);

    // Each tile on its own: on the board, on a square of its own, on an empty square.
    for i in 0..n
        invariant
            n == ps.len(),
            ps == placements@,
            board.wf(),
            forall|k: int| 0 <= k < i ==> #[trigger] cell_error(board@, ps, k) is None,
    {
        let p = placements[i];
        if !Board::in_bounds(p.row, p.col) {
            proof {
                lemma_first_cell_error_skip(board@, ps, 0, i as int);
            }
            return Err(MoveError::OffBoard);
        }
        let mut dup = false;
        let mut j: usize = 0;
        while j < i
            invariant
                j <= i < n,
                n == ps.len(),
                ps == placements@,
                p == ps[i as int],
                dup == exists|k: int| 0 <= k < j && #[trigger] ps[k].row == p.row && ps[k].col == p.col,
            decreases i - j,
        {
            if placements[j].row == p.row && placements[j].col == p.col {
                dup = true;
            }
            j = j + 1;
        }
        if dup {
            proof {
                lemma_first_cell_error_skip(board@, ps, 0, i as int);
            }
            return Err(MoveError::DuplicateCell);
        }
        if board.is_occupied(p.row, p.col) {
            proof {
                lemma_first_cell_error_skip(board@, ps, 0, i as int);
            }
            return Err(MoveError::OverlapsExisting);
        }
    }
    proof {
        lemma_first_cell_error_skip(board@, ps, 0, n as int);
        assert forall|k: int| 0 <= k < n implies on_board(
            #[trigger] ps[k].row as int,
            ps[k].col as int,
        ) by {
            assert(cell_error(board@, ps, k) is None);
        }
    }

    let p0 = placements[0];
    let axis = if n == 1 {
        let r = p0.row as isize;
        let c = p0.col as isize;
        let horiz = tile_at(board, &map, r, c - 1).is_some() || tile_at(board, &map, r, c + 1).is_some();
        if horiz {
            Axis::Horizontal
        } else {
            Axis::Vertical
        }
    } else {
        let mut same_row = true;
        let mut same_col = true;
        for i in 0..n
            invariant
                n == ps.len(),
                ps == placements@,
                p0 == ps[0],
                same_row == forall|k: int| 0 <= k < i ==> #[trigger] ps[k].row == p0.row,
                same_col == forall|k: int| 0 <= k < i ==> #[trigger] ps[k].col == p0.col,
        {
            if placements[i].row != p0.row {
                same_row = false;
            }
            if placements[i].col != p0.col {
                same_col = false;
            }
        }
        if same_row {
            Axis::Horizontal
        } else if same_col {
            Axis::Vertical
        } else {
            return Err(MoveError::NotInLine);
        }
    };
    assert(chosen_axis(board@, ps) == Some(axis));

    // No gaps along the main axis between the first and last placed tile.
    let fixed: usize = match axis {
        Axis::Horizontal => p0.row,
        Axis::Vertical => p0.col,
    };
    let mut lo = along_of(&p0, axis);
    let mut hi = lo;
    let ghost mut lo_i: int = 0;
    let ghost mut hi_i: int = 0;
    for i in 1..n
        invariant
            n == ps.len(),
            ps == placements@,
            0 <= lo_i < n,
            0 <= hi_i < n,
            lo == along(ps[lo_i], axis),
            hi == along(ps[hi_i], axis),
            forall|k: int| 0 <= k < i ==> lo <= #[trigger] along(ps[k], axis) <= hi,
    {
        let a = along_of(&placements[i], axis);
        if a < lo {
            lo = a;
            proof {
                lo_i = i as int;
            }
        }
        if a > hi {
            hi = a;
            proof {
                hi_i = i as int;
            }
        }
    }
    assert(hi < BOARD_SIZE) by {
        assert(on_board(ps[hi_i].row as int, ps[hi_i].col as int));
    }
    assert(fixed == across(ps[0], axis));
    assert(fixed < BOARD_SIZE) by {
        assert(on_board(ps[0].row as int, ps[0].col as int));
    }
    let mut k = lo;
    while k <= hi
        invariant
            lo <= k <= hi + 1,
            hi < BOARD_SIZE,
            fixed < BOARD_SIZE,
            board.wf(),
            map@ == map_of(ps),
            n == ps.len(),
            ps == placements@,
            0 <= lo_i < n,
            0 <= hi_i < n,
            lo == along(ps[lo_i], axis),
            hi == along(ps[hi_i], axis),
            fixed == across(ps[0], axis),
            first_cell_error(board@, ps, 0) is None,
            chosen_axis(board@, ps) == Some(axis),
            forall|q: int| lo <= q < k ==> #[trigger] line_tile(board@, map@, axis, fixed as int, q) is Some,
        decreases hi + 1 - k,
    {
        let t = match axis {
            Axis::Horizontal => tile_at(board, &map, fixed as isize, k as isize),
            Axis::Vertical => tile_at(board, &map, k as isize, fixed as isize),
        };
        if t.is_none() {
            proof {
                assert(line_tile(board@, map_of(ps), axis, across(ps[0], axis), k as int) is None);
                assert(along(ps[lo_i], axis) <= k);
                assert(along(ps[hi_i], axis) >= k);
                assert(has_gap(board@, ps, axis));
            }
            return Err(MoveError::HasGaps);
        }
        k = k + 1;
    }
    proof {
        assert forall|q: int|
            (exists|i: int| 0 <= i < ps.len() && #[trigger] along(ps[i], axis) <= q) && (exists|j: int|
                0 <= j < ps.len() && #[trigger] along(ps[j], axis) >= q) implies line_tile(
            board@,
            map_of(ps),
            axis,
            across(ps[0], axis),
            q,
        ) is Some by {
            let i = choose|i: int| 0 <= i < ps.len() && #[trigger] along(ps[i], axis) <= q;
            let j = choose|j: int| 0 <= j < ps.len() && #[trigger] along(ps[j], axis) >= q;
            assert(lo <= along(ps[i], axis));
            assert(along(ps[j], axis) <= hi);
        }
        assert(!has_gap(board@, ps, axis));
    }

    // The first move covers the center; later moves connect to a tile.
    if board.is_empty() {
        let mut covers = false;
        for i in 0..n
            invariant
                n == ps.len(),
                ps == placements@,
                covers == exists|k: int|
                    0 <= k < i && #[trigger] ps[k].row == CENTER.0 && ps[k].col == CENTER.1,
        {
            if placements[i].row == CENTER.0 && placements[i].col == CENTER.1 {
                covers = true;
            }
        }
        if !covers {
            return Err(MoveError::FirstMoveMissesCenter);
        }
    } else {
        let mut touches = false;
        for i in 0..n
            invariant
                n == ps.len(),
                ps == placements@,
                board.wf(),
                forall|k: int| 0 <= k < n ==> on_board(#[trigger] ps[k].row as int, ps[k].col as int),
                touches == exists|k: int|
                    0 <= k < i && #[trigger] next_to_tile(board@, ps[k].row as int, ps[k].col as int),
        {
            let p = placements[i];
            assert(on_board(ps[i as int].row as int, ps[i as int].col as int));
            if next_to_board_tile(board, p.row, p.col) {
                touches = true;
            }
        }
        if !touches {
            return Err(MoveError::Disconnected);
        }
    }
    Ok(axis)
}

/// The square before `(r, c)` along `axis`.
pub open spec fn prev_sq(axis: Axis, r: int, c: int) -> (int, int) {
    match axis {
        Axis::Horizontal => (r, c - 1),
        Axis::Vertical => (r - 1, c),
    }
}

/// The square `i` steps after `(r, c)` along `axis`.
pub open spec fn pos(axis: Axis, r: int, c: int, i: int) -> (int, int) {
    match axis {
        Axis::Horizontal => (r, c + i),
        Axis::Vertical => (r + i, c),
    }
}

/// The first square of the run of tiles along `axis` that reaches `(r, c)`.
pub open spec fn run_start(board: Seq<Option<PlacedTile>>, m: Seq<Pending>, axis: Axis, r: int, c: int) -> (
    int,
    int,
)
    decreases r + c,
{
    let p = prev_sq(axis, r, c);
    if tile_spec(board, m, p.0, p.1) is Some {
        run_start(board, m, axis, p.0, p.1)
    } else {
        (r, c)
    }
}

/// The number of consecutive tiles along `axis` from `(r, c)` on.
pub open spec fn run_len(board: Seq<Option<PlacedTile>>, m: Seq<Pending>, axis: Axis, r: int, c: int) -> nat
    decreases 30 - r - c,
{
    if tile_spec(board, m, r, c) is Some {
        let q = pos(axis, r, c, 1);
        1 + run_len(board, m, axis, q.0, q.1)
    } else {
        0
    }
}

/// The word cell for the tile on square `(r, c)`.
pub open spec fn cell_spec(board: Seq<Option<PlacedTile>>, m: Seq<Pending>, r: int, c: int) -> WordCell {
    let t = tile_spec(board, m, r, c)->Some_0;
    WordCell { row: r as usize, col: c as usize, letter: t.0, is_blank: t.1, is_new: t.2 }
}

/// The cells of the maximal run of tiles along `axis` through `(r, c)`.
pub open spec fn word_cells(board: Seq<Option<PlacedTile>>, m: Seq<Pending>, axis: Axis, r: int, c: int) -> Seq<
    WordCell,
> {
    let s = run_start(board, m, axis, r, c);
    Seq::new(
        run_len(board, m, axis, s.0, s.1),
        |i: int| cell_spec(board, m, pos(axis, s.0, s.1, i).0, pos(axis, s.0, s.1, i).1),
    )
}

/// The letters of a word.
pub open spec fn letters(cells: Seq<WordCell>) -> Seq<char> {
    cells.map_values(|c: WordCell| c.letter)
}

/// The word along `axis` through `from`.
fn build_word(board: &Board, map: &Vec<Pending>, from: (usize, usize), axis: Axis) -> (w: FormedWord)
    ensures
        w.cells@ == word_cells(board@, map@, axis, from.0 as int, from.1 as int),
        w.text@ == letters(w.cells@),
{
    proof {
        use_type_invariant(board);
    }
    let ghost fr = from.0 as int;
    let ghost fc = from.1 as int;
    if from.0 > BOARD_SIZE || from.1 > BOARD_SIZE {
        assert(run_start(board@, map@, axis, fr, fc) == (fr, fc));
        assert(run_len(board@, map@, axis, fr, fc) == 0);
        let cells: Vec<WordCell> = Vec::new();
        let text = string_from_chars(&[]);
        assert(cells@ =~= word_cells(board@, map@, axis, fr, fc));
        assert(letters(cells@) =~= Seq::<char>::empty());
        return FormedWord { text, cells };
    }
    let (dr, dc) = axis.step();
    // Walk back to the start of the contiguous run.
    let mut sr = from.0 as isize;
    let mut sc = from.1 as isize;
    while tile_at(board, map, sr - dr, sc - dc).is_some()
        invariant
            board.wf(),
            0 <= sr <= 16,
            0 <= sc <= 16,
            (dr, dc) == (match axis {
                Axis::Horizontal => (0isize, 1isize),
                Axis::Vertical => (1isize, 0isize),
            }),
            run_start(board@, map@, axis, fr, fc) == run_start(board@, map@, axis, sr as int, sc as int),
        decreases sr + sc,
    {
        sr = sr - dr;
        sc = sc - dc;
    }
    let ghost start = (sr as int, sc as int);
    assert(run_start(board@, map@, axis, sr as int, sc as int) == start);
    let ghost total = run_len(board@, map@, axis, sr as int, sc as int);
    // Walk forward, collecting cells.
    let mut cells: Vec<WordCell> = Vec::new();
    let mut chars: Vec<char> = Vec::new();
    let mut cr = sr;
    let mut cc = sc;
    let ghost mut k: int = 0;
    loop
        invariant
            board.wf(),
            0 <= cr <= 16,
            0 <= cc <= 16,
            0 <= k <= total,
            (dr, dc) == (match axis {
                Axis::Horizontal => (0isize, 1isize),
                Axis::Vertical => (1isize, 0isize),
            }),
            (cr as int, cc as int) == pos(axis, start.0, start.1, k),
            total == k + run_len(board@, map@, axis, cr as int, cc as int),
            cells@ =~= word_cells(board@, map@, axis, fr, fc).take(k),
            chars@ =~= letters(cells@),
            word_cells(board@, map@, axis, fr, fc).len() == total,
            run_start(board@, map@, axis, fr, fc) == start,
            total == run_len(board@, map@, axis, start.0, start.1),
        ensures
            cells@ =~= word_cells(board@, map@, axis, fr, fc),
            chars@ =~= letters(cells@),
        decreases 32 - cr - cc,
    {
        match tile_at(board, map, cr, cc) {
            Some((letter, is_blank, is_new)) => {
                let cell = WordCell { row: cr as usize, col: cc as usize, letter, is_blank, is_new };
                assert(run_len(board@, map@, axis, cr as int, cc as int) >= 1);
                assert(cell == cell_spec(board@, map@, cr as int, cc as int));
                assert(cell == word_cells(board@, map@, axis, fr, fc)[k]);
                cells.push(cell);
                chars.push(letter);
                cr = cr + dr;
                cc = cc + dc;
                proof {
                    k = k + 1;
                }
            },
            None => {
                assert(k == total);
                break;
            },
        }
    }
    let text = string_from_chars(chars.as_slice());
    FormedWord { text, cells }
}

/// Whether a run of cells makes a word (two letters or more).
pub open spec fn is_word(w: Seq<WordCell>) -> bool {
    w.len() >= 2
}

/// The main word along `axis` through the first placement, then the cross
/// word through each placement, keeping those of two letters or more.
pub open spec fn formed_words(board: Seq<Option<PlacedTile>>, ps: Seq<Placement>, axis: Axis) -> Seq<
    Seq<WordCell>,
> {
    let m = map_of(ps);
    let main = word_cells(board, m, axis, ps[0].row as int, ps[0].col as int);
    let crosses = ps.map_values(
        |p: Placement| word_cells(board, m, cross_of(axis), p.row as int, p.col as int),
    );
    (if is_word(main) {
        seq![main]
    } else {
        Seq::empty()
    }) + crosses.filter(|w: Seq<WordCell>| is_word(w))
}

/// The words a move forms are all the runs it makes: the run along the
/// move's axis through its first tile and the run across the axis through
/// each of its tiles, whenever that run has two letters or more, however many
/// tiles were placed; and no shorter run is taken for a word.
pub proof fn lemma_formed_words_complete(board: Seq<Option<PlacedTile>>, ps: Seq<Placement>, axis: Axis)
    requires
        ps.len() > 0,
    ensures
        ({
            let m = map_of(ps);
            let ws = formed_words(board, ps, axis);
            let main = word_cells(board, m, axis, ps[0].row as int, ps[0].col as int);
            &&& main.len() >= 2 ==> ws.contains(main)
            &&& forall|i: int|
                0 <= i < ps.len() && word_cells(board, m, cross_of(axis), (#[trigger] ps[i]).row as int, ps[i].col as int).len() >= 2
                    ==> ws.contains(word_cells(board, m, cross_of(axis), ps[i].row as int, ps[i].col as int))
            &&& forall|k: int| 0 <= k < ws.len() ==> (#[trigger] ws[k]).len() >= 2
        }),
{
    let m = map_of(ps);
    let ws = formed_words(board, ps, axis);
    let main = word_cells(board, m, axis, ps[0].row as int, ps[0].col as int);
    let crosses = ps.map_values(
        |p: Placement| word_cells(board, m, cross_of(axis), p.row as int, p.col as int),
    );
    let pred = |w: Seq<WordCell>| is_word(w);
    let head = if is_word(main) {
        seq![main]
    } else {
        Seq::<Seq<WordCell>>::empty()
    };
    let tail = crosses.filter(pred);
    assert(ws == head + tail);
    if main.len() >= 2 {
        assert(ws[0] == main);
    }
    assert forall|i: int|
        0 <= i < ps.len() && word_cells(board, m, cross_of(axis), (#[trigger] ps[i]).row as int, ps[i].col as int).len() >= 2
            implies ws.contains(word_cells(board, m, cross_of(axis), ps[i].row as int, ps[i].col as int)) by {
        assert(crosses[i] == word_cells(board, m, cross_of(axis), ps[i].row as int, ps[i].col as int));
        crosses.lemma_filter_contains(pred, i);
        let j = choose|j: int| 0 <= j < tail.len() && tail[j] == crosses[i];
        assert(ws[head.len() + j] == tail[j]);
    }
    assert forall|k: int| 0 <= k < ws.len() implies (#[trigger] ws[k]).len() >= 2 by {
        if k >= head.len() {
            crosses.lemma_filter_pred(pred, k - head.len());
            assert(ws[k] == tail[k - head.len()]);
        }
    }
}

/// `words` holds exactly the words `ws`, each with its text.
pub open spec fn words_match(words: Seq<FormedWord>, ws: Seq<Seq<WordCell>>) -> bool {
    &&& words.len() == ws.len()
    &&& forall|i: int|
        0 <= i < ws.len() ==> (#[trigger] words[i]).cells@ == ws[i] && words[i].text@ == letters(
            ws[i],
        )
}

proof fn lemma_cell_error_kinds(board: Seq<Option<PlacedTile>>, ps: Seq<Placement>, a: int)
    ensures
        first_cell_error(board, ps, a) != Some(MoveError::Disconnected),
    decreases ps.len() - a,
{
    if 0 <= a < ps.len() {
        lemma_cell_error_kinds(board, ps, a + 1);
    }
}

/// A move is refused as disconnected only on a board that already has tiles,
/// and only when none of its tiles is orthogonally next to one of them: a
/// move that touches the board through any of its tiles is never refused
/// for that.
pub proof fn lemma_disconnected_only_without_neighbours(board: Seq<Option<PlacedTile>>, ps: Seq<Placement>)
    ensures
        geometry(board, ps) == Err::<Axis, MoveError>(MoveError::Disconnected) ==> {
            &&& !all_empty(board)
            &&& forall|i: int|
                0 <= i < ps.len() ==> {
                    let r = (#[trigger] ps[i]).row as int;
                    let c = ps[i].col as int;
                    &&& cell_at(board, r, c + 1) is None
                    &&& cell_at(board, r, c - 1) is None
                    &&& cell_at(board, r + 1, c) is None
                    &&& cell_at(board, r - 1, c) is None
                }
        },
{
    lemma_cell_error_kinds(board, ps, 0);
    if geometry(board, ps) == Err::<Axis, MoveError>(MoveError::Disconnected) {
        assert forall|i: int| 0 <= i < ps.len() implies {
            let r = (#[trigger] ps[i]).row as int;
            let c = ps[i].col as int;
            &&& cell_at(board, r, c + 1) is None
            &&& cell_at(board, r, c - 1) is None
            &&& cell_at(board, r + 1, c) is None
            &&& cell_at(board, r - 1, c) is None
        } by {
            if next_to_tile(board, ps[i].row as int, ps[i].col as int) {
                assert(touches_board(board, ps));
            }
        }
    }
}

/// Square `k` of line `line` along `axis`.
pub open spec fn line_sq(axis: Axis, line: int, k: int) -> (int, int) {
    match axis {
        Axis::Horizontal => (line, k),
        Axis::Vertical => (k, line),
    }
}

/// The coordinate of square `q` along `axis`.
pub open spec fn sq_along(axis: Axis, q: (int, int)) -> int {
    match axis {
        Axis::Horizontal => q.1,
        Axis::Vertical => q.0,
    }
}

/// Every square of line `line` from `lo` to `hi` holds a tile.
pub open spec fn filled(
    board: Seq<Option<PlacedTile>>,
    m: Seq<Pending>,
    axis: Axis,
    line: int,
    lo: int,
    hi: int,
) -> bool {
    forall|j: int| lo <= j <= hi ==> #[trigger] line_tile(board, m, axis, line, j) is Some
}

proof fn lemma_run_start_back(
    board: Seq<Option<PlacedTile>>,
    m: Seq<Pending>,
    axis: Axis,
    line: int,
    k: int,
    a: int,
)
    requires
        a <= k,
        filled(board, m, axis, line, a, k),
    ensures
        ({
            let s = run_start(board, m, axis, line_sq(axis, line, k).0, line_sq(axis, line, k).1);
            &&& s == line_sq(axis, line, sq_along(axis, s))
            &&& sq_along(axis, s) <= a
            &&& filled(board, m, axis, line, sq_along(axis, s), k)
        }),
    decreases k,
{
    let q = line_sq(axis, line, k);
    assert(line_tile(board, m, axis, line, k) is Some);
    assert(k >= 0);
    let p = prev_sq(axis, q.0, q.1);
    assert(p == line_sq(axis, line, k - 1));
    if tile_spec(board, m, p.0, p.1) is Some {
        assert(line_tile(board, m, axis, line, k - 1) is Some);
        let a2 = if a <= k - 1 { a } else { k - 1 };
        assert forall|j: int| a2 <= j <= k - 1 implies #[trigger] line_tile(board, m, axis, line, j) is Some by {
            if j >= a {
                assert(line_tile(board, m, axis, line, j) is Some);
            }
        }
        lemma_run_start_back(board, m, axis, line, k - 1, a2);
    } else {
        if a < k {
            assert(line_tile(board, m, axis, line, k - 1) is Some);
        }
    }
}

proof fn lemma_run_len_fwd(
    board: Seq<Option<PlacedTile>>,
    m: Seq<Pending>,
    axis: Axis,
    line: int,
    k: int,
    b: int,
)
    requires
        k <= b,
        filled(board, m, axis, line, k, b),
    ensures
        run_len(board, m, axis, line_sq(axis, line, k).0, line_sq(axis, line, k).1) >= b - k + 1,
    decreases b - k,
{
    let q = line_sq(axis, line, k);
    assert(line_tile(board, m, axis, line, k) is Some);
    assert(pos(axis, q.0, q.1, 1) == line_sq(axis, line, k + 1));
    if k < b {
        assert forall|j: int| k + 1 <= j <= b implies #[trigger] line_tile(board, m, axis, line, j) is Some by {
            assert(line_tile(board, m, axis, line, j) is Some);
        }
        lemma_run_len_fwd(board, m, axis, line, k + 1, b);
    }
}

/// After a placement passes the geometry checks, its main word (the run of
/// tiles along the move's axis through the first placement) runs through
/// every placed tile.
pub proof fn lemma_main_word_covers_placements(board: Seq<Option<PlacedTile>>, ps: Seq<Placement>)
    requires
        geometry(board, ps) is Ok,
    ensures
        ({
            let axis = geometry(board, ps)->Ok_0;
            let main = word_cells(board, map_of(ps), axis, ps[0].row as int, ps[0].col as int);
            forall|i: int|
                #![trigger ps[i]]
                0 <= i < ps.len() ==> exists|k: int|
                    0 <= k < main.len() && (#[trigger] main[k]).row == ps[i].row && main[k].col
                        == ps[i].col
        }),
{
    let axis = geometry(board, ps)->Ok_0;
    let m = map_of(ps);
    let main = word_cells(board, m, axis, ps[0].row as int, ps[0].col as int);
    lemma_geometry_ok(board, ps);
    let line = across(ps[0], axis);
    let a0 = along(ps[0], axis);
    assert(line_sq(axis, line, a0) == (ps[0].row as int, ps[0].col as int));
    assert forall|i: int| #![trigger ps[i]] 0 <= i < ps.len() implies exists|k: int|
        0 <= k < main.len() && (#[trigger] main[k]).row == ps[i].row && main[k].col == ps[i].col by {
        let ai = along(ps[i], axis);
        assert(across(ps[i], axis) == across(ps[0], axis));
        assert(line_sq(axis, line, ai) == (ps[i].row as int, ps[i].col as int));
        let lo = if ai <= a0 { ai } else { a0 };
        let hi = if ai <= a0 { a0 } else { ai };
        assert forall|j: int| lo <= j <= hi implies #[trigger] line_tile(board, m, axis, line, j) is Some by {
            assert(along(ps[i], axis) <= j || along(ps[0], axis) <= j);
            assert(along(ps[i], axis) >= j || along(ps[0], axis) >= j);
            assert(!has_gap(board, ps, axis));
        }
        assert forall|j: int| lo <= j <= a0 implies #[trigger] line_tile(board, m, axis, line, j) is Some by {
            assert(line_tile(board, m, axis, line, j) is Some);
        }
        lemma_run_start_back(board, m, axis, line, a0, lo);
        let s = run_start(board, m, axis, ps[0].row as int, ps[0].col as int);
        let t = sq_along(axis, s);
        assert forall|j: int| t <= j <= hi implies #[trigger] line_tile(board, m, axis, line, j) is Some by {
            if j <= a0 {
                assert(filled(board, m, axis, line, t, a0));
            } else {
                assert(line_tile(board, m, axis, line, j) is Some);
            }
        }
        lemma_run_len_fwd(board, m, axis, line, t, hi);
        let k = ai - t;
        assert(pos(axis, s.0, s.1, k) == line_sq(axis, line, ai));
        assert(main[k] == cell_spec(board, m, line_sq(axis, line, ai).0, line_sq(axis, line, ai).1));
    }
}

/// Collects the main word plus every cross word formed by the placements.
/// Only words of two letters or more are returned.
pub fn collect_formed_words(board: &Board, placements: &[Placement], axis: Axis) -> (words: Vec<
    FormedWord,
>)
    requires
        placements@.len() > 0,
    ensures
        words_match(words@, formed_words(board@, placements@, axis)),
{
    proof {
        use_type_invariant(board);
    }
    let ghost ps = placements@;
    let map = placement_map(placements);
    let ghost m = map@;
    let mut words: Vec<FormedWord> = Vec::new();
    let main = build_word(board, &map, (placements[0].row, placements[0].col), axis);
    let ghost head: Seq<Seq<WordCell>> = if is_word(main.cells@) {
        seq![main.cells@]
    } else {
        Seq::empty()
    };
    if main.cells.len() >= 2 {
        words.push(main);
    }
    let cross_axis = axis.cross();
    let ghost crosses = ps.map_values(
        |p: Placement| word_cells(board@, m, cross_of(axis), p.row as int, p.col as int),
    );
    let n = placements.len();
    for i in 0..n
        invariant
            n == ps.len(),
            ps == placements@,
            board.wf(),
            map@ == m,
            m == map_of(ps),
            cross_axis == cross_of(axis),
            crosses == ps.map_values(
                |p: Placement| word_cells(board@, m, cross_of(axis), p.row as int, p.col as int),
            ),
            words_match(words@, head + crosses.take(i as int).filter(|w: Seq<WordCell>| is_word(w))),
    {
        let p = placements[i];
        let cross = build_word(board, &map, (p.row, p.col), cross_axis);
        proof {
            reveal_with_fuel(Seq::filter, 1);
            assert(crosses.take(i + 1).drop_last() =~= crosses.take(i as int));
            assert(crosses[i as int] == cross.cells@);
        }
        let ghost before = words@;
        if cross.cells.len() >= 2 {
            words.push(cross);
        }
        proof {
            let f = |w: Seq<WordCell>| is_word(w);
            let prev = head + crosses.take(i as int).filter(f);
            let next = head + crosses.take(i + 1).filter(f);
            if is_word(cross.cells@) {
                assert(next =~= prev.push(cross.cells@));
            } else {
                assert(next =~= prev);
            }
            assert forall|k: int| 0 <= k < next.len() implies (#[trigger] words@[k]).cells@ == next[k]
                && words@[k].text@ == letters(next[k]) by {
                if k < prev.len() {
                    assert(words@[k] == before[k]);
                }
            }
        }
    }
    proof {
        assert(crosses.take(n as int) =~= crosses);
    }
    words
}

/// The index of the first of `ws` from `i` on whose text is not a word of
/// `dict`, if any.
pub open spec fn first_unknown(ws: Seq<Seq<WordCell>>, dict: Set<Seq<char>>, i: int) -> Option<int>
    decreases ws.len() - i,
{
    if i < 0 || i >= ws.len() {
        None
    } else if !dict.contains(normalized(letters(ws[i]))) {
        Some(i)
    } else {
        first_unknown(ws, dict, i + 1)
    }
}

proof fn lemma_first_unknown_skip(ws: Seq<Seq<WordCell>>, dict: Set<Seq<char>>, a: int, i: int)
    requires
        0 <= a <= i <= ws.len(),
        forall|k: int| a <= k < i ==> dict.contains(normalized(letters(#[trigger] ws[k]))),
    ensures
        first_unknown(ws, dict, a) == first_unknown(ws, dict, i),
    decreases i - a,
{
    if a < i {
        lemma_first_unknown_skip(ws, dict, a + 1, i);
    }
}

/// The outcome of a full validation, described over its parts: the
/// geometry, the words formed, and the dictionary lookups.
pub open spec fn play_outcome(
    board: Seq<Option<PlacedTile>>,
    ps: Seq<Placement>,
    dict: Set<Seq<char>>,
    r: Result<Vec<FormedWord>, MoveError>,
) -> bool {
    match geometry(board, ps) {
        Err(e) => r == Err::<Vec<FormedWord>, MoveError>(e),
        Ok(axis) => {
            let ws = formed_words(board, ps, axis);
            if ws.len() == 0 {
                r == Err::<Vec<FormedWord>, MoveError>(MoveError::NoWordFormed)
            } else {
                match first_unknown(ws, dict, 0) {
                    Some(k) => r matches Err(MoveError::InvalidWord(t)) && t@ == letters(ws[k]),
                    None => r matches Ok(words) && words_match(words@, ws),
                }
            }
        },
    }
}

/// Full validation: geometry, word formation, and dictionary lookup. Returns
/// the formed words (with cells) for scoring.
pub fn validate_play(board: &Board, placements: &[Placement], dict: &Dictionary) -> (r: Result<
    Vec<FormedWord>,
    MoveError,
>)
    ensures
        play_outcome(board@, placements@, dict@, r),
{
    proof {
        use_type_invariant(board);
    }
    let axis = match validate_geometry(board, placements) {
        Ok(a) => a,
        Err(e) => {
            return Err(e);
        },
    };
    let words = collect_formed_words(board, placements, axis);
    let ghost ws = formed_words(board@, placements@, axis);
    if words.len() == 0 {
        return Err(MoveError::NoWordFormed);
    }
    let n = words.len();
    for i in 0..n
        invariant
            n == words@.len(),
            n > 0,
            words_match(words@, ws),
            geometry(board@, placements@) == Ok::<Axis, MoveError>(axis),
            ws == formed_words(board@, placements@, axis),
            forall|k: int| 0 <= k < i ==> dict@.contains(normalized(letters(#[trigger] ws[k]))),
    {
        let w = &words[i];
        if !dict.contains(w.text.as_str()) {
            proof {
                lemma_first_unknown_skip(ws, dict@, 0, i as int);
            }
            return Err(MoveError::InvalidWord(w.text.clone()));
        }
    }
    proof {
        lemma_first_unknown_skip(ws, dict@, 0, n as int);
    }
    Ok(words)
}

} // verus!
