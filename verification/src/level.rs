//! A second, self-contained board engine with its own cell alphabet
//! (`Empty` for bare ground, `Box` for a loose crate) whose move
//! primitive is a direct three-cell case table rather than the
//! volume-conservation check.  A level keeps its pristine parsed board,
//! so it can be reset, and records each move's overwritten cells for
//! replaying backwards.  Cells carry no coordinates of their own: a
//! cell's position is always the grid index under which it is stored.

use vstd::prelude::*;

use crate::engine::{dir_delta, Coordinate, Dir};

verus! {

/// One square of the board.
#[derive(Clone, Copy, PartialEq, Eq, Hash, Debug, Structural)]
pub enum Cell {
    Player,
    Wall,
    Box,
    Empty,
    Target,
    PlayerOnTarget,
    BoxOnTarget,
}

impl DeepView for Cell {
    type V = Cell;

    open spec fn deep_view(&self) -> Cell {
        *self
    }
}

impl Cell {
    /// The substrate under a cell: what remains when its occupant leaves.
    pub open spec fn spec_substrate(self) -> Cell {
        match self {
            Cell::Box => Cell::Empty,
            Cell::BoxOnTarget => Cell::Target,
            Cell::Player => Cell::Empty,
            Cell::PlayerOnTarget => Cell::Target,
            _ => self,
        }
    }

    /// The occupant of a cell; `Empty` stands for "no occupant".
    pub open spec fn spec_unit(self) -> Cell {
        match self {
            Cell::Box => Cell::Box,
            Cell::BoxOnTarget => Cell::Box,
            Cell::Player => Cell::Player,
            Cell::PlayerOnTarget => Cell::Player,
            _ => Cell::Empty,
        }
    }

    /// Overlay a moving unit onto bare substrate.
    pub open spec fn spec_overlay(self, unit: Cell) -> Cell {
        match self {
            Cell::Empty => match unit {
                Cell::Box => Cell::Box,
                Cell::Player => Cell::Player,
                _ => Cell::Empty,
            },
            Cell::Target => match unit {
                Cell::Box => Cell::BoxOnTarget,
                Cell::Player => Cell::PlayerOnTarget,
                _ => Cell::Target,
            },
            _ => self,
        }
    }

    /// Bare substrate: a cell a unit may move onto.
    pub open spec fn spec_bare(self) -> bool {
        self == Cell::Empty || self == Cell::Target
    }

    /// The blocking volume of a cell: walls and boxes resist a push,
    /// substrate and the player do not.
    pub open spec fn spec_volume(self) -> int {
        match self {
            Cell::BoxOnTarget => 1,
            Cell::Box => 1,
            Cell::Wall => 1,
            _ => 0,
        }
    }

    #[allow(dead_code)]
    fn volume(&self) -> (v: u32)
        ensures
            v as int == self.spec_volume(),
    {
        match *self {
            Cell::BoxOnTarget => 1,
            Cell::Box => 1,
            Cell::Wall => 1,
            Cell::PlayerOnTarget => 0,
            Cell::Player => 0,
            Cell::Empty => 0,
            Cell::Target => 0,
        }
    }

    fn mv(from: &Cell, push: &Cell, to: &Cell) -> (res: (Cell, Cell, Cell, bool))
        ensures
            res == mv_spec(*from, *push, *to),
    {
        match *from {
            Cell::PlayerOnTarget => {
                match *push {
                    Cell::Wall => (Cell::PlayerOnTarget, Cell::Wall, *to, false),
                    Cell::Empty => (Cell::Target, Cell::Player, *to, true),
                    Cell::Target => (Cell::Target, Cell::PlayerOnTarget, *to, true),
                    Cell::Box => {
                        match *to {
                            Cell::Empty => (Cell::Target, Cell::Player, Cell::Box, true),
                            Cell::Target => (Cell::Target, Cell::Player, Cell::BoxOnTarget, true),
                            _ => (*from, *push, *to, false),
                        }
                    },
                    Cell::BoxOnTarget => {
                        match *to {
                            Cell::Empty => (Cell::Target, Cell::PlayerOnTarget, Cell::Box, true),
                            Cell::Target => (
                                Cell::Target,
                                Cell::PlayerOnTarget,
                                Cell::BoxOnTarget,
                                true,
                            ),
                            _ => (*from, *push, *to, false),
                        }
                    },
                    _ => (*from, *push, *to, false),
                }
            },
            Cell::Player => {
                match *push {
                    Cell::Wall => (*from, *push, *to, false),
                    Cell::Empty => (Cell::Empty, Cell::Player, *to, true),
                    Cell::Target => (Cell::Empty, Cell::PlayerOnTarget, *to, true),
                    Cell::Box => {
                        match *to {
                            Cell::Empty => (Cell::Empty, Cell::Player, Cell::Box, true),
                            Cell::Target => (Cell::Empty, Cell::Player, Cell::BoxOnTarget, true),
                            _ => (*from, *push, *to, false),
                        }
                    },
                    Cell::BoxOnTarget => {
                        match *to {
                            Cell::Empty => (Cell::Empty, Cell::PlayerOnTarget, Cell::Box, true),
                            Cell::Target => (
                                Cell::Empty,
                                Cell::PlayerOnTarget,
                                Cell::BoxOnTarget,
                                true,
                            ),
                            _ => (*from, *push, *to, false),
                        }
                    },
                    _ => (*from, *push, *to, false),
                }
            },
            _ => (*from, *push, *to, false),
        }
    }
}

/// When a three-cell move goes through: the left cell carries the player,
/// and ahead of it lies either bare substrate (a plain step) or a box with
/// bare substrate behind it (a push).
pub open spec fn mv_allowed(from: Cell, push: Cell, to: Cell) -> bool {
    from.spec_unit() == Cell::Player && (push.spec_bare() || (push.spec_unit() == Cell::Box
        && to.spec_bare()))
}

/// The three cells after a move: the player leaves its substrate behind
/// and lands on the middle cell's substrate, and whatever box the middle
/// cell held lands on the right cell.  A move that is not allowed leaves
/// all three cells unchanged.
pub open spec fn mv_spec(from: Cell, push: Cell, to: Cell) -> (Cell, Cell, Cell, bool) {
    if mv_allowed(from, push, to) {
        (
            from.spec_substrate(),
            push.spec_substrate().spec_overlay(Cell::Player),
            to.spec_overlay(push.spec_unit()),
            true,
        )
    } else {
        (from, push, to, false)
    }
}

/// Whether a coordinate indexes into the board.
pub open spec fn lvl_in_grid(m: Seq<Seq<Cell>>, c: Coordinate) -> bool {
    c.0 < m.len() && c.1 < m[c.0 as int].len()
}

/// The cell of the board at a coordinate.
pub open spec fn lvl_cell_at(m: Seq<Seq<Cell>>, c: Coordinate) -> Cell {
    m[c.0 as int][c.1 as int]
}

/// The board with the cell at one coordinate replaced.
pub open spec fn lvl_set(m: Seq<Seq<Cell>>, c: Coordinate, v: Cell) -> Seq<Seq<Cell>> {
    m.update(c.0 as int, m[c.0 as int].update(c.1 as int, v))
}

/// Whether an integer pair indexes into the board.
pub open spec fn lvl_in_grid_i(m: Seq<Seq<Cell>>, i: int, j: int) -> bool {
    0 <= i < m.len() && 0 <= j < m[i].len()
}

/// Whether a coordinate lies on the outermost ring of the board.
pub open spec fn lvl_on_border(m: Seq<Seq<Cell>>, c: Coordinate) -> bool {
    c.0 == 0 || c.0 + 1 == m.len() || c.1 == 0 || c.1 + 1 == m[c.0 as int].len()
}

/// A well-shaped board: rectangular, machine-sized, walled all around.
pub open spec fn lvl_board_wf(m: Seq<Seq<Cell>>) -> bool {
    &&& forall|i: int| 0 <= i < m.len() ==> (#[trigger] m[i]).len() == m[0].len()
    &&& m.len() <= usize::MAX
    &&& forall|i: int| 0 <= i < m.len() ==> (#[trigger] m[i]).len() <= usize::MAX
    &&& forall|c: Coordinate|
        lvl_in_grid(m, c) && lvl_on_border(m, c) ==> #[trigger] lvl_cell_at(m, c) == Cell::Wall
}

/// One remembered move: the three coordinates it touched and the three
/// cells they held before the move.
pub type Record = (Coordinate, Coordinate, Coordinate, (Cell, Cell, Cell));

/// What a record of a well-formed level looks like; `revert` can write
/// such a record back without losing the board's shape.
pub open spec fn record_wf(m: Seq<Seq<Cell>>, e: Record) -> bool {
    &&& lvl_in_grid(m, e.0)
    &&& lvl_in_grid(m, e.1)
    &&& lvl_in_grid(m, e.2)
    &&& !lvl_on_border(m, e.0)
    &&& !lvl_on_border(m, e.1)
    &&& (lvl_on_border(m, e.2) ==> e.3.2 == Cell::Wall)
    &&& e.0 != e.1
    &&& e.0 != e.2
    &&& e.1 != e.2
    &&& e.3.0.spec_unit() == Cell::Player
}

/// The mathematical state of a level: the pristine parsed board with the
/// player's starting coordinate, the live board with the player's current
/// coordinate, the declared dimensions and the undo record.
#[verifier::ext_equal]
pub struct LevelModel {
    pub index: usize,
    pub height: usize,
    pub width: usize,
    pub layout: Seq<Seq<Cell>>,
    pub start: Coordinate,
    pub map: Seq<Seq<Cell>>,
    pub player: Coordinate,
    pub record: Seq<Record>,
}

/// A level fit for play.
pub open spec fn level_wf(s: LevelModel) -> bool {
    &&& lvl_board_wf(s.map)
    &&& lvl_in_grid(s.map, s.player)
    &&& lvl_cell_at(s.map, s.player).spec_unit() == Cell::Player
    &&& s.height == s.map.len()
    &&& s.map.len() > 0 && s.width == s.map[0].len()
    &&& forall|k: int| 0 <= k < s.record.len() ==> record_wf(s.map, #[trigger] s.record[k])
    &&& lvl_board_wf(s.layout)
    &&& lvl_in_grid(s.layout, s.start)
    &&& lvl_cell_at(s.layout, s.start).spec_unit() == Cell::Player
    &&& s.layout.len() == s.map.len()
    &&& s.layout.len() > 0 && s.layout[0].len() == s.map[0].len()
}

/// One attempted move: run the three-cell table on the player's cell and
/// the two ahead when they exist, record the overwritten cells on
/// success, and change nothing on failure or at the board's edge (where
/// the middle cell of a walled board is a wall anyway).
pub open spec fn level_move_model(s: LevelModel, d: Dir) -> LevelModel {
    let (di, dj) = dir_delta(d);
    let bi = s.player.0 + di;
    let bj = s.player.1 + dj;
    let ci = s.player.0 + 2 * di;
    let cj = s.player.1 + 2 * dj;
    if lvl_in_grid_i(s.map, bi, bj) && lvl_in_grid_i(s.map, ci, cj) {
        let b = (bi as usize, bj as usize);
        let c = (ci as usize, cj as usize);
        let from = lvl_cell_at(s.map, s.player);
        let push = lvl_cell_at(s.map, b);
        let to = lvl_cell_at(s.map, c);
        let (f2, p2, t2, moved) = mv_spec(from, push, to);
        if moved {
            LevelModel {
                map: lvl_set(lvl_set(lvl_set(s.map, s.player, f2), b, p2), c, t2),
                player: b,
                record: s.record.push((s.player, b, c, (from, push, to))),
                ..s
            }
        } else {
            s
        }
    } else {
        s
    }
}

/// Undo of the most recent move: write the three recorded cells back and
/// put the player on the first recorded coordinate.
pub open spec fn level_revert_model(s: LevelModel) -> LevelModel {
    if s.record.len() == 0 {
        s
    } else {
        let e = s.record.last();
        LevelModel {
            map: lvl_set(lvl_set(lvl_set(s.map, e.0, e.3.0), e.1, e.3.1), e.2, e.3.2),
            player: e.0,
            record: s.record.drop_last(),
            ..s
        }
    }
}

/// A well-formed level keeps its player strictly inside the border.
pub proof fn lemma_level_player_interior(s: LevelModel)
    requires
        level_wf(s),
    ensures
        1 <= s.player.0,
        s.player.0 + 1 < s.map.len(),
        1 <= s.player.1,
        s.player.1 + 1 < s.map[s.player.0 as int].len(),
{
    assert(lvl_cell_at(s.map, s.player) != Cell::Wall);
    if lvl_on_border(s.map, s.player) {
        assert(lvl_cell_at(s.map, s.player) == Cell::Wall);
    }
}

/// Moving preserves well-formedness.
pub proof fn lemma_level_move_preserves_wf(s: LevelModel, d: Dir)
    requires
        level_wf(s),
    ensures
        level_wf(level_move_model(s, d)),
{
    let (di, dj) = dir_delta(d);
    let bi = s.player.0 + di;
    let bj = s.player.1 + dj;
    let ci = s.player.0 + 2 * di;
    let cj = s.player.1 + 2 * dj;
    lemma_level_player_interior(s);
    if lvl_in_grid_i(s.map, bi, bj) && lvl_in_grid_i(s.map, ci, cj) {
        let b = (bi as usize, bj as usize);
        let c = (ci as usize, cj as usize);
        let from = lvl_cell_at(s.map, s.player);
        let push = lvl_cell_at(s.map, b);
        let to = lvl_cell_at(s.map, c);
        if mv_spec(from, push, to).3 {
            let s2 = level_move_model(s, d);
            assert(push != Cell::Wall);
            if lvl_on_border(s.map, b) {
                assert(lvl_cell_at(s.map, b) == Cell::Wall);
            }
            assert(s2.map.len() == s.map.len());
            assert forall|i: int| 0 <= i < s2.map.len() implies (#[trigger] s2.map[i]).len()
                == s.map[i].len() by {}
            assert forall|cc: Coordinate|
                lvl_in_grid(s2.map, cc) && lvl_on_border(s2.map, cc) implies #[trigger] lvl_cell_at(
                s2.map,
                cc,
            ) == Cell::Wall by {
                assert(lvl_in_grid(s.map, cc) && lvl_on_border(s.map, cc));
                assert(lvl_cell_at(s.map, cc) == Cell::Wall);
                if cc == c {
                    // A pushed box needs bare substrate, never a wall; a
                    // plain step leaves the far cell untouched.
                    assert(lvl_cell_at(s2.map, cc) == mv_spec(from, push, to).2);
                } else {
                    assert(cc != s.player && cc != b);
                    assert(lvl_cell_at(s2.map, cc) == lvl_cell_at(s.map, cc));
                }
            }
            assert(lvl_cell_at(s2.map, b).spec_unit() == Cell::Player);
            assert forall|k: int| 0 <= k < s2.record.len() implies record_wf(
                s2.map,
                #[trigger] s2.record[k],
            ) by {
                assert(s2.map.len() == s.map.len());
                assert forall|i: int| 0 <= i < s.map.len() implies (#[trigger] s2.map[i]).len()
                    == s.map[i].len() by {}
                if k < s.record.len() {
                    assert(s2.record[k] == s.record[k]);
                    assert(record_wf(s.map, s.record[k]));
                } else {
                    assert(s2.record[k] == (s.player, b, c, (from, push, to)));
                }
            }
        }
    }
}

/// Reverting preserves well-formedness.
pub proof fn lemma_level_revert_preserves_wf(s: LevelModel)
    requires
        level_wf(s),
    ensures
        level_wf(level_revert_model(s)),
{
    if s.record.len() > 0 {
        let e = s.record.last();
        let s2 = level_revert_model(s);
        assert(record_wf(s.map, e));
        assert(s2.map.len() == s.map.len());
        assert forall|i: int| 0 <= i < s2.map.len() implies (#[trigger] s2.map[i]).len()
            == s.map[i].len() by {}
        assert forall|cc: Coordinate|
            lvl_in_grid(s2.map, cc) && lvl_on_border(s2.map, cc) implies #[trigger] lvl_cell_at(
            s2.map,
            cc,
        ) == Cell::Wall by {
            assert(lvl_in_grid(s.map, cc) && lvl_on_border(s.map, cc));
            assert(lvl_cell_at(s.map, cc) == Cell::Wall);
            if cc == e.2 {
                assert(lvl_cell_at(s2.map, cc) == e.3.2);
            } else {
                assert(cc != e.0 && cc != e.1);
                assert(lvl_cell_at(s2.map, cc) == lvl_cell_at(s.map, cc));
            }
        }
        assert(lvl_cell_at(s2.map, e.0) == e.3.0);
        assert forall|k: int| 0 <= k < s2.record.len() implies record_wf(
            s2.map,
            #[trigger] s2.record[k],
        ) by {
            assert(s2.record[k] == s.record[k]);
            assert(record_wf(s.map, s.record[k]));
            assert(s2.map.len() == s.map.len());
            assert forall|i: int| 0 <= i < s.map.len() implies (#[trigger] s2.map[i]).len()
                == s.map[i].len() by {}
        }
    }
}

/// The characters of the level alphabet.
pub open spec fn lvl_legal_char(ch: char) -> bool {
    ch == ' ' || ch == '#' || ch == 'o' || ch == 'O' || ch == 'x' || ch == 'i' || ch == 'I'
}

/// The cell a layout character stands for.
pub open spec fn lvl_cell_of_char(ch: char) -> Cell {
    if ch == ' ' {
        Cell::Empty
    } else if ch == '#' {
        Cell::Wall
    } else if ch == 'o' {
        Cell::Box
    } else if ch == 'O' {
        Cell::BoxOnTarget
    } else if ch == 'x' {
        Cell::Target
    } else if ch == 'i' {
        Cell::Player
    } else {
        Cell::PlayerOnTarget
    }
}

/// The coordinate names a player character of the layout.
pub open spec fn lvl_player_at(rows: Seq<Seq<char>>, p: Coordinate) -> bool {
    p.0 < rows.len() && p.1 < rows[p.0 as int].len() && (rows[p.0 as int][p.1 as int] == 'i'
        || rows[p.0 as int][p.1 as int] == 'I')
}

/// Every character belongs to the alphabet, and exactly one places the
/// player.
pub open spec fn lvl_layout_ok(rows: Seq<Seq<char>>) -> bool {
    &&& forall|i: int, j: int|
        0 <= i < rows.len() && 0 <= j < rows[i].len() ==> lvl_legal_char(#[trigger] rows[i][j])
    &&& exists|p: Coordinate| lvl_player_at(rows, p)
    &&& forall|p: Coordinate, q: Coordinate|
        lvl_player_at(rows, p) && lvl_player_at(rows, q) ==> p == q
}

/// A fresh copy of a board.
fn clone_board(g: &Vec<Vec<Cell>>) -> (g2: Vec<Vec<Cell>>)
    ensures
        g2.deep_view() == g.deep_view(),
{
    let mut g2: Vec<Vec<Cell>> = Vec::new();
    let mut i: usize = 0;
    while i < g.len()
        invariant
            i <= g@.len(),
            g2.deep_view().len() == i,
            forall|k: int| 0 <= k < i ==> #[trigger] g2.deep_view()[k] =~= g.deep_view()[k],
        decreases g@.len() - i,
    {
        let mut row: Vec<Cell> = Vec::new();
        let mut j: usize = 0;
        while j < g[i].len()
            invariant
                i < g@.len(),
                j <= g@[i as int]@.len(),
                row@.len() == j,
                forall|l: int| 0 <= l < j ==> #[trigger] row@[l] == g@[i as int]@[l],
            decreases g@[i as int]@.len() - j,
        {
            row.push(g[i][j]);
            j = j + 1;
        }
        let ghost rv = row@;
        let ghost pre = g2.deep_view();
        g2.push(row);
        i = i + 1;
        proof {
            assert forall|k: int| 0 <= k < i implies #[trigger] g2.deep_view()[k]
                =~= g.deep_view()[k] by {
                if k + 1 == i {
                    assert(g2.deep_view()[k] =~= rv);
                    assert(g.deep_view()[k] =~= g@[k]@);
                } else {
                    assert(g2.deep_view()[k] == pre[k]);
                }
            }
        }
    }
    proof {
        assert(g2.deep_view() =~~= g.deep_view());
    }
    g2
}

/// A playing field parsed from text, remembering its pristine board so
/// that it can be reset, with the move record that `revert` plays back.
pub struct Level {
    pub index: usize,
    height: usize,
    width: usize,
    layout: Vec<Vec<Cell>>,
    start: Coordinate,
    pub map: Vec<Vec<Cell>>,
    player: Coordinate,
    record: Vec<Record>,
}

impl View for Level {
    type V = LevelModel;

    closed spec fn view(&self) -> LevelModel {
        LevelModel {
            index: self.index,
            height: self.height,
            width: self.width,
            layout: self.layout.deep_view(),
            start: self.start,
            map: self.map.deep_view(),
            player: self.player,
            record: self.record@,
        }
    }
}

impl Level {
    /// Parse a text layout into a board, its dimensions and the player's
    /// coordinate.
    fn build_map(cellstr: &[&str]) -> (res: (usize, usize, Vec<Vec<Cell>>, Coordinate))
        requires
            lvl_layout_ok(crate::engine::layout_rows(cellstr@)),
        ensures
            res.0 == cellstr@.len(),
            res.2.deep_view().len() == cellstr@.len(),
            forall|i: int|
                0 <= i < cellstr@.len() ==> (#[trigger] res.2.deep_view()[i]).len()
                    == crate::engine::layout_rows(cellstr@)[i].len(),
            forall|i: int, j: int|
                0 <= i < cellstr@.len() && 0 <= j < crate::engine::layout_rows(cellstr@)[i].len()
                    ==> #[trigger] res.2.deep_view()[i][j] == lvl_cell_of_char(
                    crate::engine::layout_rows(cellstr@)[i][j],
                ),
            lvl_player_at(crate::engine::layout_rows(cellstr@), res.3),
            cellstr@.len() > 0 ==> res.1 == crate::engine::layout_rows(cellstr@)[
                cellstr@.len() - 1
            ].len(),
    {
        let ghost rows = crate::engine::layout_rows(cellstr@);
        let mut m: Vec<Vec<Cell>> = Vec::new();
        let h = cellstr.len();
        let mut w: usize = 0;
        let mut p: Coordinate = (0, 0);
        let mut l: usize = 0;
        while l < h
            invariant
                l <= h,
                h == cellstr@.len(),
                rows == crate::engine::layout_rows(cellstr@),
                lvl_layout_ok(rows),
                m.deep_view().len() == l,
                forall|i: int|
                    0 <= i < l ==> (#[trigger] m.deep_view()[i]).len() == rows[i].len(),
                forall|i: int, j: int|
                    0 <= i < l && 0 <= j < rows[i].len() ==> #[trigger] m.deep_view()[i][j]
                        == lvl_cell_of_char(rows[i][j]),
                (exists|q: Coordinate| q.0 < l && lvl_player_at(rows, q)) ==> lvl_player_at(
                    rows,
                    p,
                ),
                l > 0 ==> w == rows[l - 1].len(),
            decreases h - l,
        {
            let line: &str = cellstr[l];
            let n = line.unicode_len();
            w = n;
            let mut mm: Vec<Cell> = Vec::new();
            let mut c: usize = 0;
            while c < n
                invariant
                    c <= n,
                    l < h,
                    h == cellstr@.len(),
                    rows == crate::engine::layout_rows(cellstr@),
                    lvl_layout_ok(rows),
                    n == rows[l as int].len(),
                    line@ == rows[l as int],
                    mm@.len() == c,
                    forall|j: int| 0 <= j < c ==> #[trigger] mm@[j] == lvl_cell_of_char(
                        rows[l as int][j],
                    ),
                    m.deep_view().len() == l,
                    forall|i: int|
                        0 <= i < l ==> (#[trigger] m.deep_view()[i]).len() == rows[i].len(),
                    forall|i: int, j: int|
                        0 <= i < l && 0 <= j < rows[i].len() ==> #[trigger] m.deep_view()[i][j]
                            == lvl_cell_of_char(rows[i][j]),
                    (exists|q: Coordinate|
                        (q.0 < l || (q.0 == l && q.1 < c)) && lvl_player_at(rows, q))
                        ==> lvl_player_at(rows, p),
                decreases n - c,
            {
                let ghost c0 = c;
                let ch = line.get_char(c);
                proof {
                    assert(lvl_legal_char(rows[l as int][c as int]));
                }
                match ch {
                    ' ' => mm.push(Cell::Empty),
                    '#' => mm.push(Cell::Wall),
                    'o' => mm.push(Cell::Box),
                    'x' => mm.push(Cell::Target),
                    'i' => {
                        mm.push(Cell::Player);
                        p = (l, c);
                    },
                    'I' => {
                        mm.push(Cell::PlayerOnTarget);
                        p = (l, c);
                    },
                    'O' => mm.push(Cell::BoxOnTarget),
                    _ => {
                        proof {
                            assert(false);
                        }
                        mm.push(Cell::Empty);
                    },
                }
                c = c + 1;
                proof {
                    if exists|q: Coordinate| (q.0 < l || (q.0 == l && q.1 < c)) && lvl_player_at(
                        rows,
                        q,
                    ) {
                        let q = choose|q: Coordinate|
                            (q.0 < l || (q.0 == l && q.1 < c)) && lvl_player_at(rows, q);
                        if q.0 == l && q.1 == c0 {
                            assert(ch == 'i' || ch == 'I');
                            assert(p == (l, c0));
                        } else {
                            assert((q.0 < l || (q.0 == l && q.1 < c0)) && lvl_player_at(rows, q));
                        }
                    }
                }
            }
            let ghost cols = mm@;
            let ghost pre = m@;
            let ghost pre_dv = m.deep_view();
            m.push(mm);
            l = l + 1;
            proof {
                if exists|q: Coordinate| q.0 < l && lvl_player_at(rows, q) {
                    let q = choose|q: Coordinate| q.0 < l && lvl_player_at(rows, q);
                    assert((q.0 < l - 1 || (q.0 == l - 1 && q.1 < n)) && lvl_player_at(rows, q));
                }
                assert(m@[pre.len() as int]@ == cols);
                assert forall|i: int| 0 <= i < l implies (#[trigger] m.deep_view()[i]).len()
                    == rows[i].len() by {
                    assert(m.deep_view()[i] == m@[i].deep_view());
                    if i + 1 == l {
                        assert(m@[i]@ == cols);
                    } else {
                        assert(m@[i] == pre[i]);
                        assert(pre_dv[i] == pre[i].deep_view());
                    }
                }
                assert forall|i: int, j: int|
                    0 <= i < l && 0 <= j < rows[i].len() implies #[trigger] m.deep_view()[i][j]
                    == lvl_cell_of_char(rows[i][j]) by {
                    assert(m.deep_view()[i] == m@[i].deep_view());
                    assert(m@[i].deep_view()[j] == m@[i]@[j]);
                    if i + 1 == l {
                        assert(m@[i]@ == cols);
                    } else {
                        assert(m@[i] == pre[i]);
                        assert(pre_dv[i] == pre[i].deep_view());
                        assert(pre_dv[i][j] == lvl_cell_of_char(rows[i][j]));
                    }
                }
            }
        }
        proof {
            let q = choose|q: Coordinate| lvl_player_at(rows, q);
            assert(q.0 < h && lvl_player_at(rows, q));
        }
        (h, w, m, p)
    }

    /// Parse a level from its text layout.  The parsed board is kept
    /// twice: as the live board and as the pristine copy `reset` restores.
    pub fn new(i: usize, cellstr: &[&str]) -> (lvl: Level)
        requires
            lvl_layout_ok(crate::engine::layout_rows(cellstr@)),
        ensures
            lvl@.index == i,
            lvl@.height == cellstr@.len(),
            lvl@.map.len() == cellstr@.len(),
            forall|r: int|
                0 <= r < cellstr@.len() ==> (#[trigger] lvl@.map[r]).len()
                    == crate::engine::layout_rows(cellstr@)[r].len(),
            forall|r: int, c: int|
                0 <= r < cellstr@.len() && 0 <= c < crate::engine::layout_rows(cellstr@)[r].len()
                    ==> #[trigger] lvl@.map[r][c] == lvl_cell_of_char(
                    crate::engine::layout_rows(cellstr@)[r][c],
                ),
            cellstr@.len() > 0 ==> lvl@.width == crate::engine::layout_rows(cellstr@)[
                cellstr@.len() - 1
            ].len(),
            lvl@.layout == lvl@.map,
            lvl@.start == lvl@.player,
            lvl_player_at(crate::engine::layout_rows(cellstr@), lvl@.player),
            lvl@.record.len() == 0,
    {
        let (line, col, mm, pp) = Level::build_map(cellstr);
        let layout = clone_board(&mm);
        Level {
            index: i,
            layout,
            height: line,
            width: col,
            start: pp,
            player: pp,
            map: mm,
            record: Vec::new(),
        }
    }

    /// Whether the level is cleared: no loose box is left.
    pub fn is_pass(&self) -> (b: bool)
        ensures
            b == forall|c: Coordinate|
                lvl_in_grid(self@.map, c) ==> #[trigger] lvl_cell_at(self@.map, c) != Cell::Box,
    {
        let mut l: usize = 0;
        while l < self.map.len()
            invariant
                l <= self.map@.len(),
                forall|q: Coordinate|
                    q.0 < l && lvl_in_grid(self.map.deep_view(), q) ==> #[trigger] lvl_cell_at(
                        self.map.deep_view(),
                        q,
                    ) != Cell::Box,
            decreases self.map@.len() - l,
        {
            let mut c: usize = 0;
            while c < self.map[l].len()
                invariant
                    l < self.map@.len(),
                    c <= self.map@[l as int]@.len(),
                    forall|q: Coordinate|
                        q.0 < l && lvl_in_grid(self.map.deep_view(), q) ==> #[trigger] lvl_cell_at(
                            self.map.deep_view(),
                            q,
                        ) != Cell::Box,
                    forall|q: Coordinate|
                        q.0 == l && q.1 < c && lvl_in_grid(self.map.deep_view(), q)
                            ==> #[trigger] lvl_cell_at(self.map.deep_view(), q) != Cell::Box,
                decreases self.map@[l as int]@.len() - c,
            {
                proof {
                    let ghost here: Coordinate = (l, c);
                    assert(self.map.deep_view()[l as int].len() == self.map@[l as int]@.len());
                    assert(lvl_cell_at(self.map.deep_view(), here) == self.map@[l as int]@[
                        c as int
                    ]);
                }
                if self.map[l][c] == Cell::Box {
                    proof {
                        assert(lvl_cell_at(self@.map, (l, c)) == Cell::Box);
                    }
                    return false;
                }
                c = c + 1;
            }
            l = l + 1;
        }
        true
    }

    /// Put the level back into its pristine parsed state: afterwards the
    /// level equals a fresh one built from the same layout.
    pub fn reset(&mut self)
        ensures
            final(self)@.map == old(self)@.layout,
            final(self)@.player == old(self)@.start,
            final(self)@.record.len() == 0,
            final(self)@.layout == old(self)@.layout,
            final(self)@.start == old(self)@.start,
            final(self)@.index == old(self)@.index,
            final(self)@.height == old(self)@.layout.len(),
            old(self)@.layout.len() > 0 ==> final(self)@.width == old(self)@.layout[
                old(self)@.layout.len() - 1
            ].len(),
    {
        self.map = clone_board(&self.layout);
        self.player = self.start;
        self.record = Vec::new();
        self.height = self.map.len();
        self.width = if self.map.len() > 0 {
            self.map[self.map.len() - 1].len()
        } else {
            0
        };
        proof {
            assert(self.map.deep_view() == self.layout.deep_view());
            if self.layout@.len() > 0 {
                let last = self.layout@.len() - 1;
                assert(self.layout.deep_view()[last as int].len() == self.layout@[
                    last as int
                ]@.len());
            }
        }
    }

    /// The number of rows of the board.
    pub fn height(&self) -> (h: usize)
        ensures
            h == self@.height,
    {
        self.height
    }

    /// The length of the board's rows.
    pub fn width(&self) -> (w: usize)
        ensures
            w == self@.width,
    {
        self.width
    }

    /// Attempt one move; returns whether the board changed.
    pub fn move_right(&mut self) -> (moved: bool)
        requires
            level_wf(old(self)@),
        ensures
            final(self)@ == level_move_model(old(self)@, Dir::Right),
            level_wf(final(self)@),
            moved == (final(self)@.record.len() == old(self)@.record.len() + 1),
    {
        self.do_move(Dir::Right)
    }

    /// Attempt one move; returns whether the board changed.
    pub fn move_left(&mut self) -> (moved: bool)
        requires
            level_wf(old(self)@),
        ensures
            final(self)@ == level_move_model(old(self)@, Dir::Left),
            level_wf(final(self)@),
            moved == (final(self)@.record.len() == old(self)@.record.len() + 1),
    {
        self.do_move(Dir::Left)
    }

    /// Attempt one move; returns whether the board changed.
    pub fn move_upward(&mut self) -> (moved: bool)
        requires
            level_wf(old(self)@),
        ensures
            final(self)@ == level_move_model(old(self)@, Dir::Up),
            level_wf(final(self)@),
            moved == (final(self)@.record.len() == old(self)@.record.len() + 1),
    {
        self.do_move(Dir::Up)
    }

    /// Attempt one move; returns whether the board changed.
    pub fn move_down(&mut self) -> (moved: bool)
        requires
            level_wf(old(self)@),
        ensures
            final(self)@ == level_move_model(old(self)@, Dir::Down),
            level_wf(final(self)@),
            moved == (final(self)@.record.len() == old(self)@.record.len() + 1),
    {
        self.do_move(Dir::Down)
    }

    fn do_move(&mut self, d: Dir) -> (moved: bool)
        requires
            level_wf(old(self)@),
        ensures
            final(self)@ == level_move_model(old(self)@, d),
            level_wf(final(self)@),
            moved == (final(self)@.record.len() == old(self)@.record.len() + 1),
    {
        proof {
            lemma_level_player_interior(old(self)@);
            lemma_level_move_preserves_wf(old(self)@, d);
        }
        let (l, c) = (self.player.0, self.player.1);
        let h = self.map.len();
        let w = self.map[l].len();
        let (ok, b, t): (bool, Coordinate, Coordinate) = match d {
            Dir::Down => {
                if l + 2 < h {
                    (true, (l + 1, c), (l + 2, c))
                } else {
                    (false, self.player, self.player)
                }
            },
            Dir::Up => {
                if l >= 2 {
                    (true, (l - 1, c), (l - 2, c))
                } else {
                    (false, self.player, self.player)
                }
            },
            Dir::Right => {
                if c + 2 < w {
                    (true, (l, c + 1), (l, c + 2))
                } else {
                    (false, self.player, self.player)
                }
            },
            Dir::Left => {
                if c >= 2 {
                    (true, (l, c - 1), (l, c - 2))
                } else {
                    (false, self.player, self.player)
                }
            },
        };
        if !ok {
            return false;
        }
        proof {
            assert(self.map.deep_view()[b.0 as int].len() == self.map@[b.0 as int]@.len());
            assert(self.map.deep_view()[t.0 as int].len() == self.map@[t.0 as int]@.len());
            assert(self.map.deep_view()[l as int].len() == self.map@[l as int]@.len());
        }
        let from = self.map[l][c];
        let push = self.map[b.0][b.1];
        let to = self.map[t.0][t.1];
        let (nfrom, npush, nto, moved) = Cell::mv(&from, &push, &to);
        if moved {
            self.map[l][c] = nfrom;
            self.map[b.0][b.1] = npush;
            self.map[t.0][t.1] = nto;
            self.player = b;
            self.record.push(((l, c), b, t, (from, push, to)));
            proof {
                assert(self@.map =~~= level_move_model(old(self)@, d).map);
                assert(self@ =~~= level_move_model(old(self)@, d));
            }
            true
        } else {
            false
        }
    }

    /// Pop the most recent move and restore exactly the three cells it
    /// overwrote.
    pub fn revert(&mut self)
        requires
            level_wf(old(self)@),
        ensures
            final(self)@ == level_revert_model(old(self)@),
            level_wf(final(self)@),
    {
        proof {
            lemma_level_revert_preserves_wf(old(self)@);
        }
        match self.record.pop() {
            Some(e) => {
                let (f, p, t, triple) = e;
                self.map[f.0][f.1] = triple.0;
                self.map[p.0][p.1] = triple.1;
                self.map[t.0][t.1] = triple.2;
                self.player = (f.0, f.1);
                proof {
                    assert(self@.map =~~= level_revert_model(old(self)@).map);
                    assert(self@.record =~= level_revert_model(old(self)@).record);
                    assert(self@ =~~= level_revert_model(old(self)@));
                }
            },
            None => {},
        }
    }
}

/// A successful move is exactly one that grew the record.
pub open spec fn level_move_succeeded(s: LevelModel, d: Dir) -> bool {
    level_move_model(s, d).record.len() == s.record.len() + 1
}

/// The level after a sequence of moves, applied left to right.
pub open spec fn level_apply_moves(s: LevelModel, dirs: Seq<Dir>) -> LevelModel
    decreases dirs.len(),
{
    if dirs.len() == 0 {
        s
    } else {
        level_apply_moves(level_move_model(s, dirs[0]), dirs.drop_first())
    }
}

/// Every move of the sequence succeeds on the level it is applied to.
pub open spec fn level_moves_ok(s: LevelModel, dirs: Seq<Dir>) -> bool
    decreases dirs.len(),
{
    dirs.len() == 0 || (level_move_succeeded(s, dirs[0]) && level_moves_ok(
        level_move_model(s, dirs[0]),
        dirs.drop_first(),
    ))
}

/// The level after reverting `n` times.
pub open spec fn revert_times(s: LevelModel, n: nat) -> LevelModel
    decreases n,
{
    if n == 0 {
        s
    } else {
        revert_times(level_revert_model(s), (n - 1) as nat)
    }
}

/// Peeling the last revert off a chain of reverts.
proof fn lemma_revert_times_snoc(s: LevelModel, n: nat)
    ensures
        revert_times(s, n + 1) == level_revert_model(revert_times(s, n)),
    decreases n,
{
    reveal_with_fuel(revert_times, 3);
    if n > 0 {
        lemma_revert_times_snoc(level_revert_model(s), (n - 1) as nat);
    }
}

/// Moving preserves well-formedness along a whole sequence.
pub proof fn lemma_level_apply_moves_preserves_wf(s: LevelModel, dirs: Seq<Dir>)
    requires
        level_wf(s),
    ensures
        level_wf(level_apply_moves(s, dirs)),
    decreases dirs.len(),
{
    if dirs.len() > 0 {
        lemma_level_move_preserves_wf(s, dirs[0]);
        lemma_level_apply_moves_preserves_wf(level_move_model(s, dirs[0]), dirs.drop_first());
    }
}

/// Undo idempotence for the level engine: after any sequence of
/// successful moves, reverting once per move restores the level exactly.
pub proof fn lemma_revert_reverses_moves(s: LevelModel, dirs: Seq<Dir>)
    requires
        level_wf(s),
        level_moves_ok(s, dirs),
    ensures
        revert_times(level_apply_moves(s, dirs), dirs.len()) == s,
    decreases dirs.len(),
{
    if dirs.len() > 0 {
        let s1 = level_move_model(s, dirs[0]);
        lemma_level_move_preserves_wf(s, dirs[0]);
        lemma_revert_reverses_moves(s1, dirs.drop_first());
        assert(revert_times(level_apply_moves(s1, dirs.drop_first()), (dirs.len() - 1) as nat)
            == s1);
        lemma_revert_times_snoc(level_apply_moves(s1, dirs.drop_first()), (dirs.len() - 1) as nat);
        lemma_revert_restores_move(s, dirs[0]);
    }
}

/// Reverting right after a successful move restores the level exactly.
pub proof fn lemma_revert_restores_move(s: LevelModel, d: Dir)
    requires
        level_wf(s),
        level_move_succeeded(s, d),
    ensures
        level_revert_model(level_move_model(s, d)) == s,
{
    let (di, dj) = dir_delta(d);
    let bi = s.player.0 + di;
    let bj = s.player.1 + dj;
    let ci = s.player.0 + 2 * di;
    let cj = s.player.1 + 2 * dj;
    lemma_level_player_interior(s);
    assert(lvl_in_grid_i(s.map, bi, bj) && lvl_in_grid_i(s.map, ci, cj));
    let b = (bi as usize, bj as usize);
    let c = (ci as usize, cj as usize);
    let s2 = level_move_model(s, d);
    let s3 = level_revert_model(s2);
    assert(s3.record =~= s.record);
    assert(s3.map =~~= s.map);
    assert(s3 =~~= s);
}

} // verus!