//! The cell/board model: the `Cell` alphabet, the three-cell `shift`
//! primitive with its volume-conservation validity rule, and the in-place
//! grid update built on it.

use vstd::prelude::*;

verus! {

/// One square of the board.  A cell is either bare substrate (`Ground`,
/// `Target`) or an occupant standing on a substrate: `Case` and `Player`
/// stand on `Ground`, `CaseOnTarget` and `PlayerOnTarget` stand on `Target`,
/// and `Wall` is indivisible.
#[derive(Clone, Copy, PartialEq, Eq, Hash, Debug, Structural)]
pub enum Cell {
    Case,
    Wall,
    Ground,
    Player,
    Target,
    PlayerOnTarget,
    CaseOnTarget,
}

pub type Triple = (Cell, Cell, Cell);

impl Cell {
    /// The volume of a cell: bare substrate holds nothing, every occupant
    /// (wall, box or player) counts one.  A three-cell shift is legal
    /// exactly when it conserves the summed volume.
    pub open spec fn spec_vol(self) -> int {
        match self {
            Cell::Ground => 0,
            Cell::Target => 0,
            _ => 1,
        }
    }

    /// The substrate under a cell: what remains when its occupant leaves.
    pub open spec fn spec_substrate(self) -> Cell {
        match self {
            Cell::Case => Cell::Ground,
            Cell::CaseOnTarget => Cell::Target,
            Cell::Player => Cell::Ground,
            Cell::PlayerOnTarget => Cell::Target,
            _ => self,
        }
    }

    /// The occupant of a cell, as the unit that moves during a shift;
    /// `Ground` stands for "no occupant".
    pub open spec fn spec_unit(self) -> Cell {
        match self {
            Cell::Case => Cell::Case,
            Cell::CaseOnTarget => Cell::Case,
            Cell::Player => Cell::Player,
            Cell::PlayerOnTarget => Cell::Player,
            _ => Cell::Ground,
        }
    }

    /// Overlay a moving unit onto a cell.  Only bare substrate accepts a
    /// unit; any other cell is returned unchanged, which the conservation
    /// check then rejects.
    pub open spec fn spec_overlay(self, unit: Cell) -> Cell {
        match self {
            Cell::Ground => match unit {
                Cell::Case => Cell::Case,
                Cell::Player => Cell::Player,
                _ => Cell::Ground,
            },
            Cell::Target => match unit {
                Cell::Case => Cell::CaseOnTarget,
                Cell::Player => Cell::PlayerOnTarget,
                _ => Cell::Target,
            },
            _ => self,
        }
    }

    /// Whether the player may stand on this cell: true for bare substrate
    /// and for the player's own cells, false for walls and boxes.
    pub open spec fn spec_reachable(self) -> bool {
        match self {
            Cell::Ground => true,
            Cell::Target => true,
            Cell::Player => true,
            Cell::PlayerOnTarget => true,
            _ => false,
        }
    }

    /// Whether this cell holds a box.
    pub open spec fn spec_is_case(self) -> bool {
        self == Cell::Case || self == Cell::CaseOnTarget
    }

    pub fn shift(triple: &Triple) -> (res: (Triple, bool))
        ensures
            res == shift_spec(*triple),
    {
        let (l, m, r) = *triple;
        let (l_origin, l_move) = l.seprate();
        let (m_origin, m_move) = m.seprate();
        let m_overlay = m_origin.overlay(&l_move);
        let r_overlay = r.overlay(&m_move);
        let valid_vol = l.vol() + m.vol() + r.vol();
        let new_vol = l_origin.vol() + m_overlay.vol() + r_overlay.vol();
        if valid_vol == new_vol {
            ((l_origin, m_overlay, r_overlay), true)
        } else {
            ((l, m, r), false)
        }
    }

    pub fn reachable(&self) -> (b: bool)
        ensures
            b == self.spec_reachable(),
    {
        match *self {
            Cell::Ground => true,
            Cell::Target => true,
            Cell::Player => true,
            Cell::PlayerOnTarget => true,
            _ => false,
        }
    }

    /// Whether this cell holds a box; the branch generator only keeps
    /// shifts whose middle cell held one.
    pub fn is_case(&self) -> (b: bool)
        ensures
            b == self.spec_is_case(),
    {
        match *self {
            Cell::Case => true,
            Cell::CaseOnTarget => true,
            _ => false,
        }
    }

    fn vol(&self) -> (v: u8)
        ensures
            v as int == self.spec_vol(),
    {
        match *self {
            Cell::Ground => 0,
            Cell::Target => 0,
            _ => 1,
        }
    }

    fn overlay(&self, unit: &Self) -> (c: Cell)
        ensures
            c == self.spec_overlay(*unit),
    {
        match *self {
            Cell::Ground => match *unit {
                Cell::Case => Cell::Case,
                Cell::Player => Cell::Player,
                _ => Cell::Ground,
            },
            Cell::Target => match *unit {
                Cell::Case => Cell::CaseOnTarget,
                Cell::Player => Cell::PlayerOnTarget,
                _ => Cell::Target,
            },
            _ => *self,
        }
    }

    fn seprate(&self) -> (sep: (Cell, Cell))
        ensures
            sep.0 == self.spec_substrate(),
            sep.1 == self.spec_unit(),
    {
        match *self {
            Cell::Case => (Cell::Ground, Cell::Case),
            Cell::CaseOnTarget => (Cell::Target, Cell::Case),
            Cell::Player => (Cell::Ground, Cell::Player),
            Cell::PlayerOnTarget => (Cell::Target, Cell::Player),
            _ => (*self, Cell::Ground),
        }
    }
}

/// The summed volume of a cell triple.
pub open spec fn total_vol(t: Triple) -> int {
    t.0.spec_vol() + t.1.spec_vol() + t.2.spec_vol()
}

/// The three-cell shift: decompose the left cell, overlay its unit onto the
/// middle cell's substrate, let the right cell absorb whatever the middle
/// displaced, and accept the result only if the summed volume is conserved.
pub open spec fn shift_spec(t: Triple) -> (Triple, bool) {
    let (l, m, r) = t;
    let l_origin = l.spec_substrate();
    let m_overlay = m.spec_substrate().spec_overlay(l.spec_unit());
    let r_overlay = r.spec_overlay(m.spec_unit());
    let out = (l_origin, m_overlay, r_overlay);
    if total_vol(t) == total_vol(out) {
        (out, true)
    } else {
        (t, false)
    }
}

/// Volume conservation: a legal shift conserves the summed volume of the
/// triple, and an illegal one returns its input unchanged.
pub proof fn lemma_shift_conserves_volume(t: Triple)
    ensures
        shift_spec(t).1 ==> total_vol(shift_spec(t).0) == total_vol(t),
        !shift_spec(t).1 ==> shift_spec(t).0 == t,
{
}

pub type Grid = Vec<Vec<Cell>>;

pub type Coordinate = (usize, usize);

impl DeepView for Cell {
    type V = Cell;

    open spec fn deep_view(&self) -> Cell {
        *self
    }
}

/// Whether a coordinate indexes into the grid.
pub open spec fn in_grid(m: Seq<Seq<Cell>>, c: Coordinate) -> bool {
    c.0 < m.len() && c.1 < m[c.0 as int].len()
}

/// The cell of the grid at a coordinate.
pub open spec fn cell_at(m: Seq<Seq<Cell>>, c: Coordinate) -> Cell {
    m[c.0 as int][c.1 as int]
}

/// The grid with the cell at one coordinate replaced.
pub open spec fn grid_set(m: Seq<Seq<Cell>>, c: Coordinate, v: Cell) -> Seq<Seq<Cell>> {
    m.update(c.0 as int, m[c.0 as int].update(c.1 as int, v))
}

/// The three cells of the grid under a coordinate triple, in order.
pub open spec fn cells_at(m: Seq<Seq<Cell>>, tr: (Coordinate, Coordinate, Coordinate)) -> Triple {
    (cell_at(m, tr.0), cell_at(m, tr.1), cell_at(m, tr.2))
}

/// The grid after a shift has been attempted at a coordinate triple: the
/// three result cells are written back in order when the shift is legal,
/// and nothing changes when it is not.
pub open spec fn update_spec(m: Seq<Seq<Cell>>, tr: (Coordinate, Coordinate, Coordinate)) -> Seq<
    Seq<Cell>,
> {
    let (t, moved) = shift_spec(cells_at(m, tr));
    if moved {
        grid_set(grid_set(grid_set(m, tr.0, t.0), tr.1, t.1), tr.2, t.2)
    } else {
        m
    }
}

/// Attempt a shift on the three grid cells named by `triple`, writing the
/// result back in place when the shift is legal.  Returns the three
/// original cells and whether the grid changed.
pub fn update(map: &mut Grid, triple: &(Coordinate, Coordinate, Coordinate)) -> (res: (
    Triple,
    bool,
))
    requires
        in_grid(old(map).deep_view(), triple.0),
        in_grid(old(map).deep_view(), triple.1),
        in_grid(old(map).deep_view(), triple.2),
    ensures
        res.0 == cells_at(old(map).deep_view(), *triple),
        res.1 == shift_spec(res.0).1,
        final(map).deep_view() == update_spec(old(map).deep_view(), *triple),
{
    let origin = (
        map[triple.0.0][triple.0.1],
        map[triple.1.0][triple.1.1],
        map[triple.2.0][triple.2.1],
    );
    let (transform, moved) = Cell::shift(&origin);
    if moved {
        map[triple.0.0][triple.0.1] = transform.0;
        map[triple.1.0][triple.1.1] = transform.1;
        map[triple.2.0][triple.2.1] = transform.2;
        proof {
            assert(map.deep_view() =~~= update_spec(old(map).deep_view(), *triple));
        }
    } else {
        proof {
            assert(map.deep_view() =~~= update_spec(old(map).deep_view(), *triple));
        }
    }
    (origin, moved)
}

/// A move direction; the branch generator enumerates them in this order.
#[derive(Clone, Copy, PartialEq, Eq, Debug, Structural)]
pub enum Dir {
    Down,
    Up,
    Right,
    Left,
}

/// The row and column offsets of one step in a direction.
pub open spec fn dir_delta(d: Dir) -> (int, int) {
    match d {
        Dir::Down => (1, 0),
        Dir::Up => (-1, 0),
        Dir::Right => (0, 1),
        Dir::Left => (0, -1),
    }
}

/// Whether an integer pair indexes into the grid.
pub open spec fn in_grid_i(m: Seq<Seq<Cell>>, i: int, j: int) -> bool {
    0 <= i < m.len() && 0 <= j < m[i].len()
}

/// All rows of the grid have the length of the first.
pub open spec fn grid_rect(m: Seq<Seq<Cell>>) -> bool {
    forall|i: int| 0 <= i < m.len() ==> (#[trigger] m[i]).len() == m[0].len()
}

/// The grid fits the machine: its dimensions stay within `usize`.
pub open spec fn grid_bounded(m: Seq<Seq<Cell>>) -> bool {
    m.len() <= usize::MAX && forall|i: int|
        0 <= i < m.len() ==> (#[trigger] m[i]).len() <= usize::MAX
}

/// Whether a coordinate lies on the outermost ring of the grid.
pub open spec fn on_border(m: Seq<Seq<Cell>>, c: Coordinate) -> bool {
    c.0 == 0 || c.0 + 1 == m.len() || c.1 == 0 || c.1 + 1 == m[c.0 as int].len()
}

/// Every cell on the outermost ring is a wall, so no shift ever needs a
/// cell beyond the grid.
pub open spec fn grid_bordered(m: Seq<Seq<Cell>>) -> bool {
    forall|c: Coordinate| in_grid(m, c) && on_border(m, c) ==> #[trigger] cell_at(m, c)
        == Cell::Wall
}

/// No bare box is left anywhere: the board is cleared.
pub open spec fn solved(m: Seq<Seq<Cell>>) -> bool {
    forall|c: Coordinate| in_grid(m, c) ==> #[trigger] cell_at(m, c) != Cell::Case
}

/// One remembered move: the three coordinates it touched and the three
/// cells they held before the move.
pub type HistEntry = (Coordinate, Coordinate, Coordinate, Triple);

/// What a history entry of a well-formed scene looks like: the recorded
/// coordinates index the grid, the first two lie strictly inside the
/// border, the third held a wall if it lies on the border, and the first
/// recorded cell carried the player.
pub open spec fn entry_wf(m: Seq<Seq<Cell>>, e: HistEntry) -> bool {
    &&& in_grid(m, e.0)
    &&& in_grid(m, e.1)
    &&& in_grid(m, e.2)
    &&& !on_border(m, e.0)
    &&& !on_border(m, e.1)
    &&& (on_border(m, e.2) ==> e.3.2 == Cell::Wall)
    &&& e.0 != e.1
    &&& e.0 != e.2
    &&& e.1 != e.2
    &&& e.3.0.spec_unit() == Cell::Player
}

/// The mathematical state of a live scene: the grid, the player's
/// coordinate, and the undo history.
#[verifier::ext_equal]
pub struct SceneModel {
    pub map: Seq<Seq<Cell>>,
    pub player: Coordinate,
    pub history: Seq<HistEntry>,
}

/// A scene fit for play: a rectangular grid walled along its whole border,
/// with the player's coordinate naming a cell that indeed carries the
/// player, and a history of records that undo can safely write back.
pub open spec fn scene_wf(s: SceneModel) -> bool {
    &&& grid_rect(s.map)
    &&& grid_bounded(s.map)
    &&& grid_bordered(s.map)
    &&& in_grid(s.map, s.player)
    &&& cell_at(s.map, s.player).spec_unit() == Cell::Player
    &&& forall|k: int| 0 <= k < s.history.len() ==> entry_wf(s.map, #[trigger] s.history[k])
}

/// One attempted move of the player: shift the three cells ahead of the
/// player when they exist, record the overwritten cells on success, and
/// leave everything unchanged on failure.  A triple reaching beyond the
/// grid is left unchanged too; on a bordered grid the middle cell is then
/// a wall and the shift would be rejected anyway.
pub open spec fn move_model(s: SceneModel, d: Dir) -> SceneModel {
    let (di, dj) = dir_delta(d);
    let bi = s.player.0 + di;
    let bj = s.player.1 + dj;
    let ci = s.player.0 + 2 * di;
    let cj = s.player.1 + 2 * dj;
    if in_grid_i(s.map, bi, bj) && in_grid_i(s.map, ci, cj) {
        let b = (bi as usize, bj as usize);
        let c = (ci as usize, cj as usize);
        let tr = (s.player, b, c);
        let origin = cells_at(s.map, tr);
        if shift_spec(origin).1 {
            SceneModel {
                map: update_spec(s.map, tr),
                player: b,
                history: s.history.push((s.player, b, c, origin)),
            }
        } else {
            s
        }
    } else {
        s
    }
}

/// Undo of the most recent move: write the three recorded cells back and
/// put the player on the first of the recorded coordinates.  With an empty
/// history nothing changes.
pub open spec fn undo_model(s: SceneModel) -> SceneModel {
    if s.history.len() == 0 {
        s
    } else {
        let e = s.history.last();
        SceneModel {
            map: grid_set(grid_set(grid_set(s.map, e.0, e.3.0), e.1, e.3.1), e.2, e.3.2),
            player: e.0,
            history: s.history.drop_last(),
        }
    }
}

/// A well-formed scene keeps its player strictly inside the border.
pub proof fn lemma_player_interior(s: SceneModel)
    requires
        scene_wf(s),
    ensures
        1 <= s.player.0,
        s.player.0 + 1 < s.map.len(),
        1 <= s.player.1,
        s.player.1 + 1 < s.map[s.player.0 as int].len(),
{
    assert(cell_at(s.map, s.player) != Cell::Wall);
    if on_border(s.map, s.player) {
        assert(cell_at(s.map, s.player) == Cell::Wall);
    }
}

/// Moving preserves well-formedness.
pub proof fn lemma_move_preserves_wf(s: SceneModel, d: Dir)
    requires
        scene_wf(s),
    ensures
        scene_wf(move_model(s, d)),
{
    let (di, dj) = dir_delta(d);
    let bi = s.player.0 + di;
    let bj = s.player.1 + dj;
    let ci = s.player.0 + 2 * di;
    let cj = s.player.1 + 2 * dj;
    lemma_player_interior(s);
    if in_grid_i(s.map, bi, bj) && in_grid_i(s.map, ci, cj) {
        let b = (bi as usize, bj as usize);
        let c = (ci as usize, cj as usize);
        let tr = (s.player, b, c);
        let origin = cells_at(s.map, tr);
        if shift_spec(origin).1 {
            let s2 = move_model(s, d);
            assert(origin.0.spec_unit() == Cell::Player);
            // A wall ahead of the player fails conservation, so the middle
            // cell lies strictly inside the border.
            assert(origin.1 != Cell::Wall);
            if on_border(s.map, b) {
                assert(cell_at(s.map, b) == Cell::Wall);
            }
            assert(grid_rect(s2.map)) by {
                assert forall|i: int| 0 <= i < s2.map.len() implies (#[trigger] s2.map[i]).len()
                    == s2.map[0].len() by {
                    assert(s2.map[i].len() == s.map[i].len());
                    assert(s2.map[0].len() == s.map[0].len());
                }
            }
            assert(grid_bounded(s2.map)) by {
                assert forall|i: int| 0 <= i < s2.map.len() implies (#[trigger] s2.map[i]).len()
                    <= usize::MAX by {
                    assert(s2.map[i].len() == s.map[i].len());
                }
            }
            assert(grid_bordered(s2.map)) by {
                assert forall|cc: Coordinate| in_grid(s2.map, cc) && on_border(s2.map, cc) implies
                    #[trigger] cell_at(s2.map, cc) == Cell::Wall by {
                    assert(in_grid(s.map, cc) && on_border(s.map, cc));
                    assert(cell_at(s.map, cc) == Cell::Wall);
                    if cc == c {
                        // The right cell only absorbs a displaced unit and a
                        // wall absorbs nothing.
                        assert(cell_at(s2.map, cc) == Cell::Wall);
                    } else {
                        assert(cc != tr.0 && cc != tr.1);
                        assert(cell_at(s2.map, cc) == cell_at(s.map, cc));
                    }
                }
            }
            assert(cell_at(s2.map, b).spec_unit() == Cell::Player);
            assert forall|k: int| 0 <= k < s2.history.len() implies entry_wf(
                s2.map,
                #[trigger] s2.history[k],
            ) by {
                assert(s2.map.len() == s.map.len());
                assert forall|i: int| 0 <= i < s.map.len() implies (#[trigger] s2.map[i]).len()
                    == s.map[i].len() by {}
                if k < s.history.len() {
                    assert(s2.history[k] == s.history[k]);
                    assert(entry_wf(s.map, s.history[k]));
                } else {
                    assert(s2.history[k] == (s.player, b, c, origin));
                }
            }
        }
    }
}

/// Undoing preserves well-formedness.
pub proof fn lemma_undo_preserves_wf(s: SceneModel)
    requires
        scene_wf(s),
    ensures
        scene_wf(undo_model(s)),
{
    if s.history.len() > 0 {
        let e = s.history.last();
        let s2 = undo_model(s);
        assert(entry_wf(s.map, e));
        assert(grid_rect(s2.map)) by {
            assert forall|i: int| 0 <= i < s2.map.len() implies (#[trigger] s2.map[i]).len()
                == s2.map[0].len() by {
                assert(s2.map[i].len() == s.map[i].len());
                assert(s2.map[0].len() == s.map[0].len());
            }
        }
        assert(grid_bounded(s2.map)) by {
            assert forall|i: int| 0 <= i < s2.map.len() implies (#[trigger] s2.map[i]).len()
                <= usize::MAX by {
                assert(s2.map[i].len() == s.map[i].len());
            }
        }
        assert(grid_bordered(s2.map)) by {
            assert forall|cc: Coordinate| in_grid(s2.map, cc) && on_border(s2.map, cc) implies
                #[trigger] cell_at(s2.map, cc) == Cell::Wall by {
                assert(in_grid(s.map, cc) && on_border(s.map, cc));
                assert(cell_at(s.map, cc) == Cell::Wall);
                if cc == e.2 {
                    assert(cell_at(s2.map, cc) == e.3.2);
                } else {
                    assert(cc != e.0 && cc != e.1);
                    assert(cell_at(s2.map, cc) == cell_at(s.map, cc));
                }
            }
        }
        assert(cell_at(s2.map, e.0) == e.3.0);
        assert forall|k: int| 0 <= k < s2.history.len() implies entry_wf(
            s2.map,
            #[trigger] s2.history[k],
        ) by {
            assert(s2.history[k] == s.history[k]);
            assert(entry_wf(s.map, s.history[k]));
            assert(s2.map.len() == s.map.len());
            assert forall|i: int| 0 <= i < s.map.len() implies (#[trigger] s2.map[i]).len()
                == s.map[i].len() by {}
        }
    }
}

/// A successful move is exactly one that grew the history.
pub open spec fn move_succeeded(s: SceneModel, d: Dir) -> bool {
    move_model(s, d).history.len() == s.history.len() + 1
}

/// Undo idempotence, one step: undoing right after a successful move
/// restores the scene exactly — the grid, the player and the history.
pub proof fn lemma_undo_restores_move(s: SceneModel, d: Dir)
    requires
        scene_wf(s),
        move_succeeded(s, d),
    ensures
        undo_model(move_model(s, d)) == s,
{
    let (di, dj) = dir_delta(d);
    let bi = s.player.0 + di;
    let bj = s.player.1 + dj;
    let ci = s.player.0 + 2 * di;
    let cj = s.player.1 + 2 * dj;
    lemma_player_interior(s);
    assert(in_grid_i(s.map, bi, bj) && in_grid_i(s.map, ci, cj));
    let b = (bi as usize, bj as usize);
    let c = (ci as usize, cj as usize);
    let tr = (s.player, b, c);
    let origin = cells_at(s.map, tr);
    assert(shift_spec(origin).1);
    let s2 = move_model(s, d);
    let s3 = undo_model(s2);
    assert(s2.history.last() == (s.player, b, c, origin));
    assert(s3.history =~= s.history);
    assert(s3.map =~~= s.map);
    assert(s3 =~~= s);
}

/// The scene after a sequence of moves, applied left to right.
pub open spec fn apply_moves(s: SceneModel, dirs: Seq<Dir>) -> SceneModel
    decreases dirs.len(),
{
    if dirs.len() == 0 {
        s
    } else {
        apply_moves(move_model(s, dirs[0]), dirs.drop_first())
    }
}

/// Every move of the sequence succeeds on the scene it is applied to.
pub open spec fn moves_ok(s: SceneModel, dirs: Seq<Dir>) -> bool
    decreases dirs.len(),
{
    dirs.len() == 0 || (move_succeeded(s, dirs[0]) && moves_ok(move_model(s, dirs[0]), dirs.drop_first()))
}

/// The scene after undoing `n` times.
pub open spec fn undo_times(s: SceneModel, n: nat) -> SceneModel
    decreases n,
{
    if n == 0 {
        s
    } else {
        undo_times(undo_model(s), (n - 1) as nat)
    }
}

/// Peeling the last undo off a chain of undos.
proof fn lemma_undo_times_snoc(s: SceneModel, n: nat)
    ensures
        undo_times(s, n + 1) == undo_model(undo_times(s, n)),
    decreases n,
{
    reveal_with_fuel(undo_times, 3);
    if n > 0 {
        lemma_undo_times_snoc(undo_model(s), (n - 1) as nat);
    }
}

/// Moving preserves well-formedness along a whole successful sequence.
pub proof fn lemma_apply_moves_preserves_wf(s: SceneModel, dirs: Seq<Dir>)
    requires
        scene_wf(s),
    ensures
        scene_wf(apply_moves(s, dirs)),
    decreases dirs.len(),
{
    if dirs.len() > 0 {
        lemma_move_preserves_wf(s, dirs[0]);
        lemma_apply_moves_preserves_wf(move_model(s, dirs[0]), dirs.drop_first());
    }
}

/// Undo idempotence: after any sequence of successful moves, undoing once
/// per move restores the original scene exactly.
pub proof fn lemma_undo_reverses_moves(s: SceneModel, dirs: Seq<Dir>)
    requires
        scene_wf(s),
        moves_ok(s, dirs),
    ensures
        undo_times(apply_moves(s, dirs), dirs.len()) == s,
    decreases dirs.len(),
{
    if dirs.len() > 0 {
        let s1 = move_model(s, dirs[0]);
        lemma_move_preserves_wf(s, dirs[0]);
        lemma_undo_reverses_moves(s1, dirs.drop_first());
        assert(undo_times(apply_moves(s1, dirs.drop_first()), (dirs.len() - 1) as nat) == s1);
        lemma_undo_times_snoc(apply_moves(s1, dirs.drop_first()), (dirs.len() - 1) as nat);
        lemma_undo_restores_move(s, dirs[0]);
    }
}

/// The seven characters of the level alphabet.
pub open spec fn legal_char(ch: char) -> bool {
    ch == ' ' || ch == '#' || ch == 'o' || ch == 'O' || ch == 'x' || ch == 'i' || ch == 'I'
}

/// The cell a layout character stands for.
pub open spec fn cell_of_char(ch: char) -> Cell {
    if ch == ' ' {
        Cell::Ground
    } else if ch == '#' {
        Cell::Wall
    } else if ch == 'o' {
        Cell::Case
    } else if ch == 'O' {
        Cell::CaseOnTarget
    } else if ch == 'x' {
        Cell::Target
    } else if ch == 'i' {
        Cell::Player
    } else {
        Cell::PlayerOnTarget
    }
}

/// The two characters that place the player.
pub open spec fn is_player_char(ch: char) -> bool {
    ch == 'i' || ch == 'I'
}

/// A text layout as a sequence of character rows.
pub open spec fn layout_rows(layout: Seq<&str>) -> Seq<Seq<char>> {
    Seq::new(layout.len(), |i: int| layout[i]@)
}

/// Every character of the layout belongs to the level alphabet.
pub open spec fn all_chars_legal(rows: Seq<Seq<char>>) -> bool {
    forall|i: int, j: int|
        0 <= i < rows.len() && 0 <= j < rows[i].len() ==> legal_char(#[trigger] rows[i][j])
}

/// The coordinate names a player character of the layout.
pub open spec fn player_at(rows: Seq<Seq<char>>, p: Coordinate) -> bool {
    p.0 < rows.len() && p.1 < rows[p.0 as int].len() && is_player_char(
        rows[p.0 as int][p.1 as int],
    )
}

/// Exactly one player character appears in the layout.
pub open spec fn one_player(rows: Seq<Seq<char>>) -> bool {
    (exists|p: Coordinate| player_at(rows, p)) && (forall|p: Coordinate, q: Coordinate|
        player_at(rows, p) && player_at(rows, q) ==> p == q)
}

/// Strict row-major order on coordinates.
pub open spec fn lex_lt(a: Coordinate, b: Coordinate) -> bool {
    a.0 < b.0 || (a.0 == b.0 && a.1 < b.1)
}

/// The sequence is strictly increasing in row-major order; such a
/// sequence is the canonical listing of its set of members.
pub open spec fn sorted_lex(s: Seq<Coordinate>) -> bool {
    forall|k1: int, k2: int| 0 <= k1 < k2 < s.len() ==> lex_lt(#[trigger] s[k1], #[trigger] s[k2])
}

/// The live scene of an interactive game: the board, the player's
/// coordinate, and the record of moves that undo plays back.
pub struct Scene {
    pub player: Coordinate,
    pub map: Grid,
    history: Vec<HistEntry>,
}

impl View for Scene {
    type V = SceneModel;

    closed spec fn view(&self) -> SceneModel {
        SceneModel { map: self.map.deep_view(), player: self.player, history: self.history@ }
    }
}

impl Scene {
    /// An empty scene; `load` turns it into a playable one.
    pub fn init() -> (s: Scene)
        ensures
            s@.map.len() == 0,
            s@.player == (0usize, 0usize),
            s@.history.len() == 0,
    {
        Scene { player: (0, 0), map: Vec::new(), history: Vec::new() }
    }

    /// Replace the board with the one described by a text layout and reset
    /// the history.  Exactly one player marker must appear; any other
    /// character than the seven of the level alphabet is rejected up front
    /// by the precondition, mirroring the fatal load-time error.
    pub fn load(&mut self, layout: &[&str])
        requires
            all_chars_legal(layout_rows(layout@)),
            one_player(layout_rows(layout@)),
        ensures
            final(self)@.map.len() == layout@.len(),
            forall|i: int|
                0 <= i < layout@.len() ==> (#[trigger] final(self)@.map[i]).len()
                    == layout_rows(layout@)[i].len(),
            forall|i: int, j: int|
                0 <= i < layout@.len() && 0 <= j < layout_rows(layout@)[i].len()
                    ==> #[trigger] final(self)@.map[i][j] == cell_of_char(
                    layout_rows(layout@)[i][j],
                ),
            final(self)@.history.len() == 0,
            player_at(layout_rows(layout@), final(self)@.player),
    {
        let ghost rows = layout_rows(layout@);
        self.map = Vec::new();
        self.history = Vec::new();
        let mut r: usize = 0;
        while r < layout.len()
            invariant
                r <= layout@.len(),
                all_chars_legal(rows),
                rows == layout_rows(layout@),
                self.map.len() == r,
                forall|i: int| 0 <= i < r ==> (#[trigger] self.map.deep_view()[i]).len()
                    == rows[i].len(),
                forall|i: int, j: int|
                    0 <= i < r && 0 <= j < rows[i].len() ==> #[trigger] self.map.deep_view()[i][j]
                        == cell_of_char(rows[i][j]),
                self.history.len() == 0,
                (exists|p: Coordinate| p.0 < r && player_at(rows, p)) ==> player_at(
                    rows,
                    self.player,
                ),
            decreases layout@.len() - r,
        {
            let row: &str = layout[r];
            let n = row.unicode_len();
            let mut columns: Vec<Cell> = Vec::new();
            let mut c: usize = 0;
            while c < n
                invariant
                    c <= n,
                    n == rows[r as int].len(),
                    r < layout@.len(),
                    all_chars_legal(rows),
                    rows == layout_rows(layout@),
                    row@ == rows[r as int],
                    columns.len() == c,
                    forall|j: int| 0 <= j < c ==> #[trigger] columns@[j] == cell_of_char(
                        rows[r as int][j],
                    ),
                    self.map.len() == r,
                    forall|i: int| 0 <= i < r ==> (#[trigger] self.map.deep_view()[i]).len()
                        == rows[i].len(),
                    forall|i: int, j: int|
                        0 <= i < r && 0 <= j < rows[i].len()
                            ==> #[trigger] self.map.deep_view()[i][j] == cell_of_char(rows[i][j]),
                    self.history.len() == 0,
                    (exists|p: Coordinate|
                        (p.0 < r || (p.0 == r && p.1 < c)) && player_at(rows, p)) ==> player_at(
                        rows,
                        self.player,
                    ),
                decreases n - c,
            {
                let ghost c0 = c;
                let ch = row.get_char(c);
                proof {
                    assert(legal_char(rows[r as int][c as int]));
                }
                match ch {
                    ' ' => columns.push(Cell::Ground),
                    '#' => columns.push(Cell::Wall),
                    'o' => columns.push(Cell::Case),
                    'O' => columns.push(Cell::CaseOnTarget),
                    'x' => columns.push(Cell::Target),
                    'i' => {
                        self.player = (r, c);
                        columns.push(Cell::Player);
                    },
                    'I' => {
                        self.player = (r, c);
                        columns.push(Cell::PlayerOnTarget);
                    },
                    _ => {
                        proof {
                            assert(false);
                        }
                        columns.push(Cell::Ground);
                    },
                }
                c = c + 1;
                proof {
                    if exists|p: Coordinate| (p.0 < r || (p.0 == r && p.1 < c)) && player_at(
                        rows,
                        p,
                    ) {
                        let p = choose|p: Coordinate|
                            (p.0 < r || (p.0 == r && p.1 < c)) && player_at(rows, p);
                        if p.0 == r && p.1 == c0 {
                            assert(is_player_char(ch));
                            assert(self.player == (r, c0));
                        } else {
                            assert((p.0 < r || (p.0 == r && p.1 < c0)) && player_at(rows, p));
                        }
                    }
                }
            }
            let ghost cols = columns@;
            let ghost pre = self.map@;
            let ghost pre_dv = self.map.deep_view();
            self.map.push(columns);
            r = r + 1;
            proof {
                assert(self.map@.len() == pre.len() + 1);
                assert(self.map@[pre.len() as int]@ == cols);
                assert(forall|i: int| 0 <= i < pre.len() ==> self.map@[i] == pre[i]);
                if exists|p: Coordinate| p.0 < r && player_at(rows, p) {
                    let p = choose|p: Coordinate| p.0 < r && player_at(rows, p);
                    assert((p.0 < r - 1 || (p.0 == r - 1 && p.1 < n)) && player_at(rows, p));
                }
                assert forall|i: int| 0 <= i < r implies (#[trigger] self.map.deep_view()[i]).len()
                    == rows[i].len() by {
                    assert(self.map.deep_view()[i] == self.map@[i].deep_view());
                    assert(self.map@[i].deep_view().len() == self.map@[i]@.len());
                    if i + 1 == r {
                        assert(self.map@[i]@ == cols);
                    } else {
                        assert(self.map@[i] == pre[i]);
                        assert(pre_dv[i] == pre[i].deep_view());
                        assert(pre_dv[i].len() == rows[i].len());
                    }
                }
                assert forall|i: int, j: int|
                    0 <= i < r && 0 <= j < rows[i].len() implies #[trigger] self.map.deep_view(
                )[i][j] == cell_of_char(rows[i][j]) by {
                    assert(self.map.deep_view()[i] == self.map@[i].deep_view());
                    assert(self.map@[i].deep_view()[j] == self.map@[i]@[j]);
                    if i + 1 == r {
                        assert(self.map@[i]@ == cols);
                    } else {
                        assert(self.map@[i] == pre[i]);
                        assert(pre_dv[i] == pre[i].deep_view());
                        assert(pre_dv[i][j] == cell_of_char(rows[i][j]));
                    }
                }
            }
        }
    }

    /// The height and width of the board.
    pub fn get_size(&self) -> (size: (usize, usize))
        requires
            self@.map.len() > 0,
        ensures
            size.0 == self@.map.len(),
            size.1 == self@.map[0].len(),
    {
        (self.map.len(), self.map[0].len())
    }

    /// Whether the level is cleared: no bare box is left on the board.
    pub fn is_pass(&self) -> (b: bool)
        ensures
            b == solved(self@.map),
    {
        let mut r: usize = 0;
        while r < self.map.len()
            invariant
                r <= self.map.len(),
                forall|q: Coordinate|
                    q.0 < r && in_grid(self.map.deep_view(), q) ==> #[trigger] cell_at(
                        self.map.deep_view(),
                        q,
                    ) != Cell::Case,
            decreases self.map.len() - r,
        {
            let mut c: usize = 0;
            while c < self.map[r].len()
                invariant
                    r < self.map.len(),
                    c <= self.map[r as int].len(),
                    forall|q: Coordinate|
                        q.0 < r && in_grid(self.map.deep_view(), q) ==> #[trigger] cell_at(
                            self.map.deep_view(),
                            q,
                        ) != Cell::Case,
                    forall|q: Coordinate|
                        q.0 == r && q.1 < c && in_grid(self.map.deep_view(), q)
                            ==> #[trigger] cell_at(self.map.deep_view(), q) != Cell::Case,
                decreases self.map[r as int].len() - c,
            {
                if self.map[r][c] == Cell::Case {
                    assert(cell_at(self.map.deep_view(), (r, c)) == Cell::Case);
                    return false;
                }
                c = c + 1;
            }
            r = r + 1;
        }
        true
    }

    /// The coordinates of all boxes, in row-major order.
    pub fn get_boxes(&self) -> (boxes: Vec<Coordinate>)
        ensures
            sorted_lex(boxes@),
            forall|q: Coordinate| #[trigger]
                boxes@.contains(q) <==> (in_grid(self@.map, q) && cell_at(
                    self@.map,
                    q,
                ).spec_is_case()),
    {
        broadcast use vstd::seq_lib::lemma_seq_contains_after_push;

        let mut boxes: Vec<Coordinate> = Vec::new();
        let mut r: usize = 0;
        while r < self.map.len()
            invariant
                r <= self.map.len(),
                sorted_lex(boxes@),
                forall|q: Coordinate| #[trigger]
                    boxes@.contains(q) <==> (q.0 < r && in_grid(self.map.deep_view(), q)
                        && cell_at(self.map.deep_view(), q).spec_is_case()),
            decreases self.map.len() - r,
        {
            let mut c: usize = 0;
            while c < self.map[r].len()
                invariant
                    r < self.map.len(),
                    c <= self.map[r as int].len(),
                    sorted_lex(boxes@),
                    forall|q: Coordinate| #[trigger]
                        boxes@.contains(q) <==> ((q.0 < r || (q.0 == r && q.1 < c))
                            && in_grid(self.map.deep_view(), q) && cell_at(
                            self.map.deep_view(),
                            q,
                        ).spec_is_case()),
                decreases self.map[r as int].len() - c,
            {
                let ghost here: Coordinate = (r, c);
                proof {
                    assert(self.map.deep_view()[r as int].len() == self.map@[r as int]@.len());
                    assert(cell_at(self.map.deep_view(), here) == self.map@[r as int]@[c as int]);
                }
                if self.map[r][c].is_case() {
                    proof {
                        assert forall|k: int| 0 <= k < boxes@.len() implies lex_lt(
                            #[trigger] boxes@[k],
                            here,
                        ) by {
                            assert(boxes@.contains(boxes@[k]));
                        }
                    }
                    let ghost pre_boxes = boxes@;
                    boxes.push((r, c));
                    proof {
                        assert forall|q: Coordinate| #[trigger]
                            boxes@.contains(q) == (q == here || pre_boxes.contains(q)) by {
                            vstd::seq_lib::lemma_seq_contains_after_push(pre_boxes, here, q);
                        }
                    }
                }
                c = c + 1;
            }
            r = r + 1;
        }
        boxes
    }

    pub fn move_right(&mut self)
        requires
            scene_wf(old(self)@),
        ensures
            final(self)@ == move_model(old(self)@, Dir::Right),
            scene_wf(final(self)@),
    {
        proof {
            lemma_player_interior(old(self)@);
            lemma_move_preserves_wf(old(self)@, Dir::Right);
        }
        let (r, c) = (self.player.0, self.player.1);
        let w = self.map[r].len();
        if c + 2 < w {
            let (origin, updated) = update(&mut self.map, &((r, c), (r, c + 1), (r, c + 2)));
            if updated {
                self.player = (r, c + 1);
                self.history.push(((r, c), (r, c + 1), (r, c + 2), origin));
            }
        }
    }

    pub fn move_left(&mut self)
        requires
            scene_wf(old(self)@),
        ensures
            final(self)@ == move_model(old(self)@, Dir::Left),
            scene_wf(final(self)@),
    {
        proof {
            lemma_player_interior(old(self)@);
            lemma_move_preserves_wf(old(self)@, Dir::Left);
        }
        let (r, c) = (self.player.0, self.player.1);
        if c >= 2 {
            let (origin, updated) = update(&mut self.map, &((r, c), (r, c - 1), (r, c - 2)));
            if updated {
                self.player = (r, c - 1);
                self.history.push(((r, c), (r, c - 1), (r, c - 2), origin));
            }
        }
    }

    pub fn move_upward(&mut self)
        requires
            scene_wf(old(self)@),
        ensures
            final(self)@ == move_model(old(self)@, Dir::Up),
            scene_wf(final(self)@),
    {
        proof {
            lemma_player_interior(old(self)@);
            lemma_move_preserves_wf(old(self)@, Dir::Up);
        }
        let (r, c) = (self.player.0, self.player.1);
        if r >= 2 {
            let (origin, updated) = update(&mut self.map, &((r, c), (r - 1, c), (r - 2, c)));
            if updated {
                self.player = (r - 1, c);
                self.history.push(((r, c), (r - 1, c), (r - 2, c), origin));
            }
        }
    }

    pub fn move_down(&mut self)
        requires
            scene_wf(old(self)@),
        ensures
            final(self)@ == move_model(old(self)@, Dir::Down),
            scene_wf(final(self)@),
    {
        proof {
            lemma_player_interior(old(self)@);
            lemma_move_preserves_wf(old(self)@, Dir::Down);
        }
        let (r, c) = (self.player.0, self.player.1);
        let h = self.map.len();
        if r + 2 < h {
            let (origin, updated) = update(&mut self.map, &((r, c), (r + 1, c), (r + 2, c)));
            if updated {
                self.player = (r + 1, c);
                self.history.push(((r, c), (r + 1, c), (r + 2, c), origin));
            }
        }
    }

    /// Pop the most recent move and restore exactly the three cells it
    /// overwrote.
    pub fn undo(&mut self)
        requires
            scene_wf(old(self)@),
        ensures
            final(self)@ == undo_model(old(self)@),
            scene_wf(final(self)@),
    {
        proof {
            lemma_undo_preserves_wf(old(self)@);
        }
        match self.history.pop() {
            Some(e) => {
                let (f, p, t, triple) = e;
                self.map[f.0][f.1] = triple.0;
                self.map[p.0][p.1] = triple.1;
                self.map[t.0][t.1] = triple.2;
                self.player = (f.0, f.1);
                proof {
                    assert(self@.map =~~= undo_model(old(self)@).map);
                    assert(self@.history =~= undo_model(old(self)@).history);
                }
            },
            None => {},
        }
    }
}

} // verus!
