//! The search side of the engine: player reachability by flood fill,
//! corner deadlock detection, branch generation, and the depth-first
//! solver over canonical snapshots.

use vstd::prelude::*;

use crate::engine::{
    cell_at, cells_at, grid_bordered, grid_bounded, grid_rect, in_grid, in_grid_i, lex_lt,
    shift_spec, solved, sorted_lex, update_spec, Cell, Coordinate, Dir, Grid,
};

verus! {

/// Two coordinates a single grid step apart.
pub open spec fn adjacent(a: Coordinate, b: Coordinate) -> bool {
    (a.0 == b.0 && (a.1 + 1 == b.1 || b.1 + 1 == a.1)) || (a.1 == b.1 && (a.0 + 1 == b.0 || b.0
        + 1 == a.0))
}

/// A walk: a nonempty sequence of coordinates, each inside the grid and on
/// a walkable cell, each consecutive pair one step apart.
pub open spec fn is_walk(m: Seq<Seq<Cell>>, w: Seq<Coordinate>) -> bool {
    &&& w.len() >= 1
    &&& forall|k: int|
        0 <= k < w.len() ==> in_grid(m, #[trigger] w[k]) && cell_at(m, w[k]).spec_reachable()
    &&& forall|k: int| 0 <= k && k + 1 < w.len() ==> adjacent(#[trigger] w[k], w[k + 1])
}

/// There is a walk from `a` to `b`.
pub open spec fn connected(m: Seq<Seq<Cell>>, a: Coordinate, b: Coordinate) -> bool {
    exists|w: Seq<Coordinate>| is_walk(m, w) && w.first() == a && w.last() == b
}

/// A walkable cell is connected to itself.
pub proof fn lemma_connected_refl(m: Seq<Seq<Cell>>, a: Coordinate)
    requires
        in_grid(m, a),
        cell_at(m, a).spec_reachable(),
    ensures
        connected(m, a, a),
{
    let w = seq![a];
    assert(is_walk(m, w) && w.first() == a && w.last() == a);
}

/// A walk extends by one step onto an adjacent walkable cell.
pub proof fn lemma_connected_step(m: Seq<Seq<Cell>>, a: Coordinate, b: Coordinate, c: Coordinate)
    requires
        connected(m, a, b),
        adjacent(b, c),
        in_grid(m, c),
        cell_at(m, c).spec_reachable(),
    ensures
        connected(m, a, c),
{
    let w = choose|w: Seq<Coordinate>| is_walk(m, w) && w.first() == a && w.last() == b;
    let w2 = w.push(c);
    assert(is_walk(m, w2)) by {
        assert(forall|k: int| 0 <= k < w.len() ==> w2[k] == w[k]);
        assert(w2[w.len() as int] == c);
    }
    assert(w2.first() == a && w2.last() == c);
}

/// Walks reverse: connectivity is symmetric.
pub proof fn lemma_connected_sym(m: Seq<Seq<Cell>>, a: Coordinate, b: Coordinate)
    requires
        connected(m, a, b),
    ensures
        connected(m, b, a),
{
    let w = choose|w: Seq<Coordinate>| is_walk(m, w) && w.first() == a && w.last() == b;
    let r = w.reverse();
    assert(is_walk(m, r)) by {
        assert(forall|k: int| 0 <= k < r.len() ==> r[k] == w[w.len() - 1 - k]);
    }
    assert(r.first() == b && r.last() == a);
}

/// Walks concatenate: connectivity is transitive.
pub proof fn lemma_connected_trans(m: Seq<Seq<Cell>>, a: Coordinate, b: Coordinate, c: Coordinate)
    requires
        connected(m, a, b),
        connected(m, b, c),
    ensures
        connected(m, a, c),
{
    let w1 = choose|w: Seq<Coordinate>| is_walk(m, w) && w.first() == a && w.last() == b;
    let w2 = choose|w: Seq<Coordinate>| is_walk(m, w) && w.first() == b && w.last() == c;
    let w = w1 + w2.drop_first();
    assert(is_walk(m, w)) by {
        assert(forall|k: int| 0 <= k < w1.len() ==> w[k] == w1[k]);
        assert(forall|k: int|
            w1.len() <= k < w.len() ==> w[k] == w2[k - w1.len() + 1]);
        assert forall|k: int| 0 <= k && k + 1 < w.len() implies adjacent(
            #[trigger] w[k],
            w[k + 1],
        ) by {
            if k + 1 == w1.len() {
                assert(w[k] == w1.last() && w1.last() == b);
                if w2.len() >= 2 {
                    assert(w[k + 1] == w2[1]);
                    assert(adjacent(w2[0], w2[1]));
                }
            }
        }
    }
    if w2.len() == 1 {
        assert(w =~= w1);
        assert(w.last() == c);
    } else {
        assert(w.last() == w2.last());
    }
    assert(w.first() == a && w.last() == c);
}

/// A walkable cell never lies on the border of a bordered grid.
pub proof fn lemma_reachable_interior(m: Seq<Seq<Cell>>, c: Coordinate)
    requires
        grid_bordered(m),
        in_grid(m, c),
        cell_at(m, c).spec_reachable(),
    ensures
        1 <= c.0,
        c.0 + 1 < m.len(),
        1 <= c.1,
        c.1 + 1 < m[c.0 as int].len(),
{
    if c.0 == 0 || c.0 + 1 == m.len() || c.1 == 0 || c.1 + 1 == m[c.0 as int].len() {
        assert(cell_at(m, c) == Cell::Wall);
    }
}

/// Bridge between the deep view of a cell grid and its vector views.
proof fn lemma_grid_view(g: &Grid)
    ensures
        g.deep_view().len() == g@.len(),
        forall|i: int|
            0 <= i < g@.len() ==> (#[trigger] g.deep_view()[i]).len() == g@[i]@.len(),
        forall|i: int, j: int|
            0 <= i < g@.len() && 0 <= j < g@[i]@.len() ==> #[trigger] g.deep_view()[i][j]
                == g@[i]@[j],
{
    assert forall|i: int| 0 <= i < g@.len() implies (#[trigger] g.deep_view()[i]).len()
        == g@[i]@.len() by {
        assert(g.deep_view()[i] == g@[i].deep_view());
    }
    assert forall|i: int, j: int|
        0 <= i < g@.len() && 0 <= j < g@[i]@.len() implies #[trigger] g.deep_view()[i][j]
        == g@[i]@[j] by {
        assert(g.deep_view()[i] == g@[i].deep_view());
    }
}

/// Bridge between the deep view of the visit grid and its vector views.
proof fn lemma_visit_view(g: &Vec<Vec<bool>>)
    ensures
        g.deep_view().len() == g@.len(),
        forall|i: int|
            0 <= i < g@.len() ==> (#[trigger] g.deep_view()[i]).len() == g@[i]@.len(),
        forall|i: int, j: int|
            0 <= i < g@.len() && 0 <= j < g@[i]@.len() ==> #[trigger] g.deep_view()[i][j]
                == g@[i]@[j],
{
    assert forall|i: int| 0 <= i < g@.len() implies (#[trigger] g.deep_view()[i]).len()
        == g@[i]@.len() by {
        assert(g.deep_view()[i] == g@[i].deep_view());
    }
    assert forall|i: int, j: int|
        0 <= i < g@.len() && 0 <= j < g@[i]@.len() implies #[trigger] g.deep_view()[i][j]
        == g@[i]@[j] by {
        assert(g.deep_view()[i] == g@[i].deep_view());
    }
}

/// The number of unmarked entries of one row of the visit grid.
pub open spec fn falses_in(row: Seq<bool>) -> int
    decreases row.len(),
{
    if row.len() == 0 {
        0
    } else {
        (if row[0] {
            0int
        } else {
            1int
        }) + falses_in(row.drop_first())
    }
}

/// The number of unmarked entries of the whole visit grid.
pub open spec fn grid_falses(g: Seq<Seq<bool>>) -> int
    decreases g.len(),
{
    if g.len() == 0 {
        0
    } else {
        falses_in(g[0]) + grid_falses(g.drop_first())
    }
}

proof fn lemma_falses_nonneg(row: Seq<bool>)
    ensures
        falses_in(row) >= 0,
    decreases row.len(),
{
    if row.len() > 0 {
        lemma_falses_nonneg(row.drop_first());
    }
}

proof fn lemma_grid_falses_nonneg(g: Seq<Seq<bool>>)
    ensures
        grid_falses(g) >= 0,
    decreases g.len(),
{
    if g.len() > 0 {
        lemma_falses_nonneg(g[0]);
        lemma_grid_falses_nonneg(g.drop_first());
    }
}

proof fn lemma_falses_update(row: Seq<bool>, j: int)
    requires
        0 <= j < row.len(),
        !row[j],
    ensures
        falses_in(row.update(j, true)) == falses_in(row) - 1,
    decreases row.len(),
{
    let row2 = row.update(j, true);
    if j == 0 {
        assert(row2.drop_first() =~= row.drop_first());
    } else {
        assert(row2.drop_first() =~= row.drop_first().update(j - 1, true));
        lemma_falses_update(row.drop_first(), j - 1);
    }
}

proof fn lemma_grid_falses_update(g: Seq<Seq<bool>>, i: int, j: int)
    requires
        0 <= i < g.len(),
        0 <= j < g[i].len(),
        !g[i][j],
    ensures
        grid_falses(g.update(i, g[i].update(j, true))) == grid_falses(g) - 1,
    decreases g.len(),
{
    let g2 = g.update(i, g[i].update(j, true));
    if i == 0 {
        lemma_falses_update(g[0], j);
        assert(g2.drop_first() =~= g.drop_first());
    } else {
        assert(g2[0] =~= g[0]);
        assert(g2.drop_first() =~= g.drop_first().update(i - 1, g[i].update(j, true)));
        lemma_grid_falses_update(g.drop_first(), i - 1, j);
    }
}

/// Whether the visit grid marks a coordinate.
pub open spec fn marked(vv: Seq<Seq<bool>>, c: Coordinate) -> bool {
    vv[c.0 as int][c.1 as int]
}

/// The visit grid mirrors the board's shape.
pub open spec fn visit_dims(m: Seq<Seq<Cell>>, vv: Seq<Seq<bool>>) -> bool {
    vv.len() == m.len() && forall|i: int|
        0 <= i < vv.len() ==> (#[trigger] vv[i]).len() == m[i].len()
}

/// The flood-fill invariant: everything in the queue is marked and inside
/// the grid, and everything marked is walkable, connected to the seed,
/// and present in the queue.
pub open spec fn bfs_inv(
    m: Seq<Seq<Cell>>,
    vv: Seq<Seq<bool>>,
    q: Seq<Coordinate>,
    seed: Coordinate,
) -> bool {
    &&& visit_dims(m, vv)
    &&& forall|k: int| 0 <= k < q.len() ==> in_grid(m, #[trigger] q[k]) && marked(vv, q[k])
    &&& forall|c: Coordinate|
        in_grid(m, c) && #[trigger] marked(vv, c) ==> cell_at(m, c).spec_reachable() && connected(
            m,
            seed,
            c,
        ) && q.contains(c)
}

/// A coordinate all of whose walkable neighbours are already marked.
pub open spec fn frontier_done(m: Seq<Seq<Cell>>, vv: Seq<Seq<bool>>, p: Coordinate) -> bool {
    forall|n: Coordinate|
        adjacent(p, n) && in_grid(m, n) && cell_at(m, n).spec_reachable() ==> #[trigger] marked(
            vv,
            n,
        )
}

/// Mark one neighbour of a dequeued coordinate if it is walkable and not
/// yet marked, keeping the flood-fill invariant.
fn visit(
    map: &Grid,
    visited: &mut Vec<Vec<bool>>,
    queue: &mut Vec<Coordinate>,
    n: Coordinate,
    Ghost(seed): Ghost<Coordinate>,
) -> (advanced: bool)
    requires
        grid_bordered(map.deep_view()),
        bfs_inv(map.deep_view(), old(visited).deep_view(), old(queue)@, seed),
        in_grid(map.deep_view(), n),
        cell_at(map.deep_view(), n).spec_reachable() ==> connected(map.deep_view(), seed, n),
    ensures
        bfs_inv(map.deep_view(), final(visited).deep_view(), final(queue)@, seed),
        forall|c: Coordinate|
            in_grid(map.deep_view(), c) && marked(old(visited).deep_view(), c) ==> marked(
                final(visited).deep_view(),
                c,
            ),
        cell_at(map.deep_view(), n).spec_reachable() ==> marked(final(visited).deep_view(), n),
        forall|p: Coordinate|
            frontier_done(map.deep_view(), old(visited).deep_view(), p) ==> frontier_done(
                map.deep_view(),
                final(visited).deep_view(),
                p,
            ),
        final(queue)@.len() >= old(queue)@.len(),
        forall|k: int| 0 <= k < old(queue)@.len() ==> final(queue)@[k] == old(queue)@[k],
        grid_falses(final(visited).deep_view()) + final(queue)@.len() == grid_falses(
            old(visited).deep_view(),
        ) + old(queue)@.len(),
        grid_falses(final(visited).deep_view()) <= grid_falses(old(visited).deep_view()),
{
    let ghost m = map.deep_view();
    proof {
        lemma_grid_view(map);
        lemma_visit_view(visited);
        assert(cell_at(m, n) == map@[n.0 as int]@[n.1 as int]);
        assert(visited@.len() == m.len());
        assert(visited.deep_view()[n.0 as int].len() == m[n.0 as int].len());
        assert(visited@[n.0 as int]@.len() == m[n.0 as int].len());
        assert(n.1 < m[n.0 as int].len());
    }
    if map[n.0][n.1].reachable() {
        if !visited[n.0][n.1] {
            let ghost pre = visited.deep_view();
            visited[n.0][n.1] = true;
            queue.push(n);
            proof {
                assert(visited.deep_view() =~~= pre.update(
                    n.0 as int,
                    pre[n.0 as int].update(n.1 as int, true),
                ));
                lemma_grid_falses_update(pre, n.0 as int, n.1 as int);
                assert forall|c: Coordinate|
                    in_grid(m, c) && marked(pre, c) implies marked(
                    visited.deep_view(),
                    c,
                ) by {}
                assert forall|c: Coordinate|
                    in_grid(m, c) && #[trigger] marked(visited.deep_view(), c) implies cell_at(
                    m,
                    c,
                ).spec_reachable() && connected(m, seed, c) && queue@.contains(c) by {
                    if c == n {
                        assert(queue@[queue@.len() - 1] == n);
                    } else {
                        assert(marked(pre, c));
                        let k = choose|k: int|
                            0 <= k < old(queue)@.len() && old(queue)@[k] == c;
                        assert(queue@[k] == c);
                    }
                }
            }
            return true;
        }
    }
    proof {
        assert(visited.deep_view() =~~= old(visited).deep_view());
    }
    false
}

/// The canonical reachable area: a row-major sorted listing of exactly the
/// coordinates connected to the seed.
pub open spec fn is_area_of(
    area: Seq<Coordinate>,
    m: Seq<Seq<Cell>>,
    seed: Coordinate,
) -> bool {
    &&& sorted_lex(area)
    &&& forall|q: Coordinate| #[trigger] area.contains(q) <==> connected(m, seed, q)
}

/// Every coordinate of a walk out of a marked seed ends up marked, once
/// every marked coordinate has had its neighbours explored.
proof fn lemma_walk_all_marked(
    m: Seq<Seq<Cell>>,
    vv: Seq<Seq<bool>>,
    w: Seq<Coordinate>,
)
    requires
        is_walk(m, w),
        marked(vv, w.first()),
        forall|c: Coordinate|
            in_grid(m, c) && #[trigger] marked(vv, c) ==> frontier_done(m, vv, c),
        forall|c: Coordinate| in_grid(m, c) && #[trigger] marked(vv, c) ==> in_grid(m, c),
        in_grid(m, w.first()),
    ensures
        marked(vv, w.last()),
    decreases w.len(),
{
    if w.len() > 1 {
        let w2 = w.drop_last();
        assert(is_walk(m, w2)) by {
            assert(forall|k: int| 0 <= k < w2.len() ==> w2[k] == w[k]);
        }
        assert(w2.first() == w.first());
        lemma_walk_all_marked(m, vv, w2);
        assert(adjacent(w[w.len() - 2], w[w.len() - 1]));
        assert(w2.last() == w[w.len() - 2]);
        assert(frontier_done(m, vv, w2.last()));
    }
}

/// Flood fill from a seed: the returned area lists, in row-major order,
/// exactly the coordinates the player can walk to — a coordinate is a
/// member if and only if a walk of walkable cells connects the seed to it.
pub fn explore_player_area(map: &Grid, coordinate: &Coordinate) -> (area: Vec<Coordinate>)
    requires
        grid_rect(map.deep_view()),
        grid_bordered(map.deep_view()),
        in_grid(map.deep_view(), *coordinate),
        cell_at(map.deep_view(), *coordinate).spec_reachable(),
    ensures
        is_area_of(area@, map.deep_view(), *coordinate),
{
    let ghost m = map.deep_view();
    let seed = *coordinate;
    let h = map.len();
    let mut visited: Vec<Vec<bool>> = Vec::new();
    let mut i: usize = 0;
    while i < h
        invariant
            i <= h,
            h == m.len(),
            m == map.deep_view(),
            visited.deep_view().len() == i,
            forall|k: int|
                0 <= k < i ==> (#[trigger] visited.deep_view()[k]).len() == m[k].len(),
            forall|k: int, l: int|
                0 <= k < i && 0 <= l < m[k].len() ==> !(#[trigger] visited.deep_view()[k][l]),
        decreases h - i,
    {
        let w = map[i].len();
        let mut row: Vec<bool> = Vec::new();
        let mut j: usize = 0;
        while j < w
            invariant
                j <= w,
                i < h,
                h == m.len(),
                m == map.deep_view(),
                w == m[i as int].len(),
                row@.len() == j,
                forall|l: int| 0 <= l < j ==> !(#[trigger] row@[l]),
            decreases w - j,
        {
            row.push(false);
            j = j + 1;
        }
        let ghost rv = row@;
        let ghost pre_dv = visited.deep_view();
        visited.push(row);
        i = i + 1;
        proof {
            assert forall|k: int| 0 <= k < i implies (#[trigger] visited.deep_view()[k]).len()
                == m[k].len() by {
                if k + 1 == i {
                    assert(visited.deep_view()[k] =~= rv);
                } else {
                    assert(visited.deep_view()[k] == pre_dv[k]);
                }
            }
            assert forall|k: int, l: int|
                0 <= k < i && 0 <= l < m[k].len() implies !(#[trigger] visited.deep_view(
            )[k][l]) by {
                if k + 1 == i {
                    assert(visited.deep_view()[k] =~= rv);
                } else {
                    assert(visited.deep_view()[k] == pre_dv[k]);
                }
            }
        }
    }
    proof {
        lemma_grid_falses_nonneg(visited.deep_view());
    }
    let mut queue: Vec<Coordinate> = Vec::new();
    let ghost pre = visited.deep_view();
    proof {
        lemma_visit_view(&visited);
        lemma_grid_view(map);
        assert(visited@.len() == m.len());
        assert(visited.deep_view()[seed.0 as int].len() == m[seed.0 as int].len());
        assert(visited@[seed.0 as int]@.len() == m[seed.0 as int].len());
        assert(seed.1 < m[seed.0 as int].len());
    }
    visited[seed.0][seed.1] = true;
    queue.push(seed);
    proof {
        assert(visited.deep_view() =~~= pre.update(
            seed.0 as int,
            pre[seed.0 as int].update(seed.1 as int, true),
        ));
        lemma_grid_falses_update(pre, seed.0 as int, seed.1 as int);
        lemma_grid_falses_nonneg(visited.deep_view());
        lemma_connected_refl(m, seed);
        assert forall|c: Coordinate|
            in_grid(m, c) && #[trigger] marked(visited.deep_view(), c) implies cell_at(
            m,
            c,
        ).spec_reachable() && connected(m, seed, c) && queue@.contains(c) by {
            assert(c == seed);
            assert(queue@[0] == seed);
        }
        assert(bfs_inv(m, visited.deep_view(), queue@, seed));
    }
    let mut qi: usize = 0;
    while qi < queue.len()
        invariant
            m == map.deep_view(),
            grid_rect(m),
            grid_bordered(m),
            bfs_inv(m, visited.deep_view(), queue@, seed),
            qi <= queue@.len(),
            queue@.len() >= 1,
            queue@[0] == seed,
            forall|k: int|
                0 <= k < qi ==> frontier_done(m, visited.deep_view(), #[trigger] queue@[k]),
            grid_falses(visited.deep_view()) >= 0,
        decreases grid_falses(visited.deep_view()), queue@.len() - qi,
    {
        // Calling `len` materializes the machine bound on the dimensions,
        // so the neighbour arithmetic below cannot overflow.
        let hh = map.len();
        let head = queue[qi];
        proof {
            lemma_grid_view(map);
            lemma_reachable_interior(m, head);
            assert(head.0 + 1 < m.len());
            assert(m.len() == map@.len());
        }
        let ww = map[head.0].len();
        proof {
            assert(head.0 + 1 <= hh && head.1 + 1 <= ww);
        }
        let ghost falses0 = grid_falses(visited.deep_view());
        let ghost qlen0 = queue@.len();
        let n_down = (head.0 + 1, head.1);
        let n_up = (head.0 - 1, head.1);
        let n_right = (head.0, head.1 + 1);
        let n_left = (head.0, head.1 - 1);
        proof {
            if cell_at(m, n_down).spec_reachable() {
                lemma_connected_step(m, seed, head, n_down);
            }
        }
        visit(map, &mut visited, &mut queue, n_down, Ghost(seed));
        proof {
            if cell_at(m, n_up).spec_reachable() {
                lemma_connected_step(m, seed, head, n_up);
            }
        }
        visit(map, &mut visited, &mut queue, n_up, Ghost(seed));
        proof {
            if cell_at(m, n_right).spec_reachable() {
                lemma_connected_step(m, seed, head, n_right);
            }
        }
        visit(map, &mut visited, &mut queue, n_right, Ghost(seed));
        proof {
            if cell_at(m, n_left).spec_reachable() {
                lemma_connected_step(m, seed, head, n_left);
            }
        }
        visit(map, &mut visited, &mut queue, n_left, Ghost(seed));
        qi = qi + 1;
        proof {
            lemma_grid_falses_nonneg(visited.deep_view());
            assert(frontier_done(m, visited.deep_view(), head)) by {
                assert forall|n: Coordinate|
                    adjacent(head, n) && in_grid(m, n) && cell_at(m, n).spec_reachable()
                        implies #[trigger] marked(visited.deep_view(), n) by {
                    assert(n == n_down || n == n_up || n == n_right || n == n_left);
                }
            }
        }
    }
    // The queue is exhausted: every marked coordinate has been explored,
    // so the marked set is closed under walkable adjacency.
    proof {
        assert forall|c: Coordinate|
            in_grid(m, c) && #[trigger] marked(visited.deep_view(), c) implies frontier_done(
            m,
            visited.deep_view(),
            c,
        ) by {
            let k = choose|k: int| 0 <= k < queue@.len() && queue@[k] == c;
        }
    }
    proof {
        assert(marked(visited.deep_view(), seed));
    }
    let mut area: Vec<Coordinate> = Vec::new();
    let mut r: usize = 0;
    while r < h
        invariant
            r <= h,
            h == m.len(),
            m == map.deep_view(),
            visit_dims(m, visited.deep_view()),
            sorted_lex(area@),
            forall|c: Coordinate|
                in_grid(m, c) && #[trigger] marked(visited.deep_view(), c) ==> connected(
                    m,
                    seed,
                    c,
                ),
            forall|c: Coordinate|
                in_grid(m, c) && #[trigger] marked(visited.deep_view(), c) ==> frontier_done(
                    m,
                    visited.deep_view(),
                    c,
                ),
            marked(visited.deep_view(), seed),
            in_grid(m, seed),
            cell_at(m, seed).spec_reachable(),
            forall|q: Coordinate| #[trigger]
                area@.contains(q) <==> (q.0 < r && in_grid(m, q) && marked(
                    visited.deep_view(),
                    q,
                )),
        decreases h - r,
    {
        let w = map[r].len();
        let mut c: usize = 0;
        while c < w
            invariant
                c <= w,
                r < h,
                h == m.len(),
                m == map.deep_view(),
                w == m[r as int].len(),
                visit_dims(m, visited.deep_view()),
                sorted_lex(area@),
                forall|q: Coordinate| #[trigger]
                    area@.contains(q) <==> ((q.0 < r || (q.0 == r && q.1 < c)) && in_grid(m, q)
                        && marked(visited.deep_view(), q)),
            decreases w - c,
        {
            let ghost here: Coordinate = (r, c);
            proof {
                lemma_visit_view(&visited);
                assert(visited.deep_view()[r as int].len() == m[r as int].len());
                assert(marked(visited.deep_view(), here) == visited@[r as int]@[c as int]);
            }
            if visited[r][c] {
                proof {
                    assert forall|k: int| 0 <= k < area@.len() implies lex_lt(
                        #[trigger] area@[k],
                        here,
                    ) by {
                        assert(area@.contains(area@[k]));
                    }
                }
                let ghost pre_area = area@;
                area.push((r, c));
                proof {
                    assert forall|q: Coordinate| #[trigger]
                        area@.contains(q) == (q == here || pre_area.contains(q)) by {
                        vstd::seq_lib::lemma_seq_contains_after_push(pre_area, here, q);
                    }
                }
            }
            c = c + 1;
        }
        r = r + 1;
    }
    proof {
        assert forall|q: Coordinate| #[trigger] area@.contains(q) <==> connected(
            m,
            seed,
            q,
        ) by {
            if area@.contains(q) {
            } else {
                if connected(m, seed, q) {
                    let wk = choose|wk: Seq<Coordinate>|
                        is_walk(m, wk) && wk.first() == seed && wk.last() == q;
                    lemma_walk_all_marked(m, visited.deep_view(), wk);
                    assert(in_grid(m, q) && marked(visited.deep_view(), q));
                }
            }
        }
    }
    area
}

/// A cell that blocks a box: off the grid, or on the grid and not
/// walkable (a wall or another box).
pub open spec fn blocked_i(m: Seq<Seq<Cell>>, i: int, j: int) -> bool {
    !(in_grid_i(m, i, j) && m[i][j].spec_reachable())
}

/// One of the four corner patterns around a box at `c`: the orthogonal
/// neighbours one row (`dv`) and one column (`dh`) away and the diagonal
/// between them are all blocked.
pub open spec fn corner_blocked(m: Seq<Seq<Cell>>, c: Coordinate, dv: int, dh: int) -> bool {
    &&& blocked_i(m, c.0 + dv, c.1 as int)
    &&& blocked_i(m, c.0 as int, c.1 + dh)
    &&& blocked_i(m, c.0 + dv, c.1 + dh)
}

/// The box at `c` is wedged: some corner pattern around it is blocked.
pub open spec fn immovable_spec(m: Seq<Seq<Cell>>, c: Coordinate) -> bool {
    ||| corner_blocked(m, c, -1, 1)
    ||| corner_blocked(m, c, -1, -1)
    ||| corner_blocked(m, c, 1, 1)
    ||| corner_blocked(m, c, 1, -1)
}

/// The detector's answer: some bare box sits wedged in a corner.
pub open spec fn dead_spec(m: Seq<Seq<Cell>>) -> bool {
    exists|c: Coordinate| in_grid(m, c) && cell_at(m, c) == Cell::Case && immovable_spec(m, c)
}

/// A cell that is not a wall never lies on the border of a bordered grid.
pub proof fn lemma_nonwall_interior(m: Seq<Seq<Cell>>, c: Coordinate)
    requires
        grid_bordered(m),
        in_grid(m, c),
        cell_at(m, c) != Cell::Wall,
    ensures
        1 <= c.0,
        c.0 + 1 < m.len(),
        1 <= c.1,
        c.1 + 1 < m[c.0 as int].len(),
{
    if c.0 == 0 || c.0 + 1 == m.len() || c.1 == 0 || c.1 + 1 == m[c.0 as int].len() {
        assert(cell_at(m, c) == Cell::Wall);
    }
}

/// Whether the box at interior coordinate `c` is wedged in a corner.
fn immovable(map: &Grid, c: &Coordinate) -> (b: bool)
    requires
        grid_rect(map.deep_view()),
        1 <= c.0,
        c.0 + 1 < map.deep_view().len(),
        1 <= c.1,
        c.1 + 1 < map.deep_view()[c.0 as int].len(),
    ensures
        b == immovable_spec(map.deep_view(), *c),
{
    let ghost m = map.deep_view();
    let h = map.len();
    proof {
        lemma_grid_view(map);
        assert(m[c.0 - 1].len() == m[0].len());
        assert(m[c.0 as int].len() == m[0].len());
        assert(m[c.0 + 1].len() == m[0].len());
    }
    let w = map[c.0].len();
    let up = !map[c.0 - 1][c.1].reachable();
    let down = !map[c.0 + 1][c.1].reachable();
    let left = !map[c.0][c.1 - 1].reachable();
    let right = !map[c.0][c.1 + 1].reachable();
    let up_right = !map[c.0 - 1][c.1 + 1].reachable();
    let up_left = !map[c.0 - 1][c.1 - 1].reachable();
    let down_right = !map[c.0 + 1][c.1 + 1].reachable();
    let down_left = !map[c.0 + 1][c.1 - 1].reachable();
    let b0 = up && right && up_right;
    let b1 = up && left && up_left;
    let b2 = down && right && down_right;
    let b3 = down && left && down_left;
    b0 || b1 || b2 || b3
}

/// Whether some bare box of the board is wedged in a corner.  A state
/// flagged here can never be solved by further pushes (see
/// `lemma_deadlock_monotone`), though not every lost state is flagged.
pub fn is_dead(map: &Grid) -> (b: bool)
    requires
        grid_rect(map.deep_view()),
        grid_bordered(map.deep_view()),
    ensures
        b == dead_spec(map.deep_view()),
{
    let ghost m = map.deep_view();
    proof {
        lemma_grid_view(map);
    }
    let mut r: usize = 0;
    while r < map.len()
        invariant
            r <= m.len(),
            m == map.deep_view(),
            grid_rect(m),
            grid_bordered(m),
            forall|q: Coordinate|
                q.0 < r && in_grid(m, q) && #[trigger] cell_at(m, q) == Cell::Case
                    ==> !immovable_spec(m, q),
        decreases m.len() - r,
    {
        proof {
            lemma_grid_view(map);
        }
        let mut c: usize = 0;
        while c < map[r].len()
            invariant
                r < m.len(),
                c <= m[r as int].len(),
                m == map.deep_view(),
                grid_rect(m),
                grid_bordered(m),
                forall|q: Coordinate|
                    q.0 < r && in_grid(m, q) && #[trigger] cell_at(m, q) == Cell::Case
                        ==> !immovable_spec(m, q),
                forall|q: Coordinate|
                    q.0 == r && q.1 < c && in_grid(m, q) && #[trigger] cell_at(m, q) == Cell::Case
                        ==> !immovable_spec(m, q),
            decreases m[r as int].len() - c,
        {
            let ghost here: Coordinate = (r, c);
            proof {
                lemma_grid_view(map);
                assert(cell_at(m, here) == map@[r as int]@[c as int]);
            }
            let cell = map[r][c];
            if cell == Cell::Case {
                proof {
                    lemma_nonwall_interior(m, here);
                }
                if immovable(map, &(r, c)) {
                    proof {
                        assert(in_grid(m, here) && cell_at(m, here) == Cell::Case
                            && immovable_spec(m, here));
                    }
                    return true;
                }
            }
            c = c + 1;
        }
        r = r + 1;
    }
    false
}

/// The cell one step ahead of `p` in direction `d`.
pub open spec fn mid_coord(p: Coordinate, d: Dir) -> Coordinate {
    ((p.0 + crate::engine::dir_delta(d).0) as usize, (p.1 + crate::engine::dir_delta(d).1) as usize)
}

/// The cell two steps ahead of `p` in direction `d`.
pub open spec fn far_coord(p: Coordinate, d: Dir) -> Coordinate {
    (
        (p.0 + 2 * crate::engine::dir_delta(d).0) as usize,
        (p.1 + 2 * crate::engine::dir_delta(d).1) as usize,
    )
}

/// The whole three-cell line starting at `p` lies on the grid.
pub open spec fn push_coords_ok(m: Seq<Seq<Cell>>, p: Coordinate, d: Dir) -> bool {
    let (di, dj) = crate::engine::dir_delta(d);
    &&& in_grid(m, p)
    &&& in_grid_i(m, p.0 + di, p.1 + dj)
    &&& in_grid_i(m, p.0 + 2 * di, p.1 + 2 * dj)
}

/// One push: standing on a walkable cell `p`, the player shoves the box
/// one step ahead into the free cell beyond it, and `m2` is the board
/// after the shift.
pub open spec fn is_push(m: Seq<Seq<Cell>>, p: Coordinate, d: Dir, m2: Seq<Seq<Cell>>) -> bool {
    &&& push_coords_ok(m, p, d)
    &&& cell_at(m, p).spec_reachable()
    &&& cell_at(m, mid_coord(p, d)).spec_is_case()
    &&& shift_spec(cells_at(m, (p, mid_coord(p, d), far_coord(p, d)))).1
    &&& m2 == update_spec(m, (p, mid_coord(p, d), far_coord(p, d)))
}

/// Some push leads from `m1` to `m2`.
pub open spec fn board_step(m1: Seq<Seq<Cell>>, m2: Seq<Seq<Cell>>) -> bool {
    exists|p: Coordinate, d: Dir| is_push(m1, p, d, m2)
}

/// A sequence of boards linked by single pushes.
pub open spec fn push_chain(boards: Seq<Seq<Seq<Cell>>>) -> bool {
    forall|k: int| 0 <= k && k + 1 < boards.len() ==> board_step(#[trigger] boards[k], boards[k + 1])
}

/// A successful shift whose middle cell holds a box needs a free cell on
/// its right: the box must land on bare substrate.
proof fn lemma_push_needs_room(t: crate::engine::Triple)
    requires
        t.0.spec_reachable(),
        t.1.spec_is_case(),
        shift_spec(t).1,
    ensures
        t.2.spec_vol() == 0,
{
}

/// A push leaves the grid's shape, its wall border and its size bounds
/// intact, and the cell the box left becomes walkable.
pub proof fn lemma_push_preserves_wf(
    m: Seq<Seq<Cell>>,
    p: Coordinate,
    d: Dir,
    m2: Seq<Seq<Cell>>,
)
    requires
        grid_rect(m),
        grid_bordered(m),
        grid_bounded(m),
        is_push(m, p, d, m2),
    ensures
        grid_rect(m2),
        grid_bordered(m2),
        grid_bounded(m2),
        m2.len() == m.len(),
        forall|i: int| 0 <= i < m.len() ==> (#[trigger] m2[i]).len() == m[i].len(),
        in_grid(m2, mid_coord(p, d)),
        cell_at(m2, mid_coord(p, d)).spec_reachable(),
{
    let x = mid_coord(p, d);
    let y = far_coord(p, d);
    let tr = (p, x, y);
    let origin = cells_at(m, tr);
    assert forall|i: int| 0 <= i < m.len() implies (#[trigger] m2[i]).len() == m[i].len() by {}
    assert(grid_rect(m2));
    assert(grid_bounded(m2)) by {
        assert forall|i: int| 0 <= i < m2.len() implies (#[trigger] m2[i]).len()
            <= usize::MAX by {}
    }
    lemma_nonwall_interior(m, p);
    lemma_nonwall_interior(m, x);
    assert(grid_bordered(m2)) by {
        assert forall|cc: Coordinate|
            in_grid(m2, cc) && crate::engine::on_border(m2, cc) implies #[trigger] cell_at(
            m2,
            cc,
        ) == Cell::Wall by {
            assert(in_grid(m, cc) && crate::engine::on_border(m, cc));
            assert(cell_at(m, cc) == Cell::Wall);
            if cc == y {
                assert(cell_at(m2, cc) == origin.2.spec_overlay(origin.1.spec_unit()));
            } else {
                assert(cc != p && cc != x);
                assert(cell_at(m2, cc) == cell_at(m, cc));
            }
        }
    }
    assert(cell_at(m2, x) == origin.1.spec_substrate().spec_overlay(origin.0.spec_unit()));
}

/// The box at `c` and the blocked corner beside it: nothing of the 2-by-2
/// square survives a push changed — no cell of it can be pushed into or
/// out of, and no player can stand on it.
pub open spec fn wedged(m: Seq<Seq<Cell>>, c: Coordinate, dv: int, dh: int) -> bool {
    &&& in_grid(m, c)
    &&& cell_at(m, c) == Cell::Case
    &&& corner_blocked(m, c, dv, dh)
}

/// One push preserves a wedged corner box: the four cells of the blocked
/// square are never the player's cell, never a pushed box, and never a
/// box's landing cell, so none of them changes.
proof fn lemma_wedged_step(
    m1: Seq<Seq<Cell>>,
    m2: Seq<Seq<Cell>>,
    c: Coordinate,
    dv: int,
    dh: int,
)
    requires
        dv == 1 || dv == -1,
        dh == 1 || dh == -1,
        grid_rect(m1),
        grid_bordered(m1),
        grid_bounded(m1),
        wedged(m1, c, dv, dh),
        board_step(m1, m2),
    ensures
        grid_rect(m2),
        grid_bordered(m2),
        grid_bounded(m2),
        wedged(m2, c, dv, dh),
{
    let (p, d) = choose|p: Coordinate, d: Dir| is_push(m1, p, d, m2);
    lemma_push_preserves_wf(m1, p, d, m2);
    let x = mid_coord(p, d);
    let y = far_coord(p, d);
    let tr = (p, x, y);
    let origin = cells_at(m1, tr);
    let (di, dj) = crate::engine::dir_delta(d);
    lemma_nonwall_interior(m1, c);
    lemma_nonwall_interior(m1, p);
    lemma_nonwall_interior(m1, x);
    // The four cells of the blocked square, as integer positions.
    let ci = c.0 as int;
    let cj = c.1 as int;
    // Every cell of the square is unreachable, so the player's cell is not
    // one of them.
    assert(!cell_at(m1, c).spec_reachable());
    let block = |i: int, j: int|
        (i == ci && j == cj) || (i == ci + dv && j == cj) || (i == ci && j == cj + dh) || (i == ci
            + dv && j == cj + dh);
    assert(!block(p.0 as int, p.1 as int));
    // A pushed box lands on bare substrate, so the far cell is not in the
    // blocked square either.
    lemma_push_needs_room(origin);
    assert(!block(y.0 as int, y.1 as int)) by {
        if block(y.0 as int, y.1 as int) {
            assert(!cell_at(m1, y).spec_reachable());
        }
    }
    // The pushed box itself is not in the square: pushing it along either
    // axis has the player or the landing cell inside the square.
    assert(!block(x.0 as int, x.1 as int)) by {
        if block(x.0 as int, x.1 as int) {
            assert(p.0 as int == x.0 as int - di && p.1 as int == x.1 as int - dj);
            assert(y.0 as int == x.0 as int + di && y.1 as int == x.1 as int + dj);
        }
    }
    assert(cell_at(m2, c) == cell_at(m1, c));
    assert(cell_at(m2, ((ci + dv) as usize, cj as usize)) == cell_at(
        m1,
        ((ci + dv) as usize, cj as usize),
    ));
    assert(cell_at(m2, (ci as usize, (cj + dh) as usize)) == cell_at(
        m1,
        (ci as usize, (cj + dh) as usize),
    ));
    assert(cell_at(m2, ((ci + dv) as usize, (cj + dh) as usize)) == cell_at(
        m1,
        ((ci + dv) as usize, (cj + dh) as usize),
    ));
    assert(corner_blocked(m2, c, dv, dh));
}

/// A board with a bare box at `c` is not solved.
proof fn lemma_wedged_unsolved(m: Seq<Seq<Cell>>, c: Coordinate, dv: int, dh: int)
    requires
        wedged(m, c, dv, dh),
    ensures
        !solved(m),
{
    assert(in_grid(m, c) && cell_at(m, c) == Cell::Case);
}

/// Deadlock monotonicity: once the detector flags a board as dead, no
/// sequence of further pushes reaches a solved board.  The flagged corner
/// pattern freezes a 2-by-2 square of the board for good: no cell of it
/// can host the player, be pushed away, or be pushed into.
pub proof fn lemma_deadlock_monotone(boards: Seq<Seq<Seq<Cell>>>)
    requires
        boards.len() >= 1,
        grid_rect(boards[0]),
        grid_bordered(boards[0]),
        grid_bounded(boards[0]),
        dead_spec(boards[0]),
        push_chain(boards),
    ensures
        forall|k: int| 0 <= k < boards.len() ==> !solved(#[trigger] boards[k]),
{
    let c = choose|c: Coordinate|
        in_grid(boards[0], c) && cell_at(boards[0], c) == Cell::Case && immovable_spec(
            boards[0],
            c,
        );
    let (dv, dh): (int, int) = if corner_blocked(boards[0], c, -1, 1) {
        (-1int, 1int)
    } else if corner_blocked(boards[0], c, -1, -1) {
        (-1int, -1int)
    } else if corner_blocked(boards[0], c, 1, 1) {
        (1int, 1int)
    } else {
        (1int, -1int)
    };
    assert(wedged(boards[0], c, dv, dh));
    assert forall|k: int| 0 <= k < boards.len() implies !solved(#[trigger] boards[k]) by {
        lemma_wedged_prefix(boards, c, dv, dh, k);
        lemma_wedged_unsolved(boards[k], c, dv, dh);
    }
}

/// A canonical state of the search: the board with the player's own cell
/// stripped to its substrate, and the canonical listing of the room the
/// player can walk in.  Two live states that differ only in where the
/// player stands within the same room give the same snapshot.
pub struct Snapshot {
    player_area: Vec<Coordinate>,
    pub map: Grid,
}

/// The mathematical content of a snapshot.
#[verifier::ext_equal]
pub struct SnapModel {
    pub player_area: Seq<Coordinate>,
    pub map: Seq<Seq<Cell>>,
}

impl View for Snapshot {
    type V = SnapModel;

    closed spec fn view(&self) -> SnapModel {
        SnapModel { player_area: self.player_area@, map: self.map.deep_view() }
    }
}

impl Snapshot {
    /// The canonical room listing of this snapshot.
    pub fn area(&self) -> (a: &Vec<Coordinate>)
        ensures
            a@ == self@.player_area,
    {
        &self.player_area
    }
}

/// A snapshot fit for the search: a well-shaped board and a nonempty
/// canonical room whose members are exactly the coordinates connected to
/// its first entry.
pub open spec fn snap_wf(s: SnapModel) -> bool {
    &&& grid_rect(s.map)
    &&& grid_bordered(s.map)
    &&& grid_bounded(s.map)
    &&& s.player_area.len() >= 1
    &&& is_area_of(s.player_area, s.map, s.player_area.first())
}

/// A canonical area may be re-seeded at any of its members: the room is
/// the connected component of each of them.
pub proof fn lemma_area_reseed(
    area: Seq<Coordinate>,
    m: Seq<Seq<Cell>>,
    seed: Coordinate,
    seed2: Coordinate,
)
    requires
        is_area_of(area, m, seed),
        area.contains(seed2),
    ensures
        is_area_of(area, m, seed2),
{
    assert(connected(m, seed, seed2));
    assert forall|q: Coordinate| #[trigger] area.contains(q) <==> connected(m, seed2, q) by {
        if area.contains(q) {
            lemma_connected_sym(m, seed, seed2);
            lemma_connected_trans(m, seed2, seed, q);
        }
        if connected(m, seed2, q) {
            lemma_connected_trans(m, seed, seed2, q);
            assert(connected(m, seed, q));
        }
    }
}

/// Two canonical areas of the same component are the same sequence.
pub proof fn lemma_sorted_same_members(a: Seq<Coordinate>, b: Seq<Coordinate>)
    requires
        sorted_lex(a),
        sorted_lex(b),
        forall|q: Coordinate| #[trigger] a.contains(q) <==> #[trigger] b.contains(q),
    ensures
        a =~= b,
    decreases a.len(),
{
    if a.len() == 0 {
        if b.len() > 0 {
            assert(b.contains(b[0]));
            assert(a.contains(b[0]));
        }
    } else {
        assert(a.contains(a[0]));
        assert(b.contains(a[0]));
        let j = choose|j: int| 0 <= j < b.len() && b[j] == a[0];
        if j > 0 {
            assert(lex_lt(b[0], b[j]));
            assert(b.contains(b[0]));
            assert(a.contains(b[0]));
            let i = choose|i: int| 0 <= i < a.len() && a[i] == b[0];
            assert(i > 0 ==> lex_lt(a[0], a[i]));
            assert(false);
        }
        assert(b.len() >= 1 && b[0] == a[0]);
        let a2 = a.drop_first();
        let b2 = b.drop_first();
        assert(sorted_lex(a2)) by {
            assert(forall|k: int| 0 <= k < a2.len() ==> a2[k] == a[k + 1]);
        }
        assert(sorted_lex(b2)) by {
            assert(forall|k: int| 0 <= k < b2.len() ==> b2[k] == b[k + 1]);
        }
        assert forall|q: Coordinate| #[trigger] a2.contains(q) <==> #[trigger] b2.contains(
            q,
        ) by {
            if a2.contains(q) {
                let k = choose|k: int| 0 <= k < a2.len() && a2[k] == q;
                assert(a[k + 1] == q);
                assert(lex_lt(a[0], q));
                assert(a.contains(q));
                assert(b.contains(q));
                let l = choose|l: int| 0 <= l < b.len() && b[l] == q;
                assert(l != 0);
                assert(b2[l - 1] == q);
            }
            if b2.contains(q) {
                let k = choose|k: int| 0 <= k < b2.len() && b2[k] == q;
                assert(b[k + 1] == q);
                assert(lex_lt(b[0], q));
                assert(b.contains(q));
                assert(a.contains(q));
                let l = choose|l: int| 0 <= l < a.len() && a[l] == q;
                assert(l != 0);
                assert(a2[l - 1] == q);
            }
        }
        lemma_sorted_same_members(a2, b2);
        assert(a.len() == b.len());
        assert forall|k: int| 0 <= k < a.len() implies a[k] == b[k] by {
            if k > 0 {
                assert(a2[k - 1] == a[k]);
                assert(b2[k - 1] == b[k]);
            }
        }
    }
}

/// Members of a reachable area are always walkable grid cells: a wall or
/// a box is never a member.
pub proof fn lemma_area_members_walkable(
    area: Seq<Coordinate>,
    m: Seq<Seq<Cell>>,
    seed: Coordinate,
    q: Coordinate,
)
    requires
        is_area_of(area, m, seed),
        area.contains(q),
    ensures
        in_grid(m, q),
        cell_at(m, q).spec_reachable(),
{
    lemma_connected_endpoints(m, seed, q);
}

/// The canonical room listing is unique: any two canonical areas of the
/// same board and seed are the same sequence, so a snapshot is a function
/// of the board and the player's room alone.
pub proof fn lemma_area_unique(a: Seq<Coordinate>, b: Seq<Coordinate>, m: Seq<Seq<Cell>>, seed: Coordinate)
    requires
        is_area_of(a, m, seed),
        is_area_of(b, m, seed),
    ensures
        a == b,
{
    lemma_sorted_same_members(a, b);
}

/// A fresh copy of a grid.
fn clone_grid(g: &Grid) -> (g2: Grid)
    ensures
        g2.deep_view() == g.deep_view(),
        g2@.len() == g@.len(),
{
    let ghost m = g.deep_view();
    proof {
        lemma_grid_view(g);
    }
    let mut g2: Vec<Vec<Cell>> = Vec::new();
    let mut i: usize = 0;
    while i < g.len()
        invariant
            i <= g@.len(),
            m == g.deep_view(),
            g2.deep_view().len() == i,
            forall|k: int| 0 <= k < i ==> #[trigger] g2.deep_view()[k] =~= m[k],
        decreases g@.len() - i,
    {
        proof {
            lemma_grid_view(g);
        }
        let mut row: Vec<Cell> = Vec::new();
        let mut j: usize = 0;
        while j < g[i].len()
            invariant
                i < g@.len(),
                j <= g@[i as int]@.len(),
                m == g.deep_view(),
                row@.len() == j,
                forall|l: int| 0 <= l < j ==> #[trigger] row@[l] == m[i as int][l],
            decreases g@[i as int]@.len() - j,
        {
            proof {
                lemma_grid_view(g);
            }
            row.push(g[i][j]);
            j = j + 1;
        }
        let ghost rv = row@;
        let ghost pre = g2.deep_view();
        g2.push(row);
        i = i + 1;
        proof {
            lemma_grid_view(g);
            assert forall|k: int| 0 <= k < i implies #[trigger] g2.deep_view()[k] =~= m[k] by {
                if k + 1 == i {
                    assert(g2.deep_view()[k] =~= rv);
                } else {
                    assert(g2.deep_view()[k] == pre[k]);
                }
            }
        }
    }
    proof {
        assert(g2.deep_view() =~~= m);
    }
    g2
}

/// A push from `p` in direction `d` is possible: the three-cell line fits
/// on the grid, a box sits ahead, and the shift is legal.
pub open spec fn pushable(m: Seq<Seq<Cell>>, p: Coordinate, d: Dir) -> bool {
    &&& push_coords_ok(m, p, d)
    &&& cell_at(m, mid_coord(p, d)).spec_is_case()
    &&& shift_spec(cells_at(m, (p, mid_coord(p, d), far_coord(p, d)))).1
}

/// What the branch generator promises of each emitted branch: some player
/// position in the room and some direction push the board to the branch's
/// board, the branch's coordinate is where the player ends up, and the
/// branch's room is the canonical area around it.
pub open spec fn branch_ok(
    m: Seq<Seq<Cell>>,
    area: Seq<Coordinate>,
    b: (SnapModel, Coordinate),
) -> bool {
    exists|p: Coordinate, d: Dir|
        area.contains(p) && #[trigger] is_push(m, p, d, b.0.map) && b.1 == mid_coord(p, d)
            && is_area_of(b.0.player_area, b.0.map, b.1) && snap_wf(b.0)
}

/// Attempt the push from `p` in direction `d`: emit the successor
/// snapshot when a box sits ahead of `p` and the shift is legal.
fn try_push(map: &Grid, p: Coordinate, d: Dir) -> (res: Option<(Snapshot, Coordinate)>)
    requires
        grid_rect(map.deep_view()),
        grid_bordered(map.deep_view()),
        grid_bounded(map.deep_view()),
        in_grid(map.deep_view(), p),
        cell_at(map.deep_view(), p).spec_reachable(),
    ensures
        res matches Some(b) ==> is_push(map.deep_view(), p, d, b.0@.map) && b.1 == mid_coord(
            p,
            d,
        ) && is_area_of(b.0@.player_area, b.0@.map, b.1) && snap_wf(b.0@),
        res is None ==> !pushable(map.deep_view(), p, d),
{
    let ghost m = map.deep_view();
    proof {
        lemma_grid_view(map);
        lemma_reachable_interior(m, p);
        assert(m[p.0 as int].len() == m[0].len());
    }
    let h = map.len();
    let w = map[p.0].len();
    let (ok, x, y): (bool, Coordinate, Coordinate) = match d {
        Dir::Down => {
            if p.0 + 2 < h {
                (true, (p.0 + 1, p.1), (p.0 + 2, p.1))
            } else {
                (false, p, p)
            }
        },
        Dir::Up => {
            if p.0 >= 2 {
                (true, (p.0 - 1, p.1), (p.0 - 2, p.1))
            } else {
                (false, p, p)
            }
        },
        Dir::Right => {
            if p.1 + 2 < w {
                (true, (p.0, p.1 + 1), (p.0, p.1 + 2))
            } else {
                (false, p, p)
            }
        },
        Dir::Left => {
            if p.1 >= 2 {
                (true, (p.0, p.1 - 1), (p.0, p.1 - 2))
            } else {
                (false, p, p)
            }
        },
    };
    if !ok {
        return None;
    }
    proof {
        assert(m[x.0 as int].len() == m[0].len());
        assert(m[y.0 as int].len() == m[0].len());
        assert(push_coords_ok(m, p, d));
        assert(x == mid_coord(p, d));
        assert(y == far_coord(p, d));
        assert(cell_at(m, x) == map@[x.0 as int]@[x.1 as int]);
    }
    if !map[x.0][x.1].is_case() {
        return None;
    }
    let mut new_map = clone_grid(map);
    let (_, moved) = crate::engine::update(&mut new_map, &(p, x, y));
    if !moved {
        return None;
    }
    proof {
        assert(is_push(m, p, d, new_map.deep_view()));
        lemma_push_preserves_wf(m, p, d, new_map.deep_view());
    }
    let new_area = explore_player_area(&new_map, &x);
    proof {
        assert(new_area@.contains(x)) by {
            lemma_connected_refl(new_map.deep_view(), x);
        }
        assert(new_area@.len() >= 1);
        assert(new_area@.contains(new_area@.first())) by {
            assert(new_area@[0] == new_area@.first());
        }
        lemma_area_reseed(new_area@, new_map.deep_view(), x, new_area@.first());
    }
    Some((Snapshot { map: new_map, player_area: new_area }, x))
}

/// Enumerate every single-push successor of the current room, in a fixed
/// order: each room coordinate in canonical order, and from each the four
/// directions down, up, right, left.
/// The canonical room around a seed, as a value: by `lemma_area_unique`
/// there is at most one, and `explore_player_area` always returns it.
pub open spec fn the_area(m: Seq<Seq<Cell>>, seed: Coordinate) -> Seq<Coordinate> {
    choose|a: Seq<Coordinate>| is_area_of(a, m, seed)
}

/// The direction enumerated at position `di` of the fixed order.
pub open spec fn dir_of(di: int) -> Dir {
    if di == 0 {
        Dir::Down
    } else if di == 1 {
        Dir::Up
    } else if di == 2 {
        Dir::Right
    } else {
        Dir::Left
    }
}

/// The branch emitted for the push from `p` in direction `d`: the pushed
/// board paired with the canonical room around the player's landing cell.
pub open spec fn branch_of(m: Seq<Seq<Cell>>, p: Coordinate, d: Dir) -> (SnapModel, Coordinate) {
    let x = mid_coord(p, d);
    let m2 = update_spec(m, (p, x, far_coord(p, d)));
    (SnapModel { player_area: the_area(m2, x), map: m2 }, x)
}

/// The branches still to be emitted from room position `j` on, starting
/// at direction position `di`: one branch for each possible push, rooms
/// in canonical order, directions in the fixed order.
pub open spec fn branch_list(
    m: Seq<Seq<Cell>>,
    area: Seq<Coordinate>,
    j: int,
    di: int,
) -> Seq<(SnapModel, Coordinate)>
    decreases area.len() - j, 4 - di,
    when 0 <= j && 0 <= di <= 4
{
    if j >= area.len() {
        Seq::empty()
    } else if di == 4 {
        branch_list(m, area, j + 1, 0)
    } else {
        (if pushable(m, area[j], dir_of(di)) {
            seq![branch_of(m, area[j], dir_of(di))]
        } else {
            Seq::empty()
        }) + branch_list(m, area, j, di + 1)
    }
}

/// The mathematical content of an emitted branch sequence.
pub open spec fn branch_views(s: Seq<(Snapshot, Coordinate)>) -> Seq<(SnapModel, Coordinate)> {
    s.map_values(|b: (Snapshot, Coordinate)| (b.0@, b.1))
}

proof fn lemma_branch_views_push(s: Seq<(Snapshot, Coordinate)>, b: (Snapshot, Coordinate))
    ensures
        branch_views(s.push(b)) =~= branch_views(s).push((b.0@, b.1)),
{
}

/// One emitted branch answers one possible push: the same push relates
/// the boards, and the branch's coordinate is the player's landing cell.
pub open spec fn branch_covers(
    m: Seq<Seq<Cell>>,
    p: Coordinate,
    d: Dir,
    b: (SnapModel, Coordinate),
) -> bool {
    is_push(m, p, d, b.0.map) && b.1 == mid_coord(p, d)
}

/// The fixed enumeration order of the four directions.
pub open spec fn dir_index(d: Dir) -> int {
    match d {
        Dir::Down => 0,
        Dir::Up => 1,
        Dir::Right => 2,
        Dir::Left => 3,
    }
}

/// Enumerate every single-push successor of the current room, in a fixed
/// order: each room coordinate in canonical order, and from each the four
/// directions down, up, right, left.  The result is pinned exactly: it is
/// `branch_list` of the board and the room, so every emitted branch is a
/// possible push, every possible push is emitted, and repeated calls
/// agree branch for branch.
pub fn get_branches(map: &Grid, player_area: &Vec<Coordinate>) -> (branches: Vec<
    (Snapshot, Coordinate),
>)
    requires
        grid_rect(map.deep_view()),
        grid_bordered(map.deep_view()),
        grid_bounded(map.deep_view()),
        forall|k: int|
            0 <= k < player_area@.len() ==> in_grid(map.deep_view(), #[trigger] player_area@[k])
                && cell_at(map.deep_view(), player_area@[k]).spec_reachable(),
    ensures
        forall|k: int|
            0 <= k < branches@.len() ==> branch_ok(
                map.deep_view(),
                player_area@,
                (#[trigger] branches@[k].0@, branches@[k].1),
            ),
        forall|j: int, d: Dir|
            0 <= j < player_area@.len() && #[trigger] pushable(map.deep_view(), player_area@[j], d)
                ==> exists|k: int|
                0 <= k < branches@.len() && branch_covers(
                    map.deep_view(),
                    player_area@[j],
                    d,
                    ((#[trigger] branches@[k]).0@, branches@[k].1),
                ),
        branch_views(branches@) == branch_list(map.deep_view(), player_area@, 0, 0),
{
    let ghost m = map.deep_view();
    let mut branches: Vec<(Snapshot, Coordinate)> = Vec::new();
    let ghost target = branch_list(m, player_area@, 0, 0);
    let mut idx: usize = 0;
    while idx < player_area.len()
        invariant
            idx <= player_area@.len(),
            m == map.deep_view(),
            grid_rect(m),
            grid_bordered(m),
            grid_bounded(m),
            forall|k: int|
                0 <= k < player_area@.len() ==> in_grid(m, #[trigger] player_area@[k]) && cell_at(
                    m,
                    player_area@[k],
                ).spec_reachable(),
            forall|k: int|
                0 <= k < branches@.len() ==> branch_ok(
                    m,
                    player_area@,
                    (#[trigger] branches@[k].0@, branches@[k].1),
                ),
            forall|j: int, d: Dir|
                0 <= j < idx && #[trigger] pushable(m, player_area@[j], d) ==> exists|k: int|
                    0 <= k < branches@.len() && branch_covers(
                        m,
                        player_area@[j],
                        d,
                        ((#[trigger] branches@[k]).0@, branches@[k].1),
                    ),
            target == branch_list(m, player_area@, 0, 0),
            target == branch_views(branches@) + branch_list(m, player_area@, idx as int, 0),
        decreases player_area@.len() - idx,
    {
        let p = player_area[idx];
        proof {
            assert(player_area@.contains(p));
        }
        let mut di: usize = 0;
        while di < 4
            invariant
                di <= 4,
                idx < player_area@.len(),
                p == player_area@[idx as int],
                player_area@.contains(p),
                m == map.deep_view(),
                grid_rect(m),
                grid_bordered(m),
                grid_bounded(m),
                in_grid(m, p),
                cell_at(m, p).spec_reachable(),
                forall|k: int|
                    0 <= k < player_area@.len() ==> in_grid(m, #[trigger] player_area@[k])
                        && cell_at(m, player_area@[k]).spec_reachable(),
                forall|k: int|
                    0 <= k < branches@.len() ==> branch_ok(
                        m,
                        player_area@,
                        (#[trigger] branches@[k].0@, branches@[k].1),
                    ),
                forall|j: int, d: Dir|
                    0 <= j < idx && #[trigger] pushable(m, player_area@[j], d) ==> exists|k: int|
                        0 <= k < branches@.len() && branch_covers(
                            m,
                            player_area@[j],
                            d,
                            ((#[trigger] branches@[k]).0@, branches@[k].1),
                        ),
                forall|d: Dir|
                    dir_index(d) < di && #[trigger] pushable(m, p, d) ==> exists|k: int|
                        0 <= k < branches@.len() && branch_covers(
                            m,
                            p,
                            d,
                            ((#[trigger] branches@[k]).0@, branches@[k].1),
                        ),
                target == branch_list(m, player_area@, 0, 0),
                target == branch_views(branches@) + branch_list(m, player_area@, idx as int, di as int),
            decreases 4 - di,
        {
            let d = if di == 0 {
                Dir::Down
            } else if di == 1 {
                Dir::Up
            } else if di == 2 {
                Dir::Right
            } else {
                Dir::Left
            };
            match try_push(map, p, d) {
                Some(b) => {
                    let ghost bb = (b.0@, b.1);
                    let ghost pre = branches@;
                    proof {
                        assert(snap_wf(bb.0));
                        assert(branch_ok(m, player_area@, bb));
                    }
                    branches.push(b);
                    proof {
                        assert(branches@.len() == pre.len() + 1);
                        assert(forall|k: int| 0 <= k < pre.len() ==> branches@[k] == pre[k]);
                        assert((branches@[pre.len() as int].0@, branches@[pre.len() as int].1)
                            == bb);
                        assert(branch_covers(m, p, d, bb));
                        assert(d == dir_of(di as int));
                        assert(bb == branch_of(m, p, d)) by {
                            let x = mid_coord(p, d);
                            let m2 = update_spec(m, (p, x, far_coord(p, d)));
                            assert(is_area_of(bb.0.player_area, m2, x));
                            assert(is_area_of(the_area(m2, x), m2, x)) by {
                                assert(exists|a: Seq<Coordinate>| is_area_of(a, m2, x));
                            }
                            lemma_area_unique(bb.0.player_area, the_area(m2, x), m2, x);
                            assert(bb.0 =~~= branch_of(m, p, d).0);
                        }
                        assert(branch_views(branches@) =~= branch_views(pre).push(bb)) by {
                            lemma_branch_views_push(pre, (b.0, b.1));
                            assert(branches@ =~= pre.push((b.0, b.1)));
                        }
                        assert(branch_list(m, player_area@, idx as int, di as int) == seq![
                            branch_of(m, p, d),
                        ] + branch_list(m, player_area@, idx as int, di + 1));
                        assert(target == branch_views(branches@) + branch_list(
                            m,
                            player_area@,
                            idx as int,
                            di + 1,
                        )) by {
                            assert(branch_views(pre) + (seq![bb] + branch_list(
                                m,
                                player_area@,
                                idx as int,
                                di + 1,
                            )) =~= (branch_views(pre).push(bb)) + branch_list(
                                m,
                                player_area@,
                                idx as int,
                                di + 1,
                            ));
                        }
                        assert forall|j: int, dd: Dir|
                            0 <= j < idx && #[trigger] pushable(m, player_area@[j], dd)
                            implies exists|k: int|
                            0 <= k < branches@.len() && branch_covers(
                                m,
                                player_area@[j],
                                dd,
                                ((#[trigger] branches@[k]).0@, branches@[k].1),
                            ) by {
                            let kk = choose|k: int|
                                0 <= k < pre.len() && branch_covers(
                                    m,
                                    player_area@[j],
                                    dd,
                                    ((#[trigger] pre[k]).0@, pre[k].1),
                                );
                            assert(branches@[kk] == pre[kk]);
                        }
                        assert forall|dd: Dir|
                            dir_index(dd) < di + 1 && #[trigger] pushable(m, p, dd)
                            implies exists|k: int|
                            0 <= k < branches@.len() && branch_covers(
                                m,
                                p,
                                dd,
                                ((#[trigger] branches@[k]).0@, branches@[k].1),
                            ) by {
                            if dir_index(dd) < di {
                                let kk = choose|k: int|
                                    0 <= k < pre.len() && branch_covers(
                                        m,
                                        p,
                                        dd,
                                        ((#[trigger] pre[k]).0@, pre[k].1),
                                    );
                                assert(branches@[kk] == pre[kk]);
                            } else {
                                assert(dd == d);
                                assert((branches@[pre.len() as int].0@, branches@[
                                    pre.len() as int
                                ].1) == bb);
                            }
                        }
                    }
                },
                None => {
                    proof {
                        assert(!pushable(m, p, d));
                        assert(d == dir_of(di as int));
                        assert(branch_list(m, player_area@, idx as int, di as int) == Seq::empty()
                            + branch_list(m, player_area@, idx as int, di + 1));
                        assert(Seq::<(SnapModel, Coordinate)>::empty() + branch_list(
                            m,
                            player_area@,
                            idx as int,
                            di + 1,
                        ) =~= branch_list(m, player_area@, idx as int, di + 1));
                    }
                },
            }
            di = di + 1;
        }
        idx = idx + 1;
        proof {
            assert(branch_list(m, player_area@, idx - 1, 4) == branch_list(
                m,
                player_area@,
                idx as int,
                0,
            ));
            assert forall|j: int, d: Dir|
                0 <= j < idx && #[trigger] pushable(m, player_area@[j], d) implies exists|k: int|
                0 <= k < branches@.len() && branch_covers(
                    m,
                    player_area@[j],
                    d,
                    ((#[trigger] branches@[k]).0@, branches@[k].1),
                ) by {
                if j + 1 == idx {
                    assert(dir_index(d) < 4);
                }
            }
        }
    }
    branches
}

/// A digit below seven for each cell variant.
spec fn cell_digit(c: Cell) -> int {
    match c {
        Cell::Case => 0,
        Cell::Wall => 1,
        Cell::Ground => 2,
        Cell::Player => 3,
        Cell::Target => 4,
        Cell::PlayerOnTarget => 5,
        Cell::CaseOnTarget => 6,
    }
}

/// The board flattened to its row-major digit string.
spec fn grid_digits(m: Seq<Seq<Cell>>, w: int) -> Seq<int> {
    Seq::new((m.len() * w) as nat, |k: int| cell_digit(m[k / w][k % w]))
}

/// A base-seven digit string read as a number.
spec fn enc(ds: Seq<int>) -> int
    decreases ds.len(),
{
    if ds.len() == 0 {
        0
    } else {
        ds[0] + 7 * enc(ds.drop_first())
    }
}

/// Powers of seven.
spec fn pow7(n: nat) -> int
    decreases n,
{
    if n == 0 {
        1
    } else {
        7 * pow7((n - 1) as nat)
    }
}

proof fn lemma_pow7_pos(n: nat)
    ensures
        pow7(n) >= 1,
    decreases n,
{
    if n > 0 {
        lemma_pow7_pos((n - 1) as nat);
    }
}

spec fn digits_ok(ds: Seq<int>) -> bool {
    forall|k: int| 0 <= k < ds.len() ==> 0 <= #[trigger] ds[k] < 7
}

proof fn lemma_enc_bound(ds: Seq<int>)
    requires
        digits_ok(ds),
    ensures
        0 <= enc(ds) < pow7(ds.len()),
    decreases ds.len(),
{
    if ds.len() > 0 {
        let rest = ds.drop_first();
        assert(digits_ok(rest)) by {
            assert(forall|k: int| 0 <= k < rest.len() ==> rest[k] == ds[k + 1]);
        }
        lemma_enc_bound(rest);
        assert(ds[0] + 7 * enc(rest) < 7 * pow7(rest.len())) by {
            assert(enc(rest) <= pow7(rest.len()) - 1);
            assert(7 * enc(rest) <= 7 * (pow7(rest.len()) - 1));
        }
    }
}

proof fn lemma_enc_inj(d1: Seq<int>, d2: Seq<int>)
    requires
        d1.len() == d2.len(),
        digits_ok(d1),
        digits_ok(d2),
        enc(d1) == enc(d2),
    ensures
        d1 =~= d2,
    decreases d1.len(),
{
    if d1.len() > 0 {
        let r1 = d1.drop_first();
        let r2 = d2.drop_first();
        assert(digits_ok(r1)) by {
            assert(forall|k: int| 0 <= k < r1.len() ==> r1[k] == d1[k + 1]);
        }
        assert(digits_ok(r2)) by {
            assert(forall|k: int| 0 <= k < r2.len() ==> r2[k] == d2[k + 1]);
        }
        assert(d1[0] == d2[0] && enc(r1) == enc(r2)) by {
            assert(d1[0] + 7 * enc(r1) == d2[0] + 7 * enc(r2));
            assert(0 <= d1[0] < 7 && 0 <= d2[0] < 7);
        }
        lemma_enc_inj(r1, r2);
        assert forall|k: int| 0 <= k < d1.len() implies d1[k] == d2[k] by {
            if k > 0 {
                assert(r1[k - 1] == d1[k] && r2[k - 1] == d2[k]);
            }
        }
    }
}

/// Equal digit strings mean equal boards.
proof fn lemma_grid_digits_inj(m1: Seq<Seq<Cell>>, m2: Seq<Seq<Cell>>, h: int, w: int)
    requires
        h >= 0,
        w >= 1,
        m1.len() == h,
        m2.len() == h,
        forall|i: int| 0 <= i < h ==> (#[trigger] m1[i]).len() == w,
        forall|i: int| 0 <= i < h ==> (#[trigger] m2[i]).len() == w,
        grid_digits(m1, w) =~= grid_digits(m2, w),
    ensures
        m1 =~~= m2,
{
    assert forall|i: int, j: int| 0 <= i < h && 0 <= j < w implies #[trigger] m1[i][j]
        == m2[i][j] by {
        let k = i * w + j;
        assert(0 <= k < h * w) by (nonlinear_arith)
            requires
                0 <= i < h,
                0 <= j < w,
                k == i * w + j,
        ;
        vstd::arithmetic::div_mod::lemma_fundamental_div_mod_converse(k, w, i, j);
        assert(grid_digits(m1, w)[k] == cell_digit(m1[i][j]));
        assert(grid_digits(m2, w)[k] == cell_digit(m2[i][j]));
    }
}

/// Whether a snapshot's board is exactly `h` rows of `w` cells.
pub open spec fn snap_dims(s: SnapModel, h: int, w: int) -> bool {
    s.map.len() == h && forall|i: int| 0 <= i < h ==> (#[trigger] s.map[i]).len() == w
}

/// A number that identifies a well-formed snapshot: the board's digit
/// string paired with the row-major index of the room's first cell.
spec fn snap_code(s: SnapModel, h: int, w: int) -> int {
    enc(grid_digits(s.map, w)) * (h * w) + (s.player_area[0].0 * w + s.player_area[0].1)
}

/// Both endpoints of a walk lie on walkable grid cells.
pub proof fn lemma_connected_endpoints(m: Seq<Seq<Cell>>, a: Coordinate, b: Coordinate)
    requires
        connected(m, a, b),
    ensures
        in_grid(m, a),
        cell_at(m, a).spec_reachable(),
        in_grid(m, b),
        cell_at(m, b).spec_reachable(),
{
    let w = choose|w: Seq<Coordinate>| is_walk(m, w) && w.first() == a && w.last() == b;
    assert(in_grid(m, w[0]) && cell_at(m, w[0]).spec_reachable());
    assert(in_grid(m, w[w.len() - 1]) && cell_at(m, w[w.len() - 1]).spec_reachable());
}

/// Distinct well-formed snapshots of the same board size carry distinct
/// codes.
proof fn lemma_snap_code_inj(s1: SnapModel, s2: SnapModel, h: int, w: int)
    requires
        h >= 1,
        w >= 1,
        snap_wf(s1),
        snap_wf(s2),
        snap_dims(s1, h, w),
        snap_dims(s2, h, w),
        snap_code(s1, h, w) == snap_code(s2, h, w),
    ensures
        s1 == s2,
{
    let hw = h * w;
    assert(hw >= 1) by (nonlinear_arith)
        requires
            h >= 1,
            w >= 1,
            hw == h * w,
    ;
    let e1 = s1.player_area[0].0 * w + s1.player_area[0].1;
    let e2 = s2.player_area[0].0 * w + s2.player_area[0].1;
    assert(s1.player_area.contains(s1.player_area[0]));
    assert(s2.player_area.contains(s2.player_area[0]));
    assert(connected(s1.map, s1.player_area.first(), s1.player_area[0]));
    assert(connected(s2.map, s2.player_area.first(), s2.player_area[0]));
    lemma_connected_endpoints(s1.map, s1.player_area.first(), s1.player_area[0]);
    lemma_connected_endpoints(s2.map, s2.player_area.first(), s2.player_area[0]);
    let r1 = s1.player_area[0].0 as int;
    let c1 = s1.player_area[0].1 as int;
    let r2 = s2.player_area[0].0 as int;
    let c2 = s2.player_area[0].1 as int;
    assert(0 <= e1 < hw) by (nonlinear_arith)
        requires
            0 <= r1 < h,
            0 <= c1 < w,
            e1 == r1 * w + c1,
            hw == h * w,
    ;
    assert(0 <= e2 < hw) by (nonlinear_arith)
        requires
            0 <= r2 < h,
            0 <= c2 < w,
            e2 == r2 * w + c2,
            hw == h * w,
    ;
    let ds1 = grid_digits(s1.map, w);
    let ds2 = grid_digits(s2.map, w);
    assert(digits_ok(ds1) && digits_ok(ds2));
    lemma_enc_bound(ds1);
    lemma_enc_bound(ds2);
    let b1 = enc(ds1);
    let b2 = enc(ds2);
    assert(b1 == b2 && e1 == e2) by (nonlinear_arith)
        requires
            b1 * hw + e1 == b2 * hw + e2,
            0 <= e1 < hw,
            0 <= e2 < hw,
            b1 >= 0,
            b2 >= 0,
            hw >= 1,
    ;
    lemma_enc_inj(ds1, ds2);
    lemma_grid_digits_inj(s1.map, s2.map, h, w);
    vstd::arithmetic::div_mod::lemma_fundamental_div_mod_converse(e1, w, r1, c1);
    vstd::arithmetic::div_mod::lemma_fundamental_div_mod_converse(e2, w, r2, c2);
    assert(s1.player_area[0] == s2.player_area[0]);
    lemma_area_reseed(s1.player_area, s1.map, s1.player_area.first(), s1.player_area[0]);
    lemma_area_reseed(s2.player_area, s2.map, s2.player_area.first(), s2.player_area[0]);
    assert forall|q: Coordinate| #[trigger] s1.player_area.contains(q)
        <==> #[trigger] s2.player_area.contains(q) by {
        assert(s1.player_area.contains(q) <==> connected(s1.map, s1.player_area[0], q));
        assert(s2.player_area.contains(q) <==> connected(s2.map, s2.player_area[0], q));
    }
    lemma_sorted_same_members(s1.player_area, s2.player_area);
    assert(s1 =~~= s2);
}

/// No collection of pairwise distinct well-formed snapshots of an
/// `h`-by-`w` board can outgrow the number of possible codes.
proof fn lemma_searched_bound(views: Seq<SnapModel>, h: int, w: int)
    requires
        h >= 1,
        w >= 1,
        forall|k: int|
            0 <= k < views.len() ==> snap_wf(#[trigger] views[k]) && snap_dims(views[k], h, w),
        views.no_duplicates(),
    ensures
        views.len() <= pow7((h * w) as nat) * (h * w),
{
    broadcast use vstd::seq_lib::seq_to_set_is_finite;

    let hw = h * w;
    assert(hw >= 1) by (nonlinear_arith)
        requires
            h >= 1,
            w >= 1,
            hw == h * w,
    ;
    lemma_pow7_pos(hw as nat);
    let bound = pow7(hw as nat) * hw;
    assert(bound >= pow7(hw as nat)) by (nonlinear_arith)
        requires
            hw >= 1,
            pow7(hw as nat) >= 1,
            bound == pow7(hw as nat) * hw,
    ;
    let f = |s: SnapModel| snap_code(s, h, w);
    let st = views.to_set();
    views.unique_seq_to_set();
    assert(vstd::relations::injective_on(f, st)) by {
        assert forall|x1: SnapModel, x2: SnapModel|
            st.contains(x1) && st.contains(x2) && #[trigger] f(x1) == #[trigger] f(x2) implies x1
            == x2 by {
            lemma_snap_code_inj(x1, x2, h, w);
        }
    }
    let img = st.map(f);
    vstd::set_lib::lemma_map_size(st, img, f);
    assert(img.subset_of(vstd::set_lib::set_int_range(0, bound))) by {
        assert forall|y: int| #[trigger] img.contains(y) implies 0 <= y < bound by {
            let x = choose|x: SnapModel| st.contains(x) && f(x) == y;
            let ds = grid_digits(x.map, w);
            assert(digits_ok(ds));
            lemma_enc_bound(ds);
            assert(x.player_area.contains(x.player_area[0]));
            lemma_connected_endpoints(x.map, x.player_area.first(), x.player_area[0]);
            let r0 = x.player_area[0].0 as int;
            let c0 = x.player_area[0].1 as int;
            let e0 = r0 * w + c0;
            assert(0 <= e0 < hw) by (nonlinear_arith)
                requires
                    0 <= r0 < h,
                    0 <= c0 < w,
                    e0 == r0 * w + c0,
                    hw == h * w,
            ;
            assert(ds.len() == hw);
            assert(0 <= y < bound) by (nonlinear_arith)
                requires
                    y == enc(ds) * hw + e0,
                    0 <= enc(ds) < pow7(hw as nat),
                    0 <= e0 < hw,
                    hw >= 1,
                    bound == pow7(hw as nat) * hw,
            ;
        }
    }
    vstd::set_lib::lemma_int_range(0, bound);
    vstd::set_lib::lemma_len_subset(img, vstd::set_lib::set_int_range(0, bound));
}

/// Determinism of one search step: a given push from a given snapshot has
/// exactly one successor snapshot — the pushed board is a function of the
/// push, and the canonical room around the landing cell is unique.
pub proof fn lemma_push_successor_unique(
    m: Seq<Seq<Cell>>,
    p: Coordinate,
    d: Dir,
    t1: SnapModel,
    t2: SnapModel,
)
    requires
        is_push(m, p, d, t1.map),
        is_push(m, p, d, t2.map),
        is_area_of(t1.player_area, t1.map, mid_coord(p, d)),
        is_area_of(t2.player_area, t2.map, mid_coord(p, d)),
    ensures
        t1 == t2,
{
    assert(t1.map == t2.map);
    lemma_area_unique(t1.player_area, t2.player_area, t1.map, mid_coord(p, d));
    assert(t1 =~~= t2);
}

/// The mathematical content of a snapshot sequence.
pub open spec fn snap_views(s: Seq<Snapshot>) -> Seq<SnapModel> {
    s.map_values(|x: Snapshot| x@)
}

/// The whole state of the search: the visited set and the current path.
#[verifier::ext_equal]
pub struct SearchState {
    pub searched: Seq<SnapModel>,
    pub path: Seq<SnapModel>,
}

/// Whether the snapshot has been visited already.
pub open spec fn seen(se: Seq<SnapModel>, s: SnapModel) -> bool {
    exists|k: int| 0 <= k < se.len() && se[k] == s
}

/// The position of the first branch at or after `k` that is not yet
/// visited, or the branch count when all of them are.
pub open spec fn first_new(bs: Seq<(SnapModel, Coordinate)>, se: Seq<SnapModel>, k: int) -> int
    decreases bs.len() - k,
    when 0 <= k <= bs.len()
{
    if k >= bs.len() {
        bs.len() as int
    } else if !seen(se, bs[k].0) {
        k
    } else {
        first_new(bs, se, k + 1)
    }
}

/// The branches of the snapshot on top of the path.
pub open spec fn top_branches(st: SearchState) -> Seq<(SnapModel, Coordinate)> {
    branch_list(st.path.last().map, st.path.last().player_area, 0, 0)
}

/// The search halts: the top board is solved, or the path is down to the
/// initial snapshot alone and it is dead or offers nothing unvisited.
pub open spec fn search_done(st: SearchState) -> bool {
    solved(st.path.last().map) || (st.path.len() == 1 && (dead_spec(st.path.last().map)
        || first_new(top_branches(st), st.searched, 0) == top_branches(st).len()))
}

/// One transition of the search: backtrack off a dead or exhausted top,
/// or advance into the first unvisited branch and remember it.
pub open spec fn search_step(st: SearchState) -> SearchState {
    if search_done(st) {
        st
    } else if dead_spec(st.path.last().map) {
        SearchState { searched: st.searched, path: st.path.drop_last() }
    } else {
        let bs = top_branches(st);
        let k = first_new(bs, st.searched, 0);
        if k < bs.len() {
            SearchState { searched: st.searched.push(bs[k].0), path: st.path.push(bs[k].0) }
        } else {
            SearchState { searched: st.searched, path: st.path.drop_last() }
        }
    }
}

/// The search state after `n` transitions.
pub open spec fn search_run(st: SearchState, n: nat) -> SearchState
    decreases n,
{
    if n == 0 {
        st
    } else {
        search_step(search_run(st, (n - 1) as nat))
    }
}

/// The initial snapshot of a board and player position: the player's cell
/// stripped to its substrate, and the canonical room around it.
pub open spec fn init_snap(m: Seq<Seq<Cell>>, c: Coordinate) -> SnapModel {
    SnapModel {
        player_area: the_area(strip_player(m, c), c),
        map: strip_player(m, c),
    }
}

/// The search state the solver starts from.
pub open spec fn init_state(m: Seq<Seq<Cell>>, c: Coordinate) -> SearchState {
    SearchState {
        searched: seq![init_snap(m, c)],
        path: seq![init_snap(m, c)],
    }
}

/// The run reaches its first halting state at step `n`.
pub open spec fn halts_at(st0: SearchState, n: nat) -> bool {
    search_done(search_run(st0, n)) && forall|k: nat|
        k < n ==> !search_done(#[trigger] search_run(st0, k))
}

/// Determinism: a run has at most one first halting state, so any two
/// searches of the same board halt in the same state with the same path.
pub proof fn lemma_search_deterministic(st0: SearchState, n1: nat, n2: nat)
    requires
        halts_at(st0, n1),
        halts_at(st0, n2),
    ensures
        n1 == n2,
        search_run(st0, n1) == search_run(st0, n2),
{
    if n1 < n2 {
        assert(!search_done(search_run(st0, n1)));
    }
    if n2 < n1 {
        assert(!search_done(search_run(st0, n2)));
    }
}

/// A chain of snapshots linked by single pushes.
pub open spec fn snap_chain(chain: Seq<SnapModel>) -> bool {
    forall|k: int| 0 <= k && k + 1 < chain.len() ==> snap_step(#[trigger] chain[k], chain[k + 1])
}

/// Some chain of pushes leads from this snapshot to a solved board.
pub open spec fn solvable_from(s: SnapModel) -> bool {
    exists|chain: Seq<SnapModel>|
        snap_chain(chain) && chain.len() >= 1 && chain[0] == s && solved(chain.last().map)
}

/// A snapshot all of whose branches the search has already visited.
pub open spec fn expanded(se: Seq<SnapModel>, s: SnapModel) -> bool {
    forall|k: int|
        0 <= k < branch_list(s.map, s.player_area, 0, 0).len() ==> seen(
            se,
            (#[trigger] branch_list(s.map, s.player_area, 0, 0)[k]).0,
        )
}

/// `first_new` always lands between its start and the branch count.
proof fn lemma_first_new_bounds(bs: Seq<(SnapModel, Coordinate)>, se: Seq<SnapModel>, k: int)
    requires
        0 <= k <= bs.len(),
    ensures
        k <= first_new(bs, se, k) <= bs.len(),
    decreases bs.len() - k,
{
    if k < bs.len() && seen(se, bs[k].0) {
        lemma_first_new_bounds(bs, se, k + 1);
    }
}

/// When `first_new` runs off the end, every branch has been visited.
proof fn lemma_first_new_all_seen(bs: Seq<(SnapModel, Coordinate)>, se: Seq<SnapModel>, k: int)
    requires
        0 <= k <= bs.len(),
        first_new(bs, se, k) == bs.len(),
    ensures
        forall|j: int| k <= j < bs.len() ==> seen(se, (#[trigger] bs[j]).0),
    decreases bs.len() - k,
{
    if k < bs.len() {
        assert(seen(se, bs[k].0));
        lemma_first_new_all_seen(bs, se, k + 1);
    }
}

/// `dir_of` and `dir_index` are inverse to each other.
proof fn lemma_dir_of_index(d: Dir)
    ensures
        dir_of(dir_index(d)) == d,
        0 <= dir_index(d) < 4,
{
}

/// Every possible push from the room appears in the branch enumeration.
proof fn lemma_branch_list_covers(
    m: Seq<Seq<Cell>>,
    area: Seq<Coordinate>,
    j: int,
    d: Dir,
    j2: int,
    di2: int,
)
    requires
        0 <= j < area.len(),
        pushable(m, area[j], d),
        0 <= j2 <= j,
        0 <= di2 <= 4,
        j2 == j ==> di2 <= dir_index(d),
    ensures
        branch_list(m, area, j2, di2).contains(branch_of(m, area[j], d)),
    decreases j - j2, 4 - di2,
{
    lemma_dir_of_index(d);
    let b = branch_of(m, area[j], d);
    if j2 == j && di2 == dir_index(d) {
        assert(branch_list(m, area, j2, di2)[0] == b);
    } else if di2 == 4 {
        lemma_branch_list_covers(m, area, j, d, j2 + 1, 0);
    } else {
        lemma_branch_list_covers(m, area, j, d, j2, di2 + 1);
        let rest = branch_list(m, area, j2, di2 + 1);
        let head = if pushable(m, area[j2], dir_of(di2)) {
            seq![branch_of(m, area[j2], dir_of(di2))]
        } else {
            Seq::<(SnapModel, Coordinate)>::empty()
        };
        let i = choose|i: int| 0 <= i < rest.len() && rest[i] == b;
        assert(branch_list(m, area, j2, di2) == head + rest);
        assert((head + rest)[head.len() + i] == b);
    }
}

/// The invariant the search keeps: the path starts at the initial
/// snapshot, everything on the path has been visited, and everything
/// visited either still sits on the path or was left behind unsolved —
/// dead, or with every branch visited.
pub open spec fn search_inv(st: SearchState, init: SnapModel) -> bool {
    &&& st.path.len() >= 1
    &&& st.path[0] == init
    &&& forall|k: int| 0 <= k < st.path.len() ==> seen(st.searched, #[trigger] st.path[k])
    &&& forall|k: int|
        0 <= k < st.searched.len() ==> st.path.contains(#[trigger] st.searched[k]) || (!solved(
            st.searched[k].map,
        ) && (dead_spec(st.searched[k].map) || expanded(st.searched, st.searched[k])))
}

/// One step of the search keeps the invariant.
proof fn lemma_search_inv_step(st: SearchState, init: SnapModel)
    requires
        search_inv(st, init),
    ensures
        search_inv(search_step(st), init),
{
    let st2 = search_step(st);
    if search_done(st) {
    } else {
        let top = st.path.last();
        assert(!solved(top.map));
        let bs = top_branches(st);
        let k = first_new(bs, st.searched, 0);
        lemma_first_new_bounds(bs, st.searched, 0);
        if dead_spec(top.map) || k >= bs.len() {
            // Backtrack: the top leaves the path dead or fully expanded.
            assert(st.path.len() >= 2);
            assert(st2.path == st.path.drop_last());
            assert(st2.searched == st.searched);
            assert(st2.path[0] == init);
            assert forall|kk: int| 0 <= kk < st2.path.len() implies seen(
                st2.searched,
                #[trigger] st2.path[kk],
            ) by {
                assert(st2.path[kk] == st.path[kk]);
            }
            if !dead_spec(top.map) {
                lemma_first_new_all_seen(bs, st.searched, 0);
                assert(expanded(st.searched, top));
            }
            assert forall|kk: int|
                0 <= kk < st2.searched.len() implies st2.path.contains(
                #[trigger] st2.searched[kk],
            ) || (!solved(st2.searched[kk].map) && (dead_spec(st2.searched[kk].map) || expanded(
                st2.searched,
                st2.searched[kk],
            ))) by {
                let s = st.searched[kk];
                if st.path.contains(s) {
                    let i = choose|i: int| 0 <= i < st.path.len() && st.path[i] == s;
                    if i < st.path.len() - 1 {
                        assert(st2.path[i] == s);
                    } else {
                        assert(s == top);
                    }
                }
            }
        } else {
            // Advance: the first unvisited branch joins path and visited.
            let b = bs[k].0;
            assert(st2.path == st.path.push(b));
            assert(st2.searched == st.searched.push(b));
            assert(st2.path[0] == init);
            assert forall|kk: int| 0 <= kk < st2.path.len() implies seen(
                st2.searched,
                #[trigger] st2.path[kk],
            ) by {
                if kk < st.path.len() {
                    assert(st2.path[kk] == st.path[kk]);
                    let i = choose|i: int|
                        0 <= i < st.searched.len() && st.searched[i] == st.path[kk];
                    assert(st2.searched[i] == st.path[kk]);
                } else {
                    assert(st2.path[kk] == b);
                    assert(st2.searched[st.searched.len() as int] == b);
                }
            }
            assert forall|kk: int|
                0 <= kk < st2.searched.len() implies st2.path.contains(
                #[trigger] st2.searched[kk],
            ) || (!solved(st2.searched[kk].map) && (dead_spec(st2.searched[kk].map) || expanded(
                st2.searched,
                st2.searched[kk],
            ))) by {
                if kk < st.searched.len() {
                    let s = st.searched[kk];
                    if st.path.contains(s) {
                        let i = choose|i: int| 0 <= i < st.path.len() && st.path[i] == s;
                        assert(st2.path[i] == s);
                    } else {
                        assert(!solved(s.map));
                        if !dead_spec(s.map) {
                            assert(expanded(st.searched, s));
                            assert forall|l: int|
                                0 <= l < branch_list(s.map, s.player_area, 0, 0).len()
                                implies seen(
                                st2.searched,
                                (#[trigger] branch_list(s.map, s.player_area, 0, 0)[l]).0,
                            ) by {
                                let x = branch_list(s.map, s.player_area, 0, 0)[l].0;
                                assert(seen(st.searched, x));
                                let i = choose|i: int|
                                    0 <= i < st.searched.len() && st.searched[i] == x;
                                assert(st2.searched[i] == x);
                            }
                        }
                    }
                } else {
                    assert(st2.searched[kk] == b);
                    assert(st2.path[st.path.len() as int] == b);
                }
            }
        }
    }
}

/// The invariant holds along the whole run.
proof fn lemma_search_inv_run(init: SnapModel, n: nat)
    ensures
        search_inv(
            search_run(SearchState { searched: seq![init], path: seq![init] }, n),
            init,
        ),
    decreases n,
{
    let st0 = SearchState { searched: seq![init], path: seq![init] };
    if n == 0 {
        assert(st0.path[0] == init);
        assert(seen(st0.searched, init)) by {
            assert(st0.searched[0] == init);
        }
        assert(st0.path.contains(st0.searched[0])) by {
            assert(st0.path[0] == st0.searched[0]);
        }
    } else {
        lemma_search_inv_run(init, (n - 1) as nat);
        lemma_search_inv_step(search_run(st0, (n - 1) as nat), init);
    }
}

/// Grid shape, border and size bounds survive along a push chain.
proof fn lemma_chain_frame(chain: Seq<SnapModel>, i: int)
    requires
        snap_chain(chain),
        chain.len() >= 1,
        grid_rect(chain[0].map),
        grid_bordered(chain[0].map),
        grid_bounded(chain[0].map),
        0 <= i < chain.len(),
    ensures
        grid_rect(chain[i].map),
        grid_bordered(chain[i].map),
        grid_bounded(chain[i].map),
    decreases i,
{
    if i > 0 {
        lemma_chain_frame(chain, i - 1);
        assert(snap_step(chain[i - 1], chain[i]));
        let (p, d) = choose|p: Coordinate, d: Dir|
            chain[i - 1].player_area.contains(p) && #[trigger] is_push(
                chain[i - 1].map,
                p,
                d,
                chain[i].map,
            ) && is_area_of(chain[i].player_area, chain[i].map, mid_coord(p, d));
        lemma_push_preserves_wf(chain[i - 1].map, p, d, chain[i].map);
    }
}

/// A dead board anywhere on a push chain keeps the chain's end unsolved.
#[verifier::rlimit(100)]
#[verifier::spinoff_prover]
proof fn lemma_chain_dead_unsolved(chain: Seq<SnapModel>, i: int)
    requires
        snap_chain(chain),
        chain.len() >= 1,
        grid_rect(chain[0].map),
        grid_bordered(chain[0].map),
        grid_bounded(chain[0].map),
        0 <= i < chain.len(),
        dead_spec(chain[i].map),
    ensures
        !solved(chain.last().map),
{
    lemma_chain_frame(chain, i);
    let boards = Seq::new((chain.len() - i) as nat, |k: int| chain[i + k].map);
    assert(push_chain(boards)) by {
        assert forall|k: int| 0 <= k && k + 1 < boards.len() implies board_step(
            #[trigger] boards[k],
            boards[k + 1],
        ) by {
            assert(snap_step(chain[i + k], chain[i + k + 1]));
            let (p, d) = choose|p: Coordinate, d: Dir|
                chain[i + k].player_area.contains(p) && #[trigger] is_push(
                    chain[i + k].map,
                    p,
                    d,
                    chain[i + k + 1].map,
                ) && is_area_of(
                    chain[i + k + 1].player_area,
                    chain[i + k + 1].map,
                    mid_coord(p, d),
                );
            assert(is_push(boards[k], p, d, boards[k + 1]));
        }
    }
    lemma_deadlock_monotone(boards);
    assert(boards[boards.len() - 1] == chain.last().map);
}

/// Out of a visited snapshot whose whole component of the search is
/// closed, every element of a dead-free push chain is visited too.
proof fn lemma_chain_seen(se: Seq<SnapModel>, chain: Seq<SnapModel>, i: int)
    requires
        snap_chain(chain),
        chain.len() >= 1,
        seen(se, chain[0]),
        forall|j: int| 0 <= j < chain.len() ==> !dead_spec((#[trigger] chain[j]).map),
        forall|x: SnapModel|
            #[trigger] seen(se, x) ==> !solved(x.map) && (dead_spec(x.map) || expanded(se, x)),
        0 <= i < chain.len(),
    ensures
        seen(se, chain[i]),
    decreases i,
{
    if i > 0 {
        lemma_chain_seen(se, chain, i - 1);
        let s1 = chain[i - 1];
        let s2 = chain[i];
        assert(!dead_spec(s1.map));
        assert(expanded(se, s1));
        assert(snap_step(s1, s2));
        let (p, d) = choose|p: Coordinate, d: Dir|
            s1.player_area.contains(p) && #[trigger] is_push(s1.map, p, d, s2.map) && is_area_of(
                s2.player_area,
                s2.map,
                mid_coord(p, d),
            );
        assert(pushable(s1.map, p, d));
        let j = choose|j: int| 0 <= j < s1.player_area.len() && s1.player_area[j] == p;
        lemma_branch_list_covers(s1.map, s1.player_area, j, d, 0, 0);
        let bl = branch_list(s1.map, s1.player_area, 0, 0);
        let idx = choose|idx: int| 0 <= idx < bl.len() && bl[idx] == branch_of(s1.map, p, d);
        let x = mid_coord(p, d);
        let m2 = update_spec(s1.map, (p, x, far_coord(p, d)));
        assert(s2.map == m2);
        assert(is_area_of(the_area(m2, x), m2, x)) by {
            assert(exists|a: Seq<Coordinate>| is_area_of(a, m2, x));
        }
        lemma_area_unique(s2.player_area, the_area(m2, x), m2, x);
        assert(s2 =~~= branch_of(s1.map, p, d).0);
        assert(seen(se, bl[idx].0));
    }
}

/// Completeness of the search: when the run halts without a solved board,
/// no chain of pushes from the initial snapshot reaches one — together
/// with the halting contract of `solve`, an empty result means the level
/// has no solution.
pub proof fn lemma_search_complete(init: SnapModel, n: nat)
    requires
        snap_wf(init),
        halts_at(SearchState { searched: seq![init], path: seq![init] }, n),
        !solved(
            search_run(SearchState { searched: seq![init], path: seq![init] }, n).path.last().map,
        ),
    ensures
        !solvable_from(init),
{
    let st0 = SearchState { searched: seq![init], path: seq![init] };
    let fin = search_run(st0, n);
    lemma_search_inv_run(init, n);
    assert(search_done(fin));
    assert(fin.path.len() == 1);
    assert(fin.path.last() == fin.path[0]);
    assert(fin.path.last() == init);
    let se = fin.searched;
    assert forall|x: SnapModel| #[trigger] seen(se, x) implies !solved(x.map) && (dead_spec(x.map)
        || expanded(se, x)) by {
        let kk = choose|kk: int| 0 <= kk < se.len() && se[kk] == x;
        if fin.path.contains(x) {
            assert(x == init);
            if !dead_spec(init.map) {
                lemma_first_new_all_seen(top_branches(fin), se, 0);
                assert(top_branches(fin) == branch_list(init.map, init.player_area, 0, 0));
                assert(expanded(se, init));
            }
        }
    }
    if solvable_from(init) {
        let chain = choose|chain: Seq<SnapModel>|
            snap_chain(chain) && chain.len() >= 1 && chain[0] == init && solved(chain.last().map);
        assert forall|j: int| 0 <= j < chain.len() implies !dead_spec(
            (#[trigger] chain[j]).map,
        ) by {
            if dead_spec(chain[j].map) {
                lemma_chain_dead_unsolved(chain, j);
            }
        }
        assert(seen(se, chain[0])) by {
            assert(fin.path[0] == init);
        }
        lemma_chain_seen(se, chain, chain.len() - 1);
        assert(seen(se, chain.last()));
        assert(!solved(chain.last().map));
        assert(false);
    }
}

/// Determinism of the solver: any two snapshot paths that satisfy
/// `solve`'s postcondition for the same board and player position are the
/// same path, snapshot for snapshot.
pub proof fn lemma_solve_deterministic(
    m: Seq<Seq<Cell>>,
    c: Coordinate,
    p1: Seq<SnapModel>,
    p2: Seq<SnapModel>,
    n1: nat,
    n2: nat,
)
    requires
        halts_at(init_state(m, c), n1),
        p1 == search_run(init_state(m, c), n1).path,
        halts_at(init_state(m, c), n2),
        p2 == search_run(init_state(m, c), n2).path,
    ensures
        p1 == p2,
{
    lemma_search_deterministic(init_state(m, c), n1, n2);
}

proof fn lemma_snap_views_push(s: Seq<Snapshot>, x: Snapshot)
    ensures
        snap_views(s.push(x)) =~= snap_views(s).push(x@),
{
}

proof fn lemma_snap_views_drop_last(s: Seq<Snapshot>)
    requires
        s.len() >= 1,
    ensures
        snap_views(s.drop_last()) =~= snap_views(s).drop_last(),
{
}

/// Skipping a visited prefix does not change the first unvisited branch.
proof fn lemma_first_new_from(bs: Seq<(SnapModel, Coordinate)>, se: Seq<SnapModel>, k: int)
    requires
        0 <= k <= bs.len(),
        forall|j: int| 0 <= j < k ==> seen(se, (#[trigger] bs[j]).0),
    ensures
        first_new(bs, se, 0) == first_new(bs, se, k),
    decreases k,
{
    if k > 0 {
        lemma_first_new_from(bs, se, k - 1);
        assert(seen(se, bs[k - 1].0));
        assert(first_new(bs, se, k - 1) == first_new(bs, se, k));
    }
}

/// One search transition: some push from somewhere in the first
/// snapshot's room leads to the second snapshot, whose room is the
/// canonical area around the player's landing cell.
pub open spec fn snap_step(s1: SnapModel, s2: SnapModel) -> bool {
    exists|p: Coordinate, d: Dir|
        s1.player_area.contains(p) && #[trigger] is_push(s1.map, p, d, s2.map) && is_area_of(
            s2.player_area,
            s2.map,
            mid_coord(p, d),
        )
}

/// The board with the player's own cell stripped to its substrate.
pub open spec fn strip_player(m: Seq<Seq<Cell>>, c: Coordinate) -> Seq<Seq<Cell>> {
    crate::engine::grid_set(m, c, cell_at(m, c).spec_substrate())
}

/// Stripping the player keeps the board well shaped and leaves a
/// walkable cell behind.
proof fn lemma_strip_wf(m: Seq<Seq<Cell>>, c: Coordinate)
    requires
        grid_rect(m),
        grid_bordered(m),
        grid_bounded(m),
        in_grid(m, c),
        cell_at(m, c).spec_unit() == Cell::Player,
    ensures
        grid_rect(strip_player(m, c)),
        grid_bordered(strip_player(m, c)),
        grid_bounded(strip_player(m, c)),
        strip_player(m, c).len() == m.len(),
        forall|i: int| 0 <= i < m.len() ==> (#[trigger] strip_player(m, c)[i]).len() == m[i].len(),
        in_grid(strip_player(m, c), c),
        cell_at(strip_player(m, c), c).spec_reachable(),
{
    let s = strip_player(m, c);
    lemma_nonwall_interior(m, c);
    assert forall|i: int| 0 <= i < m.len() implies (#[trigger] s[i]).len() == m[i].len() by {}
    assert(grid_bordered(s)) by {
        assert forall|cc: Coordinate|
            in_grid(s, cc) && crate::engine::on_border(s, cc) implies #[trigger] cell_at(s, cc)
            == Cell::Wall by {
            assert(in_grid(m, cc) && crate::engine::on_border(m, cc));
            assert(cc != c);
            assert(cell_at(s, cc) == cell_at(m, cc));
        }
    }
}

/// A fresh copy of a coordinate list.
fn clone_coords(v: &Vec<Coordinate>) -> (v2: Vec<Coordinate>)
    ensures
        v2@ == v@,
{
    let mut v2: Vec<Coordinate> = Vec::new();
    let mut k: usize = 0;
    while k < v.len()
        invariant
            k <= v@.len(),
            v2@.len() == k,
            forall|j: int| 0 <= j < k ==> v2@[j] == v@[j],
        decreases v@.len() - k,
    {
        v2.push(v[k]);
        k = k + 1;
    }
    proof {
        assert(v2@ =~= v@);
    }
    v2
}

/// A fresh copy of a snapshot.
fn clone_snapshot(s: &Snapshot) -> (s2: Snapshot)
    ensures
        s2@ == s@,
{
    let s2 = Snapshot { player_area: clone_coords(&s.player_area), map: clone_grid(&s.map) };
    proof {
        assert(s2@ =~~= s@);
    }
    s2
}

/// Structural equality of two snapshots.
fn snapshot_eq(a: &Snapshot, b: &Snapshot) -> (r: bool)
    ensures
        r == (a@ == b@),
{
    proof {
        lemma_grid_view(&a.map);
        lemma_grid_view(&b.map);
    }
    if a.player_area.len() != b.player_area.len() {
        return false;
    }
    let mut k: usize = 0;
    while k < a.player_area.len()
        invariant
            k <= a.player_area@.len(),
            a.player_area@.len() == b.player_area@.len(),
            forall|j: int| 0 <= j < k ==> a.player_area@[j] == b.player_area@[j],
        decreases a.player_area@.len() - k,
    {
        let x = a.player_area[k];
        let y = b.player_area[k];
        if x.0 != y.0 || x.1 != y.1 {
            proof {
                assert(a@.player_area[k as int] != b@.player_area[k as int]);
            }
            return false;
        }
        k = k + 1;
    }
    proof {
        assert(a@.player_area =~= b@.player_area);
    }
    if a.map.len() != b.map.len() {
        proof {
            assert(a@.map.len() != b@.map.len());
        }
        return false;
    }
    let mut i: usize = 0;
    while i < a.map.len()
        invariant
            i <= a.map@.len(),
            a.map@.len() == b.map@.len(),
            a@.player_area == b@.player_area,
            forall|ii: int| 0 <= ii < i ==> #[trigger] a.map.deep_view()[ii] =~= b.map.deep_view()[ii],
        decreases a.map@.len() - i,
    {
        proof {
            lemma_grid_view(&a.map);
            lemma_grid_view(&b.map);
        }
        if a.map[i].len() != b.map[i].len() {
            proof {
                assert(a@.map[i as int].len() != b@.map[i as int].len());
            }
            return false;
        }
        let mut j: usize = 0;
        while j < a.map[i].len()
            invariant
                i < a.map@.len(),
                a.map@.len() == b.map@.len(),
                j <= a.map@[i as int]@.len(),
                a.map@[i as int]@.len() == b.map@[i as int]@.len(),
                forall|jj: int|
                    0 <= jj < j ==> a.map@[i as int]@[jj] == b.map@[i as int]@[jj],
            decreases a.map@[i as int]@.len() - j,
        {
            if a.map[i][j] != b.map[i][j] {
                proof {
                    lemma_grid_view(&a.map);
                    lemma_grid_view(&b.map);
                    assert(a@.map[i as int][j as int] != b@.map[i as int][j as int]);
                }
                return false;
            }
            j = j + 1;
        }
        i = i + 1;
        proof {
            lemma_grid_view(&a.map);
            lemma_grid_view(&b.map);
            assert(a.map.deep_view()[i - 1] =~= b.map.deep_view()[i - 1]);
        }
    }
    proof {
        assert(a@.map =~~= b@.map);
        assert(a@ =~~= b@);
    }
    true
}

/// Whether the visited set already holds this snapshot.
fn searched_contains(searched: &Vec<Snapshot>, s: &Snapshot) -> (r: bool)
    ensures
        r == exists|k: int| 0 <= k < searched@.len() && #[trigger] searched@[k]@ == s@,
{
    let mut k: usize = 0;
    while k < searched.len()
        invariant
            k <= searched@.len(),
            forall|j: int| 0 <= j < k ==> #[trigger] searched@[j]@ != s@,
        decreases searched@.len() - k,
    {
        if snapshot_eq(&searched[k], s) {
            return true;
        }
        k = k + 1;
    }
    false
}

/// Whether a board is cleared: no bare box anywhere.
fn is_pass(map: &Grid) -> (b: bool)
    ensures
        b == solved(map.deep_view()),
{
    let ghost m = map.deep_view();
    proof {
        lemma_grid_view(map);
    }
    let mut r: usize = 0;
    while r < map.len()
        invariant
            r <= m.len(),
            m == map.deep_view(),
            forall|q: Coordinate|
                q.0 < r && in_grid(m, q) ==> #[trigger] cell_at(m, q) != Cell::Case,
        decreases m.len() - r,
    {
        proof {
            lemma_grid_view(map);
        }
        let mut c: usize = 0;
        while c < map[r].len()
            invariant
                r < m.len(),
                c <= m[r as int].len(),
                m == map.deep_view(),
                forall|q: Coordinate|
                    q.0 < r && in_grid(m, q) ==> #[trigger] cell_at(m, q) != Cell::Case,
                forall|q: Coordinate|
                    q.0 == r && q.1 < c && in_grid(m, q) ==> #[trigger] cell_at(m, q)
                        != Cell::Case,
            decreases m[r as int].len() - c,
        {
            proof {
                lemma_grid_view(map);
                let ghost here: Coordinate = (r, c);
                assert(cell_at(m, here) == map@[r as int]@[c as int]);
            }
            if map[r][c] == Cell::Case {
                proof {
                    assert(cell_at(m, (r, c)) == Cell::Case);
                }
                return false;
            }
            c = c + 1;
        }
        r = r + 1;
    }
    true
}

/// A path of snapshots that ends solved witnesses solvability of its
/// first snapshot.
proof fn lemma_solved_exit(path: Seq<Snapshot>, init: SnapModel)
    requires
        path.len() >= 1,
        path[0]@ == init,
        forall|k: int| 0 <= k && k + 1 < path.len() ==> snap_step(#[trigger] path[k]@, path[k + 1]@),
        solved(path.last()@.map),
    ensures
        solvable_from(init),
{
    let ch = snap_views(path);
    assert(snap_chain(ch)) by {
        assert forall|k: int| 0 <= k && k + 1 < ch.len() implies snap_step(
            #[trigger] ch[k],
            ch[k + 1],
        ) by {
            assert(ch[k] == path[k]@ && ch[k + 1] == path[k + 1]@);
        }
    }
    assert(ch.len() >= 1 && ch[0] == init);
    assert(ch.last() == path.last()@);
    assert(solvable_from(init));
}

/// A halted, unsolved run refutes solvability of the initial snapshot.
proof fn lemma_exhausted_exit(st0: SearchState, init: SnapModel, n: nat)
    requires
        snap_wf(init),
        st0 == (SearchState { searched: seq![init], path: seq![init] }),
        halts_at(st0, n),
        !solved(search_run(st0, n).path.last().map),
    ensures
        !solvable_from(init),
{
    lemma_search_complete(init, n);
}

/// The exhaustive solver.  From the canonical snapshot of the given board
/// and player position it searches depth first over pushes, pruning
/// states already seen and states the deadlock detector rejects.  A
/// non-empty result is the ordered path from the initial snapshot to a
/// solved one, inclusive, linked step by step by legal pushes; an empty
/// result means the level has no solution at all
/// (`lemma_search_complete`).  Either way the result is pinned to the
/// first halting state of the deterministic `search_run` iteration, so
/// repeated calls agree snapshot for snapshot.
#[verifier::rlimit(100)]
#[verifier::spinoff_prover]
pub fn solve(map: &Grid, coordinate: &Coordinate) -> (path: Vec<Snapshot>)
    requires
        grid_rect(map.deep_view()),
        grid_bordered(map.deep_view()),
        grid_bounded(map.deep_view()),
        in_grid(map.deep_view(), *coordinate),
        cell_at(map.deep_view(), *coordinate).spec_unit() == Cell::Player,
    ensures
        path@.len() > 0 ==> path@[0]@.map == strip_player(map.deep_view(), *coordinate),
        path@.len() > 0 ==> is_area_of(path@[0]@.player_area, path@[0]@.map, *coordinate),
        forall|k: int| 0 <= k < path@.len() ==> snap_wf(#[trigger] path@[k]@),
        forall|k: int|
            0 <= k && k + 1 < path@.len() ==> snap_step(#[trigger] path@[k]@, path@[k + 1]@),
        path@.len() > 0 ==> solved(path@.last()@.map),
        path@.len() > 0 ==> solvable_from(init_snap(map.deep_view(), *coordinate)),
        path@.len() == 0 ==> !solvable_from(init_snap(map.deep_view(), *coordinate)),
        exists|n: nat|
            #[trigger] halts_at(init_state(map.deep_view(), *coordinate), n) && (solved(
                search_run(init_state(map.deep_view(), *coordinate), n).path.last().map,
            ) ==> snap_views(path@) == search_run(
                init_state(map.deep_view(), *coordinate),
                n,
            ).path) && (!solved(
                search_run(init_state(map.deep_view(), *coordinate), n).path.last().map,
            ) ==> path@.len() == 0),
{
    let ghost dv = map.deep_view();
    let ghost m0 = strip_player(dv, *coordinate);
    proof {
        lemma_grid_view(map);
        lemma_strip_wf(dv, *coordinate);
    }
    let pcell = map[coordinate.0][coordinate.1];
    let toggle = if pcell == Cell::Player {
        Cell::Ground
    } else {
        Cell::Target
    };
    let mut init_map = clone_grid(map);
    proof {
        lemma_grid_view(&init_map);
    }
    init_map[coordinate.0][coordinate.1] = toggle;
    proof {
        assert(toggle == cell_at(dv, *coordinate).spec_substrate());
        assert(init_map.deep_view() =~~= m0);
    }
    let init_area = explore_player_area(&init_map, coordinate);
    proof {
        assert(init_area@.contains(*coordinate)) by {
            lemma_connected_refl(m0, *coordinate);
        }
        assert(init_area@.len() >= 1);
        assert(init_area@.contains(init_area@.first())) by {
            assert(init_area@[0] == init_area@.first());
        }
        lemma_area_reseed(init_area@, m0, *coordinate, init_area@.first());
    }
    let snapshot = Snapshot { player_area: init_area, map: init_map };
    let ghost init_model = snapshot@;
    let ghost h = m0.len() as int;
    let ghost w = m0[0].len() as int;
    let ghost st0 = init_state(dv, *coordinate);
    proof {
        assert(h >= 1 && w >= 1);
        assert(snap_wf(init_model));
        assert(snap_dims(init_model, h, w)) by {
            assert(forall|i: int| 0 <= i < h ==> (#[trigger] m0[i]).len() == m0[0].len());
        }
        assert(is_area_of(the_area(m0, *coordinate), m0, *coordinate)) by {
            assert(exists|a: Seq<Coordinate>| is_area_of(a, m0, *coordinate));
        }
        lemma_area_unique(init_area@, the_area(m0, *coordinate), m0, *coordinate);
        assert(init_model =~~= init_snap(dv, *coordinate));
    }
    let first = clone_snapshot(&snapshot);
    let mut searched: Vec<Snapshot> = Vec::new();
    let mut path: Vec<Snapshot> = Vec::new();
    searched.push(first);
    path.push(snapshot);
    let ghost mut steps: nat = 0;
    proof {
        assert(snap_views(searched@) =~= seq![init_model]);
        assert(snap_views(path@) =~= seq![init_model]);
        assert((SearchState { searched: snap_views(searched@), path: snap_views(path@) })
            =~~= st0);
        assert(search_run(st0, 0) == st0);
    }
    loop
        invariant
            h >= 1,
            w >= 1,
            dv == map.deep_view(),
            m0 == strip_player(dv, *coordinate),
            st0 == init_state(dv, *coordinate),
            init_model == init_snap(dv, *coordinate),
            path@.len() >= 1,
            path@[0]@ == init_model,
            init_model.map == m0,
            is_area_of(init_model.player_area, m0, *coordinate),
            forall|k: int|
                0 <= k < path@.len() ==> snap_wf(#[trigger] path@[k]@) && snap_dims(
                    path@[k]@,
                    h,
                    w,
                ),
            forall|k: int|
                0 <= k && k + 1 < path@.len() ==> snap_step(#[trigger] path@[k]@, path@[k + 1]@),
            forall|k: int|
                0 <= k < searched@.len() ==> snap_wf(#[trigger] searched@[k]@) && snap_dims(
                    searched@[k]@,
                    h,
                    w,
                ),
            forall|k1: int, k2: int|
                0 <= k1 < k2 < searched@.len() ==> #[trigger] searched@[k1]@
                    != #[trigger] searched@[k2]@,
            (SearchState { searched: snap_views(searched@), path: snap_views(path@) })
                == search_run(st0, steps),
            forall|k: nat| k < steps ==> !search_done(#[trigger] search_run(st0, k)),
        decreases pow7((h * w) as nat) * (h * w) - searched@.len(), path@.len(),
    {
        proof {
            let ghost views = searched@.map_values(|s: Snapshot| s@);
            assert(views.no_duplicates()) by {
                assert(forall|k: int| 0 <= k < views.len() ==> views[k] == searched@[k]@);
            }
            assert(forall|k: int|
                0 <= k < views.len() ==> snap_wf(#[trigger] views[k]) && snap_dims(
                    views[k],
                    h,
                    w,
                ));
            lemma_searched_bound(views, h, w);
            assert(searched@.len() <= pow7((h * w) as nat) * (h * w));
        }
        let ti = path.len() - 1;
        let ghost top = path@[ti as int]@;
        let ghost curr = SearchState { searched: snap_views(searched@), path: snap_views(path@) };
        proof {
            assert((&path@[ti as int])@ == top);
            assert(curr == search_run(st0, steps));
            assert(curr.path[ti as int] == top);
            assert(curr.path.last() == top);
        }
        if is_pass(&path[ti].map) {
            proof {
                assert(path[ti as int]@.map == path[ti as int].map.deep_view());
                assert(solved(path@.last()@.map));
                assert(solved(top.map));
                assert(search_done(curr));
                assert(halts_at(st0, steps));
                assert(snap_views(path@) == search_run(st0, steps).path);
                lemma_solved_exit(path@, init_model);
            }
            return path;
        }
        proof {
            assert(path[ti as int]@.map == path[ti as int].map.deep_view());
            assert(!solved(top.map));
        }
        let top_dead = is_dead(&path[ti].map);
        proof {
            assert(top_dead == dead_spec(top.map));
        }
        let mut advanced = false;
        if !top_dead {
            proof {
                assert forall|k: int|
                    0 <= k < top.player_area.len() implies in_grid(
                    top.map,
                    #[trigger] top.player_area[k],
                ) && cell_at(top.map, top.player_area[k]).spec_reachable() by {
                    assert(top.player_area.contains(top.player_area[k]));
                    assert(connected(top.map, top.player_area.first(), top.player_area[k]));
                    lemma_connected_endpoints(
                        top.map,
                        top.player_area.first(),
                        top.player_area[k],
                    );
                }
            }
            let mut branches = get_branches(&path[ti].map, path[ti].area());
            let ghost bs = branch_views(branches@);
            proof {
                assert(bs == branch_list(top.map, top.player_area, 0, 0));
                assert(bs == top_branches(curr));
            }
            let mut bi: usize = 0;
            let mut found: usize = branches.len();
            while bi < branches.len()
                invariant_except_break
                    bi <= branches@.len(),
                    found == branches@.len(),
                    bs == branch_views(branches@),
                    forall|j: int|
                        0 <= j < bi ==> seen(snap_views(searched@), (#[trigger] bs[j]).0),
                ensures
                    found <= branches@.len(),
                    bs == branch_views(branches@),
                    forall|j: int|
                        0 <= j < found ==> seen(snap_views(searched@), (#[trigger] bs[j]).0),
                    found < branches@.len() ==> !seen(snap_views(searched@), bs[found as int].0),
                    found < branches@.len() ==> !(exists|k: int|
                        0 <= k < searched@.len()
                            && #[trigger] searched@[k]@ == branches@[found as int].0@),
                decreases branches@.len() - bi,
            {
                let is_old = searched_contains(&searched, &branches[bi].0);
                proof {
                    lemma_seen_views(searched@, branches@[bi as int].0@);
                    assert(bs[bi as int].0 == branches@[bi as int].0@);
                }
                if !is_old {
                    found = bi;
                    break ;
                }
                bi = bi + 1;
            }
            proof {
                lemma_first_new_from(bs, snap_views(searched@), found as int);
                if found < branches.len() {
                    assert(first_new(bs, snap_views(searched@), found as int) == found);
                } else {
                    assert(first_new(bs, snap_views(searched@), found as int) == bs.len());
                }
                assert(first_new(bs, snap_views(searched@), 0) == found);
            }
            if found < branches.len() {
                let (snap, _landing) = branches.remove(found);
                let ghost bmodel = snap@;
                proof {
                    assert(bmodel == bs[found as int].0);
                    assert(branch_ok(top.map, top.player_area, (bmodel, _landing)));
                    assert(snap_step(top, bmodel)) by {
                        let (p, d) = choose|p: Coordinate, d: Dir|
                            top.player_area.contains(p) && #[trigger] is_push(
                                top.map,
                                p,
                                d,
                                bmodel.map,
                            ) && _landing == mid_coord(p, d) && is_area_of(
                                bmodel.player_area,
                                bmodel.map,
                                _landing,
                            ) && snap_wf(bmodel);
                        assert(is_push(top.map, p, d, bmodel.map));
                    }
                    assert(snap_dims(bmodel, h, w)) by {
                        let (p, d) = choose|p: Coordinate, d: Dir|
                            top.player_area.contains(p) && #[trigger] is_push(
                                top.map,
                                p,
                                d,
                                bmodel.map,
                            );
                        assert(bmodel.map == update_spec(
                            top.map,
                            (p, mid_coord(p, d), far_coord(p, d)),
                        ));
                        assert(forall|i: int|
                            0 <= i < h ==> (#[trigger] bmodel.map[i]).len() == top.map[i].len());
                    }
                }
                let snap2 = clone_snapshot(&snap);
                let ghost pre_searched = searched@;
                let ghost pre_path = path@;
                searched.push(snap2);
                path.push(snap);
                advanced = true;
                proof {
                    assert(forall|k: int|
                        0 <= k < pre_searched.len() ==> searched@[k] == pre_searched[k]);
                    assert(searched@[pre_searched.len() as int]@ == bmodel);
                    assert(forall|k: int| 0 <= k < pre_path.len() ==> path@[k] == pre_path[k]);
                    assert(path@[pre_path.len() as int]@ == bmodel);
                    assert(path@[pre_path.len() - 1]@ == top);
                    let ghost views2 = searched@.map_values(|s: Snapshot| s@);
                    assert(views2.no_duplicates()) by {
                        assert(forall|k: int|
                            0 <= k < views2.len() ==> views2[k] == searched@[k]@);
                    }
                    assert(forall|k: int|
                        0 <= k < views2.len() ==> snap_wf(#[trigger] views2[k]) && snap_dims(
                            views2[k],
                            h,
                            w,
                        ));
                    lemma_searched_bound(views2, h, w);
                    // The exec transition matches one search step.
                    assert(!search_done(curr));
                    assert(search_step(curr) == (SearchState {
                        searched: curr.searched.push(bmodel),
                        path: curr.path.push(bmodel),
                    }));
                    lemma_snap_views_push(pre_searched, snap2);
                    lemma_snap_views_push(pre_path, snap);
                    assert(snap_views(searched@) =~= curr.searched.push(bmodel)) by {
                        assert(searched@ =~= pre_searched.push(snap2));
                    }
                    assert(snap_views(path@) =~= curr.path.push(bmodel)) by {
                        assert(path@ =~= pre_path.push(snap));
                    }
                    steps = steps + 1;
                    assert(search_run(st0, steps) == search_step(curr));
                    assert((SearchState {
                        searched: snap_views(searched@),
                        path: snap_views(path@),
                    }) =~~= search_run(st0, steps));
                    assert forall|k: nat| k < steps implies !search_done(
                        #[trigger] search_run(st0, k),
                    ) by {
                        if k == steps - 1 {
                            assert(search_run(st0, k) == curr);
                        }
                    }
                }
            } else {
                proof {
                    assert(first_new(top_branches(curr), curr.searched, 0) == top_branches(
                        curr,
                    ).len());
                }
            }
        }
        if !advanced {
            proof {
                assert(dead_spec(top.map) || first_new(top_branches(curr), curr.searched, 0)
                    == top_branches(curr).len());
            }
            if path.len() == 1 {
                proof {
                    assert(curr.path.len() == 1);
                    assert(search_done(curr));
                    assert(halts_at(st0, steps));
                    assert(!solved(search_run(st0, steps).path.last().map));
                    assert(snap_wf(init_model));
                    lemma_exhausted_exit(st0, init_model, steps);
                }
                // Exhausted: no unvisited branch is left anywhere.  The
                // level format's solver entry reports this as an empty
                // path, distinct from the one-snapshot path of a board
                // that is already solved.
                return Vec::new();
            }
            let ghost pre_path = path@;
            path.pop();
            proof {
                assert(forall|k: int| 0 <= k < path@.len() ==> path@[k] == pre_path[k]);
                assert(!search_done(curr));
                assert(search_step(curr) == (SearchState {
                    searched: curr.searched,
                    path: curr.path.drop_last(),
                }));
                lemma_snap_views_drop_last(pre_path);
                assert(snap_views(path@) =~= curr.path.drop_last()) by {
                    assert(path@ =~= pre_path.drop_last());
                }
                steps = steps + 1;
                assert(search_run(st0, steps) == search_step(curr));
                assert((SearchState {
                    searched: snap_views(searched@),
                    path: snap_views(path@),
                }) =~~= search_run(st0, steps));
                assert forall|k: nat| k < steps implies !search_done(
                    #[trigger] search_run(st0, k),
                ) by {
                    if k == steps - 1 {
                        assert(search_run(st0, k) == curr);
                    }
                }
            }
        }
    }
}

/// Bridge between `seen` over snapshot views and membership by view.
proof fn lemma_seen_views(s: Seq<Snapshot>, x: SnapModel)
    ensures
        seen(snap_views(s), x) <==> exists|k: int| 0 <= k < s.len() && (#[trigger] s[k])@ == x,
{
    if seen(snap_views(s), x) {
        let k = choose|k: int| 0 <= k < snap_views(s).len() && snap_views(s)[k] == x;
        assert(s[k]@ == x);
    }
    if exists|k: int| 0 <= k < s.len() && (#[trigger] s[k])@ == x {
        let k = choose|k: int| 0 <= k < s.len() && (#[trigger] s[k])@ == x;
        assert(snap_views(s)[k] == x);
    }
}

/// The wedge survives every prefix of a push chain.
proof fn lemma_wedged_prefix(
    boards: Seq<Seq<Seq<Cell>>>,
    c: Coordinate,
    dv: int,
    dh: int,
    k: int,
)
    requires
        dv == 1 || dv == -1,
        dh == 1 || dh == -1,
        boards.len() >= 1,
        grid_rect(boards[0]),
        grid_bordered(boards[0]),
        grid_bounded(boards[0]),
        wedged(boards[0], c, dv, dh),
        push_chain(boards),
        0 <= k < boards.len(),
    ensures
        grid_rect(boards[k]),
        grid_bordered(boards[k]),
        grid_bounded(boards[k]),
        wedged(boards[k], c, dv, dh),
    decreases k,
{
    if k > 0 {
        lemma_wedged_prefix(boards, c, dv, dh, k - 1);
        lemma_wedged_step(boards[k - 1], boards[k], c, dv, dh);
    }
}

} // verus!
