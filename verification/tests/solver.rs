use sokoban::engine::{Cell, Grid, Scene};
use sokoban::solver::{explore_player_area, get_branches, is_dead, solve, Snapshot};

fn loaded(layout: &[&str]) -> Scene {
    let mut scene = Scene::init();
    scene.load(layout);
    scene
}

fn count_bare_boxes(map: &Grid) -> usize {
    map.iter()
        .map(|row| row.iter().filter(|c| **c == Cell::Case).count())
        .sum()
}

/// Reachability on a small room: every open cell is listed, in row-major
/// order, and walls and boxes never are.
#[test]
fn explore_lists_the_walkable_room() {
    let scene = loaded(&["#####", "#i  #", "# o #", "#####"]);
    let area = explore_player_area(&scene.map, &scene.player);
    assert_eq!(
        area,
        vec![(1, 1), (1, 2), (1, 3), (2, 1), (2, 3)]
    );
}

/// Reachability stops at a wall that splits the room.
#[test]
fn explore_stays_inside_the_component() {
    let scene = loaded(&["#####", "#i# #", "#####"]);
    let area = explore_player_area(&scene.map, &scene.player);
    assert_eq!(area, vec![(1, 1)]);
}

#[test]
fn branches_of_a_single_forced_push() {
    let scene = loaded(&["#####", "#iox#", "#####"]);
    // The solver works on the player-stripped board.
    let mut stripped = scene.map.clone();
    stripped[1][1] = Cell::Ground;
    let area = explore_player_area(&stripped, &scene.player);
    assert_eq!(area, vec![(1, 1)]);
    let branches = get_branches(&stripped, &area);
    assert_eq!(branches.len(), 1);
    assert_eq!(branches[0].1, (1, 2));
    assert_eq!(branches[0].0.map[1][3], Cell::CaseOnTarget);
}

/// Solver fixture 1: a room sized for exactly one push; the path holds
/// the initial snapshot and the solved one.
#[test]
fn solve_one_push_level() {
    let scene = loaded(&["#####", "#iox#", "#####"]);
    let path = solve(&scene.map, &scene.player);
    assert_eq!(path.len(), 2);
    assert_eq!(count_bare_boxes(&path[0].map), 1);
    assert_eq!(count_bare_boxes(&path[1].map), 0);
    assert_eq!(path[1].map[1][3], Cell::CaseOnTarget);
}

/// Solver fixture 2: a box wedged in a corner away from any target; the
/// detector flags the board and the exhausted search returns the empty
/// path.
#[test]
fn solve_wedged_corner_is_exhausted() {
    let scene = loaded(&["######", "#i  o#", "#x   #", "######"]);
    assert!(is_dead(&scene.map));
    let path = solve(&scene.map, &scene.player);
    assert!(path.is_empty());
}

/// Deadlock monotonicity on a small fixture: a freshly flagged board
/// stays unsolvable, shown by the exhaustive search itself.
#[test]
fn flagged_board_is_never_solved() {
    // The box sits against the top wall next to a wall corner: flagged
    // dead, and indeed no push sequence clears it.
    let scene = loaded(&["#####", "#o  #", "#  i#", "#x  #", "#####"]);
    assert!(is_dead(&scene.map));
    let path = solve(&scene.map, &scene.player);
    assert!(path.is_empty());
}

/// A lost board the corner detector cannot see is still exhausted by the
/// search itself, only more slowly.
#[test]
fn undetected_loss_is_still_exhausted() {
    // A box against the top wall with both sides free is not flagged,
    // but it can never leave that wall and no target sits on it.
    let scene = loaded(&["#####", "# o #", "#i x#", "#####"]);
    assert!(!is_dead(&scene.map));
    let path = solve(&scene.map, &scene.player);
    assert!(path.is_empty());
}

/// Solver fixture 3: the only route pushes the box off its row first,
/// which temporarily takes it farther from the target, before rolling it
/// along the lower corridor and back up.
#[test]
fn solve_requires_a_detour() {
    let scene = loaded(&["########", "#      #", "# o##x #", "#      #", "#  i   #", "########"]);
    let path = solve(&scene.map, &scene.player);
    assert!(path.len() >= 2);
    assert_eq!(count_bare_boxes(&path[path.len() - 1].map), 0);
    for step in &path {
        assert_eq!(count_bare_boxes(&step.map) + count_target_boxes(&step.map), 1);
    }
}

fn count_target_boxes(map: &Grid) -> usize {
    map.iter()
        .map(|row| row.iter().filter(|c| **c == Cell::CaseOnTarget).count())
        .sum()
}

/// Determinism: repeated solves of the same level give the identical
/// path, snapshot for snapshot.
#[test]
fn solve_is_deterministic() {
    let layout = ["########", "#      #", "# o##x #", "#      #", "#  i   #", "########"];
    let a = loaded(&layout);
    let b = loaded(&layout);
    let path_a = solve(&a.map, &a.player);
    let path_b = solve(&b.map, &b.player);
    assert_eq!(path_a.len(), path_b.len());
    for k in 0..path_a.len() {
        assert_eq!(path_a[k].map, path_b[k].map);
        assert_eq!(path_a[k].area(), path_b[k].area());
    }
}

/// A box already wedged against the left wall corner: the result is
/// empty, never a stub path.
#[test]
fn solve_dead_at_start_returns_empty() {
    let scene = loaded(&["#####", "#oix#", "#####"]);
    assert!(is_dead(&scene.map));
    let path = solve(&scene.map, &scene.player);
    assert!(path.is_empty());
}

/// A board that is already solved yields the one-snapshot path at once.
#[test]
fn solve_already_solved_board() {
    let scene = loaded(&["####", "#iO#", "####"]);
    let path = solve(&scene.map, &scene.player);
    assert_eq!(path.len(), 1);
    assert_eq!(count_bare_boxes(&path[0].map), 0);
}

/// The snapshot path starts from the player-stripped initial board.
#[test]
fn solve_path_starts_stripped() {
    let scene = loaded(&["#####", "#iox#", "#####"]);
    let path: Vec<Snapshot> = solve(&scene.map, &scene.player);
    assert_eq!(path[0].map[1][1], Cell::Ground);
    assert_eq!(path[0].area(), &vec![(1, 1)]);
}
