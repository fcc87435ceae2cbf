use sokoban::engine::{Cell, Scene};

#[test]
pub fn test_shift() {
    assert_eq!(
        Cell::shift(&(Cell::Player, Cell::Wall, Cell::Ground)),
        ((Cell::Player, Cell::Wall, Cell::Ground), false)
    );
    assert_eq!(
        Cell::shift(&(Cell::Player, Cell::Ground, Cell::Ground)),
        ((Cell::Ground, Cell::Player, Cell::Ground), true)
    );
    assert_eq!(
        Cell::shift(&(Cell::Player, Cell::Case, Cell::Wall)),
        ((Cell::Player, Cell::Case, Cell::Wall), false)
    );
}

#[test]
fn shift_pushes_box_onto_target() {
    assert_eq!(
        Cell::shift(&(Cell::Player, Cell::Case, Cell::Target)),
        ((Cell::Ground, Cell::Player, Cell::CaseOnTarget), true)
    );
    assert_eq!(
        Cell::shift(&(Cell::PlayerOnTarget, Cell::CaseOnTarget, Cell::Ground)),
        ((Cell::Target, Cell::PlayerOnTarget, Cell::Case), true)
    );
}

#[test]
fn shift_rejects_double_box() {
    assert_eq!(
        Cell::shift(&(Cell::Player, Cell::Case, Cell::Case)),
        ((Cell::Player, Cell::Case, Cell::Case), false)
    );
    assert_eq!(
        Cell::shift(&(Cell::Player, Cell::Case, Cell::CaseOnTarget)),
        ((Cell::Player, Cell::Case, Cell::CaseOnTarget), false)
    );
}

/// Volume conservation on a legal triple, checked concretely: one box and
/// one player before, one box and one player after.
#[test]
fn shift_conserves_occupants() {
    let ((l, m, r), moved) = Cell::shift(&(Cell::Player, Cell::Case, Cell::Ground));
    assert!(moved);
    let occupants = |c: Cell| match c {
        Cell::Ground | Cell::Target => 0,
        _ => 1,
    };
    assert_eq!(occupants(l) + occupants(m) + occupants(r), 2);
    assert_eq!((l, m, r), (Cell::Ground, Cell::Player, Cell::Case));
}

#[test]
fn reachable_cells() {
    assert!(Cell::Ground.reachable());
    assert!(Cell::Target.reachable());
    assert!(Cell::Player.reachable());
    assert!(Cell::PlayerOnTarget.reachable());
    assert!(!Cell::Wall.reachable());
    assert!(!Cell::Case.reachable());
    assert!(!Cell::CaseOnTarget.reachable());
}

#[test]
fn load_parses_cells_and_player() {
    let mut scene = Scene::init();
    scene.load(&["#####", "#ixo#", "#####"]);
    assert_eq!(scene.player, (1, 1));
    assert_eq!(scene.map[0], vec![Cell::Wall; 5]);
    assert_eq!(
        scene.map[1],
        vec![Cell::Wall, Cell::Player, Cell::Target, Cell::Case, Cell::Wall]
    );
}

#[test]
fn load_places_player_on_target() {
    let mut scene = Scene::init();
    scene.load(&["#####", "# IO#", "#####"]);
    assert_eq!(scene.player, (1, 2));
    assert_eq!(
        scene.map[1],
        vec![
            Cell::Wall,
            Cell::Ground,
            Cell::PlayerOnTarget,
            Cell::CaseOnTarget,
            Cell::Wall
        ]
    );
    assert!(scene.is_pass());
}

#[test]
fn moves_walk_and_push() {
    let mut scene = Scene::init();
    scene.load(&["######", "#i ox#", "######"]);
    assert!(!scene.is_pass());
    scene.move_right();
    assert_eq!(scene.player, (1, 2));
    scene.move_right();
    assert_eq!(scene.player, (1, 3));
    assert_eq!(scene.map[1][4], Cell::CaseOnTarget);
    assert!(scene.is_pass());
}

#[test]
fn move_into_wall_is_a_no_op() {
    let mut scene = Scene::init();
    scene.load(&["#####", "#i o#", "#####"]);
    let before = scene.map.clone();
    scene.move_left();
    assert_eq!(scene.map, before);
    assert_eq!(scene.player, (1, 1));
    scene.move_upward();
    assert_eq!(scene.map, before);
    scene.move_down();
    assert_eq!(scene.map, before);
}

/// Undo idempotence on a concrete scenario: a walk, two pushes and a
/// turn, undone in reverse, restore the exact original board and player.
#[test]
fn undo_restores_move_sequence() {
    let layout = ["#######", "#  o  #", "# ix  #", "#  o  #", "#######"];
    let mut scene = Scene::init();
    scene.load(&layout);
    let map0 = scene.map.clone();
    let player0 = scene.player;
    scene.move_right();
    scene.move_right();
    scene.move_upward();
    scene.move_left();
    scene.undo();
    scene.undo();
    scene.undo();
    scene.undo();
    assert_eq!(scene.map, map0);
    assert_eq!(scene.player, player0);
}

#[test]
fn undo_with_empty_history_changes_nothing() {
    let mut scene = Scene::init();
    scene.load(&["#####", "#i o#", "#####"]);
    let before = scene.map.clone();
    scene.undo();
    assert_eq!(scene.map, before);
    assert_eq!(scene.player, (1, 1));
}

#[test]
fn get_size_and_boxes() {
    let mut scene = Scene::init();
    scene.load(&["#####", "#ioO#", "#####"]);
    assert_eq!(scene.get_size(), (3, 5));
    assert_eq!(scene.get_boxes(), vec![(1, 2), (1, 3)]);
}
