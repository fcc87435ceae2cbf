use sokoban::level::{Cell, Level};

#[test]
fn new_parses_the_layout() {
    let level = Level::new(3, &["#####", "#ix #", "# oO#", "#####"]);
    assert_eq!(level.index, 3);
    assert_eq!(level.height(), 4);
    assert_eq!(level.width(), 5);
    assert_eq!(level.map[1][1], Cell::Player);
    assert_eq!(level.map[1][2], Cell::Target);
    assert_eq!(level.map[2][2], Cell::Box);
    assert_eq!(level.map[2][3], Cell::BoxOnTarget);
    assert_eq!(level.map[0], vec![Cell::Wall; 5]);
    assert!(!level.is_pass());
}

#[test]
fn moves_push_boxes_onto_targets() {
    let mut level = Level::new(0, &["######", "#i ox#", "######"]);
    assert!(level.move_right());
    assert!(level.move_right());
    assert_eq!(level.map[1][4], Cell::BoxOnTarget);
    assert_eq!(level.map[1][3], Cell::Player);
    assert!(level.is_pass());
}

#[test]
fn blocked_moves_change_nothing() {
    let mut level = Level::new(0, &["#####", "#io##", "#####"]);
    let before = level.map.clone();
    assert!(!level.move_right());
    assert!(!level.move_left());
    assert!(!level.move_upward());
    assert!(!level.move_down());
    assert_eq!(level.map, before);
}

#[test]
fn revert_walks_back_a_move_sequence() {
    let mut level = Level::new(0, &["#######", "#  o  #", "# ix  #", "#  o  #", "#######"]);
    let map0 = level.map.clone();
    assert!(level.move_right());
    assert!(level.move_right());
    assert!(level.move_upward());
    assert!(level.move_left());
    level.revert();
    level.revert();
    level.revert();
    level.revert();
    assert_eq!(level.map, map0);
}

#[test]
fn reset_restores_the_parsed_board() {
    let mut level = Level::new(0, &["######", "#i o #", "######"]);
    let map0 = level.map.clone();
    assert!(level.move_right());
    assert!(level.move_right());
    level.reset();
    assert_eq!(level.map, map0);
    assert_eq!(level.height(), 3);
    assert_eq!(level.width(), 6);
    assert!(level.move_right());
}

#[test]
fn player_starting_on_a_target() {
    let mut level = Level::new(0, &["#####", "#Io #", "#####"]);
    assert_eq!(level.map[1][1], Cell::PlayerOnTarget);
    assert!(level.move_right());
    assert_eq!(level.map[1][1], Cell::Target);
    assert_eq!(level.map[1][2], Cell::Player);
    assert_eq!(level.map[1][3], Cell::Box);
}
