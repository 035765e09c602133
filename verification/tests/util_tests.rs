use rustsoko::types::{Action, BitMatrix, Point2D, TileMatrix};
use rustsoko::util::{astar_pathfind, find_simple_deadlocks, find_walkable_spaces, manhattan_distance};

fn grid(text: &str) -> TileMatrix {
    match TileMatrix::from_string_bare(text) {
        Ok(m) => m,
        Err(e) => panic!("puzzle not read: {:?}", e),
    }
}

#[test]
fn manhattan_values() {
    assert_eq!(manhattan_distance(Point2D::new(1, 1), Point2D::new(4, 3)), 5);
    assert_eq!(manhattan_distance(Point2D::new(4, 3), Point2D::new(1, 1)), 5);
    assert_eq!(manhattan_distance(Point2D::new(2, 7), Point2D::new(2, 7)), 0);
    assert_eq!(manhattan_distance(Point2D::new(0, 9), Point2D::new(9, 0)), 18);
}

#[test]
fn walkable_spaces_stop_at_walls_and_crates() {
    let m = grid("#######\n#@ $  #\n#  #  #\n#######\n");
    let mut walk = BitMatrix::new(m.width, m.data.len());
    walk.set(Point2D::new(1, 1), true);
    find_walkable_spaces(&m, Point2D::new(1, 1), &mut walk);
    assert_eq!(walk.get(Point2D::new(1, 1)), Some(true));
    assert_eq!(walk.get(Point2D::new(2, 1)), Some(true));
    assert_eq!(walk.get(Point2D::new(1, 2)), Some(true));
    assert_eq!(walk.get(Point2D::new(2, 2)), Some(true));
    // the crate and what lies behind it cannot be reached
    assert_eq!(walk.get(Point2D::new(3, 1)), Some(false));
    assert_eq!(walk.get(Point2D::new(4, 1)), Some(false));
    assert_eq!(walk.get(Point2D::new(5, 2)), Some(false));
    assert_eq!(walk.get(Point2D::new(0, 0)), Some(false));
}

#[test]
fn simple_deadlocks_mark_corners() {
    let m = grid("######\n#    #\n# .  #\n#    #\n######\n");
    let live = find_simple_deadlocks(&m, &vec![Point2D::new(2, 2)]);
    // a crate in a corner can never reach the goal
    assert_eq!(live.get(Point2D::new(1, 1)), Some(false));
    assert_eq!(live.get(Point2D::new(4, 3)), Some(false));
    // the goal itself and the cells next to it can
    assert_eq!(live.get(Point2D::new(2, 2)), Some(true));
    assert_eq!(live.get(Point2D::new(3, 2)), Some(true));
    assert_eq!(live.get(Point2D::new(2, 1)), Some(false));
}

#[test]
fn simple_deadlocks_without_goals() {
    let m = grid("####\n#  #\n####\n");
    let live = find_simple_deadlocks(&m, &Vec::new());
    assert_eq!(live.get(Point2D::new(1, 1)), Some(false));
    assert_eq!(live.get(Point2D::new(2, 1)), Some(false));
}

#[test]
fn astar_finds_a_shortest_walk() {
    let m = grid("#######\n#@    #\n# ### #\n#     #\n#######\n");
    let path = astar_pathfind(&m, Action::PushUp, Point2D::new(1, 1), Point2D::new(5, 3));
    assert_eq!(path.len(), 7);
    assert_eq!(path[6], Action::PushUp);
    // walking the path reaches the goal
    let mut p = Point2D::new(1, 1);
    for a in &path[..6] {
        p = p.from(*a);
    }
    assert_eq!(p, Point2D::new(5, 3));
}

#[test]
fn astar_to_where_the_player_stands() {
    let m = grid("####\n#@ #\n####\n");
    let path = astar_pathfind(&m, Action::PushRight, Point2D::new(1, 1), Point2D::new(1, 1));
    assert_eq!(path, vec![Action::PushRight]);
}

#[test]
fn astar_unreachable_gives_the_push_alone() {
    let m = grid("#######\n#@ #  #\n#######\n");
    let path = astar_pathfind(&m, Action::PushLeft, Point2D::new(1, 1), Point2D::new(4, 1));
    assert_eq!(path, vec![Action::PushLeft]);
}

#[test]
fn astar_to_a_cell_off_the_grid_gives_the_push_alone() {
    let m = grid("#####\n#@  #\n#####\n");
    let path = astar_pathfind(&m, Action::PushLeft, Point2D::new(1, 1), Point2D::new(9, 9));
    assert_eq!(path, vec![Action::PushLeft]);
}

#[test]
fn flood_fill_stops_at_crates_where_walls_are_missing() {
    // the right edge is open, but crates close the player in
    let m = grid("#####\n#@ $ \n#  $ \n#####\n");
    let mut walk = BitMatrix::new(m.width, m.data.len());
    walk.set(Point2D::new(1, 1), true);
    find_walkable_spaces(&m, Point2D::new(1, 1), &mut walk);
    assert_eq!(walk.get(Point2D::new(2, 2)), Some(true));
    assert_eq!(walk.get(Point2D::new(3, 1)), Some(false));
    assert_eq!(walk.get(Point2D::new(4, 1)), Some(false));
}
