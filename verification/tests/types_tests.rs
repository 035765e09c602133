use rustsoko::types::{Action, BitMatrix, Point2D, PuzzleError, RunDat, Tile, TileMatrix};

fn grid(text: &str) -> TileMatrix {
    match TileMatrix::from_string(text) {
        Ok(m) => m,
        Err(e) => panic!("puzzle not read: {:?}", e),
    }
}

#[test]
fn freezable_tiles() {
    assert!(Tile::Wall.is_freezable());
    assert!(Tile::Crate.is_freezable());
    assert!(Tile::CrateGoal.is_freezable());
    assert!(!Tile::Floor.is_freezable());
    assert!(!Tile::Goal.is_freezable());
    assert!(!Tile::Player.is_freezable());
    assert!(!Tile::PlayerGoal.is_freezable());
}

#[test]
fn pure_crates() {
    assert!(Tile::Crate.is_pure_crate());
    assert!(!Tile::CrateGoal.is_pure_crate());
    assert!(!Tile::Wall.is_pure_crate());
}

#[test]
fn point_steps() {
    let p = Point2D::new(3, 4);
    assert_eq!(p.from(Action::Up), Point2D::new(3, 3));
    assert_eq!(p.from(Action::Down), Point2D::new(3, 5));
    assert_eq!(p.from(Action::Left), Point2D::new(2, 4));
    assert_eq!(p.from(Action::Right), Point2D::new(4, 4));
    assert_eq!(p.from(Action::PushUp), Point2D::new(3, 3));
    assert_eq!(p.from(Action::PushRight), Point2D::new(4, 4));
    assert_eq!(p.from(Action::NoMove), p);
}

#[test]
fn action_inverses() {
    assert_eq!(Action::Up.inverse(), Action::Down);
    assert_eq!(Action::Left.inverse(), Action::Right);
    assert_eq!(Action::PushDown.inverse(), Action::PushUp);
    assert_eq!(Action::PushRight.inverse(), Action::PushLeft);
    assert_eq!(Action::NoMove.inverse(), Action::NoMove);
    // inverting twice gives the action back
    for a in [Action::Up, Action::Down, Action::Left, Action::Right, Action::PushUp, Action::PushDown,
              Action::PushLeft, Action::PushRight, Action::NoMove] {
        assert_eq!(a.inverse().inverse(), a);
    }
}

#[test]
fn actions_to_string() {
    let actions = vec![Action::Up, Action::Down, Action::Left, Action::Right, Action::NoMove, Action::PushUp,
                       Action::PushDown, Action::PushLeft, Action::PushRight];
    assert_eq!(Action::to_string(&actions), "udlrUDLR");
    assert_eq!(Action::to_string(&Vec::new()), "");
}

#[test]
fn read_simple_puzzle() {
    let m = grid("#####\n#@$.#\n#####\n");
    assert_eq!(m.width, 5);
    assert_eq!(m.data.len(), 15);
    assert_eq!(m.get(Point2D::new(1, 1)), Tile::Player);
    assert_eq!(m.get(Point2D::new(2, 1)), Tile::Crate);
    assert_eq!(m.get(Point2D::new(3, 1)), Tile::Goal);
    assert_eq!(m.get(Point2D::new(0, 0)), Tile::Wall);
}

#[test]
fn read_pads_short_rows() {
    let m = grid("###\n#@\n###\n");
    assert_eq!(m.width, 3);
    assert_eq!(m.data, vec![Tile::Wall, Tile::Wall, Tile::Wall, Tile::Wall, Tile::Player, Tile::Floor,
                            Tile::Wall, Tile::Wall, Tile::Wall]);
}

#[test]
fn read_without_trailing_newline() {
    let m = grid("#+#\n#*#\n#$#");
    assert_eq!(m.width, 3);
    assert_eq!(m.data, vec![Tile::Wall, Tile::PlayerGoal, Tile::Wall, Tile::Wall, Tile::CrateGoal, Tile::Wall,
                            Tile::Wall, Tile::Crate, Tile::Wall]);
}

#[test]
fn read_counts_carriage_return_in_width() {
    // the carriage return counts towards the width but gives no tile
    let m = grid("#@#\r\n###\r\n");
    assert_eq!(m.width, 4);
    assert_eq!(m.data, vec![Tile::Wall, Tile::Player, Tile::Wall, Tile::Floor,
                            Tile::Wall, Tile::Wall, Tile::Wall, Tile::Floor]);
}

#[test]
fn read_errors() {
    assert_eq!(TileMatrix::from_string("#@#").err(), Some(PuzzleError::NoNewline));
    assert_eq!(TileMatrix::from_string("\n\n").err(), Some(PuzzleError::NewlineFirst));
    assert_eq!(TileMatrix::from_string("\n#@$.#\n").err(), Some(PuzzleError::NewlineFirst));
    assert_eq!(TileMatrix::from_string_bare("\n#@$.#\n").err(), Some(PuzzleError::NewlineFirst));
    assert_eq!(TileMatrix::from_string("#x@\n").err(), Some(PuzzleError::InvalidChar('x')));
    assert_eq!(TileMatrix::from_string("#.#\n").err(), Some(PuzzleError::PlayerCount));
    assert_eq!(TileMatrix::from_string("@@\n").err(), Some(PuzzleError::PlayerCount));
    assert_eq!(TileMatrix::from_string("#@$\n").err(), Some(PuzzleError::GoalCrateMismatch));
    // the first problem found is the one reported
    assert_eq!(TileMatrix::from_string("#y\nz\n").err(), Some(PuzzleError::InvalidChar('y')));
}

#[test]
fn read_bare_skips_piece_checks() {
    let m = match TileMatrix::from_string_bare("#$$#\n") {
        Ok(m) => m,
        Err(e) => panic!("not read: {:?}", e),
    };
    assert_eq!(m.width, 4);
    assert_eq!(m.data, vec![Tile::Wall, Tile::Crate, Tile::Crate, Tile::Wall]);
    assert_eq!(TileMatrix::from_string_bare("#?#\n").err(), Some(PuzzleError::InvalidChar('?')));
}

#[test]
fn set_and_get() {
    let mut m = grid("#####\n#@$.#\n#####\n");
    m.set(Point2D::new(3, 1), Tile::CrateGoal);
    assert_eq!(m.get(Point2D::new(3, 1)), Tile::CrateGoal);
    assert_eq!(m.data.len(), 15);
}

#[test]
fn push_moves_player_and_crate() {
    let m = grid("#####\n#@$.#\n#####\n");
    let mut pushed = m.clone();
    pushed.apply_action_and_move(Action::PushRight, Point2D::new(2, 1), &m, Point2D::new(1, 1));
    assert_eq!(pushed.get(Point2D::new(1, 1)), Tile::Floor);
    assert_eq!(pushed.get(Point2D::new(2, 1)), Tile::Player);
    assert_eq!(pushed.get(Point2D::new(3, 1)), Tile::CrateGoal);
}

#[test]
fn undo_after_push_gives_back_the_grid() {
    let m = grid("######\n#@$. #\n######\n");
    let mut pushed = m.clone();
    pushed.apply_action_and_move(Action::PushRight, Point2D::new(2, 1), &m, Point2D::new(1, 1));
    pushed.undo_action(Action::PushRight, Point2D::new(2, 1));
    assert!(pushed.same_as(&m));
}

#[test]
fn undo_after_push_from_afar_moves_the_player() {
    // the player stands at (4, 1) and pushes the crate at (2, 1) leftwards from (3, 1)
    let m = TileMatrix::from_string_bare("######\n# $ @#\n######\n").unwrap();
    let mut pushed = m.clone();
    pushed.apply_action_and_move(Action::PushLeft, Point2D::new(2, 1), &m, Point2D::new(4, 1));
    assert_eq!(pushed.get(Point2D::new(1, 1)), Tile::Crate);
    assert_eq!(pushed.get(Point2D::new(2, 1)), Tile::Player);
    assert_eq!(pushed.get(Point2D::new(4, 1)), Tile::Floor);
    pushed.undo_action(Action::PushLeft, Point2D::new(2, 1));
    let expected = TileMatrix::from_string_bare("######\n# $@ #\n######\n").unwrap();
    assert!(pushed.same_as(&expected));
}

#[test]
fn same_as_compares_cells_and_width() {
    let a = grid("#@#\n");
    let b = grid("#@#\n");
    let c = grid("#@ \n");
    assert!(a.same_as(&b));
    assert!(!a.same_as(&c));
}

#[test]
fn bit_matrix_flags() {
    let mut bm = BitMatrix::new(3, 6);
    assert_eq!(bm.get(Point2D::new(2, 1)), Some(false));
    bm.set(Point2D::new(2, 1), true);
    assert_eq!(bm.get(Point2D::new(2, 1)), Some(true));
    assert_eq!(bm.get(Point2D::new(1, 1)), Some(false));
    assert_eq!(bm.get(Point2D::new(0, 2)), None);
}

#[test]
fn run_data_starts_at_zero() {
    let r = RunDat::new();
    assert_eq!(r.nodes_checked, 0);
    assert_eq!(r.nodes_generated, 0);
    assert_eq!(r.nodes_deadlocked, 0);
    assert_eq!(r.nodes_skipped, 0);
}
