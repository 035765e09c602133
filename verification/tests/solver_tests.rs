use rustsoko::ida_star_solver::heuristic::{closest_box, goal_count, greedy_perfect_match};
use rustsoko::ida_star_solver::{pieces_enclosed, puzzle_fits, Heuristic, IDAStarSolver, Node};
use rustsoko::types::{Action, Point2D, TileMatrix};

fn grid(text: &str) -> TileMatrix {
    match TileMatrix::from_string(text) {
        Ok(m) => m,
        Err(e) => panic!("puzzle not read: {:?}", e),
    }
}

fn solve(text: &str, heuristic: Heuristic, deadlock_hashing: bool) -> String {
    let puzzle = grid(text);
    assert!(puzzle_fits(&puzzle, heuristic));
    let mut solver = IDAStarSolver::new(puzzle, heuristic, deadlock_hashing, false);
    let report = solver.solve();
    Action::to_string(&report.path)
}

const ONE_PUSH: &str = "#####\n#@$.#\n#####\n";
const TWO_PUSHES: &str = "######\n#@$ .#\n######\n";
const AROUND: &str = "#######\n#     #\n# $@  #\n#.    #\n#######\n";

#[test]
fn solves_one_push() {
    assert_eq!(solve(ONE_PUSH, Heuristic::ClosestBox, false), "R");
    assert_eq!(solve(ONE_PUSH, Heuristic::GoalCount, false), "R");
    assert_eq!(solve(ONE_PUSH, Heuristic::GreedyPerfectMatch, false), "R");
}

#[test]
fn solves_two_pushes() {
    assert_eq!(solve(TWO_PUSHES, Heuristic::ClosestBox, false), "RR");
    assert_eq!(solve(TWO_PUSHES, Heuristic::ClosestBox, true), "RR");
}

#[test]
fn solves_with_walks_between_pushes() {
    let moves = solve(AROUND, Heuristic::GreedyPerfectMatch, false);
    // one push left and one push down, with the walk around the crate
    assert_eq!(moves.chars().filter(|c| c.is_uppercase()).count(), 2);
    assert!(moves.ends_with('D'));
    assert_eq!(moves, "LulD");
}

#[test]
fn solve_report_counts() {
    let mut solver = IDAStarSolver::new(grid(TWO_PUSHES), Heuristic::ClosestBox, false, false);
    let report = solver.solve();
    assert_eq!(report.solutions, 1);
    assert_eq!(report.bound, 2);
    assert_eq!(report.bounds, vec![2]);
    assert!(!report.timed_out);
    assert!(report.rundat.nodes_checked >= 3);
}

#[test]
fn unsolvable_puzzle_gives_no_path() {
    // the crate stands in a corner
    let mut solver = IDAStarSolver::new(grid("#####\n#$ .#\n#  @#\n#####\n"), Heuristic::ClosestBox, false, false);
    let report = solver.solve();
    assert_eq!(report.path.len(), 0);
    assert_eq!(report.solutions, 0);
}

#[test]
fn solved_puzzle_needs_no_move() {
    let mut solver = IDAStarSolver::new(grid("####\n#@*#\n####\n"), Heuristic::ClosestBox, false, false);
    let report = solver.solve();
    assert_eq!(report.path.len(), 0);
    assert_eq!(report.solutions, 1);
    assert_eq!(report.bound, 0);
}

#[test]
fn heuristics_on_a_node() {
    let puzzle = grid("########\n#@ $  .#\n#  $ . #\n########\n");
    let solver = IDAStarSolver::new(puzzle.clone(), Heuristic::ClosestBox, false, false);
    let node = Node::default(puzzle, vec![Point2D::new(3, 1), Point2D::new(3, 2)], Point2D::new(1, 1));
    // crate (3,1): goals (6,1) at 3, (5,2) at 3; crate (3,2): (6,1) at 4, (5,2) at 2
    assert_eq!(closest_box(&solver, &node), 5);
    assert_eq!(goal_count(&solver, &node), 2);
    // rows reduce to [0,0] and [2,0]; columns keep them; crate 0 takes goal 0 (3), crate 1 goal 1 (2)
    assert_eq!(greedy_perfect_match(&solver, &node), 5);
}

#[test]
fn greedy_match_takes_first_zero() {
    let puzzle = grid("#######\n#@$ $ #\n#  . .#\n#######\n");
    let solver = IDAStarSolver::new(puzzle.clone(), Heuristic::GreedyPerfectMatch, false, false);
    let node = Node::default(puzzle, vec![Point2D::new(2, 1), Point2D::new(4, 1)], Point2D::new(1, 1));
    // goals in reading order: (3,2), (5,2). distances: crate (2,1): 2, 4; crate (4,1): 2, 2.
    // rows reduce by 2 and 2 to [0,2] and [0,0]; columns by 0 and 0: the estimate is 4, the best matching.
    assert_eq!(greedy_perfect_match(&solver, &node), 4);
    assert_eq!(closest_box(&solver, &node), 4);
}

#[test]
fn node_hashes_follow_positions() {
    let puzzle = grid(ONE_PUSH);
    let a = Node::default(puzzle.clone(), vec![Point2D::new(2, 1)], Point2D::new(1, 1));
    let b = Node::make_new(Action::PushRight, puzzle.clone(), vec![Point2D::new(2, 1)], Point2D::new(1, 1), 3);
    let c = Node::default(puzzle, vec![Point2D::new(3, 1)], Point2D::new(1, 1));
    assert_eq!(a.hash, b.hash);
    assert_ne!(a.hash, c.hash);
    assert_eq!(a.action, Action::NoMove);
    assert_eq!(a.g, 0);
    assert_eq!(b.g, 3);
    assert_eq!(b.h, 0);
}

#[test]
fn crate_in_wall_corner_is_deadlocked() {
    let puzzle = grid("#####\n#$ .#\n#  @#\n#####\n");
    let node = Node::default(puzzle, vec![Point2D::new(1, 1)], Point2D::new(3, 2));
    assert!(node.is_deadlocked(Point2D::new(1, 1)));
}

#[test]
fn free_crate_is_not_deadlocked() {
    let puzzle = grid("######\n#    #\n# $. #\n#  @ #\n######\n");
    let node = Node::default(puzzle, vec![Point2D::new(2, 2)], Point2D::new(3, 3));
    assert!(!node.is_deadlocked(Point2D::new(2, 2)));
}

#[test]
fn square_of_crates_is_deadlocked() {
    let puzzle = grid("######\n#    #\n# $$ #\n# $$ #\n#....#\n#   @#\n######\n");
    let node = Node::default(puzzle, vec![Point2D::new(2, 2), Point2D::new(3, 2), Point2D::new(2, 3),
                                          Point2D::new(3, 3)], Point2D::new(4, 5));
    assert!(node.is_deadlocked(Point2D::new(2, 2)));
}

#[test]
fn crate_on_goal_frozen_with_a_loose_crate() {
    let puzzle = grid("#####\n#*$ #\n#  .#\n#  @#\n#####\n");
    let node = Node::default(puzzle, vec![Point2D::new(1, 1), Point2D::new(2, 1)], Point2D::new(3, 3));
    // the crate on its goal is stuck against the walls next to a crate off its goal
    assert!(node.is_deadlocked(Point2D::new(1, 1)));
}

#[test]
fn enclosure_checks() {
    assert!(pieces_enclosed(&grid(ONE_PUSH)));
    // the player stands on the edge of the grid
    assert!(!pieces_enclosed(&grid("@$.#\n####\n")));
    assert!(puzzle_fits(&grid(ONE_PUSH), Heuristic::GreedyPerfectMatch));
    assert!(!puzzle_fits(&grid("@$.#\n####\n"), Heuristic::ClosestBox));
}

#[test]
fn heuristic_fit_checks() {
    let two_goals_no_crate = TileMatrix::from_string_bare("######\n#@.. #\n######\n").unwrap();
    assert!(!puzzle_fits(&two_goals_no_crate, Heuristic::ClosestBox));
    let two_crates_no_goal = TileMatrix::from_string_bare("######\n#@$$ #\n######\n").unwrap();
    assert!(puzzle_fits(&two_crates_no_goal, Heuristic::ClosestBox));
    assert!(puzzle_fits(&two_crates_no_goal, Heuristic::GoalCount));
    assert!(!puzzle_fits(&two_crates_no_goal, Heuristic::GreedyPerfectMatch));
    let no_player = TileMatrix::from_string_bare("#####\n# $.#\n#####\n").unwrap();
    assert!(!puzzle_fits(&no_player, Heuristic::GoalCount));
}

const TWO_CRATES: &str = "#######\n#@$ . #\n# $ . #\n#     #\n#######\n";

#[test]
fn two_crates_take_the_fewest_pushes_and_moves() {
    // four pushes are needed; of the four-push solutions the best walks take seven moves
    assert_eq!(solve(TWO_CRATES, Heuristic::ClosestBox, false), "RRlldRR");
    assert_eq!(solve(TWO_CRATES, Heuristic::GoalCount, false), "RRlldRR");
    assert_eq!(solve(TWO_CRATES, Heuristic::ClosestBox, true), "RRlldRR");
}

#[test]
fn closest_box_estimate_stays_below_the_pushes() {
    let mut solver = IDAStarSolver::new(grid(TWO_CRATES), Heuristic::ClosestBox, false, false);
    let report = solver.solve();
    let pushes = Action::to_string(&report.path).chars().filter(|c| c.is_uppercase()).count();
    assert_eq!(pushes, 4);
    assert!(!report.timed_out);
    assert_eq!(report.bound, 4);
    // the estimate at the start is two per crate
    assert_eq!(report.bounds, vec![4]);
}

#[test]
fn goal_count_estimate_stays_below_the_pushes() {
    let mut solver = IDAStarSolver::new(grid(TWO_CRATES), Heuristic::GoalCount, false, false);
    let report = solver.solve();
    let pushes = Action::to_string(&report.path).chars().filter(|c| c.is_uppercase()).count();
    assert_eq!(pushes, 4);
    // two open goals at the start, then bounds 3 and 4
    assert_eq!(report.bounds, vec![2, 3, 4]);
    assert_eq!(report.bound, 4);
}

#[test]
fn greedy_match_stays_below_the_best_matching() {
    // goals at columns 1 and 6, crates at columns 7 and 8 of one row: rows reduce
    // by 1 and 2 to [5,0] and [5,0], columns by 5 and 0, so the estimate is 8,
    // which is what every pairing of crates with goals costs here
    let text = "############\n#          #\n#.    .$$  #\n#          #\n#         @#\n############\n";
    let puzzle = grid(text);
    let solver = IDAStarSolver::new(puzzle.clone(), Heuristic::GreedyPerfectMatch, false, false);
    let node = Node::default(puzzle, vec![Point2D::new(7, 2), Point2D::new(8, 2)], Point2D::new(10, 4));
    assert_eq!(greedy_perfect_match(&solver, &node), 8);
    // goal (1,2) is 6 from its closest crate, goal (6,2) is 1 from its
    assert_eq!(closest_box(&solver, &node), 7);
}

#[test]
fn closest_box_sums_over_goals() {
    // goal (5,1) is 3 from crate (2,1); goal (9,1) is 7 from it
    let text = "###########\n#$$  .   .#\n#@        #\n###########\n";
    let puzzle = grid(text);
    let solver = IDAStarSolver::new(puzzle.clone(), Heuristic::ClosestBox, false, false);
    let node = Node::default(puzzle, vec![Point2D::new(1, 1), Point2D::new(2, 1)], Point2D::new(1, 2));
    assert_eq!(closest_box(&solver, &node), 10);
}

#[test]
fn greedy_match_when_two_crates_prefer_one_goal() {
    // crates (9,1) and (9,2) are both closest to goal (11,1); the best matching
    // sends (9,1) there (2) and (9,2) to (1,1) (9), for 11
    let text = "#############\n#.       $ .#\n#        $  #\n#@          #\n#############\n";
    let puzzle = grid(text);
    let solver = IDAStarSolver::new(puzzle.clone(), Heuristic::GreedyPerfectMatch, false, false);
    let node = Node::default(puzzle, vec![Point2D::new(9, 1), Point2D::new(9, 2)], Point2D::new(1, 3));
    assert_eq!(greedy_perfect_match(&solver, &node), 11);
}

#[test]
fn greedy_match_solves_two_crates() {
    assert_eq!(solve(TWO_CRATES, Heuristic::GreedyPerfectMatch, false), "RRlldRR");
}

#[test]
fn crate_in_last_column_reads_neighbours_row_major() {
    // the cell right of (2, 1) in row-major order is (0, 2), a wall
    let puzzle = grid("###\n  $\n#@.\n###\n");
    let node = Node::default(puzzle, vec![Point2D::new(2, 1)], Point2D::new(1, 2));
    assert!(node.is_deadlocked(Point2D::new(2, 1)));
}

#[test]
fn solve_counts_checked_and_generated_nodes() {
    let mut solver = IDAStarSolver::new(grid(TWO_PUSHES), Heuristic::ClosestBox, false, false);
    let report = solver.solve();
    assert_eq!(report.rundat.nodes_checked, 3);
    assert_eq!(report.rundat.nodes_generated, 2);
    assert_eq!(report.rundat.nodes_deadlocked, 0);
    assert_eq!(report.rundat.nodes_skipped, 0);
}

#[test]
fn solve_counts_pushes_onto_dead_cells() {
    // from the start the crate can go right or left into a corner, or up into
    // the wall: none of those cells can reach the goal, so all three are skipped
    let mut solver = IDAStarSolver::new(grid("#####\n#@$ #\n#  .#\n#####\n"), Heuristic::ClosestBox, false, false);
    let report = solver.solve();
    assert_eq!(report.path.len(), 0);
    assert_eq!(report.rundat.nodes_skipped, 3);
    assert_eq!(report.rundat.nodes_generated, 0);
    assert_eq!(report.rundat.nodes_deadlocked, 0);
}
