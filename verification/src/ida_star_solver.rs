use vstd::prelude::*;
use std::collections::hash_map::DefaultHasher;
use std::hash::{Hash, Hasher};

use std::collections::HashMap;
use std::time::Instant;

use crate::types::{
    Action, BitMatrix, Point2D, RunDat, Tile, TileMatrix, can_step, crate_tiles, goal_tiles, index_of, is_crate_tile, is_goal_tile,
    is_player_tile, is_push, lemma_step_index, pushed_cells, spec_inverse, step, unpushed_cells,
};
use crate::util::{
    canonical, count_false, lemma_count_false_set, encloses, find_simple_deadlocks, find_walkable_spaces, interior, is_dir, is_enclosure,
    astar_pathfind, is_walk, lemma_enclosed_interior, lemma_enclosure_passes, lemma_enclosure_walks, lemma_index_injective,
    lemma_interior_step,
    lemma_manhattan_bound, lemma_path_reach_same, lemma_same_walls, lemma_walk_same, manhattan, open_step, path_reach,
    pull_reach, same_walls, walk_closed, walk_reach,
};
use vstd::arithmetic::div_mod::lemma_fundamental_div_mod;
use crate::ida_star_solver::pruning::{lemma_pruning_keeps_solutions, live_exact};
use crate::ida_star_solver::heuristic::{
    closest_box_sum, reduction_total, lemma_closest_box_bound, lemma_solution_is_plan, lemma_closest_box_no_crate, lemma_reduction_bound,
    open_goals,
};

pub mod heuristic;
pub mod pruning;

verus! {

/// The seconds after which the search gives up.
pub const TIME_LIMIT: u64 = 300;

// check time once per n nodes
const PER_NODE_TIME_CHECK: usize = 10_000;

/// The crate positions and player position a node hashes to.
pub uninterp spec fn state_hash(crates: Seq<Point2D>, player: Point2D) -> u64;

/// Hashes the crate positions and then the player position with a
/// `DefaultHasher` made by `DefaultHasher::new`, whose keys are fixed: the
/// same positions give the same hash. Which number that is depends on the
/// release of the standard library and on the width of `usize`; nothing is
/// stated of it beyond its being a function of the positions.
#[verifier::external_body]
fn hash_state(crates: &Vec<Point2D>, player: &Point2D) -> (h: u64)
    ensures
        h == state_hash(crates@, *player),
{
    let mut s = DefaultHasher::new();
    crates.hash(&mut s);
    player.hash(&mut s);
    s.finish()
}

/// A search node: a puzzle state reached by a number of pushes.
pub struct Node {
    pub action: Action,
    pub map: TileMatrix,
    pub crates: Vec<Point2D>,
    pub player: Point2D,
    /// The number of pushes from the root.
    pub g: usize,
    /// The heuristic estimate of the pushes still needed.
    pub h: usize,
    /// `state_hash` of the crates and the player.
    pub hash: u64,
}

/// Two nodes with the same fields (grids and crate lists by their contents).
pub open spec fn same_node(a: Node, b: Node) -> bool {
    &&& a.action == b.action
    &&& a.map.width == b.map.width
    &&& a.map.data@ == b.map.data@
    &&& a.crates@ == b.crates@
    &&& a.player == b.player
    &&& a.g == b.g
    &&& a.h == b.h
    &&& a.hash == b.hash
}

impl Clone for Node {
    fn clone(&self) -> (r: Node)
        ensures
            same_node(r, *self),
    {
        let mut crates: Vec<Point2D> = Vec::new();
        let mut i: usize = 0;
        while i < self.crates.len()
            invariant
                i <= self.crates@.len(),
                crates@ == self.crates@.subrange(0, i as int),
            decreases self.crates@.len() - i,
        {
            crates.push(self.crates[i]);
            i = i + 1;
        }
        assert(crates@ =~= self.crates@);
        Node {
            action: self.action,
            map: self.map.clone(),
            crates,
            player: self.player,
            g: self.g,
            h: self.h,
            hash: self.hash,
        }
    }
}

/// The tile `dx` columns and `dy` rows away from `p` in a grid of width `w`.
pub open spec fn tile_off(w: usize, cells: Seq<Tile>, p: Point2D, dx: int, dy: int) -> Tile {
    cells[(p.y + dy) * w + p.x + dx]
}

/// The 2x2 block that holds `p` and lies towards `(dx, dy)` (each -1 or 1)
/// is frozen: its three other tiles are walls or crates.
pub open spec fn block_freezable(w: usize, cells: Seq<Tile>, p: Point2D, dx: int, dy: int) -> bool {
    &&& tile_off(w, cells, p, dx, 0).spec_freezable()
    &&& tile_off(w, cells, p, 0, dy).spec_freezable()
    &&& tile_off(w, cells, p, dx, dy).spec_freezable()
}

/// One of the three other tiles of that block is a crate off its goal.
pub open spec fn block_has_pure_crate(w: usize, cells: Seq<Tile>, p: Point2D, dx: int, dy: int) -> bool {
    ||| tile_off(w, cells, p, dx, 0) is Crate
    ||| tile_off(w, cells, p, 0, dy) is Crate
    ||| tile_off(w, cells, p, dx, dy) is Crate
}

/// A crate at `p` that can never move again in a way that matters: a crate
/// off its goal in a corner of walls or in a frozen 2x2 block, or a crate on
/// its goal in a frozen 2x2 block that also holds a crate off its goal.
pub open spec fn freeze_deadlock(w: usize, cells: Seq<Tile>, p: Point2D) -> bool {
    match cells[index_of(w, p)] {
        Tile::CrateGoal => {
            ||| block_freezable(w, cells, p, -1, -1) && block_has_pure_crate(w, cells, p, -1, -1)
            ||| block_freezable(w, cells, p, 1, -1) && block_has_pure_crate(w, cells, p, 1, -1)
            ||| block_freezable(w, cells, p, -1, 1) && block_has_pure_crate(w, cells, p, -1, 1)
            ||| block_freezable(w, cells, p, 1, 1) && block_has_pure_crate(w, cells, p, 1, 1)
        },
        Tile::Crate => {
            ||| tile_off(w, cells, p, 0, -1) is Wall && tile_off(w, cells, p, -1, 0) is Wall
            ||| tile_off(w, cells, p, 0, -1) is Wall && tile_off(w, cells, p, 1, 0) is Wall
            ||| tile_off(w, cells, p, -1, 0) is Wall && tile_off(w, cells, p, 0, 1) is Wall
            ||| tile_off(w, cells, p, 1, 0) is Wall && tile_off(w, cells, p, 0, 1) is Wall
            ||| block_freezable(w, cells, p, -1, -1)
            ||| block_freezable(w, cells, p, 1, -1)
            ||| block_freezable(w, cells, p, -1, 1)
            ||| block_freezable(w, cells, p, 1, 1)
        },
        _ => false,
    }
}

/// A wall or a crate, on its goal or not: what holds a crate in place.
pub open spec fn holds_in_place(t: Tile) -> bool {
    t is Wall || t is Crate || t is CrateGoal
}

/// The 2x2 block of the cell at index `k` that reaches `dx` columns (-1 or
/// 1) and `dr` places (minus or plus the width: one row up or down) away:
/// its three other cells hold it in place.
pub open spec fn block_held(cells: Seq<Tile>, k: int, dx: int, dr: int) -> bool {
    &&& holds_in_place(cells[k + dx])
    &&& holds_in_place(cells[k + dr])
    &&& holds_in_place(cells[k + dr + dx])
}

/// Freeze detection misses no frozen crate: a crate off its goal whose two
/// neighbours on one corner (above or below, and left or right) are walls
/// is frozen, and so is one whose 2x2 block on any corner is otherwise
/// walls and crates; a crate on its goal is frozen when one of its 2x2
/// blocks is otherwise walls and crates with a crate off its goal among
/// them.
pub proof fn lemma_freeze_complete(w: usize, cells: Seq<Tile>, p: Point2D)
    ensures
        ({
            let k = index_of(w, p);
            let wi = w as int;
            cells[k] is Crate ==> (
                (cells[k - wi] is Wall && cells[k - 1] is Wall ==> freeze_deadlock(w, cells, p))
                && (cells[k - wi] is Wall && cells[k + 1] is Wall ==> freeze_deadlock(w, cells, p))
                && (cells[k + wi] is Wall && cells[k - 1] is Wall ==> freeze_deadlock(w, cells, p))
                && (cells[k + wi] is Wall && cells[k + 1] is Wall ==> freeze_deadlock(w, cells, p))
                && (forall|dx: int, dr: int|
                    (dx == -1 || dx == 1) && (dr == -wi || dr == wi) && #[trigger] block_held(cells, k, dx, dr)
                        ==> freeze_deadlock(w, cells, p)))
        }),
        ({
            let k = index_of(w, p);
            let wi = w as int;
            cells[k] is CrateGoal ==> forall|dx: int, dr: int|
                (dx == -1 || dx == 1) && (dr == -wi || dr == wi) && #[trigger] block_held(cells, k, dx, dr) && (
                cells[k + dx] is Crate || cells[k + dr] is Crate || cells[k + dr + dx] is Crate)
                    ==> freeze_deadlock(w, cells, p)
        }),
{
    let k = index_of(w, p);
    let wi = w as int;
    let (x, y) = (p.x as int, p.y as int);
    assert((y - 1) * wi + x == k - wi) by (nonlinear_arith)
        requires
            k == y * wi + x,
    ;
    assert((y + 1) * wi + x == k + wi) by (nonlinear_arith)
        requires
            k == y * wi + x,
    ;
}

impl Node {
    /// The root node of a search.
    pub fn default(map: TileMatrix, crates: Vec<Point2D>, player: Point2D) -> (n: Node)
        ensures
            n.action == Action::NoMove,
            n.map == map,
            n.crates == crates,
            n.player == player,
            n.g == 0,
            n.h == 0,
            n.hash == state_hash(crates@, player),
    {
        let hash = Node::hash(&crates, &player);
        Node { action: Action::NoMove, map, crates, player, g: 0, h: 0, hash }
    }

    /// A node reached by `action`, `g` pushes from the root.
    pub fn make_new(action: Action, map: TileMatrix, crates: Vec<Point2D>, player: Point2D, g: usize) -> (n: Node)
        ensures
            n.action == action,
            n.map == map,
            n.crates == crates,
            n.player == player,
            n.g == g,
            n.h == 0,
            n.hash == state_hash(crates@, player),
    {
        let hash = Node::hash(&crates, &player);
        Node { action, map, crates, player, g, h: 0, hash }
    }

    // hashes crate positions & player position.
    fn hash(crates: &Vec<Point2D>, player: &Point2D) -> (h: u64)
        ensures
            h == state_hash(crates@, *player),
    {
        hash_state(crates, player)
    }

    /// Freeze deadlock detection around the crate that was just moved.
    pub fn is_deadlocked(&self, moved_crate: Point2D) -> (r: bool)
        requires
            1 <= moved_crate.x,
            1 <= moved_crate.y,
            index_of(self.map.width, moved_crate) + self.map.width + 1 < self.map.data@.len(),
            self.map.data@.len() <= usize::MAX,
        ensures
            r == freeze_deadlock(self.map.width, self.map.data@, moved_crate),
    {
        let m = &self.map;
        let w = m.width;
        let c = moved_crate;
        let ghost (gw, gc) = (self.map.width, self.map.data@);
        proof {
            let (x, y, wi) = (c.x as int, c.y as int, w as int);
            assert((y - 1) * wi == y * wi - wi) by (nonlinear_arith);
            assert((y + 1) * wi == y * wi + wi) by (nonlinear_arith);
            assert(y * wi >= wi) by (nonlinear_arith)
                requires
                    y >= 1,
                    wi >= 0,
            ;
        }
        let i = c.y * w + c.x;
        let t_ul = m.data[i - w - 1];
        let t_u = m.data[i - w];
        let t_ur = m.data[i - w + 1];
        let t_l = m.data[i - 1];
        let t_r = m.data[i + 1];
        let t_dl = m.data[i + w - 1];
        let t_d = m.data[i + w];
        let t_dr = m.data[i + w + 1];
        assert(t_ul == tile_off(gw, gc, c, -1, -1));
        assert(t_u == tile_off(gw, gc, c, 0, -1));
        assert(t_ur == tile_off(gw, gc, c, 1, -1));
        assert(t_l == tile_off(gw, gc, c, -1, 0));
        assert(t_r == tile_off(gw, gc, c, 1, 0));
        assert(t_dl == tile_off(gw, gc, c, -1, 1));
        assert(t_d == tile_off(gw, gc, c, 0, 1));
        assert(t_dr == tile_off(gw, gc, c, 1, 1));
        match m.data[i] {
            Tile::CrateGoal => {
                if t_ul.is_freezable() && t_u.is_freezable() && t_l.is_freezable() && (t_ul.is_pure_crate()
                    || t_u.is_pure_crate() || t_l.is_pure_crate()) {
                    return true;
                } else if t_u.is_freezable() && t_ur.is_freezable() && t_r.is_freezable() && (t_u.is_pure_crate()
                    || t_ur.is_pure_crate() || t_r.is_pure_crate()) {
                    return true;
                } else if t_l.is_freezable() && t_dl.is_freezable() && t_d.is_freezable() && (t_l.is_pure_crate()
                    || t_dl.is_pure_crate() || t_d.is_pure_crate()) {
                    return true;
                } else if t_r.is_freezable() && t_d.is_freezable() && t_dr.is_freezable() && (t_r.is_pure_crate()
                    || t_d.is_pure_crate() || t_dr.is_pure_crate()) {
                    return true;
                }
            },
            Tile::Crate => {
                if t_u == Tile::Wall && t_l == Tile::Wall {
                    return true;
                } else if t_u == Tile::Wall && t_r == Tile::Wall {
                    return true;
                } else if t_l == Tile::Wall && t_d == Tile::Wall {
                    return true;
                } else if t_r == Tile::Wall && t_d == Tile::Wall {
                    return true;
                }
                if t_ul.is_freezable() && t_u.is_freezable() && t_l.is_freezable() {
                    return true;
                } else if t_u.is_freezable() && t_ur.is_freezable() && t_r.is_freezable() {
                    return true;
                } else if t_l.is_freezable() && t_dl.is_freezable() && t_d.is_freezable() {
                    return true;
                } else if t_r.is_freezable() && t_d.is_freezable() && t_dr.is_freezable() {
                    return true;
                }
            },
            _ => (),
        }
        false
    }
}


#[verifier::external_type_specification]
#[verifier::external_body]
pub struct ExInstant(Instant);

/// `Instant::now`: the current time; nothing is stated of it.
#[verifier::external_body]
fn now() -> (t: Instant) {
    Instant::now()
}

/// `Instant::elapsed` in whole seconds (`Duration::as_secs`); it depends on
/// the clock, so nothing is stated of it.
#[verifier::external_body]
fn elapsed_secs(t: &Instant) -> (secs: u64) {
    t.elapsed().as_secs()
}

/// The estimate the search orders and bounds nodes by.
#[derive(Copy, Clone, PartialEq, Eq, Structural, Debug)]
pub enum Heuristic {
    /// Sum over goals of the distance from the closest crate.
    ClosestBox,
    /// Number of goals without a crate.
    GoalCount,
    /// What reducing the rows and then the columns of the crate-to-goal
    /// distances takes off them.
    GreedyPerfectMatch,
}

/// The heuristic can be computed on this puzzle without overflowing or
/// indexing out of range: the greedy match pairs every crate with a goal, and
/// closest-box needs a crate as soon as there are two goals.
pub open spec fn heuristic_fits(heuristic: Heuristic, cells: Seq<Tile>) -> bool {
    match heuristic {
        Heuristic::ClosestBox => crate_tiles(cells) > 0 || goal_tiles(cells) <= 1,
        Heuristic::GoalCount => true,
        Heuristic::GreedyPerfectMatch => goal_tiles(cells) == crate_tiles(cells),
    }
}

/// A puzzle that the solver can work on: every piece (player, crate,
/// goal) lies inside one enclosure, there is a player, and the grid is
/// small enough for sums of distances to fit in `usize`.
pub open spec fn solvable_shape(puzzle: TileMatrix) -> bool {
    &&& exists|s: Set<Point2D>| #[trigger] is_enclosure(puzzle, s) && pieces_in(puzzle, s)
    &&& exists|i: int| 0 <= i < puzzle.data@.len() && (#[trigger] puzzle.data@[i] is Player || puzzle.data@[i] is PlayerGoal)
    &&& puzzle.data@.len() * puzzle.data@.len() <= usize::MAX
    &&& puzzle.width > 0
}

/// Every cell within the rows that is neither wall nor floor is in `s`.
pub open spec fn pieces_in(puzzle: TileMatrix, s: Set<Point2D>) -> bool {
    forall|p: Point2D|
        canonical(puzzle, p) && !(puzzle.tile(p) is Wall) && !(puzzle.tile(p) is Floor) ==> #[trigger] s.contains(p)
}

/// A cell within the rows that is neither wall nor floor.
pub open spec fn is_piece(m: TileMatrix, p: Point2D) -> bool {
    canonical(m, p) && !(m.tile(p) is Wall) && !(m.tile(p) is Floor)
}

/// `t` holds every piece and every neighbour that is not a wall of each of
/// its interior members.
pub open spec fn piece_closed(m: TileMatrix, t: Set<Point2D>) -> bool {
    &&& forall|p: Point2D| is_piece(m, p) ==> #[trigger] t.contains(p)
    &&& forall|p: Point2D, d: Action|
        #![trigger t.contains(p), step(p, d)]
        t.contains(p) && interior(m, p) && is_dir(d) && m.tile(step(p, d)) != Tile::Wall ==> t.contains(step(p, d))
}

/// The cells reached from the pieces without crossing a wall (stopping at
/// the cells that are not interior).
pub open spec fn piece_reach(m: TileMatrix) -> Set<Point2D> {
    Set::new(|q: Point2D| forall|t: Set<Point2D>| piece_closed(m, t) ==> #[trigger] t.contains(q))
}

/// The pieces lie in one enclosure exactly when everything reached from them
/// without crossing a wall is interior.
proof fn lemma_enclosed_pieces(m: TileMatrix)
    requires
        m.data@.len() <= usize::MAX,
    ensures
        (exists|s: Set<Point2D>| #[trigger] is_enclosure(m, s) && pieces_in(m, s)) <==> (forall|q: Point2D|
            #[trigger] piece_reach(m).contains(q) ==> interior(m, q)),
{
    if exists|s: Set<Point2D>| #[trigger] is_enclosure(m, s) && pieces_in(m, s) {
        let s = choose|s: Set<Point2D>| #[trigger] is_enclosure(m, s) && pieces_in(m, s);
        assert(piece_closed(m, s)) by {
            assert forall|p: Point2D, d: Action|
                #![trigger s.contains(p), step(p, d)]
                s.contains(p) && interior(m, p) && is_dir(d) && m.tile(step(p, d)) != Tile::Wall implies s.contains(
                step(p, d),
            ) by {}
        }
        assert forall|q: Point2D| #[trigger] piece_reach(m).contains(q) implies interior(m, q) by {
            assert(s.contains(q));
            lemma_enclosed_interior(m, s, q);
        }
    }
    if forall|q: Point2D| #[trigger] piece_reach(m).contains(q) ==> interior(m, q) {
        let s = piece_reach(m);
        assert forall|p: Point2D, d: Action|
            #![trigger s.contains(p), step(p, d)]
            s.contains(p) implies interior(m, p) && (is_dir(d) && m.tile(step(p, d)) != Tile::Wall ==> s.contains(
                step(p, d),
            )) by {
            if is_dir(d) && m.tile(step(p, d)) != Tile::Wall {
                assert forall|t: Set<Point2D>| piece_closed(m, t) implies #[trigger] t.contains(step(p, d)) by {
                    assert(t.contains(p));
                }
            }
        }
        assert(is_enclosure(m, s));
        assert forall|p: Point2D| is_piece(m, p) implies #[trigger] s.contains(p) by {
            assert forall|t: Set<Point2D>| piece_closed(m, t) implies #[trigger] t.contains(p) by {}
        }
        assert(pieces_in(m, s));
    }
}

/// Whether every piece of `m` (player, crate, goal) lies in one enclosure:
/// the cells reached from them without crossing a wall are all interior.
pub fn pieces_enclosed(m: &TileMatrix) -> (r: bool)
    ensures
        r == exists|s: Set<Point2D>| #[trigger] is_enclosure(*m, s) && pieces_in(*m, s),
{
    let len = m.data.len();
    let w = m.width;
    proof {
        lemma_enclosed_pieces(*m);
    }
    if w == 0 {
        proof {
            assert forall|q: Point2D| #[trigger] piece_reach(*m).contains(q) implies interior(*m, q) by {
                let t = Set::<Point2D>::empty();
                assert(piece_closed(*m, t));
                assert(!t.contains(q));
            }
        }
        return true;
    }
    let mut visited = BitMatrix::new(w, len);
    let mut stack: Vec<Point2D> = Vec::new();
    let ghost mut n: Set<Point2D> = Set::empty();
    let ghost mut done: Set<Point2D> = Set::empty();
    let mut i: usize = 0;
    while i < len
        invariant
            i <= len,
            len == m.data@.len(),
            w == m.width,
            w > 0,
            visited.width == w,
            visited.bits().len() == len,
            forall|p: Point2D| canonical(*m, p) ==> #[trigger] visited.flag(p) == n.contains(p),
            forall|p: Point2D| #[trigger] n.contains(p) ==> canonical(*m, p) && piece_reach(*m).contains(p),
            forall|p: Point2D| #[trigger] n.contains(p) ==> stack@.contains(p),
            forall|k: int| 0 <= k < stack@.len() ==> n.contains(#[trigger] stack@[k]),
            forall|p: Point2D| is_piece(*m, p) && index_of(w, p) < i ==> #[trigger] n.contains(p),
            done.is_empty(),
        decreases len - i,
    {
        proof {
            lemma_cell_point(*m, i as int);
        }
        let t = m.data[i];
        if t != Tile::Wall && t != Tile::Floor {
            let p = Point2D::new(i % w, i / w);
            assert(p == cell_point(w, i as int));
            proof {
                assert(is_piece(*m, p));
                assert forall|tt: Set<Point2D>| piece_closed(*m, tt) implies #[trigger] tt.contains(p) by {}
                assert(piece_reach(*m).contains(p));
            }
            let ghost pre_stack = stack@;
            let ghost pre = visited.bits();
            assert forall|q: Point2D| canonical(*m, q) implies pre[index_of(w, q)] == n.contains(q) by {
                assert(visited.flag(q) == n.contains(q));
            }
            visited.set(p, true);
            stack.push(p);
            proof {
                assert forall|q: Point2D| canonical(*m, q) implies #[trigger] visited.flag(q) == n.insert(p).contains(q) by {
                    if q != p && index_of(w, q) == index_of(w, p) {
                        lemma_index_injective(w, q, p);
                    }
                }
                assert forall|q: Point2D| #[trigger] n.insert(p).contains(q) implies stack@.contains(q) by {
                    if q == p {
                        assert(stack@[stack@.len() - 1] == p);
                    } else {
                        let k = choose|k: int| 0 <= k < pre_stack.len() && pre_stack[k] == q;
                        assert(stack@[k] == q);
                    }
                }
                n = n.insert(p);
            }
        }
        proof {
            assert forall|p: Point2D| is_piece(*m, p) && index_of(w, p) < i + 1 implies #[trigger] n.contains(p) by {
                if index_of(w, p) == i {
                    lemma_index_injective(w, p, cell_point(w, i as int));
                }
            }
        }
        i = i + 1;
    }
    while stack.len() > 0
        invariant
            len == m.data@.len(),
            w == m.width,
            w > 0,
            visited.width == w,
            visited.bits().len() == len,
            forall|p: Point2D| canonical(*m, p) ==> #[trigger] visited.flag(p) == n.contains(p),
            forall|p: Point2D| #[trigger] n.contains(p) ==> canonical(*m, p) && piece_reach(*m).contains(p),
            forall|p: Point2D| #[trigger] n.contains(p) ==> stack@.contains(p) || done.contains(p),
            forall|k: int| 0 <= k < stack@.len() ==> n.contains(#[trigger] stack@[k]),
            forall|p: Point2D| is_piece(*m, p) ==> #[trigger] n.contains(p),
            forall|p: Point2D, d: Action|
                #![trigger done.contains(p), step(p, d)]
                done.contains(p) ==> interior(*m, p) && (is_dir(d) && m.tile(step(p, d)) != Tile::Wall ==> n.contains(
                    step(p, d),
                )),
            forall|p: Point2D| #[trigger] done.contains(p) ==> n.contains(p),
        decreases count_false(visited.bits()) * 5 + stack@.len(),
    {
        let ghost old_stack = stack@;
        let p = stack.pop().unwrap();
        assert(n.contains(old_stack[old_stack.len() - 1]));
        proof {
            assert forall|q: Point2D| old_stack.contains(q) && q != p implies stack@.contains(q) by {
                let k = choose|k: int| 0 <= k < old_stack.len() && old_stack[k] == q;
                assert(stack@[k] == q);
            }
        }
        let ix = p.y * w + p.x;
        if !(p.x >= 1 && p.x + 1 < w && p.y >= 1 && len - ix > 1 && w < len - ix - 1) {
            proof {
                assert(!interior(*m, p));
                assert(piece_reach(*m).contains(p));
                lemma_enclosed_pieces(*m);
            }
            return false;
        }
        let ghost before = visited.bits();
        let ghost popped_len = stack@.len();
        let ghost mut marked: nat = 0;
        let dirs = [Action::Left, Action::Right, Action::Up, Action::Down];
        let mut k: usize = 0;
        while k < 4
            invariant
                0 <= k <= 4,
                dirs@ == seq![Action::Left, Action::Right, Action::Up, Action::Down],
                len == m.data@.len(),
                w == m.width,
                w > 0,
                interior(*m, p),
                n.contains(p),
                visited.width == w,
                visited.bits().len() == len,
                forall|q: Point2D| canonical(*m, q) ==> #[trigger] visited.flag(q) == n.contains(q),
                forall|q: Point2D| #[trigger] n.contains(q) ==> canonical(*m, q) && piece_reach(*m).contains(q),
                forall|q: Point2D| #[trigger] n.contains(q) ==> stack@.contains(q) || done.contains(q) || q == p,
                forall|j: int| 0 <= j < stack@.len() ==> n.contains(#[trigger] stack@[j]),
                forall|q: Point2D| is_piece(*m, q) ==> #[trigger] n.contains(q),
                forall|q: Point2D, d: Action|
                    #![trigger done.contains(q), step(q, d)]
                    done.contains(q) ==> interior(*m, q) && (is_dir(d) && m.tile(step(q, d)) != Tile::Wall
                        ==> n.contains(step(q, d))),
                forall|q: Point2D| #[trigger] done.contains(q) ==> n.contains(q),
                forall|j: int|
                    0 <= j < k && m.tile(step(p, #[trigger] dirs@[j])) != Tile::Wall ==> n.contains(step(p, dirs@[j])),
                count_false(visited.bits()) + marked == count_false(before),
                stack@.len() == popped_len + marked,
                marked <= k,
            decreases 4 - k,
        {
            let d = dirs[k];
            proof {
                lemma_interior_step(*m, p, d);
            }
            let q = p.from(d);
            if m.get(q) != Tile::Wall && visited.get(q).unwrap() == false {
                proof {
                    assert(!n.contains(q));
                    assert forall|tt: Set<Point2D>| piece_closed(*m, tt) implies #[trigger] tt.contains(q) by {
                        assert(tt.contains(p));
                    }
                    lemma_count_false_set(visited.bits(), index_of(w, q));
                }
                let ghost pre_stack = stack@;
                let ghost pre = visited.bits();
                assert forall|r: Point2D| canonical(*m, r) implies pre[index_of(w, r)] == n.contains(r) by {
                    assert(visited.flag(r) == n.contains(r));
                }
                visited.set(q, true);
                stack.push(q);
                proof {
                    assert(stack@[stack@.len() - 1] == q);
                    assert forall|r: Point2D| pre_stack.contains(r) implies stack@.contains(r) by {
                        let j = choose|j: int| 0 <= j < pre_stack.len() && pre_stack[j] == r;
                        assert(stack@[j] == r);
                    }
                    assert forall|r: Point2D| canonical(*m, r) implies #[trigger] visited.flag(r) == n.insert(q).contains(r) by {
                        if r != q && index_of(w, r) == index_of(w, q) {
                            lemma_index_injective(w, r, q);
                        }
                    }
                    n = n.insert(q);
                    marked = marked + 1;
                }
            }
            k = k + 1;
        }
        proof {
            assert forall|d: Action| is_dir(d) && m.tile(step(p, d)) != Tile::Wall implies n.contains(step(p, d)) by {
                if d is Left {
                    assert(dirs@[0] == d);
                } else if d is Right {
                    assert(dirs@[1] == d);
                } else if d is Up {
                    assert(dirs@[2] == d);
                } else {
                    assert(dirs@[3] == d);
                }
            }
            done = done.insert(p);
        }
    }
    proof {
        assert(piece_closed(*m, n)) by {
            assert forall|p: Point2D, d: Action|
                #![trigger n.contains(p), step(p, d)]
                n.contains(p) && interior(*m, p) && is_dir(d) && m.tile(step(p, d)) != Tile::Wall implies n.contains(
                step(p, d),
            ) by {
                assert(done.contains(p));
            }
        }
        assert forall|q: Point2D| #[trigger] piece_reach(*m).contains(q) implies interior(*m, q) by {
            assert(piece_closed(*m, n) ==> n.contains(q));
            assert(n.contains(q));
            assert(done.contains(q));
            assert(done.contains(q) ==> interior(*m, q) && (is_dir(Action::Up) && m.tile(step(q, Action::Up))
                != Tile::Wall ==> n.contains(step(q, Action::Up))));
        }
        lemma_enclosed_pieces(*m);
    }
    true
}

/// Whether `IDAStarSolver::new` can take `puzzle` with `heuristic`: the
/// pieces lie in one enclosure, there is a player, the grid is small enough,
/// and the heuristic fits the numbers of goals and crates.
pub fn puzzle_fits(puzzle: &TileMatrix, heuristic: Heuristic) -> (r: bool)
    ensures
        r == (solvable_shape(*puzzle) && heuristic_fits(heuristic, puzzle.data@)),
{
    let len = puzzle.data.len();
    if puzzle.width == 0 {
        return false;
    }
    if len.checked_mul(len).is_none() {
        return false;
    }
    let ghost cells = puzzle.data@;
    let mut has_player = false;
    let mut goals: usize = 0;
    let mut crates: usize = 0;
    let mut i: usize = 0;
    while i < len
        invariant
            i <= len,
            len == cells.len(),
            cells == puzzle.data@,
            has_player == exists|j: int| 0 <= j < i && (#[trigger] cells[j] is Player || cells[j] is PlayerGoal),
            goals == goal_tiles(cells.subrange(0, i as int)),
            crates == crate_tiles(cells.subrange(0, i as int)),
            goals <= i,
            crates <= i,
        decreases len - i,
    {
        proof {
            assert(cells.subrange(0, i + 1).drop_last() =~= cells.subrange(0, i as int));
        }
        let t = puzzle.data[i];
        if t == Tile::Player || t == Tile::PlayerGoal {
            has_player = true;
        }
        if t == Tile::Goal || t == Tile::PlayerGoal || t == Tile::CrateGoal {
            goals = goals + 1;
        }
        if t == Tile::Crate || t == Tile::CrateGoal {
            crates = crates + 1;
        }
        i = i + 1;
    }
    assert(cells.subrange(0, len as int) =~= cells);
    if !has_player {
        return false;
    }
    let fits = match heuristic {
        Heuristic::ClosestBox => crates > 0 || goals <= 1,
        Heuristic::GoalCount => true,
        Heuristic::GreedyPerfectMatch => goals == crates,
    };
    if !fits {
        return false;
    }
    pieces_enclosed(puzzle)
}

/// The flags of a fresh walk map that marks only the player.
pub open spec fn player_marks(m: TileMatrix, player: Point2D) -> Seq<bool> {
    Seq::new(m.data@.len(), |j: int| j == index_of(m.width, player))
}

/// The `i`-th crate of `parent` can be pushed in the direction of `a`: the
/// player can walk to the cell behind it, the cell in front of it is
/// neither wall nor crate nor a simple deadlock, and the pushed crate does
/// not end up frozen in a deadlock.
pub open spec fn push_possible(parent: Node, sdl: BitMatrix, i: int, a: Action) -> bool {
    let m = parent.map;
    let c = parent.crates@[i];
    let ce = step(c, a);
    let ps = step(c, spec_inverse(a));
    &&& is_push(a)
    &&& 0 <= i < parent.crates@.len()
    &&& can_step(c, a)
    &&& can_step(c, spec_inverse(a))
    &&& (ps == parent.player || walk_reach(m, player_marks(m, parent.player), parent.player).contains(ps))
    &&& sdl.flag(ce)
    &&& !(m.tile(ce) is Wall || m.tile(ce) is Crate || m.tile(ce) is CrateGoal)
    &&& !freeze_deadlock(m.width, pushed_cells(m.data@, m.width, a, c, m.data@, parent.player), ce)
}

/// The player can get behind the `i`-th crate of `parent` to push it in the
/// direction of `a`.
pub open spec fn push_reachable(parent: Node, i: int, a: Action) -> bool {
    let m = parent.map;
    let c = parent.crates@[i];
    let ps = step(c, spec_inverse(a));
    &&& is_push(a)
    &&& 0 <= i < parent.crates@.len()
    &&& can_step(c, a)
    &&& can_step(c, spec_inverse(a))
    &&& (ps == parent.player || walk_reach(m, player_marks(m, parent.player), parent.player).contains(ps))
}

/// The push is left out because the crate would land on a simple deadlock.
pub open spec fn push_skipped(parent: Node, sdl: BitMatrix, i: int, a: Action) -> bool {
    push_reachable(parent, i, a) && !sdl.flag(step(parent.crates@[i], a))
}

/// The push is left out because the pushed crate would be frozen.
pub open spec fn push_frozen(parent: Node, sdl: BitMatrix, i: int, a: Action) -> bool {
    let m = parent.map;
    let c = parent.crates@[i];
    let ce = step(c, a);
    &&& push_reachable(parent, i, a)
    &&& sdl.flag(ce)
    &&& !(m.tile(ce) is Wall || m.tile(ce) is Crate || m.tile(ce) is CrateGoal)
    &&& freeze_deadlock(m.width, pushed_cells(m.data@, m.width, a, c, m.data@, parent.player), ce)
}

/// How many of the first `n` tries from `nd` (crate by crate, right, left,
/// down, up) land a crate on a simple deadlock.
pub open spec fn skipped_tries(nd: Node, sdl: BitMatrix, n: int) -> int
    decreases n,
{
    if n <= 0 {
        0
    } else {
        skipped_tries(nd, sdl, n - 1) + if push_skipped(nd, sdl, (n - 1) / 4, push_dir((n - 1) % 4)) {
            1int
        } else {
            0int
        }
    }
}

/// How many of the first `n` tries from `nd` would freeze the pushed crate.
pub open spec fn frozen_tries(nd: Node, sdl: BitMatrix, n: int) -> int
    decreases n,
{
    if n <= 0 {
        0
    } else {
        frozen_tries(nd, sdl, n - 1) + if push_frozen(nd, sdl, (n - 1) / 4, push_dir((n - 1) % 4)) {
            1int
        } else {
            0int
        }
    }
}

/// One more try counts the skipped and the frozen pushes it makes.
proof fn lemma_try_counted(nd: Node, sdl: BitMatrix, i: int, k: int)
    requires
        0 <= i,
        0 <= k < 4,
    ensures
        skipped_tries(nd, sdl, 4 * i + k + 1) == skipped_tries(nd, sdl, 4 * i + k) + if push_skipped(
            nd,
            sdl,
            i,
            push_dir(k),
        ) {
            1int
        } else {
            0int
        },
        frozen_tries(nd, sdl, 4 * i + k + 1) == frozen_tries(nd, sdl, 4 * i + k) + if push_frozen(
            nd,
            sdl,
            i,
            push_dir(k),
        ) {
            1int
        } else {
            0int
        },
{
    let n = 4 * i + k + 1;
    assert((n - 1) / 4 == i && (n - 1) % 4 == k);
}

/// `child` is `parent` after pushing its `i`-th crate in the direction of `a`.
pub open spec fn push_ok(parent: Node, child: Node, sdl: BitMatrix, i: int, a: Action) -> bool {
    let m = parent.map;
    let c = parent.crates@[i];
    &&& push_possible(parent, sdl, i, a)
    &&& child.map.width == m.width
    &&& child.map.data@ == pushed_cells(m.data@, m.width, a, c, m.data@, parent.player)
    &&& child.crates@ == parent.crates@.update(i, step(c, a))
    &&& child.player == c
    &&& child.action == a
    &&& child.g == parent.g + 1
    &&& child.hash == state_hash(child.crates@, child.player)
}

/// `child` is a push successor of `parent`.
pub open spec fn is_successor(parent: Node, child: Node, sdl: BitMatrix) -> bool {
    exists|i: int, a: Action| push_ok(parent, child, sdl, i, a)
}

/// The `i`-th crate of `parent` can be pushed in the direction of `a` by
/// the rules of the game alone: the player can walk to the cell behind it
/// and the cell in front of it is neither wall nor crate.
pub open spec fn push_allowed(parent: Node, i: int, a: Action) -> bool {
    let m = parent.map;
    let c = parent.crates@[i];
    let ce = step(c, a);
    let ps = step(c, spec_inverse(a));
    &&& is_push(a)
    &&& 0 <= i < parent.crates@.len()
    &&& can_step(c, a)
    &&& can_step(c, spec_inverse(a))
    &&& (ps == parent.player || walk_reach(m, player_marks(m, parent.player), parent.player).contains(ps))
    &&& !(m.tile(ce) is Wall || m.tile(ce) is Crate || m.tile(ce) is CrateGoal)
}

/// `child` is `parent` after pushing its `i`-th crate in the direction of
/// `a` by the rules of the game alone.
pub open spec fn push_moves(parent: Node, child: Node, i: int, a: Action) -> bool {
    let m = parent.map;
    let c = parent.crates@[i];
    &&& push_allowed(parent, i, a)
    &&& child.map.width == m.width
    &&& child.map.data@ == pushed_cells(m.data@, m.width, a, c, m.data@, parent.player)
    &&& child.crates@ == parent.crates@.update(i, step(c, a))
    &&& child.player == c
    &&& child.action == a
    &&& child.g == parent.g + 1
    &&& child.hash == state_hash(child.crates@, child.player)
}

/// A run of pushes from the grid `root` by the rules of the game alone: it
/// starts on `root` with no push made, node `i` has made `i` pushes, every
/// node is well placed and has the crate count of the first, and each node
/// is the one before with one crate pushed.
pub open spec fn run_ok(chain: Seq<Node>, root: TileMatrix, s: Set<Point2D>) -> bool {
    &&& chain.len() >= 1
    &&& chain[0].map.width == root.width
    &&& chain[0].map.data@ == root.data@
    &&& forall|i: int| 0 <= i < chain.len() ==> node_ok(#[trigger] chain[i], root, s)
    &&& forall|i: int| 0 <= i < chain.len() ==> (#[trigger] chain[i]).g == i
    &&& forall|i: int| 0 <= i < chain.len() ==> (#[trigger] chain[i]).crates@.len() == chain[0].crates@.len()
    &&& forall|i: int|
        #![trigger chain[i]]
        1 <= i < chain.len() ==> moved_by_push(chain[i - 1], chain[i])
}

/// `child` is `parent` with one crate pushed by the rules of the game.
pub open spec fn moved_by_push(parent: Node, child: Node) -> bool {
    exists|j: int, a: Action| #![trigger push_moves(parent, child, j, a)] push_moves(parent, child, j, a)
}

/// A node of a search on a puzzle whose walls are those of `root` and whose
/// enclosure is `s`: player and crates inside, on their tiles, crates
/// distinct.
pub open spec fn node_ok(n: Node, root: TileMatrix, s: Set<Point2D>) -> bool {
    &&& same_walls(root, n.map)
    &&& s.contains(n.player)
    &&& (n.map.tile(n.player) is Player || n.map.tile(n.player) is PlayerGoal)
    &&& forall|i: int| 0 <= i < n.crates@.len() ==> #[trigger] s.contains(n.crates@[i])
    &&& forall|i: int|
        0 <= i < n.crates@.len() ==> (n.map.tile(#[trigger] n.crates@[i]) is Crate || n.map.tile(n.crates@[i]) is CrateGoal)
    &&& n.crates@.no_duplicates()
    &&& n.hash == state_hash(n.crates@, n.player)
}

/// A solved state: no crate stands off a goal.
pub open spec fn is_solved(m: TileMatrix) -> bool {
    forall|j: int| 0 <= j < m.data@.len() ==> !(#[trigger] m.data@[j] is Crate)
}

/// Sum of `g` and `h`, saturated at `usize::MAX`.
pub open spec fn f_cost(n: Node) -> int {
    if n.g + n.h > usize::MAX {
        usize::MAX as int
    } else {
        n.g + n.h
    }
}

/// The search is over only after some reading of the clock was past the
/// time limit.
#[verifier::opaque]
pub open spec fn over_after_reading(over: bool, readings: Seq<u64>) -> bool {
    over ==> exists|i: int| 0 <= i < readings.len() && #[trigger] readings[i] > TIME_LIMIT
}

/// What a search returns when the time was up before it started, or when
/// the node it stands on is already past the bound: `usize::MAX` in the
/// first case, that node's `g + h` in the second.
#[verifier::opaque]
pub open spec fn search_cut(was_over: bool, over: bool, f: usize, last: Node, bound: usize) -> bool {
    &&& was_over ==> f == usize::MAX
    &&& !over && f_cost(last) > bound ==> f == f_cost(last)
}

/// The chain `rec` begins with the nodes of `path`, and from the last of
/// them on every node has `g + h` (saturated at `usize::MAX`) at most
/// `bound`.
pub open spec fn starts_with(rec: Seq<Node>, path: Seq<Node>, bound: usize) -> bool {
    &&& path.len() <= rec.len()
    &&& forall|i: int| 0 <= i < path.len() ==> same_node(#[trigger] rec[i], path[i])
    &&& forall|i: int| path.len() - 1 <= i < rec.len() ==> f_cost(#[trigger] rec[i]) <= bound
}

/// Each of the chains `sols[from..]` begins with the nodes of `path` and
/// stays within `bound` from its last node on.
#[verifier::opaque]
pub open spec fn chains_extend(sols: Seq<Vec<Node>>, from: int, path: Seq<Node>, bound: usize) -> bool {
    forall|k: int| from <= k < sols.len() ==> starts_with(#[trigger] sols[k]@, path, bound)
}

/// Chains that begin with `path` and a further node, and stay within the
/// bound from there, begin with `path` and stay within it from its last
/// node, when that node does.
proof fn lemma_chains_extend(
    pre: Seq<Vec<Node>>,
    post: Seq<Vec<Node>>,
    from: int,
    path: Seq<Node>,
    c: Node,
    bound: usize,
)
    requires
        chains_extend(pre, from, path, bound),
        0 <= from <= pre.len() <= post.len(),
        forall|k: int| 0 <= k < pre.len() ==> post[k] == pre[k],
        chains_extend(post, pre.len() as int, path.push(c), bound),
        path.len() >= 1,
        f_cost(path.last()) <= bound,
    ensures
        chains_extend(post, from, path, bound),
{
    reveal(chains_extend);
    assert forall|k: int| from <= k < post.len() implies starts_with(#[trigger] post[k]@, path, bound) by {
        if k < pre.len() {
            assert(post[k] == pre[k]);
        } else {
            let r = post[k]@;
            assert(starts_with(r, path.push(c), bound));
            assert forall|i: int| 0 <= i < path.len() implies same_node(#[trigger] r[i], path[i]) by {
                assert(path.push(c)[i] == path[i]);
            }
            assert forall|i: int| path.len() - 1 <= i < r.len() implies f_cost(#[trigger] r[i]) <= bound by {
                if i == path.len() - 1 {
                    assert(same_node(r[i], path.push(c)[i]));
                    assert(path.push(c)[i] == path.last());
                }
            }
        }
    }
}

/// A counter that starts at `start` after `n` increments, each wrapping
/// past `usize::MAX` to 0.
pub open spec fn count_after(start: usize, n: int) -> int {
    (start + n) % (usize::MAX as int + 1)
}

/// A counter that has not moved is where it started.
proof fn lemma_count_start(start: usize)
    ensures
        count_after(start, 0) == start,
{
    vstd::arithmetic::div_mod::lemma_small_mod(start as nat, (usize::MAX as int + 1) as nat);
}

/// One more wrapping increment.
proof fn lemma_count_step(start: usize, n: int, x: usize)
    requires
        x as int == count_after(start, n),
    ensures
        (if x + 1 > usize::MAX { x + 1 - (usize::MAX as int + 1) } else { x + 1 }) == count_after(start, n + 1),
{
    let m = usize::MAX as int + 1;
    vstd::arithmetic::div_mod::lemma_add_mod_noop(start + n, 1, m);
    vstd::arithmetic::div_mod::lemma_small_mod(1, m as nat);
    if x + 1 < m {
        vstd::arithmetic::div_mod::lemma_small_mod((x + 1) as nat, m as nat);
    } else {
        vstd::arithmetic::div_mod::lemma_mod_self_0(m);
    }
}

fn f_of(n: &Node) -> (f: usize)
    ensures
        f == f_cost(*n),
{
    n.g.saturating_add(n.h)
}

/// A run of pushes from the grid `root`: it starts on `root` with no push
/// made, node `i` has made `i` pushes, every node is a push successor of the
/// one before, and all nodes keep the crate count of the first.
pub open spec fn chain_ok(chain: Seq<Node>, root: TileMatrix, s: Set<Point2D>, sdl: BitMatrix) -> bool {
    &&& chain.len() >= 1
    &&& chain[0].map.width == root.width
    &&& chain[0].map.data@ == root.data@
    &&& forall|i: int| 0 <= i < chain.len() ==> node_ok(#[trigger] chain[i], root, s)
    &&& forall|i: int| 0 <= i < chain.len() ==> (#[trigger] chain[i]).g == i
    &&& forall|i: int| 0 <= i < chain.len() ==> (#[trigger] chain[i]).crates@.len() == chain[0].crates@.len()
    &&& forall|i: int| #![trigger chain[i]] 1 <= i < chain.len() ==> is_successor(chain[i - 1], chain[i], sdl)
}

/// A run of pushes from `root` that ends with every crate on a goal.
pub open spec fn solution_ok(chain: Seq<Node>, root: TileMatrix, s: Set<Point2D>, sdl: BitMatrix) -> bool {
    chain_ok(chain, root, s, sdl) && is_solved(chain.last().map)
}

/// The heuristic's estimate for a node with these crates on these cells.
pub open spec fn heuristic_value(kind: Heuristic, crates: Seq<Point2D>, goals: Seq<Point2D>, cells: Seq<Tile>) -> int {
    match kind {
        Heuristic::ClosestBox => closest_box_sum(crates, goals),
        Heuristic::GoalCount => open_goals(cells) as int,
        Heuristic::GreedyPerfectMatch => reduction_total(crates, goals),
    }
}

/// The push the `k`-th try of the successor loop makes.
pub open spec fn push_dir(k: int) -> Action {
    if k == 0 {
        Action::PushRight
    } else if k == 1 {
        Action::PushLeft
    } else if k == 2 {
        Action::PushDown
    } else {
        Action::PushUp
    }
}

/// The walking direction a push moves along.
pub open spec fn walk_dir(a: Action) -> Action {
    match a {
        Action::PushUp => Action::Up,
        Action::PushDown => Action::Down,
        Action::PushLeft => Action::Left,
        Action::PushRight => Action::Right,
        _ => a,
    }
}

proof fn lemma_walk_dir(p: Point2D, a: Action)
    requires
        is_push(a),
    ensures
        is_dir(walk_dir(a)),
        is_dir(walk_dir(spec_inverse(a))),
        can_step(p, a) == can_step(p, walk_dir(a)),
        step(p, a) == step(p, walk_dir(a)),
        can_step(p, spec_inverse(a)) == can_step(p, walk_dir(spec_inverse(a))),
        step(p, spec_inverse(a)) == step(p, walk_dir(spec_inverse(a))),
{
}

proof fn lemma_crate_tiles_bound(cells: Seq<Tile>)
    ensures
        crate_tiles(cells) <= cells.len(),
        goal_tiles(cells) <= cells.len(),
    decreases cells.len(),
{
    if cells.len() > 0 {
        lemma_crate_tiles_bound(cells.drop_last());
    }
}

/// Walks only see the width and the cells of a grid.
proof fn lemma_walk_reach_same(m1: TileMatrix, m2: TileMatrix, marks: Seq<bool>, from: Point2D)
    requires
        m1.width == m2.width,
        m1.data@ == m2.data@,
    ensures
        walk_reach(m1, marks, from) == walk_reach(m2, marks, from),
{
    assert forall|t: Set<Point2D>| walk_closed(m1, marks, from, t) == walk_closed(m2, marks, from, t) by {
        assert forall|p: Point2D, d: Action| open_step(m1, marks, p, d) == open_step(m2, marks, p, d) by {}
    }
    assert(walk_reach(m1, marks, from) =~= walk_reach(m2, marks, from));
}

/// Nodes with the same fields are alike for every property of a search.
proof fn lemma_same_node_successor(p1: Node, c1: Node, p2: Node, c2: Node, sdl: BitMatrix)
    requires
        same_node(p1, p2),
        same_node(c1, c2),
        is_successor(p1, c1, sdl),
    ensures
        is_successor(p2, c2, sdl),
{
    let (i, a) = choose|i: int, a: Action| push_ok(p1, c1, sdl, i, a);
    lemma_walk_reach_same(p1.map, p2.map, player_marks(p1.map, p1.player), p1.player);
    assert(player_marks(p1.map, p1.player) == player_marks(p2.map, p2.player));
    assert(push_ok(p2, c2, sdl, i, a));
}

/// The point of the cell at row-major index `i` in a grid of width `w`.
pub open spec fn cell_point(w: usize, i: int) -> Point2D {
    Point2D { x: (i % (w as int)) as usize, y: (i / (w as int)) as usize }
}

/// The points of the goal cells, in row-major order.
pub open spec fn goal_points_of(w: usize, cells: Seq<Tile>) -> Seq<Point2D>
    decreases cells.len(),
{
    if cells.len() == 0 {
        Seq::empty()
    } else {
        let rest = goal_points_of(w, cells.drop_last());
        if is_goal_tile(cells.last()) {
            rest.push(cell_point(w, cells.len() - 1))
        } else {
            rest
        }
    }
}

/// The points of the cells holding a crate, in row-major order.
pub open spec fn crate_points_of(w: usize, cells: Seq<Tile>) -> Seq<Point2D>
    decreases cells.len(),
{
    if cells.len() == 0 {
        Seq::empty()
    } else {
        let rest = crate_points_of(w, cells.drop_last());
        if is_crate_tile(cells.last()) {
            rest.push(cell_point(w, cells.len() - 1))
        } else {
            rest
        }
    }
}

/// The point of the last cell holding the player.
pub open spec fn player_cell(w: usize, cells: Seq<Tile>) -> Option<Point2D>
    decreases cells.len(),
{
    if cells.len() == 0 {
        None
    } else if is_player_tile(cells.last()) {
        Some(cell_point(w, cells.len() - 1))
    } else {
        player_cell(w, cells.drop_last())
    }
}

pub proof fn lemma_cell_point(m: TileMatrix, i: int)
    requires
        m.width > 0,
        0 <= i < m.data@.len(),
        m.data@.len() <= usize::MAX,
    ensures
        canonical(m, cell_point(m.width, i)),
        index_of(m.width, cell_point(m.width, i)) == i,
        m.tile(cell_point(m.width, i)) == m.data@[i],
{
    let w = m.width as int;
    lemma_fundamental_div_mod(i, w);
    assert(0 <= i % w < w);
    assert(0 <= i / w <= i) by (nonlinear_arith)
        requires
            0 <= i,
            w > 0,
            i == w * (i / w) + (i % w),
            0 <= i % w < w,
    ;
    assert(w * (i / w) == (i / w) * w) by (nonlinear_arith);
}

proof fn lemma_player_cell_found(w: usize, cells: Seq<Tile>, i: int)
    requires
        0 <= i < cells.len(),
        is_player_tile(cells[i]),
    ensures
        player_cell(w, cells) is Some,
    decreases cells.len(),
{
    if !is_player_tile(cells.last()) {
        assert(cells.drop_last()[i] == cells[i]);
        lemma_player_cell_found(w, cells.drop_last(), i);
    }
}

/// A push keeps a node well placed: the walls stay, the player stands where
/// the crate was, and the crates stay inside the enclosure, distinct and on
/// crate tiles.
proof fn lemma_push_child(parent: Node, child: Node, root: TileMatrix, s: Set<Point2D>, sdl: BitMatrix, i: int, a: Action)
    requires
        node_ok(parent, root, s),
        is_enclosure(root, s),
        root.data@.len() <= usize::MAX,
        push_ok(parent, child, sdl, i, a),
    ensures
        node_ok(child, root, s),
{
    let m = parent.map;
    let w = m.width;
    let cells = m.data@;
    let len = cells.len();
    let c = parent.crates@[i];
    let ce = step(c, a);
    let d = walk_dir(a);
    let ip = index_of(w, parent.player);
    let cs = index_of(w, c);
    let cei = index_of(w, ce);
    let new_cells = child.map.data@;
    lemma_walk_dir(c, a);
    assert(s.contains(c));
    lemma_enclosed_interior(root, s, c);
    lemma_interior_step(root, c, d);
    lemma_step_index(w, c, a);
    assert(s.contains(parent.player));
    lemma_enclosed_interior(root, s, parent.player);
    assert((root.data@[cei] == Tile::Wall) == (cells[cei] == Tile::Wall));
    assert(root.tile(step(c, d)) != Tile::Wall);
    assert(s.contains(step(c, d)));
    assert(s.contains(ce));
    assert(cs != ip);
    assert(cs != cei);
    assert(new_cells.len() == len);
    assert forall|j: int| 0 <= j < len implies (root.data@[j] == Tile::Wall) == (#[trigger] new_cells[j] == Tile::Wall) by {
        assert((root.data@[j] == Tile::Wall) == (cells[j] == Tile::Wall));
    }
    assert(same_walls(root, child.map));
    assert(child.map.tile(c) is Player || child.map.tile(c) is PlayerGoal);
    let nc = child.crates@;
    assert forall|j: int| 0 <= j < nc.len() && j != i implies index_of(w, #[trigger] nc[j]) != cs && index_of(w, nc[j])
        != ip && index_of(w, nc[j]) != cei && nc[j] == parent.crates@[j] by {
        assert(nc[j] == parent.crates@[j]);
        assert(s.contains(parent.crates@[j]));
        lemma_enclosed_interior(root, s, parent.crates@[j]);
        assert(parent.crates@[j] != c);
        if index_of(w, nc[j]) == cs {
            lemma_index_injective(w, nc[j], c);
        }
        assert(m.tile(parent.crates@[j]) is Crate || m.tile(parent.crates@[j]) is CrateGoal);
    }
    assert forall|j: int| 0 <= j < nc.len() implies #[trigger] s.contains(nc[j]) by {
        if j != i {
            assert(s.contains(parent.crates@[j]));
        }
    }
    assert(new_cells[cei] is Crate || new_cells[cei] is CrateGoal);
    assert forall|j: int| 0 <= j < nc.len() implies (child.map.tile(#[trigger] nc[j]) is Crate || child.map.tile(nc[j])
        is CrateGoal) by {
        if j != i {
            let q = index_of(w, nc[j]);
            assert(s.contains(parent.crates@[j]));
            lemma_enclosed_interior(root, s, parent.crates@[j]);
            assert(q != cs && q != ip && q != cei && nc[j] == parent.crates@[j]);
            assert(0 <= q < len);
            assert(new_cells[q] == cells[q]);
            assert(m.tile(parent.crates@[j]) is Crate || m.tile(parent.crates@[j]) is CrateGoal);
        } else {
            assert(nc[j] == ce);
        }
    }
    assert forall|j: int, k: int| 0 <= j < nc.len() && 0 <= k < nc.len() && j != k implies nc[j] != nc[k] by {
        if j != i && k != i {
            assert(parent.crates@.no_duplicates());
        } else if j == i {
            assert(index_of(w, nc[k]) != cei);
        } else {
            assert(index_of(w, nc[j]) != cei);
        }
    }
    assert(nc.no_duplicates());
}

proof fn lemma_insert_sorted(old_sorted: Seq<Node>, n: Node, pos: int)
    requires
        0 <= pos <= old_sorted.len(),
        forall|j: int, k: int| 0 <= j < k < old_sorted.len() ==> f_cost(#[trigger] old_sorted[j]) <= f_cost(#[trigger] old_sorted[k]),
        forall|m: int| 0 <= m < pos ==> f_cost(#[trigger] old_sorted[m]) < f_cost(n),
        pos < old_sorted.len() ==> f_cost(n) <= f_cost(old_sorted[pos]),
    ensures
        forall|j: int, k: int|
            0 <= j < k < old_sorted.insert(pos, n).len() ==> f_cost(#[trigger] old_sorted.insert(pos, n)[j]) <= f_cost(
                #[trigger] old_sorted.insert(pos, n)[k],
            ),
{
    let ns = old_sorted.insert(pos, n);
    assert forall|j: int, k: int| 0 <= j < k < ns.len() implies f_cost(#[trigger] ns[j]) <= f_cost(#[trigger] ns[k]) by {
        if k < pos {
            assert(ns[j] == old_sorted[j] && ns[k] == old_sorted[k]);
        } else if k == pos {
            assert(ns[j] == old_sorted[j]);
        } else if j == pos {
            assert(ns[k] == old_sorted[k - 1]);
            assert(f_cost(old_sorted[pos]) <= f_cost(old_sorted[k - 1]));
        } else if j < pos {
            assert(ns[j] == old_sorted[j] && ns[k] == old_sorted[k - 1]);
        } else {
            assert(ns[j] == old_sorted[j - 1] && ns[k] == old_sorted[k - 1]);
        }
    }
}

/// `sorted` holds exactly the nodes `unsorted[lo..]`: `from` tells where
/// each node of `sorted` came from and `to` where each of those went.
pub open spec fn placed(sorted: Seq<Node>, unsorted: Seq<Node>, lo: int, from: Seq<int>, to: Seq<int>) -> bool {
    &&& from.len() == sorted.len()
    &&& to.len() == unsorted.len()
    &&& forall|k: int| 0 <= k < sorted.len() ==> lo <= #[trigger] from[k] < unsorted.len() && sorted[k] == unsorted[from[k]]
    &&& forall|j: int| lo <= j < unsorted.len() ==> 0 <= #[trigger] to[j] < sorted.len() && sorted[to[j]] == unsorted[j]
}

proof fn lemma_insert_placed(old_sorted: Seq<Node>, unsorted: Seq<Node>, t: int, from: Seq<int>, to: Seq<int>, pos: int)
    -> (r: (Seq<int>, Seq<int>))
    requires
        0 <= pos <= old_sorted.len(),
        0 <= t < unsorted.len(),
        placed(old_sorted, unsorted, t + 1, from, to),
        forall|m: int| 0 <= m < pos ==> f_cost(#[trigger] old_sorted[m]) < f_cost(unsorted[t]),
        kept_order(unsorted, t + 1, to),
    ensures
        placed(old_sorted.insert(pos, unsorted[t]), unsorted, t, r.0, r.1),
        kept_order(unsorted, t, r.1),
{
    let ns = old_sorted.insert(pos, unsorted[t]);
    let nf = from.insert(pos, t);
    let nt = Seq::new(to.len(), |j: int| if j == t { pos } else if to[j] >= pos { to[j] + 1 } else { to[j] });
    assert forall|k: int| 0 <= k < ns.len() implies t <= #[trigger] nf[k] < unsorted.len() && ns[k] == unsorted[nf[k]] by {
        if k < pos {
            assert(ns[k] == old_sorted[k] && nf[k] == from[k]);
        } else if k > pos {
            assert(ns[k] == old_sorted[k - 1] && nf[k] == from[k - 1]);
        }
    }
    assert forall|j: int| t <= j < unsorted.len() implies 0 <= #[trigger] nt[j] < ns.len() && ns[nt[j]] == unsorted[j] by {
        if j != t {
            if to[j] >= pos {
                assert(ns[to[j] + 1] == old_sorted[to[j]]);
            } else {
                assert(ns[to[j]] == old_sorted[to[j]]);
            }
        }
    }
    assert forall|j: int, k: int|
        t <= j < k < unsorted.len() && f_cost(#[trigger] unsorted[j]) == f_cost(#[trigger] unsorted[k]) implies nt[j]
        < nt[k] by {
        if j == t {
            assert(old_sorted[to[k]] == unsorted[k]);
            if to[k] < pos {
                assert(f_cost(old_sorted[to[k]]) < f_cost(unsorted[t]));
            }
        }
    }
    (nf, nt)
}

/// Of the nodes `unsorted[lo..]`, those with equal `g + h` keep their order
/// in the places `to`.
pub open spec fn kept_order(unsorted: Seq<Node>, lo: int, to: Seq<int>) -> bool {
    forall|j: int, k: int|
        lo <= j < k < unsorted.len() && f_cost(#[trigger] unsorted[j]) == f_cost(#[trigger] unsorted[k]) ==> to[j] < to[k]
}

/// Orders the nodes by `g + h`, keeping the order of nodes with equal sums.
fn sort_by_f(v: &mut Vec<Node>) -> (moves: Ghost<(Seq<int>, Seq<int>)>)
    ensures
        final(v)@.len() == old(v)@.len(),
        forall|j: int, k: int| 0 <= j < k < final(v)@.len() ==> f_cost(#[trigger] final(v)@[j]) <= f_cost(#[trigger] final(v)@[k]),
        placed(final(v)@, old(v)@, 0, moves@.0, moves@.1),
        kept_order(old(v)@, 0, moves@.1),
{
    let ghost unsorted = v@;
    let mut rest: Vec<Node> = Vec::new();
    std::mem::swap(&mut rest, v);
    let mut sorted: Vec<Node> = Vec::new();
    let ghost mut from: Seq<int> = Seq::empty();
    let ghost mut to: Seq<int> = Seq::new(unsorted.len(), |j: int| 0int);
    while rest.len() > 0
        invariant
            rest@ == unsorted.subrange(0, rest@.len() as int),
            sorted@.len() + rest@.len() == unsorted.len(),
            forall|j: int, k: int| 0 <= j < k < sorted@.len() ==> f_cost(#[trigger] sorted@[j]) <= f_cost(#[trigger] sorted@[k]),
            placed(sorted@, unsorted, rest@.len() as int, from, to),
            kept_order(unsorted, rest@.len() as int, to),
        decreases rest@.len(),
    {
        let ghost old_sorted = sorted@;
        let ghost t = rest@.len() - 1;
        let n = rest.pop().unwrap();
        proof {
            assert(n == unsorted[t]);
            assert(rest@ =~= unsorted.subrange(0, rest@.len() as int));
        }
        let fx = f_of(&n);
        let mut pos: usize = 0;
        while pos < sorted.len() && f_of(&sorted[pos]) < fx
            invariant
                pos <= sorted@.len(),
                sorted@ == old_sorted,
                fx == f_cost(n),
                forall|m: int| 0 <= m < pos ==> f_cost(#[trigger] sorted@[m]) < fx,
            decreases sorted@.len() - pos,
        {
            pos = pos + 1;
        }
        proof {
            lemma_insert_sorted(old_sorted, n, pos as int);
            let (nf, nt) = lemma_insert_placed(old_sorted, unsorted, t, from, to, pos as int);
            from = nf;
            to = nt;
        }
        sorted.insert(pos, n);
    }
    *v = sorted;
    Ghost((from, to))
}

/// A successor node as the search makes it: a push successor of `parent`
/// that is well placed, keeps the crate count, and carries the estimate of
/// the heuristic `kind`.
pub open spec fn child_ok(
    parent: Node,
    child: Node,
    root: TileMatrix,
    s: Set<Point2D>,
    sdl: BitMatrix,
    kind: Heuristic,
    goals: Seq<Point2D>,
) -> bool {
    &&& is_successor(parent, child, sdl)
    &&& node_ok(child, root, s)
    &&& child.crates@.len() == parent.crates@.len()
    &&& child.h == heuristic_value(kind, child.crates@, goals, child.map.data@)
}

/// After trying push `k` of crate `i`, every possible push tried so far
/// has a successor recorded.
proof fn lemma_push_recorded(nd: Node, sdl: BitMatrix, pre: Seq<Node>, post: Seq<Node>, i: int, k: int)
    requires
        0 <= k < 4,
        post.len() >= pre.len(),
        forall|m: int| 0 <= m < pre.len() ==> post[m] == pre[m],
        post.len() > pre.len() ==> push_ok(nd, post[pre.len() as int], sdl, i, push_dir(k)),
        post.len() == pre.len() ==> !push_possible(nd, sdl, i, push_dir(k)),
        forall|ii: int, kk: int|
            #![trigger push_possible(nd, sdl, ii, push_dir(kk))]
            0 <= ii && 0 <= kk < 4 && (ii < i || (ii == i && kk < k)) && push_possible(nd, sdl, ii, push_dir(kk))
                ==> exists|m: int| 0 <= m < pre.len() && push_ok(nd, #[trigger] pre[m], sdl, ii, push_dir(kk)),
    ensures
        forall|ii: int, kk: int|
            #![trigger push_possible(nd, sdl, ii, push_dir(kk))]
            0 <= ii && 0 <= kk < 4 && (ii < i || (ii == i && kk < k + 1)) && push_possible(nd, sdl, ii, push_dir(kk))
                ==> exists|m: int| 0 <= m < post.len() && push_ok(nd, #[trigger] post[m], sdl, ii, push_dir(kk)),
{
    assert forall|ii: int, kk: int|
        #![trigger push_possible(nd, sdl, ii, push_dir(kk))]
        0 <= ii && 0 <= kk < 4 && (ii < i || (ii == i && kk < k + 1)) && push_possible(nd, sdl, ii, push_dir(kk))
            implies exists|m: int| 0 <= m < post.len() && push_ok(nd, #[trigger] post[m], sdl, ii, push_dir(kk)) by {
        if ii == i && kk == k {
            assert(push_ok(nd, post[pre.len() as int], sdl, ii, push_dir(kk)));
        } else {
            let m0 = choose|m: int| 0 <= m < pre.len() && push_ok(nd, #[trigger] pre[m], sdl, ii, push_dir(kk));
            assert(post[m0] == pre[m0]);
        }
    }
}

/// The pushes the search tries from `nd` among its first `n` tries, which go
/// crate by crate and for each crate right, left, down, up, keeping those
/// that are possible.
pub open spec fn tried_pushes(nd: Node, sdl: BitMatrix, n: int) -> Seq<(int, Action)>
    decreases n,
{
    if n <= 0 {
        Seq::empty()
    } else {
        let prev = tried_pushes(nd, sdl, n - 1);
        let i = (n - 1) / 4;
        let a = push_dir((n - 1) % 4);
        if push_possible(nd, sdl, i, a) {
            prev.push((i, a))
        } else {
            prev
        }
    }
}

/// `v` holds the successors of the pushes among the first `n` tries, in the
/// order they were tried.
pub open spec fn follows_tries(v: Seq<Node>, nd: Node, sdl: BitMatrix, n: int) -> bool {
    &&& v.len() == tried_pushes(nd, sdl, n).len()
    &&& forall|m: int|
        0 <= m < v.len() ==> push_ok(nd, #[trigger] v[m], sdl, tried_pushes(nd, sdl, n)[m].0, tried_pushes(nd, sdl, n)[m].1)
}

/// `sorted` holds the successors of all the pushes tried from `nd`, ordered
/// by `g + h` and, among equal sums, in the order they were tried: the node
/// of the `j`-th push stands at `to[j]`.
#[verifier::opaque]
pub open spec fn ordered_successors(sorted: Seq<Node>, nd: Node, sdl: BitMatrix, to: Seq<int>) -> bool {
    let tp = tried_pushes(nd, sdl, 4 * nd.crates@.len() as int);
    &&& sorted.len() == tp.len()
    &&& to.len() == tp.len()
    &&& forall|j: int|
        0 <= j < tp.len() ==> 0 <= #[trigger] to[j] < sorted.len() && push_ok(nd, sorted[to[j]], sdl, tp[j].0, tp[j].1)
    &&& forall|j: int, k: int|
        0 <= j < k < tp.len() && f_cost(sorted[#[trigger] to[j]]) == f_cost(sorted[#[trigger] to[k]]) ==> to[j] < to[k]
}

/// After try `k` of crate `i`, the successors still follow the tries.
proof fn lemma_try_recorded(nd: Node, sdl: BitMatrix, pre: Seq<Node>, post: Seq<Node>, i: int, k: int)
    requires
        0 <= i,
        0 <= k < 4,
        follows_tries(pre, nd, sdl, 4 * i + k),
        post == pre || (post.len() == pre.len() + 1 && post.drop_last() == pre),
        post.len() > pre.len() ==> push_ok(nd, post[pre.len() as int], sdl, i, push_dir(k)),
        post.len() == pre.len() ==> !push_possible(nd, sdl, i, push_dir(k)),
    ensures
        follows_tries(post, nd, sdl, 4 * i + k + 1),
{
    let n = 4 * i + k + 1;
    assert((n - 1) / 4 == i && (n - 1) % 4 == k);
    let tp = tried_pushes(nd, sdl, n);
    if post.len() > pre.len() {
        assert(push_possible(nd, sdl, i, push_dir(k)));
        assert forall|m: int| 0 <= m < post.len() implies push_ok(nd, #[trigger] post[m], sdl, tp[m].0, tp[m].1) by {
            if m < pre.len() {
                assert(post[m] == post.drop_last()[m]);
            }
        }
    }
}

/// Sorting the successors of the tries by `g + h`, keeping the order of
/// equal sums, orders them as `ordered_successors` says.
proof fn lemma_ordered(nd: Node, sdl: BitMatrix, unsorted: Seq<Node>, sorted: Seq<Node>, from: Seq<int>, to: Seq<int>)
    requires
        follows_tries(unsorted, nd, sdl, 4 * nd.crates@.len() as int),
        placed(sorted, unsorted, 0, from, to),
        kept_order(unsorted, 0, to),
        sorted.len() == unsorted.len(),
    ensures
        ordered_successors(sorted, nd, sdl, to),
{
    reveal(ordered_successors);
    let tp = tried_pushes(nd, sdl, 4 * nd.crates@.len() as int);
    assert forall|j: int| 0 <= j < tp.len() implies 0 <= #[trigger] to[j] < sorted.len() && push_ok(
        nd,
        sorted[to[j]],
        sdl,
        tp[j].0,
        tp[j].1,
    ) by {
        assert(sorted[to[j]] == unsorted[j]);
    }
    assert forall|j: int, k: int|
        0 <= j < k < tp.len() && f_cost(sorted[#[trigger] to[j]]) == f_cost(sorted[#[trigger] to[k]]) implies to[j]
        < to[k] by {
        assert(sorted[to[j]] == unsorted[j]);
        assert(sorted[to[k]] == unsorted[k]);
    }
}

/// All the segments, one after another.
pub open spec fn concat_all(segs: Seq<Seq<Action>>) -> Seq<Action>
    decreases segs.len(),
{
    if segs.len() == 0 {
        Seq::empty()
    } else {
        concat_all(segs.drop_last()) + segs.last()
    }
}

/// `seg` takes the player, on the grid `m`, from where it stands in
/// `parent` to the push that makes `child`: `m` is the grid of `child` with
/// the push taken back, the walk reaches the cell behind the crate by a
/// shortest walk when that cell can be reached, and the push ends the
/// segment; when it cannot be reached the segment is the push alone.
pub open spec fn segment_on(m: TileMatrix, parent: Node, child: Node, seg: Seq<Action>) -> bool {
    let ps = step(child.player, spec_inverse(child.action));
    &&& m.width == child.map.width
    &&& m.data@ == unpushed_cells(child.map.data@, child.map.width, child.action, child.player)
    &&& seg.len() >= 1
    &&& seg.last() == child.action
    &&& path_reach(m, parent.player).contains(ps) ==> is_walk(m, parent.player, ps, seg.drop_last())
    &&& !path_reach(m, parent.player).contains(ps) ==> seg == seq![child.action]
    &&& forall|walk: Seq<Action>| #[trigger] is_walk(m, parent.player, ps, walk) ==> seg.len() <= walk.len() + 1
}

/// `seg` takes the player from where it stands in `parent` to the push that
/// makes `child` (see `segment_on`).
pub open spec fn segment_ok(parent: Node, child: Node, seg: Seq<Action>) -> bool {
    exists|m: TileMatrix| #[trigger] segment_on(m, parent, child, seg)
}

/// `segs` holds, for each push of `chain`, a segment that leads to it.
pub open spec fn segments_fit(chain: Seq<Node>, segs: Seq<Seq<Action>>) -> bool {
    &&& segs.len() + 1 == chain.len()
    &&& forall|i: int| 0 <= i < segs.len() ==> segment_ok(chain[i], chain[i + 1], #[trigger] segs[i])
}

/// `moves` plays the pushes of `chain` one after another, each with the
/// walk that leads to it.
pub open spec fn moves_follow(chain: Seq<Node>, moves: Seq<Action>) -> bool {
    exists|segs: Seq<Seq<Action>>| #[trigger] segments_fit(chain, segs) && moves == concat_all(segs)
}

/// All segments leading to the same push are equally long.
proof fn lemma_segment_len(parent: Node, child: Node, seg1: Seq<Action>, seg2: Seq<Action>)
    requires
        segment_ok(parent, child, seg1),
        segment_ok(parent, child, seg2),
    ensures
        seg1.len() == seg2.len(),
{
    let m1 = choose|m: TileMatrix| #[trigger] segment_on(m, parent, child, seg1);
    let m2 = choose|m: TileMatrix| #[trigger] segment_on(m, parent, child, seg2);
    let ps = step(child.player, spec_inverse(child.action));
    lemma_path_reach_same(m1, m2, parent.player);
    if path_reach(m1, parent.player).contains(ps) {
        lemma_walk_same(m1, m2, parent.player, ps, seg1.drop_last());
        lemma_walk_same(m1, m2, parent.player, ps, seg2.drop_last());
        assert(is_walk(m2, parent.player, ps, seg1.drop_last()));
        assert(is_walk(m1, parent.player, ps, seg2.drop_last()));
    }
}

/// Concatenations of segments of matching lengths are equally long.
proof fn lemma_concat_len(a: Seq<Seq<Action>>, b: Seq<Seq<Action>>)
    requires
        a.len() == b.len(),
        forall|i: int| 0 <= i < a.len() ==> (#[trigger] a[i]).len() == b[i].len(),
    ensures
        concat_all(a).len() == concat_all(b).len(),
    decreases a.len(),
{
    if a.len() > 0 {
        assert forall|i: int| 0 <= i < a.drop_last().len() implies (#[trigger] a.drop_last()[i]).len()
            == b.drop_last()[i].len() by {
            assert(a.drop_last()[i] == a[i]);
            assert(b.drop_last()[i] == b[i]);
        }
        lemma_concat_len(a.drop_last(), b.drop_last());
        assert(a.last().len() == b.last().len());
    }
}

/// All the moves that follow a run of pushes are equally long: each walk
/// between two pushes is a shortest one.
pub proof fn lemma_moves_len(chain: Seq<Node>, moves1: Seq<Action>, moves2: Seq<Action>)
    requires
        moves_follow(chain, moves1),
        moves_follow(chain, moves2),
    ensures
        moves1.len() == moves2.len(),
{
    let segs1 = choose|segs: Seq<Seq<Action>>| #[trigger] segments_fit(chain, segs) && moves1 == concat_all(segs);
    let segs2 = choose|segs: Seq<Seq<Action>>| #[trigger] segments_fit(chain, segs) && moves2 == concat_all(segs);
    assert forall|i: int| 0 <= i < segs1.len() implies (#[trigger] segs1[i]).len() == segs2[i].len() by {
        lemma_segment_len(chain[i], chain[i + 1], segs1[i], segs2[i]);
    }
    lemma_concat_len(segs1, segs2);
}

/// A run stopped early is still a run.
pub proof fn lemma_run_prefix(run: Seq<Node>, root: TileMatrix, s: Set<Point2D>, n: int)
    requires
        run_ok(run, root, s),
        1 <= n <= run.len(),
    ensures
        run_ok(run.subrange(0, n), root, s),
        hashes_apart(run) ==> hashes_apart(run.subrange(0, n)),
{
    let p = run.subrange(0, n);
    assert forall|i: int| #![trigger p[i]] 1 <= i < p.len() implies moved_by_push(p[i - 1], p[i]) by {
        assert(p[i] == run[i] && p[i - 1] == run[i - 1]);
        assert(moved_by_push(run[i - 1], run[i]));
    }
    assert forall|i: int| 0 <= i < p.len() implies node_ok(#[trigger] p[i], root, s) && p[i].g == i
        && p[i].crates@.len() == p[0].crates@.len() by {
        assert(p[i] == run[i]);
        assert(node_ok(run[i], root, s));
    }
    if hashes_apart(run) {
        assert forall|a: int, b: int| 0 <= a < b < p.len() implies (#[trigger] p[a]).hash != (#[trigger] p[b]).hash by {
            assert(p[a] == run[a] && p[b] == run[b]);
        }
    }
}

/// Moves that follow a run follow every chain of the same states reached by
/// the same pushes.
proof fn lemma_moves_transfer(rec: Seq<Node>, run: Seq<Node>, moves: Seq<Action>)
    requires
        rec.len() == run.len(),
        rec.len() >= 1,
        rec[0].player == run[0].player,
        forall|i: int| 1 <= i < run.len() ==> same_move(#[trigger] rec[i], run[i]),
        moves_follow(run, moves),
    ensures
        moves_follow(rec, moves),
{
    let segs = choose|segs: Seq<Seq<Action>>| #[trigger] segments_fit(run, segs) && moves == concat_all(segs);
    assert forall|i: int| 0 <= i < segs.len() implies segment_ok(rec[i], rec[i + 1], #[trigger] segs[i]) by {
        assert(segment_ok(run[i], run[i + 1], segs[i]));
        let m = choose|m: TileMatrix| #[trigger] segment_on(m, run[i], run[i + 1], segs[i]);
        assert(same_move(rec[i + 1], run[i + 1]));
        if i > 0 {
            assert(same_move(rec[i], run[i]));
        }
        assert(segment_on(m, rec[i], rec[i + 1], segs[i]));
    }
    assert(segments_fit(rec, segs));
}

/// A run of pushes that the search would make is a run by the rules of the
/// game.
pub proof fn lemma_chain_run(chain: Seq<Node>, root: TileMatrix, s: Set<Point2D>, sdl: BitMatrix)
    requires
        chain_ok(chain, root, s, sdl),
    ensures
        run_ok(chain, root, s),
{
    assert forall|i: int| #![trigger chain[i]] 1 <= i < chain.len() implies moved_by_push(chain[i - 1], chain[i]) by {
        assert(is_successor(chain[i - 1], chain[i], sdl));
        let (j, a) = choose|j: int, a: Action| #![trigger push_ok(chain[i - 1], chain[i], sdl, j, a)] push_ok(
            chain[i - 1],
            chain[i],
            sdl,
            j,
            a,
        );
        assert(push_moves(chain[i - 1], chain[i], j, a));
    }
}

/// Every node of `chain` carries the estimate of the heuristic `kind`.
pub open spec fn path_estimated(chain: Seq<Node>, kind: Heuristic, goals: Seq<Point2D>) -> bool {
    forall|i: int|
        0 <= i < chain.len() ==> (#[trigger] chain[i]).h == heuristic_value(kind, chain[i].crates@, goals, chain[i].map.data@)
}

/// No two nodes of `chain` share a hash.
pub open spec fn hashes_apart(chain: Seq<Node>) -> bool {
    forall|a: int, b: int| 0 <= a < b < chain.len() ==> (#[trigger] chain[a]).hash != (#[trigger] chain[b]).hash
}

/// `a` and `b` stand for the same state reached after the same number of
/// pushes: the same grid, crates, player and hash.
pub open spec fn same_state(a: Node, b: Node) -> bool {
    &&& a.map.width == b.map.width
    &&& a.map.data@ == b.map.data@
    &&& a.crates@ == b.crates@
    &&& a.player == b.player
    &&& a.g == b.g
    &&& a.hash == b.hash
}

/// `ext` goes on from the last node of `path`, whose hashes lie apart, by
/// pushes to a solved state: each new node has a hash seen neither on
/// `path` nor earlier in `ext`, and every node has `g` plus the estimate of
/// the heuristic `kind` at most `bound`.
#[verifier::opaque]
pub open spec fn plan_within(
    path: Seq<Node>,
    ext: Seq<Node>,
    sdl: BitMatrix,
    kind: Heuristic,
    goals: Seq<Point2D>,
    bound: int,
) -> bool {
    &&& ext.len() >= 1
    &&& path.len() >= 1
    &&& same_state(ext[0], path.last())
    &&& hashes_apart(path)
    &&& forall|i: int| #![trigger ext[i]] 1 <= i < ext.len() ==> is_successor(ext[i - 1], ext[i], sdl)
    &&& forall|i: int, j: int|
        1 <= i < ext.len() && 0 <= j < path.len() ==> (#[trigger] ext[i]).hash != (#[trigger] path[j]).hash
    &&& forall|i: int, j: int| #![trigger ext[i], ext[j]] 1 <= i < j < ext.len() ==> ext[i].hash != ext[j].hash
    &&& forall|i: int|
        0 <= i < ext.len() ==> (#[trigger] ext[i]).g + heuristic_value(kind, ext[i].crates@, goals, ext[i].map.data@)
            <= bound
    &&& is_solved(ext.last().map)
}

/// A push that is possible from a state is possible from every node of
/// that state.
proof fn lemma_push_possible_same(p1: Node, p2: Node, sdl: BitMatrix, i: int, a: Action)
    requires
        same_state(p1, p2),
        push_possible(p1, sdl, i, a),
    ensures
        push_possible(p2, sdl, i, a),
{
    lemma_walk_reach_same(p1.map, p2.map, player_marks(p1.map, p1.player), p1.player);
    assert(player_marks(p1.map, p1.player) =~= player_marks(p2.map, p2.player));
}

/// The same push from the same state gives the same state.
proof fn lemma_push_same(p1: Node, c1: Node, p2: Node, c2: Node, sdl: BitMatrix, i: int, a: Action)
    requires
        same_state(p1, p2),
        push_ok(p1, c1, sdl, i, a),
        push_ok(p2, c2, sdl, i, a),
    ensures
        same_state(c1, c2),
{
}

/// A plan goes on through one of the successors the search makes, and the
/// rest of it is a plan from there.
#[verifier::spinoff_prover]
proof fn lemma_plan_step(
    path: Seq<Node>,
    ext: Seq<Node>,
    sdl: BitMatrix,
    kind: Heuristic,
    goals: Seq<Point2D>,
    bound: int,
    c: Node,
)
    requires
        plan_within(path, ext, sdl, kind, goals, bound),
        ext.len() >= 2,
        same_state(c, ext[1]),
    ensures
        plan_within(path.push(c), ext.subrange(1, ext.len() as int), sdl, kind, goals, bound),
        forall|t: int| 0 <= t < path.len() ==> (#[trigger] path[t]).hash != c.hash,
{
    reveal(plan_within);
    let p2 = path.push(c);
    let e2 = ext.subrange(1, ext.len() as int);
    assert(e2[0] == ext[1]);
    assert(p2.last() == c);
    assert forall|t: int| 0 <= t < path.len() implies (#[trigger] path[t]).hash != c.hash by {
        assert(ext[1].hash != path[t].hash);
    }
    assert(hashes_apart(p2)) by {
        assert forall|a: int, b: int| 0 <= a < b < p2.len() implies (#[trigger] p2[a]).hash != (#[trigger] p2[b]).hash by {
            assert(p2[a] == path[a]);
            if b < path.len() {
                assert(p2[b] == path[b]);
            }
        }
    }
    assert forall|i: int| #![trigger e2[i]] 1 <= i < e2.len() implies is_successor(e2[i - 1], e2[i], sdl) by {
        assert(e2[i] == ext[i + 1]);
        assert(e2[i - 1] == ext[i]);
    }
    assert forall|i: int, j: int| 1 <= i < e2.len() && 0 <= j < p2.len() implies (#[trigger] e2[i]).hash != (
    #[trigger] p2[j]).hash by {
        assert(e2[i] == ext[i + 1]);
        if j < path.len() {
            assert(p2[j] == path[j]);
        } else {
            assert(ext[1].hash != ext[i + 1].hash);
        }
    }
    assert forall|i: int, j: int| #![trigger e2[i], e2[j]] 1 <= i < j < e2.len() implies e2[i].hash != e2[j].hash by {
        assert(e2[i] == ext[i + 1]);
        assert(e2[j] == ext[j + 1]);
    }
    assert forall|i: int| 0 <= i < e2.len() implies (#[trigger] e2[i]).g + heuristic_value(
        kind,
        e2[i].crates@,
        goals,
        e2[i].map.data@,
    ) <= bound by {
        assert(e2[i] == ext[i + 1]);
    }
    assert(e2.last() == ext.last());
}

/// The last node of a path of estimated nodes is within the bound of every
/// plan from it.
proof fn lemma_plan_start(path: Seq<Node>, sdl: BitMatrix, kind: Heuristic, goals: Seq<Point2D>)
    requires
        path.len() >= 1,
        path_estimated(path, kind, goals),
    ensures
        forall|ext: Seq<Node>, cap: int| #[trigger] plan_within(path, ext, sdl, kind, goals, cap) ==> f_cost(path.last()) <= cap,
{
    reveal(plan_within);
    assert forall|ext: Seq<Node>, cap: int| #[trigger] plan_within(path, ext, sdl, kind, goals, cap) implies f_cost(path.last())
        <= cap by {
        assert(path.last() == path[path.len() - 1]);
        assert(ext[0].g + heuristic_value(kind, ext[0].crates@, goals, ext[0].map.data@) <= cap);
    }
}

/// A plan from an unsolved node goes on through one of the successors of
/// that node.
proof fn lemma_plan_successor(
    path: Seq<Node>,
    ext: Seq<Node>,
    sdl: BitMatrix,
    kind: Heuristic,
    goals: Seq<Point2D>,
    cap: int,
    succs: Seq<Node>,
)
    requires
        plan_within(path, ext, sdl, kind, goals, cap),
        !is_solved(path.last().map),
        forall|i: int, a: Action|
            #[trigger] push_possible(path.last(), sdl, i, a) ==> exists|k: int|
                0 <= k < succs.len() && push_ok(path.last(), #[trigger] succs[k], sdl, i, a),
    ensures
        ext.len() >= 2,
        exists|j: int| 0 <= j < succs.len() && same_state(#[trigger] succs[j], ext[1]) && succs[j].action == ext[1].action,
{
    reveal(plan_within);
    assert(ext.len() >= 2);
    assert(is_successor(ext[0], ext[1], sdl));
    let (i, a) = choose|i: int, a: Action| #![trigger push_ok(ext[0], ext[1], sdl, i, a)] push_ok(ext[0], ext[1], sdl, i, a);
    lemma_push_possible_same(ext[0], path.last(), sdl, i, a);
    let k = choose|k: int| 0 <= k < succs.len() && push_ok(path.last(), #[trigger] succs[k], sdl, i, a);
    lemma_push_same(path.last(), succs[k], ext[0], ext[1], sdl, i, a);
}

/// `a` and `b` are the same state reached by the same push.
pub open spec fn same_move(a: Node, b: Node) -> bool {
    same_state(a, b) && a.action == b.action
}

/// No node of `ext` but the last is solved.
pub open spec fn solved_last_only(ext: Seq<Node>) -> bool {
    forall|i: int| 0 <= i < ext.len() - 1 ==> !is_solved(#[trigger] ext[i].map)
}

/// `rec` is `path` followed by the nodes of `ext` after its first, node by
/// node the same states reached by the same pushes.
pub open spec fn recorded_run(rec: Seq<Node>, path: Seq<Node>, ext: Seq<Node>) -> bool {
    &&& rec.len() + 1 == path.len() + ext.len()
    &&& forall|i: int| 0 <= i < path.len() ==> same_move(#[trigger] rec[i], path[i])
    &&& forall|i: int| 1 <= i < ext.len() ==> same_move(rec[path.len() - 1 + i], #[trigger] ext[i])
}

/// One of the chains `sols[from..]` is `path` followed by `ext`.
pub open spec fn some_recorded(sols: Seq<Vec<Node>>, from: int, path: Seq<Node>, ext: Seq<Node>) -> bool {
    exists|k: int| from <= k < sols.len() && #[trigger] recorded_run(sols[k]@, path, ext)
}

/// A chain that follows a path through the child `c` and then the rest of a
/// plan follows the path and the plan.
proof fn lemma_recorded_step(rec: Seq<Node>, path: Seq<Node>, ext: Seq<Node>, c: Node)
    requires
        ext.len() >= 2,
        same_move(c, ext[1]),
        recorded_run(rec, path.push(c), ext.subrange(1, ext.len() as int)),
    ensures
        recorded_run(rec, path, ext),
{
    let p2 = path.push(c);
    let e2 = ext.subrange(1, ext.len() as int);
    assert forall|i: int| 0 <= i < path.len() implies same_move(#[trigger] rec[i], path[i]) by {
        assert(p2[i] == path[i]);
    }
    assert forall|i: int| 1 <= i < ext.len() implies same_move(rec[path.len() - 1 + i], #[trigger] ext[i]) by {
        if i == 1 {
            assert(same_move(rec[path.len() as int], p2[path.len() as int]));
        } else {
            assert(e2[i - 1] == ext[i]);
            assert(same_move(rec[p2.len() - 1 + (i - 1)], e2[i - 1]));
        }
    }
}

/// Recorded chains stay recorded when more are added after them.
proof fn lemma_recorded_kept(s1: Seq<Vec<Node>>, s2: Seq<Vec<Node>>, from: int, path: Seq<Node>, ext: Seq<Node>)
    requires
        0 <= from,
        some_recorded(s1, from, path, ext),
        s2.len() >= s1.len(),
        forall|k: int| 0 <= k < s1.len() ==> #[trigger] s2[k] == s1[k],
    ensures
        some_recorded(s2, from, path, ext),
{
    let k = choose|k: int| from <= k < s1.len() && #[trigger] recorded_run(s1[k]@, path, ext);
    assert(s2[k] == s1[k]);
}

/// At a solved node, the only plans left are those that stop there, and a
/// copy of the path records them.
proof fn lemma_goal_recorded(path: Seq<Node>, rec: Seq<Node>, sdl: BitMatrix, kind: Heuristic, goals: Seq<Point2D>, bound: int)
    requires
        path.len() >= 1,
        is_solved(path.last().map),
        rec.len() == path.len(),
        forall|i: int| 0 <= i < rec.len() ==> same_node(#[trigger] rec[i], path[i]),
    ensures
        forall|ext: Seq<Node>|
            #[trigger] plan_within(path, ext, sdl, kind, goals, bound) && solved_last_only(ext) ==> recorded_run(rec, path, ext),
{
    reveal(plan_within);
    assert forall|ext: Seq<Node>| #[trigger] plan_within(path, ext, sdl, kind, goals, bound) && solved_last_only(ext) implies recorded_run(
        rec,
        path,
        ext,
    ) by {
        if ext.len() >= 2 {
            assert(!is_solved(ext[0].map));
        }
        assert forall|i: int| 0 <= i < path.len() implies same_move(#[trigger] rec[i], path[i]) by {
            assert(same_node(rec[i], path[i]));
        }
    }
}

/// Every plan that goes on through the child `c` is recorded once the
/// search of `c` has recorded every plan from `c`.
proof fn lemma_child_recorded(
    path: Seq<Node>,
    c: Node,
    sdl: BitMatrix,
    kind: Heuristic,
    goals: Seq<Point2D>,
    bound: int,
    sols: Seq<Vec<Node>>,
    from: int,
    child_from: int,
    child_path: Seq<Node>,
)
    requires
        child_path == path.push(c),
        from <= child_from,
        forall|ext: Seq<Node>|
            #[trigger] plan_within(child_path, ext, sdl, kind, goals, bound) && solved_last_only(ext) ==> some_recorded(
                sols,
                child_from,
                child_path,
                ext,
            ),
    ensures
        forall|ext: Seq<Node>|
            #[trigger] plan_within(path, ext, sdl, kind, goals, bound) && solved_last_only(ext) && ext.len() >= 2 && same_move(
                c,
                ext[1],
            ) ==> some_recorded(sols, from, path, ext),
{
    assert forall|ext: Seq<Node>|
        #[trigger] plan_within(path, ext, sdl, kind, goals, bound) && solved_last_only(ext) && ext.len() >= 2 && same_move(
            c,
            ext[1],
        ) implies some_recorded(sols, from, path, ext) by {
        lemma_plan_step(path, ext, sdl, kind, goals, bound, c);
        let e2 = ext.subrange(1, ext.len() as int);
        assert forall|i: int| 0 <= i < e2.len() - 1 implies !is_solved(#[trigger] e2[i].map) by {
            assert(e2[i] == ext[i + 1]);
        }
        let k = choose|k: int| child_from <= k < sols.len() && #[trigger] recorded_run(sols[k]@, child_path, e2);
        lemma_recorded_step(sols[k]@, path, ext, c);
    }
}

/// After the search tried the first of the pending successors, every plan
/// from the path is recorded or goes on through one still pending.
proof fn lemma_iter_recorded(
    path: Seq<Node>,
    pending: Seq<Node>,
    c: Node,
    sdl: BitMatrix,
    kind: Heuristic,
    goals: Seq<Point2D>,
    bound: int,
    s_old: Seq<Vec<Node>>,
    s_new: Seq<Vec<Node>>,
    from: int,
)
    requires
        pending.len() >= 1,
        pending[0] == c,
        0 <= from,
        s_new.len() >= s_old.len(),
        forall|k: int| 0 <= k < s_old.len() ==> #[trigger] s_new[k] == s_old[k],
        !is_solved(path.last().map),
        forall|ext: Seq<Node>|
            #[trigger] plan_within(path, ext, sdl, kind, goals, bound) && solved_last_only(ext) ==> some_recorded(
                s_old,
                from,
                path,
                ext,
            ) || exists|j: int| 0 <= j < pending.len() && same_move(#[trigger] pending[j], ext[1]),
        forall|ext: Seq<Node>|
            #[trigger] plan_within(path, ext, sdl, kind, goals, bound) && solved_last_only(ext) && ext.len() >= 2 && same_move(
                c,
                ext[1],
            ) ==> some_recorded(s_new, from, path, ext),
    ensures
        forall|ext: Seq<Node>|
            #[trigger] plan_within(path, ext, sdl, kind, goals, bound) && solved_last_only(ext) ==> some_recorded(
                s_new,
                from,
                path,
                ext,
            ) || exists|j: int| 0 <= j < pending.drop_first().len() && same_move(#[trigger] pending.drop_first()[j], ext[1]),
{
    reveal(plan_within);
    let rest = pending.drop_first();
    assert forall|ext: Seq<Node>| #[trigger] plan_within(path, ext, sdl, kind, goals, bound) && solved_last_only(ext) implies some_recorded(
        s_new,
        from,
        path,
        ext,
    ) || exists|j: int| 0 <= j < rest.len() && same_move(#[trigger] rest[j], ext[1]) by {
        assert(ext.len() >= 2);
        if some_recorded(s_old, from, path, ext) {
            lemma_recorded_kept(s_old, s_new, from, path, ext);
        } else {
            let j = choose|j: int| 0 <= j < pending.len() && same_move(#[trigger] pending[j], ext[1]);
            if j > 0 {
                assert(rest[j - 1] == pending[j]);
            }
        }
    }
}

/// Every plan that goes on through the child `c` ends within the estimate
/// the search of `c` returned.
proof fn lemma_child_plans(
    path: Seq<Node>,
    c: Node,
    sdl: BitMatrix,
    kind: Heuristic,
    goals: Seq<Point2D>,
    child_path: Seq<Node>,
    f: int,
)
    requires
        child_path == path.push(c),
        forall|ext: Seq<Node>, cap: int| #[trigger] plan_within(child_path, ext, sdl, kind, goals, cap) ==> f <= cap,
    ensures
        forall|ext: Seq<Node>, cap: int|
            #[trigger] plan_within(path, ext, sdl, kind, goals, cap) && ext.len() >= 2 && same_state(c, ext[1]) ==> f <= cap,
{
    assert forall|ext: Seq<Node>, cap: int|
        #[trigger] plan_within(path, ext, sdl, kind, goals, cap) && ext.len() >= 2 && same_state(c, ext[1]) implies f
        <= cap by {
        lemma_plan_step(path, ext, sdl, kind, goals, cap, c);
    }
}

/// No plan goes on through a child whose hash is on the path already.
proof fn lemma_seen_no_plan(path: Seq<Node>, c: Node, sdl: BitMatrix, kind: Heuristic, goals: Seq<Point2D>)
    requires
        exists|t: int| 0 <= t < path.len() && (#[trigger] path[t]).hash == c.hash,
    ensures
        forall|ext: Seq<Node>, cap: int|
            #[trigger] plan_within(path, ext, sdl, kind, goals, cap) && ext.len() >= 2 ==> !same_state(c, ext[1]),
{
    reveal(plan_within);
    assert forall|ext: Seq<Node>, cap: int|
        #[trigger] plan_within(path, ext, sdl, kind, goals, cap) && ext.len() >= 2 implies !same_state(c, ext[1]) by {
        let t = choose|t: int| 0 <= t < path.len() && (#[trigger] path[t]).hash == c.hash;
        assert(ext[1].hash != path[t].hash);
    }
}

/// After the search tried the first of the pending successors, every plan
/// is within the new minimum or goes on through one still pending.
proof fn lemma_iter_plans(
    path: Seq<Node>,
    pending: Seq<Node>,
    c: Node,
    sdl: BitMatrix,
    kind: Heuristic,
    goals: Seq<Point2D>,
    min0: int,
    min: int,
)
    requires
        pending.len() >= 1,
        pending[0] == c,
        min <= min0,
        forall|ext: Seq<Node>, cap: int|
            #[trigger] plan_within(path, ext, sdl, kind, goals, cap) ==> min0 <= cap || exists|j: int|
                0 <= j < pending.len() && same_state(#[trigger] pending[j], ext[1]),
        forall|ext: Seq<Node>, cap: int|
            #[trigger] plan_within(path, ext, sdl, kind, goals, cap) && ext.len() >= 2 && same_state(c, ext[1]) ==> min
                <= cap,
        !is_solved(path.last().map),
    ensures
        forall|ext: Seq<Node>, cap: int|
            #[trigger] plan_within(path, ext, sdl, kind, goals, cap) ==> min <= cap || exists|j: int|
                0 <= j < pending.drop_first().len() && same_state(#[trigger] pending.drop_first()[j], ext[1]),
{
    reveal(plan_within);
    let rest = pending.drop_first();
    assert forall|ext: Seq<Node>, cap: int| #[trigger] plan_within(path, ext, sdl, kind, goals, cap) implies min <= cap
        || exists|j: int| 0 <= j < rest.len() && same_state(#[trigger] rest[j], ext[1]) by {
        assert(ext.len() >= 2);
        if min0 > cap {
            let j = choose|j: int| 0 <= j < pending.len() && same_state(#[trigger] pending[j], ext[1]);
            if j > 0 {
                assert(rest[j - 1] == pending[j]);
            }
        }
    }
}

/// A copy of the search path, node by node.
fn clone_chain(path: &Vec<Node>) -> (r: Vec<Node>)
    ensures
        r@.len() == path@.len(),
        forall|i: int| 0 <= i < r@.len() ==> same_node(#[trigger] r@[i], path@[i]),
{
    let mut r: Vec<Node> = Vec::new();
    let mut i: usize = 0;
    while i < path.len()
        invariant
            i <= path@.len(),
            r@.len() == i,
            forall|j: int| 0 <= j < i ==> same_node(#[trigger] r@[j], path@[j]),
        decreases path@.len() - i,
    {
        r.push(path[i].clone());
        i = i + 1;
    }
    r
}

/// A chain copied node by node is still a chain.
proof fn lemma_chain_copy(c1: Seq<Node>, c2: Seq<Node>, root: TileMatrix, s: Set<Point2D>, sdl: BitMatrix)
    requires
        chain_ok(c1, root, s, sdl),
        c1.len() == c2.len(),
        forall|i: int| 0 <= i < c2.len() ==> same_node(#[trigger] c2[i], c1[i]),
    ensures
        chain_ok(c2, root, s, sdl),
        c2.last().map.width == c1.last().map.width,
        c2.last().map.data@ == c1.last().map.data@,
{
    assert(same_node(c2[0], c1[0]));
    assert forall|i: int| 0 <= i < c2.len() implies node_ok(#[trigger] c2[i], root, s) by {
        assert(same_node(c2[i], c1[i]));
        assert(node_ok(c1[i], root, s));
    }
    assert forall|i: int| 0 <= i < c2.len() implies (#[trigger] c2[i]).g == i by {
        assert(same_node(c2[i], c1[i]));
        assert(c1[i].g == i);
    }
    assert forall|i: int| 0 <= i < c2.len() implies (#[trigger] c2[i]).crates@.len() == c2[0].crates@.len() by {
        assert(same_node(c2[i], c1[i]));
        assert(c1[i].crates@.len() == c1[0].crates@.len());
    }
    assert forall|i: int| #![trigger c2[i]] 1 <= i < c2.len() implies is_successor(c2[i - 1], c2[i], sdl) by {
        assert(same_node(c2[i], c1[i]));
        assert(same_node(c2[i - 1], c1[i - 1]));
        assert(is_successor(c1[i - 1], c1[i], sdl));
        lemma_same_node_successor(c1[i - 1], c1[i], c2[i - 1], c2[i], sdl);
    }
    assert(same_node(c2[c2.len() - 1], c1[c1.len() - 1]));
}

/// A push successor of the last node extends a chain.
proof fn lemma_chain_push(chain: Seq<Node>, n: Node, root: TileMatrix, s: Set<Point2D>, sdl: BitMatrix)
    requires
        chain_ok(chain, root, s, sdl),
        is_successor(chain.last(), n, sdl),
        node_ok(n, root, s),
        n.crates@.len() == chain.last().crates@.len(),
    ensures
        chain_ok(chain.push(n), root, s, sdl),
{
    let c2 = chain.push(n);
    let (i, a) = choose|i: int, a: Action| push_ok(chain.last(), n, sdl, i, a);
    assert(n.g == chain.len());
    assert forall|k: int| 0 <= k < c2.len() implies node_ok(#[trigger] c2[k], root, s) by {
        if k < chain.len() {
            assert(c2[k] == chain[k]);
        }
    }
    assert forall|k: int| 0 <= k < c2.len() implies (#[trigger] c2[k]).g == k by {
        if k < chain.len() {
            assert(c2[k] == chain[k]);
        }
    }
    assert forall|k: int| 0 <= k < c2.len() implies (#[trigger] c2[k]).crates@.len() == c2[0].crates@.len() by {
        if k < chain.len() {
            assert(c2[k] == chain[k]);
        }
    }
    assert forall|k: int| #![trigger c2[k]] 1 <= k < c2.len() implies is_successor(c2[k - 1], c2[k], sdl) by {
        if k < chain.len() {
            assert(c2[k] == chain[k]);
            assert(c2[k - 1] == chain[k - 1]);
        } else {
            assert(c2[k - 1] == chain.last());
        }
    }
}

/// What one push tried by the successor search gives.
enum PushOutcome {
    /// The player cannot reach the cell behind the crate.
    Unreachable,
    /// The crate would land on a simple deadlock.
    SimpleDeadlock,
    /// A wall or a crate stands in front of the crate.
    Blocked,
    /// The pushed crate would be frozen in a deadlock.
    Frozen,
    /// The node after the push.
    Child(Node),
}

/// The successors, reordered, are still all successors and still hold every
/// possible push.
proof fn lemma_sorted_successors(
    nd: Node,
    unsorted: Seq<Node>,
    sorted: Seq<Node>,
    from: Seq<int>,
    to: Seq<int>,
    root: TileMatrix,
    s: Set<Point2D>,
    sdl: BitMatrix,
    kind: Heuristic,
    goals: Seq<Point2D>,
)
    requires
        placed(sorted, unsorted, 0, from, to),
        forall|k: int| 0 <= k < unsorted.len() ==> child_ok(nd, #[trigger] unsorted[k], root, s, sdl, kind, goals),
        forall|ii: int, kk: int|
            #![trigger push_possible(nd, sdl, ii, push_dir(kk))]
            0 <= ii < nd.crates@.len() && 0 <= kk < 4 && push_possible(nd, sdl, ii, push_dir(kk)) ==> exists|k: int|
                0 <= k < unsorted.len() && push_ok(nd, #[trigger] unsorted[k], sdl, ii, push_dir(kk)),
    ensures
        forall|k: int| 0 <= k < sorted.len() ==> child_ok(nd, #[trigger] sorted[k], root, s, sdl, kind, goals),
        forall|ii: int, a: Action|
            #[trigger] push_possible(nd, sdl, ii, a) ==> exists|k: int| 0 <= k < sorted.len() && push_ok(nd, #[trigger] sorted[k], sdl, ii, a),
{
    assert forall|ii: int, a: Action| #[trigger] push_possible(nd, sdl, ii, a) implies exists|k: int|
        0 <= k < sorted.len() && push_ok(nd, #[trigger] sorted[k], sdl, ii, a) by {
        let kk: int = if a is PushRight {
            0
        } else if a is PushLeft {
            1
        } else if a is PushDown {
            2
        } else {
            3
        };
        assert(a == push_dir(kk));
        assert(push_possible(nd, sdl, ii, push_dir(kk)));
        let m0 = choose|m: int| 0 <= m < unsorted.len() && push_ok(nd, #[trigger] unsorted[m], sdl, ii, push_dir(kk));
        assert(sorted[to[m0]] == unsorted[m0]);
        assert(push_ok(nd, sorted[to[m0]], sdl, ii, a));
    }
    assert forall|k: int| 0 <= k < sorted.len() implies child_ok(nd, #[trigger] sorted[k], root, s, sdl, kind, goals) by {
        assert(sorted[k] == unsorted[from[k]]);
        assert(child_ok(nd, unsorted[from[k]], root, s, sdl, kind, goals));
    }
}

/// The grid's hash, as `Hash` for `TileMatrix` feeds a `DefaultHasher`.
pub uninterp spec fn grid_hash(width: usize, cells: Seq<Tile>) -> u64;

/// Hashes a grid with a `DefaultHasher` made by `DefaultHasher::new`, whose
/// keys are fixed: equal grids give equal hashes. As for `hash_state`, the
/// number itself is left unsaid.
#[verifier::external_body]
fn hash_grid(m: &TileMatrix) -> (h: u64)
    ensures
        h == grid_hash(m.width, m.data@),
{
    let mut s = DefaultHasher::new();
    m.hash(&mut s);
    s.finish()
}

/// The grid of width `w` with cells `c` is in the store `dl` of grids
/// recorded as leading nowhere (grids bucketed by their hash).
pub open spec fn grid_recorded(dl: Map<u64, Vec<TileMatrix>>, w: usize, c: Seq<Tile>) -> bool {
    exists|k: u64, j: int|
        #![trigger dl[k]@[j]]
        dl.contains_key(k) && 0 <= j < dl[k]@.len() && dl[k]@[j].width == w && dl[k]@[j].data@ == c
}

/// Every grid recorded in `d1` is recorded in `d2`.
pub open spec fn records_kept(d1: Map<u64, Vec<TileMatrix>>, d2: Map<u64, Vec<TileMatrix>>) -> bool {
    forall|w: usize, c: Seq<Tile>| grid_recorded(d1, w, c) ==> #[trigger] grid_recorded(d2, w, c)
}

/// Pushing the `i`-th crate of the last node of `path` towards `a` leads
/// nowhere new: to a state whose hash is that of a node of `path`, to a
/// grid recorded in `dl`, or to a node whose `g + h` runs past
/// `usize::MAX`.
pub open spec fn push_elsewhere(
    path: Seq<Node>,
    dl: Map<u64, Vec<TileMatrix>>,
    kind: Heuristic,
    goals: Seq<Point2D>,
    i: int,
    a: Action,
) -> bool {
    let n = path.last();
    let c = n.crates@[i];
    let crates = n.crates@.update(i, step(c, a));
    let cells = pushed_cells(n.map.data@, n.map.width, a, c, n.map.data@, n.player);
    ||| exists|j: int| 0 <= j < path.len() && path[j].hash == state_hash(crates, c)
    ||| grid_recorded(dl, n.map.width, cells)
    ||| n.g + 1 + heuristic_value(kind, crates, goals, cells) >= usize::MAX
}

/// The last node of `path` leads nowhere: it is not solved, and every push
/// that the search would make from it leads nowhere new.
pub open spec fn leads_nowhere(
    path: Seq<Node>,
    dl: Map<u64, Vec<TileMatrix>>,
    sdl: BitMatrix,
    kind: Heuristic,
    goals: Seq<Point2D>,
) -> bool {
    &&& !is_solved(path.last().map)
    &&& forall|i: int, a: Action| #[trigger] push_possible(path.last(), sdl, i, a) ==> push_elsewhere(path, dl, kind, goals, i, a)
}

/// The grid of width `w` with cells `c` has a cause to be recorded as
/// leading nowhere: it is the grid of the last node of a chain of pushes
/// from `root` whose `g + h` runs past `usize::MAX` or that leads nowhere.
pub open spec fn dead_for_cause(
    dl: Map<u64, Vec<TileMatrix>>,
    w: usize,
    c: Seq<Tile>,
    root: TileMatrix,
    s: Set<Point2D>,
    sdl: BitMatrix,
    kind: Heuristic,
    goals: Seq<Point2D>,
) -> bool {
    exists|path: Seq<Node>|
        #![trigger chain_ok(path, root, s, sdl)]
        chain_ok(path, root, s, sdl) && path.last().map.width == w && path.last().map.data@ == c && (f_cost(
            path.last(),
        ) == usize::MAX || leads_nowhere(path, dl, sdl, kind, goals))
}

/// Every grid recorded in `dl` has a cause.
#[verifier::opaque]
pub open spec fn records_have_cause(
    dl: Map<u64, Vec<TileMatrix>>,
    root: TileMatrix,
    s: Set<Point2D>,
    sdl: BitMatrix,
    kind: Heuristic,
    goals: Seq<Point2D>,
) -> bool {
    forall|w: usize, c: Seq<Tile>|
        #[trigger] grid_recorded(dl, w, c) ==> dead_for_cause(dl, w, c, root, s, sdl, kind, goals)
}

/// A cause stays a cause as more grids are recorded.
proof fn lemma_cause_kept(
    d1: Map<u64, Vec<TileMatrix>>,
    d2: Map<u64, Vec<TileMatrix>>,
    w: usize,
    c: Seq<Tile>,
    root: TileMatrix,
    s: Set<Point2D>,
    sdl: BitMatrix,
    kind: Heuristic,
    goals: Seq<Point2D>,
)
    requires
        records_kept(d1, d2),
        dead_for_cause(d1, w, c, root, s, sdl, kind, goals),
    ensures
        dead_for_cause(d2, w, c, root, s, sdl, kind, goals),
{
    let path = choose|path: Seq<Node>|
        #![trigger chain_ok(path, root, s, sdl)]
        chain_ok(path, root, s, sdl) && path.last().map.width == w && path.last().map.data@ == c && (f_cost(
            path.last(),
        ) == usize::MAX || leads_nowhere(path, d1, sdl, kind, goals));
    if f_cost(path.last()) != usize::MAX {
        lemma_nowhere_kept(path, d1, d2, sdl, kind, goals);
    }
}

/// Leading nowhere stays so as more grids are recorded.
proof fn lemma_nowhere_kept(
    path: Seq<Node>,
    d1: Map<u64, Vec<TileMatrix>>,
    d2: Map<u64, Vec<TileMatrix>>,
    sdl: BitMatrix,
    kind: Heuristic,
    goals: Seq<Point2D>,
)
    requires
        records_kept(d1, d2),
        leads_nowhere(path, d1, sdl, kind, goals),
    ensures
        leads_nowhere(path, d2, sdl, kind, goals),
{
    assert forall|i: int, a: Action| #[trigger] push_possible(path.last(), sdl, i, a) implies push_elsewhere(
        path,
        d2,
        kind,
        goals,
        i,
        a,
    ) by {
        assert(push_elsewhere(path, d1, kind, goals, i, a));
        let n = path.last();
        let c = n.crates@[i];
        let cells = pushed_cells(n.map.data@, n.map.width, a, c, n.map.data@, n.player);
        if grid_recorded(d1, n.map.width, cells) {
            assert(grid_recorded(d2, n.map.width, cells));
        }
    }
}

/// What a search that gave up (returned `usize::MAX`) while the time was
/// not up, with deadlock hashing on, leaves behind about the node it
/// started on: its grid is recorded as leading nowhere, its `g + h` runs
/// past `usize::MAX`, or it leads nowhere.
#[verifier::opaque]
pub open spec fn gave_up_for_cause(
    hashing: bool,
    over: bool,
    f: usize,
    path: Seq<Node>,
    dl: Map<u64, Vec<TileMatrix>>,
    sdl: BitMatrix,
    kind: Heuristic,
    goals: Seq<Point2D>,
) -> bool {
    hashing && !over && f == usize::MAX ==> grid_recorded(dl, path.last().map.width, path.last().map.data@) || f_cost(
        path.last(),
    ) == usize::MAX || leads_nowhere(path, dl, sdl, kind, goals)
}

/// Every push from the last node of `path` that the search would make is
/// still to be tried (its node is among `succs`) or leads nowhere new.
#[verifier::opaque]
pub open spec fn pushes_accounted(
    path: Seq<Node>,
    succs: Seq<Node>,
    dl: Map<u64, Vec<TileMatrix>>,
    sdl: BitMatrix,
    kind: Heuristic,
    goals: Seq<Point2D>,
) -> bool {
    forall|i: int, a: Action|
        #[trigger] push_possible(path.last(), sdl, i, a) ==> (exists|j: int|
            0 <= j < succs.len() && push_ok(path.last(), succs[j], sdl, i, a)) || push_elsewhere(path, dl, kind, goals, i, a)
}

/// Before any try, every possible push has its node among the successors.
proof fn lemma_accounted_start(
    path: Seq<Node>,
    succs: Seq<Node>,
    dl: Map<u64, Vec<TileMatrix>>,
    sdl: BitMatrix,
    kind: Heuristic,
    goals: Seq<Point2D>,
)
    requires
        forall|i: int, a: Action|
            #[trigger] push_possible(path.last(), sdl, i, a) ==> exists|k: int|
                0 <= k < succs.len() && push_ok(path.last(), #[trigger] succs[k], sdl, i, a),
    ensures
        pushes_accounted(path, succs, dl, sdl, kind, goals),
{
    reveal(pushes_accounted);
}

/// Trying the first successor, which leads nowhere new, keeps every push
/// accounted for, also as more grids are recorded.
proof fn lemma_accounted_step(
    path: Seq<Node>,
    pre: Seq<Node>,
    d1: Map<u64, Vec<TileMatrix>>,
    d2: Map<u64, Vec<TileMatrix>>,
    sdl: BitMatrix,
    kind: Heuristic,
    goals: Seq<Point2D>,
)
    requires
        pre.len() > 0,
        pushes_accounted(path, pre, d1, sdl, kind, goals),
        records_kept(d1, d2),
        forall|i: int, a: Action| push_ok(path.last(), pre[0], sdl, i, a) ==> push_elsewhere(path, d2, kind, goals, i, a),
    ensures
        pushes_accounted(path, pre.drop_first(), d2, sdl, kind, goals),
{
    reveal(pushes_accounted);
    let post = pre.drop_first();
    assert forall|i: int, a: Action| #[trigger] push_possible(path.last(), sdl, i, a) implies (exists|j: int|
        0 <= j < post.len() && push_ok(path.last(), post[j], sdl, i, a)) || push_elsewhere(path, d2, kind, goals, i, a) by {
        if exists|j: int| 0 <= j < pre.len() && push_ok(path.last(), pre[j], sdl, i, a) {
            let j = choose|j: int| 0 <= j < pre.len() && push_ok(path.last(), pre[j], sdl, i, a);
            if j > 0 {
                assert(post[j - 1] == pre[j]);
            }
        } else {
            assert(push_elsewhere(path, d1, kind, goals, i, a));
            let n = path.last();
            let c = n.crates@[i];
            let cells = pushed_cells(n.map.data@, n.map.width, a, c, n.map.data@, n.player);
            if grid_recorded(d1, n.map.width, cells) {
                assert(grid_recorded(d2, n.map.width, cells));
            }
        }
    }
}

/// A push to a state with the hash of a node of the path, or to a recorded
/// grid, leads nowhere new.
proof fn lemma_elsewhere_of_child(
    path: Seq<Node>,
    sc: Node,
    dl: Map<u64, Vec<TileMatrix>>,
    sdl: BitMatrix,
    kind: Heuristic,
    goals: Seq<Point2D>,
)
    requires
        sc.hash == state_hash(sc.crates@, sc.player),
        (exists|t: int| 0 <= t < path.len() && path[t].hash == sc.hash) || grid_recorded(dl, sc.map.width, sc.map.data@),
    ensures
        forall|i: int, a: Action| push_ok(path.last(), sc, sdl, i, a) ==> push_elsewhere(path, dl, kind, goals, i, a),
{
}

/// Keeping records is transitive.
proof fn lemma_kept_trans(d1: Map<u64, Vec<TileMatrix>>, d2: Map<u64, Vec<TileMatrix>>, d3: Map<u64, Vec<TileMatrix>>)
    requires
        records_kept(d1, d2),
        records_kept(d2, d3),
    ensures
        records_kept(d1, d3),
{
    assert forall|w: usize, c: Seq<Tile>| grid_recorded(d1, w, c) implies #[trigger] grid_recorded(d3, w, c) by {
        assert(grid_recorded(d2, w, c));
    }
}

/// A search that gave up on a node reached by a chain of pushes gives its
/// grid a cause to be recorded.
proof fn lemma_cause_from_give_up(
    path: Seq<Node>,
    dl: Map<u64, Vec<TileMatrix>>,
    root: TileMatrix,
    s: Set<Point2D>,
    sdl: BitMatrix,
    kind: Heuristic,
    goals: Seq<Point2D>,
)
    requires
        gave_up_for_cause(true, false, usize::MAX, path, dl, sdl, kind, goals),
        chain_ok(path, root, s, sdl),
        records_have_cause(dl, root, s, sdl, kind, goals),
    ensures
        dead_for_cause(dl, path.last().map.width, path.last().map.data@, root, s, sdl, kind, goals),
{
    reveal(gave_up_for_cause);
    reveal(records_have_cause);
    let (w, c) = (path.last().map.width, path.last().map.data@);
    if !grid_recorded(dl, w, c) {
        assert(chain_ok(path, root, s, sdl));
    }
}

/// With every push accounted for and none left to try, the node leads
/// nowhere.
proof fn lemma_accounted_end(
    path: Seq<Node>,
    succs: Seq<Node>,
    dl: Map<u64, Vec<TileMatrix>>,
    sdl: BitMatrix,
    kind: Heuristic,
    goals: Seq<Point2D>,
)
    requires
        succs.len() == 0,
        pushes_accounted(path, succs, dl, sdl, kind, goals),
        !is_solved(path.last().map),
    ensures
        leads_nowhere(path, dl, sdl, kind, goals),
{
    reveal(pushes_accounted);
}

/// A push-optimal Sokoban solver: iterative deepening A* over crate pushes,
/// followed by A* path finding for the walks between the pushes.
pub struct IDAStarSolver {
    debug: bool,
    deadlock_hashing_on: bool,
    rundat: RunDat,
    goals: Vec<Point2D>,
    // current search path (acts like a stack)
    path: Vec<Node>,
    heuristic: Heuristic,
    solutions: Vec<Vec<Node>>,
    simple_deadlocks: BitMatrix,
    // grids known to lead nowhere, bucketed by their hash
    deadlocks: HashMap<u64, Vec<TileMatrix>>,
    timer: Instant,
    search_over: bool,
    // the readings of the clock taken during the search
    readings: Ghost<Seq<u64>>,
    root: Ghost<TileMatrix>,
    enclosure: Ghost<Set<Point2D>>,
}

/// What a run of the solver found.
pub struct SolveReport {
    /// The moves of the shortest (in moves) of the push-optimal solutions
    /// found; empty when there is none.
    pub path: Vec<Action>,
    /// How many solutions the last iteration found.
    pub solutions: usize,
    /// The last bound the search used.
    pub bound: usize,
    /// Every bound the search started an iteration with, in order.
    pub bounds: Vec<usize>,
    /// Whether the search gave up at the time limit.
    pub timed_out: bool,
    /// The counters of the search.
    pub rundat: RunDat,
}

impl IDAStarSolver {
    /// The goal positions of the puzzle.
    pub closed spec fn goal_points(&self) -> Seq<Point2D> {
        self.goals@
    }

    /// The puzzle being solved.
    pub closed spec fn root_map(&self) -> TileMatrix {
        self.root@
    }

    /// The enclosure that holds the puzzle's pieces.
    pub closed spec fn enclosure_set(&self) -> Set<Point2D> {
        self.enclosure@
    }

    /// The cells from which a crate can still reach a goal.
    pub closed spec fn live_cells(&self) -> BitMatrix {
        self.simple_deadlocks
    }

    /// The counters of the search.
    pub closed spec fn run_counters(&self) -> RunDat {
        self.rundat
    }

    /// The seconds since the start that the search read off the clock, in
    /// order.
    pub closed spec fn clock_readings(&self) -> Seq<u64> {
        self.readings@
    }

    /// The heuristic the search is guided by.
    pub closed spec fn heuristic_kind(&self) -> Heuristic {
        self.heuristic
    }

    /// Whether the search records grids that led nowhere and skips them.
    pub closed spec fn hashes_grids(&self) -> bool {
        self.deadlock_hashing_on
    }

    /// The solutions recorded so far.
    pub closed spec fn solution_chains(&self) -> Seq<Seq<Node>> {
        Seq::new(self.solutions@.len(), |k: int| self.solutions@[k]@)
    }

    /// The node the search stands on.
    pub closed spec fn search_path(&self) -> Seq<Node> {
        self.path@
    }

    /// The grids recorded as leading nowhere.
    pub closed spec fn dead_grid(&self, width: usize, cells: Seq<Tile>) -> bool {
        grid_recorded(self.deadlocks@, width, cells)
    }

    /// The store of the grids recorded as leading nowhere.
    pub closed spec fn dead_store(&self) -> Map<u64, Vec<TileMatrix>> {
        self.deadlocks@
    }

    /// Whether the time of the search is up.
    pub closed spec fn time_is_up(&self) -> bool {
        self.search_over
    }

    /// The facts every estimate rests on.
    closed spec fn estimate_ok(&self) -> bool {
        let root = self.root@;
        let s = self.enclosure@;
        &&& is_enclosure(root, s)
        &&& root.data@.len() * root.data@.len() <= usize::MAX
        &&& forall|j: int| 0 <= j < self.goals@.len() ==> #[trigger] s.contains(self.goals@[j])
        &&& self.goals@.len() == goal_tiles(root.data@)
        &&& heuristic_fits(self.heuristic, root.data@)
    }

    /// The facts about the puzzle that hold for the whole search.
    closed spec fn search_ok(&self) -> bool {
        let root = self.root@;
        let sdl = self.simple_deadlocks;
        &&& self.estimate_ok()
        &&& pieces_in(root, self.enclosure@)
        &&& sdl.width == root.width
        &&& sdl.bits().len() == root.data@.len()
        &&& self.goals@ == goal_points_of(root.width, root.data@)
        &&& live_exact(root, sdl)
    }

    /// The solver's invariant.
    pub closed spec fn wf(&self) -> bool {
        let root = self.root@;
        let s = self.enclosure@;
        let sdl = self.simple_deadlocks;
        &&& self.search_ok()
        &&& chain_ok(self.path@, root, s, sdl)
        &&& self.path@[0].crates@.len() == crate_tiles(root.data@)
        &&& path_estimated(self.path@, self.heuristic, self.goals@)
        &&& hashes_apart(self.path@)
        &&& over_after_reading(self.search_over, self.readings@)
        &&& self.deadlock_hashing_on && !self.search_over ==> records_have_cause(
            self.deadlocks@,
            root,
            s,
            sdl,
            self.heuristic,
            self.goals@,
        )
        &&& forall|k: int|
            0 <= k < self.solutions@.len() ==> solution_ok(#[trigger] self.solutions@[k]@, root, s, sdl)
        &&& forall|k: u64, j: int|
            #![trigger self.deadlocks@[k]@[j]]
            self.deadlocks@.contains_key(k) && 0 <= j < self.deadlocks@[k]@.len() ==> grid_hash(
                self.deadlocks@[k]@[j].width,
                self.deadlocks@[k]@[j].data@,
            ) == k
    }

    /// The estimate of the solver's heuristic for `node`.
    fn estimate(&self, node: &Node) -> (h: usize)
        requires
            self.estimate_ok(),
            node_ok(*node, self.root@, self.enclosure@),
            node.crates@.len() == crate_tiles(self.root@.data@),
        ensures
            h == heuristic_value(self.heuristic, node.crates@, self.goals@, node.map.data@),
    {
        let ghost root = self.root@;
        let ghost s = self.enclosure@;
        let ghost len = root.data@.len() as int;
        let ghost n = node.crates@.len() as int;
        proof {
            lemma_crate_tiles_bound(root.data@);
            lemma_enclosed_interior(root, s, node.player);
            assert forall|i: int, j: int| 0 <= i < n && 0 <= j < self.goals@.len() implies manhattan(
                #[trigger] node.crates@[i],
                #[trigger] self.goals@[j],
            ) < len by {
                assert(s.contains(node.crates@[i]));
                assert(s.contains(self.goals@[j]));
                lemma_enclosed_interior(root, s, node.crates@[i]);
                lemma_enclosed_interior(root, s, self.goals@[j]);
                lemma_manhattan_bound(root, node.crates@[i], self.goals@[j]);
            }
            assert(len <= usize::MAX) by (nonlinear_arith)
                requires
                    0 <= len,
                    len * len <= usize::MAX,
            ;
            assert(self.goal_points() == self.goals@);
            assert(n * (len - 1) <= usize::MAX) by (nonlinear_arith)
                requires
                    0 <= n <= len,
                    len * len <= usize::MAX,
            ;
        }
        match self.heuristic {
            Heuristic::ClosestBox => {
                proof {
                    if node.crates@.len() > 0 {
                        let g = self.goals@.len() as int;
                        assert(g * (len - 1) <= usize::MAX) by (nonlinear_arith)
                            requires
                                0 <= g <= len,
                                len * len <= usize::MAX,
                        ;
                        lemma_closest_box_bound(node.crates@, self.goals@, len - 1);
                    } else {
                        lemma_closest_box_no_crate(node.crates@, self.goals@);
                    }
                }
                heuristic::closest_box(self, node)
            },
            Heuristic::GoalCount => heuristic::goal_count(self, node),
            Heuristic::GreedyPerfectMatch => {
                proof {
                    assert(n * n <= usize::MAX) by (nonlinear_arith)
                        requires
                            0 <= n <= len,
                            len * len <= usize::MAX,
                    ;
                    lemma_reduction_bound(node.crates@, self.goals@, len - 1);
                }
                heuristic::greedy_perfect_match(self, node)
            },
        }
    }


    /// Sets up a search of `puzzle`: collects its goals, crates and player,
    /// finds the simple deadlocks and makes the root node.
    pub fn new(puzzle: TileMatrix, heuristic: Heuristic, deadlock_hashing_on: bool, debug: bool) -> (solver:
        IDAStarSolver)
        requires
            solvable_shape(puzzle),
            heuristic_fits(heuristic, puzzle.data@),
        ensures
            solver.wf(),
            solver.root_map() == puzzle,
            solver.heuristic_kind() == heuristic,
            solver.hashes_grids() == deadlock_hashing_on,
            solver.goal_points() == goal_points_of(puzzle.width, puzzle.data@),
            solver.search_path().len() == 1,
            solver.search_path()[0].map.width == puzzle.width,
            solver.search_path()[0].map.data@ == puzzle.data@,
            solver.search_path()[0].crates@ == crate_points_of(puzzle.width, puzzle.data@),
            Some(solver.search_path()[0].player) == player_cell(puzzle.width, puzzle.data@),
            solver.search_path()[0].action == Action::NoMove,
            solver.search_path()[0].g == 0,
            solver.search_path()[0].h == heuristic_value(
                heuristic,
                solver.search_path()[0].crates@,
                solver.goal_points(),
                puzzle.data@,
            ),
            solver.solution_chains().len() == 0,
            solver.run_counters().nodes_checked == 0,
            solver.run_counters().nodes_generated == 0,
            solver.run_counters().nodes_deadlocked == 0,
            solver.run_counters().nodes_skipped == 0,
            solver.clock_readings().len() == 0,
            forall|p: Point2D|
                canonical(puzzle, p) ==> (#[trigger] solver.live_cells().flag(p) <==> exists|j: int|
                    0 <= j < solver.goal_points().len() && #[trigger] pull_reach(puzzle, solver.goal_points()[j]).contains(p)),
    {
        let ghost s = choose|s: Set<Point2D>| #[trigger] is_enclosure(puzzle, s) && pieces_in(puzzle, s);
        let ghost cells = puzzle.data@;
        let ghost w = puzzle.width;
        let ghost pi = choose|i: int| 0 <= i < puzzle.data@.len() && (#[trigger] puzzle.data@[i] is Player || puzzle.data@[i] is PlayerGoal);
        let len = puzzle.data.len();
        proof {
            let pp = cell_point(w, pi);
            lemma_cell_point(puzzle, pi);
            assert(s.contains(pp));
            lemma_enclosed_interior(puzzle, s, pp);
        }
        // remove static pieces from the puzzle.
        let mut goals: Vec<Point2D> = Vec::new();
        let mut crates: Vec<Point2D> = Vec::new();
        let mut player: Option<Point2D> = None;
        let mut i: usize = 0;
        while i < puzzle.data.len()
            invariant
                i <= cells.len(),
                cells == puzzle.data@,
                w == puzzle.width,
                w > 0,
                is_enclosure(puzzle, s),
                pieces_in(puzzle, s),
                goals@ == goal_points_of(w, cells.subrange(0, i as int)),
                crates@ == crate_points_of(w, cells.subrange(0, i as int)),
                player == player_cell(w, cells.subrange(0, i as int)),
                goals@.len() == goal_tiles(cells.subrange(0, i as int)),
                crates@.len() == crate_tiles(cells.subrange(0, i as int)),
                forall|j: int| 0 <= j < goals@.len() ==> #[trigger] s.contains(goals@[j]),
                forall|j: int| 0 <= j < crates@.len() ==> #[trigger] s.contains(crates@[j]),
                forall|j: int| 0 <= j < crates@.len() ==> is_crate_tile(puzzle.tile(#[trigger] crates@[j])),
                forall|j: int| 0 <= j < crates@.len() ==> canonical(puzzle, #[trigger] crates@[j]),
                forall|j: int| 0 <= j < crates@.len() ==> index_of(w, #[trigger] crates@[j]) < i,
                forall|j: int, k: int|
                    0 <= j < k < crates@.len() ==> index_of(w, #[trigger] crates@[j]) < index_of(w, #[trigger] crates@[k]),
                player matches Some(p) ==> s.contains(p) && is_player_tile(puzzle.tile(p)),
            decreases cells.len() - i,
        {
            let ghost pre = cells.subrange(0, i as int);
            let ghost post = cells.subrange(0, i + 1);
            proof {
                assert(post.drop_last() =~= pre);
                assert(post.last() == cells[i as int]);
                lemma_cell_point(puzzle, i as int);
            }
            let ghost p = cell_point(w, i as int);
            let (x, y) = (i % puzzle.width, i / puzzle.width);
            assert(Point2D { x, y } == cell_point(w, i as int));
            match puzzle.data[i] {
                Tile::Player => {
                    player = Some(Point2D::new(x, y));
                },
                Tile::PlayerGoal => {
                    player = Some(Point2D::new(x, y));
                    goals.push(Point2D::new(x, y));
                },
                Tile::Crate => {
                    crates.push(Point2D::new(x, y));
                },
                Tile::CrateGoal => {
                    goals.push(Point2D::new(x, y));
                    crates.push(Point2D::new(x, y));
                },
                Tile::Goal => {
                    goals.push(Point2D::new(x, y));
                },
                _ => (),
            };
            i = i + 1;
        }
        assert(cells.subrange(0, cells.len() as int) =~= cells);
        proof {
            lemma_player_cell_found(w, cells, pi);
        }
        let player = player.unwrap();
        proof {
            assert forall|j: int| 0 <= j < goals@.len() implies encloses(puzzle, #[trigger] goals@[j]) by {
                assert(s.contains(goals@[j]));
            }
            assert(crates@.no_duplicates()) by {
                assert forall|j: int, k: int| 0 <= j < crates@.len() && 0 <= k < crates@.len() && j != k implies crates@[j]
                    != crates@[k] by {
                    if j < k {
                        assert(index_of(w, crates@[j]) < index_of(w, crates@[k]));
                    } else {
                        assert(index_of(w, crates@[k]) < index_of(w, crates@[j]));
                    }
                }
            }
            assert(same_walls(puzzle, puzzle));
        }
        let simple_deadlocks: BitMatrix = find_simple_deadlocks(&puzzle, &goals);
        let ghost live = simple_deadlocks;
        let ghost goal_seq = goals@;

        // puzzle size is a good vector size estimate which should increase performance because IDA* doesn't
        // particularly need lots of memory.
        let path: Vec<Node> = Vec::with_capacity(puzzle.data.len());
        let ghost root = puzzle;
        let mut root_node = Node::default(puzzle, crates, player);
        let mut solver = IDAStarSolver {
            debug,
            deadlock_hashing_on,
            rundat: RunDat::new(),
            goals,
            path,
            heuristic,
            solutions: Vec::new(),
            deadlocks: HashMap::new(),
            simple_deadlocks,
            timer: now(),
            search_over: false,
            readings: Ghost(Seq::empty()),
            root: Ghost(root),
            enclosure: Ghost(s),
        };
        proof {
            assert(node_ok(root_node, root, s));
        }
        root_node.h = solver.estimate(&root_node);
        solver.path.push(root_node);
        proof {
            assert(solver.path@[0] == root_node);
            assert(chain_ok(solver.path@, root, s, solver.simple_deadlocks));
            assert(solver.solution_chains() =~= Seq::<Seq<Node>>::empty());
            assert(solver.live_cells() == live);
            assert(solver.goal_points() == goal_seq);
            assert forall|p: Point2D| canonical(puzzle, p) implies (#[trigger] solver.live_cells().flag(p) <==> exists|j: int|
                0 <= j < solver.goal_points().len() && #[trigger] pull_reach(puzzle, solver.goal_points()[j]).contains(p)) by {
                assert(live.flag(p) <==> exists|j: int| 0 <= j < goal_seq.len() && #[trigger] pull_reach(puzzle, goal_seq[j]).contains(p));
            }
            assert(live_exact(root, live)) by {
                reveal(live_exact);
            }
            assert(over_after_reading(false, Seq::empty())) by {
                reveal(over_after_reading);
            }
            assert(records_have_cause(
                solver.deadlocks@,
                solver.root@,
                solver.enclosure@,
                solver.simple_deadlocks,
                solver.heuristic,
                solver.goals@,
            )) by {
                reveal(records_have_cause);
            }
        }
        solver
    }

    fn is_simple_deadlock(&self, pos: Point2D) -> (r: bool)
        requires
            self.simple_deadlocks.in_bounds(pos),
            self.simple_deadlocks.bits().len() <= usize::MAX,
        ensures
            r == !self.simple_deadlocks.flag(pos),
    {
        !self.simple_deadlocks.get(pos).unwrap()
    }

    // if a crate is not on a goal, then it is not solved.
    fn is_goal(&self, node: &Node) -> (r: bool)
        ensures
            r == is_solved(node.map),
    {
        let mut i: usize = 0;
        while i < node.map.data.len()
            invariant
                i <= node.map.data@.len(),
                forall|j: int| 0 <= j < i ==> !(#[trigger] node.map.data@[j] is Crate),
            decreases node.map.data@.len() - i,
        {
            if let Tile::Crate = node.map.data[i] {
                return false;
            }
            i = i + 1;
        }
        true
    }

    /// Whether `m` was recorded as leading nowhere.
    fn is_dead_grid(&self, m: &TileMatrix) -> (r: bool)
        requires
            self.wf(),
        ensures
            r == self.dead_grid(m.width, m.data@),
    {
        broadcast use vstd::std_specs::hash::group_hash_axioms;

        let k = hash_grid(m);
        match self.deadlocks.get(&k) {
            Some(bucket) => {
                let mut j: usize = 0;
                while j < bucket.len()
                    invariant
                        j <= bucket@.len(),
                        self.deadlocks@.contains_key(k),
                        self.deadlocks@[k] == *bucket,
                        forall|t: int| 0 <= t < j ==> !(#[trigger] bucket@[t].width == m.width && bucket@[t].data@ == m.data@),
                    decreases bucket@.len() - j,
                {
                    if bucket[j].same_as(m) {
                        assert(self.deadlocks@[k]@[j as int] == bucket@[j as int]);
                        return true;
                    }
                    j = j + 1;
                }
                proof {
                    if self.dead_grid(m.width, m.data@) {
                        let (k2, t) = choose|k2: u64, t: int|
                            #![trigger self.deadlocks@[k2]@[t]]
                            self.deadlocks@.contains_key(k2) && 0 <= t < self.deadlocks@[k2]@.len()
                                && self.deadlocks@[k2]@[t].width == m.width && self.deadlocks@[k2]@[t].data@ == m.data@;
                        assert(grid_hash(self.deadlocks@[k2]@[t].width, self.deadlocks@[k2]@[t].data@) == k2);
                        assert(bucket@[t].width == m.width);
                    }
                }
                false
            },
            None => {
                proof {
                    if self.dead_grid(m.width, m.data@) {
                        let (k2, t) = choose|k2: u64, t: int|
                            #![trigger self.deadlocks@[k2]@[t]]
                            self.deadlocks@.contains_key(k2) && 0 <= t < self.deadlocks@[k2]@.len()
                                && self.deadlocks@[k2]@[t].width == m.width && self.deadlocks@[k2]@[t].data@ == m.data@;
                        assert(grid_hash(self.deadlocks@[k2]@[t].width, self.deadlocks@[k2]@[t].data@) == k2);
                    }
                }
                false
            },
        }
    }

    /// Records `m` as leading nowhere.
    fn add_dead_grid(&mut self, m: TileMatrix)
        requires
            old(self).wf(),
            old(self).deadlock_hashing_on && !old(self).search_over ==> dead_for_cause(
                old(self).deadlocks@,
                m.width,
                m.data@,
                old(self).root@,
                old(self).enclosure@,
                old(self).simple_deadlocks,
                old(self).heuristic,
                old(self).goals@,
            ),
        ensures
            records_kept(old(self).deadlocks@, final(self).deadlocks@),
            final(self).wf(),
            final(self).path == old(self).path,
            final(self).solutions == old(self).solutions,
            final(self).goals == old(self).goals,
            final(self).heuristic == old(self).heuristic,
            final(self).simple_deadlocks == old(self).simple_deadlocks,
            final(self).root == old(self).root,
            final(self).enclosure == old(self).enclosure,
            final(self).rundat == old(self).rundat,
            final(self).debug == old(self).debug,
            final(self).deadlock_hashing_on == old(self).deadlock_hashing_on,
            final(self).timer == old(self).timer,
            final(self).search_over == old(self).search_over,
            forall|w: usize, c: Seq<Tile>| #[trigger] final(self).dead_grid(w, c) <==> (old(self).dead_grid(w, c) || (w
                == m.width && c == m.data@)),
    {
        broadcast use vstd::std_specs::hash::group_hash_axioms;

        let k = hash_grid(&m);
        let ghost old_map = self.deadlocks@;
        let mut bucket = match self.deadlocks.remove(&k) {
            Some(b) => b,
            None => Vec::new(),
        };
        let ghost old_bucket = bucket@;
        assert(old_map.contains_key(k) ==> old_bucket == old_map[k]@);
        assert(!old_map.contains_key(k) ==> old_bucket.len() == 0);
        bucket.push(m);
        self.deadlocks.insert(k, bucket);
        assert forall|w: usize, c: Seq<Tile>| #[trigger] self.dead_grid(w, c) <==> (old(self).dead_grid(w, c) || (w
            == m.width && c == m.data@)) by {
            if self.dead_grid(w, c) {
                let (k2, t) = choose|k2: u64, t: int|
                    #![trigger self.deadlocks@[k2]@[t]]
                    self.deadlocks@.contains_key(k2) && 0 <= t < self.deadlocks@[k2]@.len()
                        && self.deadlocks@[k2]@[t].width == w && self.deadlocks@[k2]@[t].data@ == c;
                if k2 != k {
                    assert(old_map[k2]@[t] == self.deadlocks@[k2]@[t]);
                } else if t < old_bucket.len() {
                    assert(old_map[k2]@[t] == self.deadlocks@[k2]@[t]);
                }
            }
            if old(self).dead_grid(w, c) {
                let (k2, t) = choose|k2: u64, t: int|
                    #![trigger old_map[k2]@[t]]
                    old_map.contains_key(k2) && 0 <= t < old_map[k2]@.len() && old_map[k2]@[t].width == w
                        && old_map[k2]@[t].data@ == c;
                assert(self.deadlocks@[k2]@[t] == old_map[k2]@[t]);
            }
            if w == m.width && c == m.data@ {
                assert(self.deadlocks@[k]@[old_bucket.len() as int] == m);
            }
        }
        assert forall|k2: u64, t: int|
            #![trigger self.deadlocks@[k2]@[t]]
            self.deadlocks@.contains_key(k2) && 0 <= t < self.deadlocks@[k2]@.len() implies grid_hash(
            self.deadlocks@[k2]@[t].width,
            self.deadlocks@[k2]@[t].data@,
        ) == k2 by {
            if k2 != k || t < old_bucket.len() {
                assert(old_map[k2]@[t] == self.deadlocks@[k2]@[t]);
            }
        }
        assert(records_kept(old_map, self.deadlocks@)) by {
            assert forall|w: usize, c: Seq<Tile>| grid_recorded(old_map, w, c) implies #[trigger] grid_recorded(
                self.deadlocks@,
                w,
                c,
            ) by {
                assert(old(self).dead_grid(w, c));
                assert(self.dead_grid(w, c));
            }
        }
        proof {
            if self.deadlock_hashing_on && !self.search_over {
                let (root, s, sdl, kind, goals) = (
                    self.root@,
                    self.enclosure@,
                    self.simple_deadlocks,
                    self.heuristic,
                    self.goals@,
                );
                reveal(records_have_cause);
                assert forall|w: usize, c: Seq<Tile>| #[trigger] grid_recorded(self.deadlocks@, w, c) implies dead_for_cause(
                    self.deadlocks@,
                    w,
                    c,
                    root,
                    s,
                    sdl,
                    kind,
                    goals,
                ) by {
                    assert(self.dead_grid(w, c));
                    if old(self).dead_grid(w, c) {
                        assert(grid_recorded(old_map, w, c));
                        lemma_cause_kept(old_map, self.deadlocks@, w, c, root, s, sdl, kind, goals);
                    } else {
                        lemma_cause_kept(old_map, self.deadlocks@, m.width, m.data@, root, s, sdl, kind, goals);
                    }
                }
            }
        }
    }


    /// All fields but the counters are those of `other`.
    pub closed spec fn same_but_counters(&self, other: &Self) -> bool {
        &&& self.path == other.path
        &&& self.solutions == other.solutions
        &&& self.goals == other.goals
        &&& self.heuristic == other.heuristic
        &&& self.simple_deadlocks == other.simple_deadlocks
        &&& self.deadlocks == other.deadlocks
        &&& self.root == other.root
        &&& self.enclosure == other.enclosure
        &&& self.debug == other.debug
        &&& self.deadlock_hashing_on == other.deadlock_hashing_on
        &&& self.timer == other.timer
        &&& self.search_over == other.search_over
        &&& self.readings == other.readings
    }

    /// Tries to push the `i`-th crate of `node` in the direction of `action`.
    fn expand_push(&self, node: &Node, walk_map: &BitMatrix, i: usize, action: Action) -> (r: PushOutcome)
        requires
            self.search_ok(),
            node_ok(*node, self.root@, self.enclosure@),
            node.crates@.len() == crate_tiles(self.root@.data@),
            node.g < usize::MAX,
            0 <= i < node.crates@.len(),
            is_push(action),
            walk_map.width == node.map.width,
            walk_map.bits().len() == node.map.data@.len(),
            forall|p: Point2D|
                canonical(node.map, p) ==> #[trigger] walk_map.flag(p) == (p == node.player || walk_reach(
                    node.map,
                    player_marks(node.map, node.player),
                    node.player,
                ).contains(p)),
        ensures
            r is Child ==> push_ok(*node, r->0, self.simple_deadlocks, i as int, action) && child_ok(
                *node,
                r->0,
                self.root@,
                self.enclosure@,
                self.simple_deadlocks,
                self.heuristic,
                self.goals@,
            ),
            !(r is Child) ==> !push_possible(*node, self.simple_deadlocks, i as int, action),
            r is SimpleDeadlock <==> push_skipped(*node, self.simple_deadlocks, i as int, action),
            r is Frozen <==> push_frozen(*node, self.simple_deadlocks, i as int, action),
    {
        let ghost root = self.root@;
        let ghost s = self.enclosure@;
        let ghost sdl = self.simple_deadlocks;
        let ghost nd = *node;
        let len = node.map.data.len();
        let crate_pos = node.crates[i];
        proof {
            lemma_same_walls(root, node.map, node.player, s);
            assert(s.contains(node.player));
            lemma_enclosed_interior(root, s, node.player);
            assert(s.contains(crate_pos));
            lemma_enclosed_interior(root, s, crate_pos);
            lemma_walk_dir(crate_pos, action);
            lemma_interior_step(root, crate_pos, walk_dir(action));
            lemma_interior_step(root, crate_pos, walk_dir(spec_inverse(action)));
        }
        let crate_end = crate_pos.from(action);
        let end_tile = node.map.get(crate_end);
        let push_start = crate_pos.from(action.inverse());
        proof {
            assert(canonical(node.map, push_start));
            assert(canonical(node.map, crate_end));
            assert(walk_map.flag(push_start) == (push_start == node.player || walk_reach(
                node.map,
                player_marks(node.map, node.player),
                node.player,
            ).contains(push_start)));
        }
        let can_walk = walk_map.get(push_start).unwrap();
        if !can_walk {
            return PushOutcome::Unreachable;
        } else if self.is_simple_deadlock(crate_end) {
            return PushOutcome::SimpleDeadlock;
        }
        match end_tile {
            Tile::Wall => {
                return PushOutcome::Blocked;
            },
            Tile::Crate => {
                return PushOutcome::Blocked;
            },
            Tile::CrateGoal => {
                return PushOutcome::Blocked;
            },
            _ => {
                // create new sets of map & crate data.
                let mut new_map = node.map.clone();
                new_map.apply_action_and_move(action, crate_pos, &node.map, node.player);

                // This updates the position of the moved crate.
                let mut new_crates = node.crates.clone();
                assert(new_crates@ =~= nd.crates@);
                new_crates.set(i, crate_end);

                // every push costs 1
                let mut new_node = Node::make_new(action, new_map, new_crates, crate_pos, node.g + 1);
                proof {
                    assert(s.contains(crate_end));
                    lemma_enclosed_interior(root, s, crate_end);
                    assert(new_node.map.data@.len() == root.data@.len());
                }

                // ignore node if it is deadlocked.
                if !new_node.is_deadlocked(crate_end) {
                    proof {
                        assert(push_ok(nd, new_node, sdl, i as int, action));
                        lemma_push_child(nd, new_node, root, s, sdl, i as int, action);
                    }
                    let ghost before_h = new_node;
                    new_node.h = self.estimate(&new_node);
                    proof {
                        assert(push_ok(nd, new_node, sdl, i as int, action));
                        assert(is_successor(nd, new_node, sdl));
                        assert(node_ok(before_h, root, s));
                        assert(node_ok(new_node, root, s));
                        assert(new_node.crates@.len() == nd.crates@.len());
                    }
                    PushOutcome::Child(new_node)
                } else {
                    PushOutcome::Frozen
                }
            },
        }
    }

    // We know that crates will never be on the edge of the map.
    // Node expanding function, expand nodes ordered by g + h(node).
    // Step cost is updated in here.
    fn successors(&mut self) -> (succ_vec: Vec<Node>)
        requires
            old(self).wf(),
        ensures
            final(self).same_but_counters(old(self)),
            final(self).wf(),
            forall|k: int|
                0 <= k < succ_vec@.len() ==> child_ok(
                    old(self).path@.last(),
                    #[trigger] succ_vec@[k],
                    old(self).root@,
                    old(self).enclosure@,
                    old(self).simple_deadlocks,
                    old(self).heuristic,
                    old(self).goals@,
                ),
            forall|i: int, a: Action|
                #[trigger] push_possible(old(self).path@.last(), old(self).simple_deadlocks, i, a) ==> exists|k: int|
                    0 <= k < succ_vec@.len() && push_ok(
                        old(self).path@.last(),
                        #[trigger] succ_vec@[k],
                        old(self).simple_deadlocks,
                        i,
                        a,
                    ),
            forall|j: int, k: int|
                0 <= j < k < succ_vec@.len() ==> f_cost(#[trigger] succ_vec@[j]) <= f_cost(#[trigger] succ_vec@[k]),
            exists|to: Seq<int>| #[trigger] ordered_successors(succ_vec@, old(self).path@.last(), old(self).simple_deadlocks, to),
            final(self).run_counters().nodes_generated as int == count_after(
                old(self).run_counters().nodes_generated,
                succ_vec@.len() as int,
            ),
            final(self).run_counters().nodes_checked == old(self).run_counters().nodes_checked,
            final(self).run_counters().nodes_skipped as int == count_after(
                old(self).run_counters().nodes_skipped,
                skipped_tries(old(self).path@.last(), old(self).simple_deadlocks, (4 * old(self).path@.last().crates@.len()) as int),
            ),
            final(self).run_counters().nodes_deadlocked as int == count_after(
                old(self).run_counters().nodes_deadlocked,
                frozen_tries(old(self).path@.last(), old(self).simple_deadlocks, (4 * old(self).path@.last().crates@.len()) as int),
            ),
    {
        let ghost root = self.root@;
        let ghost s = self.enclosure@;
        let ghost sdl = self.simple_deadlocks;
        let ghost kind = self.heuristic;
        let ghost goals = self.goals@;
        let ghost start = *self;
        let plen = self.path.len();
        let node: &Node = &self.path[plen - 1];
        let ghost nd = *node;
        let len = node.map.data.len();
        proof {
            assert(nd == self.path@.last());
            assert(node_ok(nd, root, s));
            assert(nd.g == plen - 1);
            assert(nd.crates@.len() == self.path@[0].crates@.len());
            lemma_same_walls(root, node.map, node.player, s);
            assert(s.contains(node.player));
            lemma_enclosed_interior(root, s, node.player);
            lemma_enclosure_walks(node.map, s);
        }

        // find nodes player can access.
        let mut walk_map = BitMatrix::new(node.map.width, node.map.data.len());
        walk_map.set(node.player, true);
        let ghost marks = walk_map.bits();
        proof {
            assert(marks =~= player_marks(node.map, node.player));
            assert forall|p: Point2D| canonical(nd.map, p) && #[trigger] marks[index_of(nd.map.width, p)] implies p == nd.player by {
                lemma_index_injective(nd.map.width, p, nd.player);
            }
        }
        find_walkable_spaces(&node.map, node.player, &mut walk_map);

        // find all the actions the player can take.
        let mut succ_vec: Vec<Node> = Vec::new();
        proof {
            lemma_count_start(start.rundat.nodes_generated);
            lemma_count_start(start.rundat.nodes_skipped);
            lemma_count_start(start.rundat.nodes_deadlocked);
        }
        let mut i: usize = 0;
        while i < node.crates.len()
            invariant
                self.same_but_counters(&start),
                self.rundat.nodes_generated as int == count_after(start.rundat.nodes_generated, succ_vec@.len() as int),
                self.rundat.nodes_checked == start.rundat.nodes_checked,
                self.rundat.nodes_skipped as int == count_after(start.rundat.nodes_skipped, skipped_tries(nd, sdl, 4 * i)),
                self.rundat.nodes_deadlocked as int == count_after(start.rundat.nodes_deadlocked, frozen_tries(nd, sdl, 4 * i)),
                self.search_ok(),
                nd == *node,
                nd == start.path@.last(),
                root == start.root@,
                s == start.enclosure@,
                sdl == start.simple_deadlocks,
                kind == start.heuristic,
                goals == start.goals@,
                node_ok(nd, root, s),
                nd.crates@.len() == crate_tiles(root.data@),
                nd.g < usize::MAX,
                i <= nd.crates@.len(),
                walk_map.width == nd.map.width,
                walk_map.bits().len() == nd.map.data@.len(),
                forall|p: Point2D|
                    canonical(nd.map, p) ==> #[trigger] walk_map.flag(p) == (p == nd.player || walk_reach(
                        nd.map,
                        player_marks(nd.map, nd.player),
                        nd.player,
                    ).contains(p)),
                forall|k: int| 0 <= k < succ_vec@.len() ==> child_ok(nd, #[trigger] succ_vec@[k], root, s, sdl, kind, goals),
                follows_tries(succ_vec@, nd, sdl, 4 * i),
                forall|ii: int, kk: int|
                    #![trigger push_possible(nd, sdl, ii, push_dir(kk))]
                    0 <= ii < i && 0 <= kk < 4 && push_possible(nd, sdl, ii, push_dir(kk)) ==> exists|k: int|
                        0 <= k < succ_vec@.len() && push_ok(nd, #[trigger] succ_vec@[k], sdl, ii, push_dir(kk)),
            decreases nd.crates@.len() - i,
        {
            let adjacent: Vec<Action> = vec![Action::PushRight, Action::PushLeft, Action::PushDown, Action::PushUp];

            // check all four directions.
            let mut k: usize = 0;
            while k < adjacent.len()
                invariant
                    self.same_but_counters(&start),
                    self.rundat.nodes_generated as int == count_after(start.rundat.nodes_generated, succ_vec@.len() as int),
                    self.rundat.nodes_checked == start.rundat.nodes_checked,
                    self.rundat.nodes_skipped as int == count_after(start.rundat.nodes_skipped, skipped_tries(nd, sdl, 4 * i + k)),
                    self.rundat.nodes_deadlocked as int == count_after(
                        start.rundat.nodes_deadlocked,
                        frozen_tries(nd, sdl, 4 * i + k),
                    ),
                    self.search_ok(),
                    nd == *node,
                    nd == start.path@.last(),
                    root == start.root@,
                    s == start.enclosure@,
                    sdl == start.simple_deadlocks,
                    kind == start.heuristic,
                    goals == start.goals@,
                    node_ok(nd, root, s),
                    nd.crates@.len() == crate_tiles(root.data@),
                    nd.g < usize::MAX,
                    i < nd.crates@.len(),
                    k <= 4,
                    adjacent@ == seq![Action::PushRight, Action::PushLeft, Action::PushDown, Action::PushUp],
                    walk_map.width == nd.map.width,
                    walk_map.bits().len() == nd.map.data@.len(),
                    forall|p: Point2D|
                        canonical(nd.map, p) ==> #[trigger] walk_map.flag(p) == (p == nd.player || walk_reach(
                            nd.map,
                            player_marks(nd.map, nd.player),
                            nd.player,
                        ).contains(p)),
                    forall|m: int| 0 <= m < succ_vec@.len() ==> child_ok(nd, #[trigger] succ_vec@[m], root, s, sdl, kind, goals),
                    follows_tries(succ_vec@, nd, sdl, 4 * i + k),
                    forall|ii: int, kk: int|
                        #![trigger push_possible(nd, sdl, ii, push_dir(kk))]
                        0 <= ii && 0 <= kk < 4 && (ii < i || (ii == i && kk < k)) && push_possible(nd, sdl, ii, push_dir(kk))
                            ==> exists|m: int| 0 <= m < succ_vec@.len() && push_ok(nd, #[trigger] succ_vec@[m], sdl, ii, push_dir(kk)),
                decreases 4 - k,
            {
                let action = adjacent[k];
                assert(action == push_dir(k as int));
                let ghost pre_succ = succ_vec@;
                proof {
                    lemma_try_counted(nd, sdl, i as int, k as int);
                }
                match self.expand_push(node, &walk_map, i, action) {
                    PushOutcome::Child(new_node) => {
                        proof {
                            lemma_count_step(start.rundat.nodes_generated, succ_vec@.len() as int, self.rundat.nodes_generated);
                        }
                        self.rundat.nodes_generated = self.rundat.nodes_generated.wrapping_add(1);
                        succ_vec.push(new_node);
                        assert(succ_vec@[pre_succ.len() as int] == new_node);
                    },
                    PushOutcome::SimpleDeadlock => {
                        proof {
                            lemma_count_step(
                                start.rundat.nodes_skipped,
                                skipped_tries(nd, sdl, 4 * i + k),
                                self.rundat.nodes_skipped,
                            );
                        }
                        self.rundat.nodes_skipped = self.rundat.nodes_skipped.wrapping_add(1);
                    },
                    PushOutcome::Frozen => {
                        proof {
                            lemma_count_step(
                                start.rundat.nodes_deadlocked,
                                frozen_tries(nd, sdl, 4 * i + k),
                                self.rundat.nodes_deadlocked,
                            );
                        }
                        self.rundat.nodes_deadlocked = self.rundat.nodes_deadlocked.wrapping_add(1);
                    },
                    _ => (),
                }
                proof {
                    lemma_push_recorded(nd, sdl, pre_succ, succ_vec@, i as int, k as int);
                    assert(succ_vec@ == pre_succ || (succ_vec@.len() == pre_succ.len() + 1 && succ_vec@.drop_last()
                        == pre_succ));
                    lemma_try_recorded(nd, sdl, pre_succ, succ_vec@, i as int, k as int);
                }
                k = k + 1;
            }
            i = i + 1;
        }

        // sort by f cost
        let ghost unsorted = succ_vec@;
        let moves = sort_by_f(&mut succ_vec);
        proof {
            lemma_sorted_successors(nd, unsorted, succ_vec@, moves@.0, moves@.1, root, s, sdl, kind, goals);
            lemma_ordered(nd, sdl, unsorted, succ_vec@, moves@.0, moves@.1);
        }
        succ_vec
    }


    /// The fields that the search never changes are those of `other`.
    pub closed spec fn same_setup(&self, other: &Self) -> bool {
        &&& self.goals == other.goals
        &&& self.heuristic == other.heuristic
        &&& self.simple_deadlocks == other.simple_deadlocks
        &&& self.root == other.root
        &&& self.enclosure == other.enclosure
        &&& self.debug == other.debug
        &&& self.deadlock_hashing_on == other.deadlock_hashing_on
        &&& self.timer == other.timer
    }

    // adapted from the iterative deepening A* of the literature: a depth-first
    // search that gives up on nodes whose f = g + h is above the bound and
    // returns the smallest f it gave up on.
    #[verifier::spinoff_prover]
    #[verifier::rlimit(100)]
    fn search(&mut self, bound: usize) -> (f: usize)
        requires
            old(self).wf(),
        ensures
            final(self).wf(),
            final(self).same_setup(old(self)),
            final(self).path@ == old(self).path@,
            final(self).solutions@.len() >= old(self).solutions@.len(),
            f <= bound && f < usize::MAX ==> final(self).solutions@.len() > old(self).solutions@.len(),
            forall|k: int| 0 <= k < old(self).solutions@.len() ==> #[trigger] final(self).solutions@[k] == old(self).solutions@[k],
            forall|k: int|
                old(self).solutions@.len() <= k < final(self).solutions@.len() ==> (#[trigger] final(self).solutions@[k])@.len()
                    <= bound + 1,
            old(self).search_over ==> final(self).search_over,
            search_cut(old(self).search_over, final(self).search_over, f, old(self).path@.last(), bound),
            records_kept(old(self).deadlocks@, final(self).deadlocks@),
            gave_up_for_cause(
                old(self).deadlock_hashing_on,
                final(self).search_over,
                f,
                old(self).path@,
                final(self).deadlocks@,
                old(self).simple_deadlocks,
                old(self).heuristic,
                old(self).goals@,
            ),
            chains_extend(final(self).solutions@, old(self).solutions@.len() as int, old(self).path@, bound),
            final(self).solutions@.len() > old(self).solutions@.len() ==> f <= bound,
            !old(self).deadlock_hashing_on && !final(self).search_over && final(self).solutions@.len()
                == old(self).solutions@.len() ==> forall|ext: Seq<Node>, cap: int|
                #[trigger] plan_within(
                    old(self).path@,
                    ext,
                    old(self).simple_deadlocks,
                    old(self).heuristic,
                    old(self).goals@,
                    cap,
                ) ==> f <= cap,
            !old(self).deadlock_hashing_on && !final(self).search_over ==> forall|ext: Seq<Node>|
                #[trigger] plan_within(
                    old(self).path@,
                    ext,
                    old(self).simple_deadlocks,
                    old(self).heuristic,
                    old(self).goals@,
                    bound as int,
                ) && solved_last_only(ext) ==> some_recorded(
                    final(self).solutions@,
                    old(self).solutions@.len() as int,
                    old(self).path@,
                    ext,
                ),
        decreases bound + 2 - old(self).path@.len(),
    {
        let ghost start = *self;
        let plen = self.path.len();
        let node: &Node = &self.path[plen - 1];
        // estimated cost of the cheapest path (root..node..goal)
        let f_cost = f_of(node);
        proof {
            assert(node.g == plen - 1);
        }

        if self.rundat.nodes_checked % PER_NODE_TIME_CHECK == 0 {
            let secs = elapsed_secs(&self.timer);
            let ghost before = self.readings@;
            proof {
                reveal(over_after_reading);
                self.readings@ = self.readings@.push(secs);
                if self.search_over {
                    let j = choose|j: int| 0 <= j < before.len() && #[trigger] before[j] > TIME_LIMIT;
                    assert(self.readings@[j] == before[j]);
                }
            }
            if secs > TIME_LIMIT {
                self.search_over = true;
                proof {
                    reveal(over_after_reading);
                    assert(self.readings@[before.len() as int] == secs);
                }
            }
        }

        if self.search_over {
            proof {
                assert(gave_up_for_cause(
                    start.deadlock_hashing_on,
                    self.search_over,
                    usize::MAX,
                    start.path@,
                    self.deadlocks@,
                    start.simple_deadlocks,
                    start.heuristic,
                    start.goals@,
                )) by {
                    reveal(gave_up_for_cause);
                }
                assert(search_cut(start.search_over, self.search_over, usize::MAX, start.path@.last(), bound)) by {
                    reveal(search_cut);
                }
                assert(chains_extend(self.solutions@, start.solutions@.len() as int, start.path@, bound)) by {
                    reveal(chains_extend);
                }
            }
            return usize::MAX;
        }
        assert(!start.search_over);

        self.rundat.nodes_checked = self.rundat.nodes_checked.wrapping_add(1);

        let node: &Node = &self.path[plen - 1];
        // base cases
        if f_cost > bound {
            proof {
                lemma_plan_start(start.path@, start.simple_deadlocks, start.heuristic, start.goals@);
                assert(gave_up_for_cause(
                    start.deadlock_hashing_on,
                    self.search_over,
                    f_cost,
                    start.path@,
                    self.deadlocks@,
                    start.simple_deadlocks,
                    start.heuristic,
                    start.goals@,
                )) by {
                    reveal(gave_up_for_cause);
                }
                assert(search_cut(start.search_over, self.search_over, f_cost, start.path@.last(), bound)) by {
                    reveal(search_cut);
                }
                assert(chains_extend(self.solutions@, start.solutions@.len() as int, start.path@, bound)) by {
                    reveal(chains_extend);
                }
            }
            // end current dls
            return f_cost;
        } else if self.is_goal(node) {
            let chain = clone_chain(&self.path);
            proof {
                lemma_chain_copy(self.path@, chain@, self.root@, self.enclosure@, self.simple_deadlocks);
            }
            self.solutions.push(chain);
            proof {
                assert forall|k: int| 0 <= k < self.solutions@.len() implies solution_ok(
                    #[trigger] self.solutions@[k]@,
                    self.root@,
                    self.enclosure@,
                    self.simple_deadlocks,
                ) by {
                    if k < start.solutions@.len() {
                        assert(self.solutions@[k] == start.solutions@[k]);
                    }
                }
                assert(self.solutions@[start.solutions@.len() as int] == chain);
                assert(chain@.len() == plen);
                lemma_goal_recorded(start.path@, chain@, start.simple_deadlocks, start.heuristic, start.goals@, bound as int);
                assert forall|ext: Seq<Node>|
                    #[trigger] plan_within(start.path@, ext, start.simple_deadlocks, start.heuristic, start.goals@, bound as int)
                        && solved_last_only(ext) implies some_recorded(
                    self.solutions@,
                    start.solutions@.len() as int,
                    start.path@,
                    ext,
                ) by {
                    assert(recorded_run(self.solutions@[start.solutions@.len() as int]@, start.path@, ext));
                }
                assert(gave_up_for_cause(
                    start.deadlock_hashing_on,
                    self.search_over,
                    f_cost,
                    start.path@,
                    self.deadlocks@,
                    start.simple_deadlocks,
                    start.heuristic,
                    start.goals@,
                )) by {
                    reveal(gave_up_for_cause);
                }
                assert(search_cut(start.search_over, self.search_over, f_cost, start.path@.last(), bound)) by {
                    reveal(search_cut);
                }
                assert(chains_extend(self.solutions@, start.solutions@.len() as int, start.path@, bound)) by {
                    reveal(chains_extend);
                    assert forall|k: int| start.solutions@.len() <= k < self.solutions@.len() implies starts_with(
                        #[trigger] self.solutions@[k]@,
                        start.path@,
                        bound,
                    ) by {
                        assert(self.solutions@[k] == chain);
                        assert forall|i: int| 0 <= i < start.path@.len() implies same_node(#[trigger] chain@[i], start.path@[i]) by {
                            assert(same_node(chain@[i], self.path@[i]));
                        }
                        assert forall|i: int| start.path@.len() - 1 <= i < chain@.len() implies #[trigger] chain@[i].g
                            == start.path@.last().g && chain@[i].h == start.path@.last().h by {
                            assert(same_node(chain@[i], self.path@[i]));
                        }
                    }
                }
            }
            return f_cost;
        } else if self.deadlock_hashing_on && self.is_dead_grid(&node.map) {
            // no solution will be found behind this.
            proof {
                assert(gave_up_for_cause(
                    start.deadlock_hashing_on,
                    self.search_over,
                    usize::MAX,
                    start.path@,
                    self.deadlocks@,
                    start.simple_deadlocks,
                    start.heuristic,
                    start.goals@,
                )) by {
                    reveal(gave_up_for_cause);
                }
                assert(search_cut(start.search_over, self.search_over, usize::MAX, start.path@.last(), bound)) by {
                    reveal(search_cut);
                }
                assert(chains_extend(self.solutions@, start.solutions@.len() as int, start.path@, bound)) by {
                    reveal(chains_extend);
                }
            }
            return usize::MAX;
        }

        let mut min: usize = usize::MAX;
        let ghost pre_succ = *self;
        let mut succs = self.successors();
        let ghost path0 = self.path@;
        let ghost last = path0.last();
        let ghost sols0 = start.solutions@.len();
        let ghost sdl = start.simple_deadlocks;
        let ghost kind = start.heuristic;
        let ghost goals = start.goals@;
        proof {
            assert(chains_extend(self.solutions@, sols0 as int, path0, bound)) by {
                reveal(chains_extend);
            }
            assert(!is_solved(last.map));
            lemma_accounted_start(path0, succs@, self.deadlocks@, sdl, kind, goals);
            assert forall|ext: Seq<Node>, cap: int|
                !self.deadlock_hashing_on && #[trigger] plan_within(path0, ext, sdl, kind, goals, cap) implies min <= cap
                    || exists|j: int| 0 <= j < succs@.len() && same_state(#[trigger] succs@[j], ext[1]) by {
                lemma_plan_successor(path0, ext, sdl, kind, goals, cap, succs@);
            }
            assert forall|ext: Seq<Node>|
                #[trigger] plan_within(path0, ext, sdl, kind, goals, bound as int) && solved_last_only(ext) implies some_recorded(
                    self.solutions@,
                    sols0 as int,
                    path0,
                    ext,
                ) || exists|j: int| 0 <= j < succs@.len() && same_move(#[trigger] succs@[j], ext[1]) by {
                lemma_plan_successor(path0, ext, sdl, kind, goals, bound as int, succs@);
            }
        }
        while succs.len() > 0
            invariant
                records_kept(start.deadlocks@, self.deadlocks@),
                self.deadlock_hashing_on && !self.search_over && min == usize::MAX ==> pushes_accounted(
                    path0,
                    succs@,
                    self.deadlocks@,
                    sdl,
                    kind,
                    goals,
                ),
                sdl == self.simple_deadlocks,
                kind == self.heuristic,
                goals == self.goals@,
                !is_solved(last.map),
                forall|ext: Seq<Node>, cap: int|
                    !self.deadlock_hashing_on && !self.search_over && self.solutions@.len() == sols0 && #[trigger] plan_within(
                        path0,
                        ext,
                        sdl,
                        kind,
                        goals,
                        cap,
                    ) ==> min <= cap || exists|j: int| 0 <= j < succs@.len() && same_state(#[trigger] succs@[j], ext[1]),
                forall|ext: Seq<Node>|
                    !self.deadlock_hashing_on && !self.search_over && #[trigger] plan_within(
                        path0,
                        ext,
                        sdl,
                        kind,
                        goals,
                        bound as int,
                    ) && solved_last_only(ext) ==> some_recorded(self.solutions@, sols0 as int, path0, ext) || exists|j: int|
                        0 <= j < succs@.len() && same_move(#[trigger] succs@[j], ext[1]),
                self.wf(),
                self.same_setup(&start),
                self.path@ == path0,
                path0 == start.path@,
                old(self).path@ == path0,
                last == path0.last(),
                path0.len() == plen,
                plen - 1 <= bound,
                self.solutions@.len() >= sols0,
                sols0 == start.solutions@.len(),
                chains_extend(self.solutions@, sols0 as int, path0, bound),
                crate::ida_star_solver::f_cost(last) <= bound,
                min <= bound && min < usize::MAX ==> self.solutions@.len() > sols0,
                self.solutions@.len() > sols0 ==> min <= bound,
                forall|k: int| 0 <= k < sols0 ==> #[trigger] self.solutions@[k] == start.solutions@[k],
                forall|k: int| sols0 <= k < self.solutions@.len() ==> (#[trigger] self.solutions@[k])@.len() <= bound + 1,
                forall|k: int|
                    0 <= k < succs@.len() ==> child_ok(
                        last,
                        #[trigger] succs@[k],
                        self.root@,
                        self.enclosure@,
                        self.simple_deadlocks,
                        self.heuristic,
                        self.goals@,
                    ),
            decreases succs@.len(),
        {
            let ghost pre_succs = succs@;
            let ghost min0 = min;
            let ghost pre_iter = *self;
            let succ = succs.remove(0);
            let ghost sc = succ;
            proof {
                assert(child_ok(last, succ, self.root@, self.enclosure@, self.simple_deadlocks, self.heuristic, self.goals@));
                assert forall|k: int| 0 <= k < succs@.len() implies child_ok(
                    last,
                    #[trigger] succs@[k],
                    self.root@,
                    self.enclosure@,
                    self.simple_deadlocks,
                    self.heuristic,
                    self.goals@,
                ) by {
                    assert(succs@[k] == pre_succs[k + 1]);
                }
            }
            // a child whose hash equals that of a node on the path counts as a
            // repeat and is skipped, also when a hash collision makes it a new state.
            let mut is_duplicate = false;
            let mut j: usize = 0;
            while j < self.path.len()
                invariant_except_break
                    !is_duplicate,
                    forall|t: int| 0 <= t < j ==> (#[trigger] self.path@[t]).hash != succ.hash,
                invariant
                    j <= self.path@.len(),
                ensures
                    !is_duplicate ==> forall|t: int| 0 <= t < self.path@.len() ==> (#[trigger] self.path@[t]).hash != succ.hash,
                    is_duplicate ==> exists|t: int| 0 <= t < self.path@.len() && (#[trigger] self.path@[t]).hash == succ.hash,
                decreases self.path@.len() - j,
            {
                if self.path[j].hash == succ.hash {
                    is_duplicate = true;
                    break;
                }
                j = j + 1;
            }

            if !is_duplicate {
                let ghost before = *self;
                self.path.push(succ);
                proof {
                    lemma_chain_push(path0, succ, self.root@, self.enclosure@, self.simple_deadlocks);
                    assert(self.path@ == path0.push(succ));
                    assert(path_estimated(self.path@, self.heuristic, self.goals@)) by {
                        assert forall|t: int| 0 <= t < self.path@.len() implies (#[trigger] self.path@[t]).h
                            == heuristic_value(self.heuristic, self.path@[t].crates@, self.goals@, self.path@[t].map.data@) by {
                            if t < path0.len() {
                                assert(self.path@[t] == path0[t]);
                            }
                        }
                    }
                    assert(hashes_apart(self.path@)) by {
                        assert forall|a: int, b: int| 0 <= a < b < self.path@.len() implies (#[trigger] self.path@[a]).hash
                            != (#[trigger] self.path@[b]).hash by {
                            assert(self.path@[a] == path0[a]);
                            if b < path0.len() {
                                assert(self.path@[b] == path0[b]);
                            }
                        }
                    }
                    assert(self.wf());
                    assert(self.path@.len() == start.path@.len() + 1);
                    assert(0 <= bound + 2 - self.path@.len() < bound + 2 - start.path@.len());
                }
                // recursion
                let ghost pre_call = *self;
                let new_f = self.search(bound);
                if new_f < min {
                    min = new_f;
                }
                proof {
                    lemma_chains_extend(pre_call.solutions@, self.solutions@, sols0 as int, path0, sc, bound);
                    if !self.deadlock_hashing_on && !self.search_over && self.solutions@.len() == sols0 {
                        lemma_child_plans(path0, sc, sdl, kind, goals, pre_call.path@, new_f as int);
                    }
                    if !self.deadlock_hashing_on && !self.search_over {
                        lemma_child_recorded(
                            path0,
                            sc,
                            sdl,
                            kind,
                            goals,
                            bound as int,
                            self.solutions@,
                            sols0 as int,
                            pre_call.solutions@.len() as int,
                            pre_call.path@,
                        );
                    }
                }

                // hitting this line means that none of this node's children are the goal (within the current
                // bound).
                let node = self.path.pop().unwrap();
                proof {
                    assert(self.path@ =~= path0);
                    assert(node == sc);
                    lemma_kept_trans(pre_iter.deadlocks@, pre_call.deadlocks@, self.deadlocks@);
                    if self.deadlock_hashing_on && !self.search_over && min == usize::MAX {
                        assert(pre_call.path@.last() == sc);
                        lemma_cause_from_give_up(
                            pre_call.path@,
                            self.deadlocks@,
                            self.root@,
                            self.enclosure@,
                            sdl,
                            kind,
                            goals,
                        );
                    }
                }
                let ghost before_add = self.deadlocks@;
                if self.deadlock_hashing_on && min == usize::MAX {
                    self.add_dead_grid(node.map);
                    proof {
                        lemma_kept_trans(pre_iter.deadlocks@, before_add, self.deadlocks@);
                        assert(self.dead_grid(sc.map.width, sc.map.data@));
                    }
                }
            }
            proof {
                lemma_kept_trans(start.deadlocks@, pre_iter.deadlocks@, self.deadlocks@);
                if self.deadlock_hashing_on && !self.search_over && min == usize::MAX {
                    assert(min0 == usize::MAX);
                    assert(!pre_iter.search_over);
                    assert(node_ok(sc, self.root@, self.enclosure@));
                    lemma_elsewhere_of_child(path0, sc, self.deadlocks@, sdl, kind, goals);
                    lemma_accounted_step(path0, pre_succs, pre_iter.deadlocks@, self.deadlocks@, sdl, kind, goals);
                }
            }
            proof {
                if !self.deadlock_hashing_on && !self.search_over && self.solutions@.len() == sols0 {
                    if is_duplicate {
                        lemma_seen_no_plan(path0, sc, sdl, kind, goals);
                    }
                    assert(succs@ == pre_succs.drop_first());
                    lemma_iter_plans(path0, pre_succs, sc, sdl, kind, goals, min0 as int, min as int);
                }
                if !self.deadlock_hashing_on && !self.search_over {
                    assert(!pre_iter.search_over);
                    if is_duplicate {
                        lemma_seen_no_plan(path0, sc, sdl, kind, goals);
                    }
                    assert(succs@ == pre_succs.drop_first());
                    lemma_iter_recorded(
                        path0,
                        pre_succs,
                        sc,
                        sdl,
                        kind,
                        goals,
                        bound as int,
                        pre_iter.solutions@,
                        self.solutions@,
                        sols0 as int,
                    );
                }
            }
        }
        proof {
            if self.deadlock_hashing_on && !self.search_over && min == usize::MAX {
                lemma_accounted_end(path0, succs@, self.deadlocks@, sdl, kind, goals);
            }
            assert(gave_up_for_cause(
                start.deadlock_hashing_on,
                self.search_over,
                min,
                start.path@,
                self.deadlocks@,
                start.simple_deadlocks,
                start.heuristic,
                start.goals@,
            )) by {
                reveal(gave_up_for_cause);
            }
            assert(search_cut(start.search_over, self.search_over, min, start.path@.last(), bound)) by {
                reveal(search_cut);
            }
        }
        min
    }


    /// The moves that lead from push to push along `chain`, with the walks
    /// found by A* on the grid before each push.
    #[verifier::spinoff_prover]
    #[verifier::rlimit(40)]
    fn chain_moves(&self, chain: &Vec<Node>) -> (action_path: Vec<Action>)
        requires
            self.search_ok(),
            chain_ok(chain@, self.root@, self.enclosure@, self.simple_deadlocks),
        ensures
            moves_follow(chain@, action_path@),
    {
        let ghost root = self.root@;
        let ghost s = self.enclosure@;
        let ghost sdl = self.simple_deadlocks;
        let ghost len = root.data@.len() as int;
        proof {
            assert(node_ok(chain@[0], root, s));
            assert(s.contains(chain@[0].player));
            lemma_enclosed_interior(root, s, chain@[0].player);
            assert(2 * len <= usize::MAX) by (nonlinear_arith)
                requires
                    len >= 2,
                    len * len <= usize::MAX,
            ;
        }
        let mut action_path: Vec<Action> = Vec::new();
        let ghost mut segs: Seq<Seq<Action>> = Seq::empty();
        let mut i: usize = 1;
        while i < chain.len()
            invariant
                1 <= i <= chain@.len(),
                self.search_ok(),
                root == self.root@,
                s == self.enclosure@,
                sdl == self.simple_deadlocks,
                2 * len <= usize::MAX,
                len == root.data@.len(),
                chain_ok(chain@, root, s, sdl),
                segs.len() == i - 1,
                action_path@ == concat_all(segs),
                forall|j: int| 0 <= j < segs.len() ==> segment_ok(chain@[j], chain@[j + 1], #[trigger] segs[j]),
            decreases chain@.len() - i,
        {
            let pos_before = chain[i - 1].player;
            let node = &chain[i];
            let ghost parent = chain@[i - 1];
            let ghost nd = *node;
            proof {
                assert(is_successor(parent, nd, sdl));
                let (ci, a) = choose|ci: int, a: Action| push_ok(parent, nd, sdl, ci, a);
                assert(node_ok(nd, root, s));
                assert(node_ok(parent, root, s));
                assert(s.contains(nd.player));
                lemma_enclosed_interior(root, s, nd.player);
                lemma_walk_dir(nd.player, a);
                lemma_interior_step(root, nd.player, walk_dir(a));
                lemma_interior_step(root, nd.player, walk_dir(spec_inverse(a)));
                lemma_same_walls(root, nd.map, pos_before, s);
            }
            let pos_after = node.player.from(node.action.inverse());
            let mut map = node.map.clone();
            map.undo_action(node.action, node.player);
            proof {
                assert(same_walls(root, map)) by {
                    assert forall|j: int| 0 <= j < root.data@.len() implies (root.data@[j] == Tile::Wall) == (
                    #[trigger] map.data@[j] == Tile::Wall) by {
                        assert((root.data@[j] == Tile::Wall) == (nd.map.data@[j] == Tile::Wall));
                    }
                }
                lemma_same_walls(root, map, pos_before, s);
                assert(s.contains(pos_before));
                lemma_enclosure_passes(map, s);
            }
            let mut actions = astar_pathfind(&map, node.action, pos_before, pos_after);
            let ghost seg = actions@;
            proof {
                assert(segment_on(map, parent, nd, seg));
                assert(segs.push(seg).drop_last() =~= segs);
            }
            action_path.append(&mut actions);
            proof {
                let old_segs = segs;
                segs = segs.push(seg);
                assert(concat_all(segs) == concat_all(old_segs) + seg);
                assert forall|j: int| 0 <= j < segs.len() implies segment_ok(chain@[j], chain@[j + 1], #[trigger] segs[j]) by {
                    if j < old_segs.len() {
                        assert(segs[j] == old_segs[j]);
                    }
                }
            }
            i = i + 1;
        }
        assert(moves_follow(chain@, action_path@)) by {
            assert(segments_fit(chain@, segs));
        }
        action_path
    }

    fn ida_star(&mut self) -> (r: (Vec<Action>, usize, usize, Vec<usize>))
        requires
            old(self).wf(),
        ensures
            final(self).wf(),
            final(self).same_setup(old(self)),
            r.0@.len() > 0 ==> exists|k: int|
                0 <= k < final(self).solutions@.len() && moves_follow(#[trigger] final(self).solutions@[k]@, r.0@),
            r.1 == 0 ==> r.0@.len() == 0,
            r.1 > 0 ==> r.1 == final(self).solutions@.len(),
            r.1 > 0 ==> forall|k: int, moves: Seq<Action>|
                0 <= k < final(self).solutions@.len() && #[trigger] moves_follow(final(self).solutions@[k]@, moves)
                    ==> r.0@.len() <= moves.len(),
            old(self).solutions@.len() == 0 && r.1 > 0 ==> forall|k: int|
                0 <= k < final(self).solutions@.len() ==> (#[trigger] final(self).solutions@[k])@.len() <= r.2 + 1,
            r.3@.len() > 0,
            r.3@[0] == old(self).path@.last().h,
            r.3@.last() == r.2,
            forall|j: int| 0 < j < r.3@.len() ==> r.3@[j - 1] < #[trigger] r.3@[j],
            old(self).search_over ==> final(self).search_over,
            !old(self).deadlock_hashing_on && !final(self).search_over ==> forall|ext: Seq<Node>, cap: int|
                #[trigger] plan_within(
                    old(self).path@,
                    ext,
                    old(self).simple_deadlocks,
                    old(self).heuristic,
                    old(self).goals@,
                    cap,
                ) && cap < usize::MAX ==> r.1 > 0 && r.2 <= cap,
            !old(self).deadlock_hashing_on && !final(self).search_over && old(self).solutions@.len() == 0 && r.1 > 0
                ==> forall|ext: Seq<Node>|
                #[trigger] plan_within(
                    old(self).path@,
                    ext,
                    old(self).simple_deadlocks,
                    old(self).heuristic,
                    old(self).goals@,
                    r.2 as int,
                ) && solved_last_only(ext) ==> some_recorded(final(self).solutions@, 0, old(self).path@, ext),
    {
        let ghost start = *self;
        let mut bounds: Vec<usize> = Vec::new();
        let plen = self.path.len();
        // start from the root's estimate
        let mut bound = self.path[plen - 1].h;
        bounds.push(bound);
        proof {
            lemma_plan_start(start.path@, start.simple_deadlocks, start.heuristic, start.goals@);
        }
        while self.solutions.len() == 0
            invariant
                start.search_over ==> self.search_over,
                !start.deadlock_hashing_on && !self.search_over ==> forall|ext: Seq<Node>, cap: int|
                    #[trigger] plan_within(start.path@, ext, start.simple_deadlocks, start.heuristic, start.goals@, cap)
                        && cap < usize::MAX ==> bound <= cap,
                !start.deadlock_hashing_on && !self.search_over && start.solutions@.len() == 0 && self.solutions@.len() > 0
                    ==> forall|ext: Seq<Node>|
                    #[trigger] plan_within(
                        start.path@,
                        ext,
                        start.simple_deadlocks,
                        start.heuristic,
                        start.goals@,
                        bound as int,
                    ) && solved_last_only(ext) ==> some_recorded(self.solutions@, 0, start.path@, ext),
                self.wf(),
                start == *old(self),
                self.same_setup(&start),
                self.path@ == start.path@,
                bounds@.len() > 0,
                bounds@[0] == start.path@.last().h,
                bounds@.last() == bound,
                forall|j: int| 0 < j < bounds@.len() ==> bounds@[j - 1] < #[trigger] bounds@[j],
                start.solutions@.len() == 0 ==> forall|k: int|
                    0 <= k < self.solutions@.len() ==> (#[trigger] self.solutions@[k])@.len() <= bound + 1,
            decreases (if self.solutions@.len() == 0 {
                1int
            } else {
                0int
            }), usize::MAX - bound,
        {
            let new_f = self.search(bound);
            if new_f == usize::MAX {
                return (Vec::new(), 0, bound, bounds);
            }
            assert(start.solutions@.len() == 0 ==> forall|k: int|
                0 <= k < self.solutions@.len() ==> (#[trigger] self.solutions@[k])@.len() <= bound + 1);
            if self.solutions.len() == 0 {
                bound = new_f;
                let ghost pre = bounds@;
                bounds.push(bound);
                assert forall|j: int| 0 < j < bounds@.len() implies bounds@[j - 1] < #[trigger] bounds@[j] by {
                    if j < pre.len() {
                        assert(bounds@[j] == pre[j] && bounds@[j - 1] == pre[j - 1]);
                    }
                }
            }
        }

        // Find the shortest solution of push-len $bound by using A* to do previously assumed pathfinding.
        let mut min_moves = usize::MAX;
        let mut best_move_path: Vec<Action> = Vec::new();
        let mut si: usize = 0;
        while si < self.solutions.len()
            invariant
                self.wf(),
                si <= self.solutions@.len(),
                start.solutions@.len() == 0 ==> forall|k: int|
                    0 <= k < self.solutions@.len() ==> (#[trigger] self.solutions@[k])@.len() <= bound + 1,
                best_move_path@.len() > 0 ==> exists|k: int|
                    0 <= k < self.solutions@.len() && moves_follow(#[trigger] self.solutions@[k]@, best_move_path@),
                best_move_path@.len() <= min_moves,
                forall|k: int, moves: Seq<Action>|
                    0 <= k < si && #[trigger] moves_follow(self.solutions@[k]@, moves) ==> min_moves <= moves.len(),
            decreases self.solutions@.len() - si,
        {
            let solution_path = &self.solutions[si];
            proof {
                assert(solution_ok(self.solutions@[si as int]@, self.root@, self.enclosure@, self.simple_deadlocks));
            }
            // convert path of nodes to actions.
            let action_path = self.chain_moves(solution_path);

            proof {
                assert forall|moves: Seq<Action>| #[trigger] moves_follow(self.solutions@[si as int]@, moves) implies moves.len()
                    == action_path@.len() by {
                    lemma_moves_len(self.solutions@[si as int]@, moves, action_path@);
                }
            }
            // save min $path.len() of all solution paths constructed from $bound pushes.
            if action_path.len() < min_moves {
                min_moves = action_path.len();
                best_move_path = action_path;
                assert(moves_follow(self.solutions@[si as int]@, best_move_path@));
            }
            si = si + 1;
        }
        let n = self.solutions.len();
        (best_move_path, n, bound, bounds)
    }

    /// Runs the search and reports what it found: the moves of the best
    /// solution, how many solutions the last iteration found, the bounds,
    /// whether the time ran out, and the counters.
    #[verifier::spinoff_prover]
    #[verifier::rlimit(50)]
    pub fn solve(&mut self) -> (report: SolveReport)
        requires
            old(self).wf(),
        ensures
            final(self).wf(),
            final(self).root_map() == old(self).root_map(),
            final(self).goal_points() == old(self).goal_points(),
            final(self).heuristic_kind() == old(self).heuristic_kind(),
            final(self).enclosure_set() == old(self).enclosure_set(),
            final(self).live_cells() == old(self).live_cells(),
            final(self).hashes_grids() == old(self).hashes_grids(),
            !report.timed_out && !old(self).hashes_grids() ==> forall|ext: Seq<Node>, cap: int|
                #[trigger] plan_within(
                    old(self).search_path(),
                    ext,
                    old(self).live_cells(),
                    old(self).heuristic_kind(),
                    old(self).goal_points(),
                    cap,
                ) && cap < usize::MAX ==> report.solutions > 0 && report.bound <= cap,
            !report.timed_out && !old(self).hashes_grids() && old(self).search_path().len() == 1 && (
            old(self).heuristic_kind() is GreedyPerfectMatch || goal_tiles(old(self).root_map().data@) == crate_tiles(
                old(self).root_map().data@,
            )) ==> forall|run: Seq<Node>|
                #[trigger] run_ok(run, old(self).root_map(), old(self).enclosure_set()) && is_solved(run.last().map)
                    && same_state(run[0], old(self).search_path()[0]) && hashes_apart(run) && run.len() <= usize::MAX
                    ==> report.solutions > 0 && report.bound < run.len() && (old(self).solution_chains().len() == 0
                    ==> forall|k: int|
                    0 <= k < final(self).solution_chains().len() ==> (#[trigger] final(self).solution_chains()[k]).len()
                        <= run.len()),
            !report.timed_out && !old(self).hashes_grids() && old(self).search_path().len() == 1
                && old(self).solution_chains().len() == 0 && (old(self).heuristic_kind() is GreedyPerfectMatch
                || goal_tiles(old(self).root_map().data@) == crate_tiles(old(self).root_map().data@))
                ==> forall|run: Seq<Node>, moves: Seq<Action>|
                #[trigger] run_ok(run, old(self).root_map(), old(self).enclosure_set()) && is_solved(run.last().map)
                    && same_state(run[0], old(self).search_path()[0]) && hashes_apart(run) && run.len() <= usize::MAX
                    && run.len() == report.bound + 1 && #[trigger] moves_follow(run, moves) ==> report.path@.len()
                    <= moves.len(),
            forall|k: int|
                0 <= k < final(self).solution_chains().len() ==> solution_ok(
                    #[trigger] final(self).solution_chains()[k],
                    final(self).root_map(),
                    final(self).enclosure_set(),
                    final(self).live_cells(),
                ),
            report.path@.len() > 0 ==> exists|k: int|
                0 <= k < final(self).solution_chains().len() && moves_follow(
                    #[trigger] final(self).solution_chains()[k],
                    report.path@,
                ),
            report.solutions == 0 ==> report.path@.len() == 0,
            report.solutions > 0 ==> report.solutions == final(self).solution_chains().len(),
            report.solutions > 0 ==> forall|k: int, moves: Seq<Action>|
                0 <= k < final(self).solution_chains().len() && #[trigger] moves_follow(
                    final(self).solution_chains()[k],
                    moves,
                ) ==> report.path@.len() <= moves.len(),
            old(self).solution_chains().len() == 0 && report.solutions > 0 ==> forall|k: int|
                0 <= k < final(self).solution_chains().len() ==> (#[trigger] final(self).solution_chains()[k]).len()
                    <= report.bound + 1,
            report.timed_out ==> exists|i: int|
                0 <= i < final(self).clock_readings().len() && #[trigger] final(self).clock_readings()[i] > TIME_LIMIT,
            report.rundat == final(self).run_counters(),
            final(self).hashes_grids() && !report.timed_out ==> forall|w: usize, c: Seq<Tile>|
                #[trigger] final(self).dead_grid(w, c) ==> dead_for_cause(
                    final(self).dead_store(),
                    w,
                    c,
                    final(self).root_map(),
                    final(self).enclosure_set(),
                    final(self).live_cells(),
                    final(self).heuristic_kind(),
                    final(self).goal_points(),
                ),
            report.bounds@.len() > 0,
            report.bounds@[0] == old(self).search_path().last().h,
            report.bounds@.last() == report.bound,
            forall|j: int| 0 < j < report.bounds@.len() ==> report.bounds@[j - 1] < #[trigger] report.bounds@[j],
    {
        self.timer = now();

        // run ida_star on the puzzle.
        let (path, solutions, bound, bounds) = self.ida_star();
        let rundat = RunDat {
            nodes_checked: self.rundat.nodes_checked,
            nodes_generated: self.rundat.nodes_generated,
            nodes_deadlocked: self.rundat.nodes_deadlocked,
            nodes_skipped: self.rundat.nodes_skipped,
        };
        proof {
            assert forall|k: int| 0 <= k < self.solution_chains().len() implies solution_ok(
                #[trigger] self.solution_chains()[k],
                self.root_map(),
                self.enclosure_set(),
                self.live_cells(),
            ) by {
                assert(self.solution_chains()[k] == self.solutions@[k]@);
            }
            if path@.len() > 0 {
                let k = choose|k: int| 0 <= k < self.solutions@.len() && moves_follow(#[trigger] self.solutions@[k]@, path@);
                assert(self.solution_chains()[k] == self.solutions@[k]@);
            }
            let root = old(self).root@;
            let encl = old(self).enclosure@;
            let sdl = old(self).simple_deadlocks;
            let kind = old(self).heuristic;
            if !self.search_over && !old(self).deadlock_hashing_on && old(self).path@.len() == 1 && (kind is GreedyPerfectMatch
                || goal_tiles(root.data@) == crate_tiles(root.data@)) {
                assert(old(self).path@[0].crates@.len() == goal_points_of(
                    root.width,
                    root.data@,
                ).len());
                let len = root.data@.len() as int;
                assert(len <= usize::MAX) by (nonlinear_arith)
                    requires
                        len * len <= usize::MAX,
                        len >= 0,
                ;
                assert forall|run: Seq<Node>|
                    #[trigger] run_ok(run, root, encl) && is_solved(run.last().map) && same_state(run[0], old(self).path@[0])
                        && hashes_apart(run) && run.len() <= usize::MAX implies solutions > 0 && bound < run.len() && (
                    old(self).solutions@.len() == 0 ==> forall|k: int|
                        0 <= k < self.solutions@.len() ==> (#[trigger] self.solutions@[k])@.len() <= run.len()) by {
                    lemma_pruning_keeps_solutions(run, root, encl, sdl);
                    lemma_solution_is_plan(old(self).path@, run, root, encl, sdl, kind);
                    assert(plan_within(old(self).path@, run, sdl, kind, old(self).goals@, run.len() - 1));
                }
                assert forall|run: Seq<Node>|
                    #[trigger] run_ok(run, root, encl) && is_solved(run.last().map) && same_state(run[0], old(self).path@[0])
                        && hashes_apart(run) && run.len() <= usize::MAX implies (old(self).solution_chains().len() == 0
                    ==> forall|k: int|
                    0 <= k < self.solution_chains().len() ==> (#[trigger] self.solution_chains()[k]).len() <= run.len()) by {
                    if old(self).solution_chains().len() == 0 {
                        assert(old(self).solutions@.len() == 0);
                        assert forall|k: int| 0 <= k < self.solution_chains().len() implies (
                        #[trigger] self.solution_chains()[k]).len() <= run.len() by {
                            assert(self.solution_chains()[k] == self.solutions@[k]@);
                        }
                    }
                }
                if old(self).solutions@.len() == 0 {
                    assert forall|run: Seq<Node>, moves: Seq<Action>|
                        #[trigger] run_ok(run, root, encl) && is_solved(run.last().map) && same_state(
                            run[0],
                            old(self).path@[0],
                        ) && hashes_apart(run) && run.len() <= usize::MAX && run.len() == bound + 1 && #[trigger] moves_follow(
                            run,
                            moves,
                        ) implies path@.len() <= moves.len() by {
                        assert forall|i: int| 0 <= i < run.len() - 1 implies !is_solved(#[trigger] run[i].map) by {
                            if is_solved(run[i].map) {
                                let pre = run.subrange(0, i + 1);
                                lemma_run_prefix(run, root, encl, i + 1);
                                assert(pre.last() == run[i]);
                                assert(pre[0] == run[0]);
                                assert(run_ok(pre, root, encl));
                            }
                        }
                        assert(solved_last_only(run));
                        lemma_pruning_keeps_solutions(run, root, encl, sdl);
                        lemma_solution_is_plan(old(self).path@, run, root, encl, sdl, kind);
                        assert(plan_within(old(self).path@, run, sdl, kind, old(self).goals@, bound as int));
                        let k = choose|k: int| 0 <= k < self.solutions@.len() && #[trigger] recorded_run(
                            self.solutions@[k]@,
                            old(self).path@,
                            run,
                        );
                        let rec = self.solutions@[k]@;
                        assert(same_move(rec[0], old(self).path@[0]));
                        lemma_moves_transfer(rec, run, moves);
                        assert(self.solution_chains()[k] == rec);
                    }
                }
            }
            if solutions > 0 {
                assert forall|k: int, moves: Seq<Action>|
                    0 <= k < self.solution_chains().len() && #[trigger] moves_follow(self.solution_chains()[k], moves)
                        implies path@.len() <= moves.len() by {
                    assert(self.solution_chains()[k] == self.solutions@[k]@);
                }
            }
            if old(self).solution_chains().len() == 0 && solutions > 0 {
                assert(old(self).solutions@.len() == 0);
                assert forall|k: int| 0 <= k < self.solution_chains().len() implies (#[trigger] self.solution_chains()[k]).len()
                    <= bound + 1 by {
                    assert(self.solution_chains()[k] == self.solutions@[k]@);
                }
            }
        }
        proof {
            assert(self.search_over ==> exists|i: int|
                0 <= i < self.clock_readings().len() && #[trigger] self.clock_readings()[i] > TIME_LIMIT) by {
                assert(self.wf());
                assert(over_after_reading(self.search_over, self.readings@));
                reveal(over_after_reading);
                if self.search_over {
                    let i = choose|i: int| 0 <= i < self.readings@.len() && #[trigger] self.readings@[i] > TIME_LIMIT;
                    assert(self.clock_readings()[i] == self.readings@[i]);
                }
            }
        }
        proof {
            if self.deadlock_hashing_on && !self.search_over {
                assert forall|w: usize, c: Seq<Tile>| #[trigger] self.dead_grid(w, c) implies dead_for_cause(
                    self.dead_store(),
                    w,
                    c,
                    self.root_map(),
                    self.enclosure_set(),
                    self.live_cells(),
                    self.heuristic_kind(),
                    self.goal_points(),
                ) by {
                    self.lemma_dead_grids_have_cause(w, c);
                }
            }
        }
        SolveReport { path, solutions, bound, bounds, timed_out: self.search_over, rundat }
    }

    /// Deadlock hashing records a grid as leading nowhere only for a cause:
    /// while the time is not up, every recorded grid is that of the last node
    /// of a chain of pushes from the puzzle whose `g + h` runs past
    /// `usize::MAX`, or that is not solved and from which every push the
    /// search would make reaches a state met earlier on the chain, another
    /// recorded grid, or a node whose `g + h` runs past `usize::MAX`. A grid
    /// whose pushes were only cut off at the bound is never recorded.
    pub proof fn lemma_dead_grids_have_cause(&self, w: usize, c: Seq<Tile>)
        requires
            self.wf(),
            self.hashes_grids(),
            !self.time_is_up(),
            self.dead_grid(w, c),
        ensures
            dead_for_cause(
                self.dead_store(),
                w,
                c,
                self.root_map(),
                self.enclosure_set(),
                self.live_cells(),
                self.heuristic_kind(),
                self.goal_points(),
            ),
    {
        reveal(records_have_cause);
    }

}

} // verus!
