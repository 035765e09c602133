use vstd::prelude::*;

use crate::ida_star_solver::heuristic::lemma_solved_on_goals;
use crate::ida_star_solver::{
    Node, freeze_deadlock, goal_points_of, is_solved, is_successor, lemma_walk_dir, moved_by_push, node_ok, player_marks,
    push_allowed, push_moves, push_ok, run_ok, solution_ok, tile_off, walk_dir,
};
use crate::types::{
    Action, BitMatrix, Point2D, Tile, TileMatrix, can_step, index_of, lemma_step_index, lemma_step_inverse, spec_inverse,
    step,
};
use crate::util::{
    canonical, interior, is_enclosure, lemma_enclosed_interior, lemma_index_injective, lemma_interior_step, pull_closed,
    pull_reach, pull_step, walk_closed, walk_reach, walkable,
};

verus! {

/// The live cells flagged in `sdl` are exactly those from which a crate can
/// be pulled onto a goal of `root`.
#[verifier::opaque]
pub open spec fn live_exact(root: TileMatrix, sdl: BitMatrix) -> bool {
    forall|p: Point2D|
        canonical(root, p) ==> (#[trigger] sdl.flag(p) <==> exists|j: int|
            0 <= j < goal_points_of(root.width, root.data@).len() && #[trigger] pull_reach(
                root,
                goal_points_of(root.width, root.data@)[j],
            ).contains(p))
}

/// The cells of `set` hold walls and crates only, and every crate among
/// them has, along each axis, a neighbour among them: none of them can ever
/// move again.
pub open spec fn frozen(m: TileMatrix, set: Set<Point2D>) -> bool {
    &&& forall|b: Point2D| #[trigger] set.contains(b) ==> canonical(m, b) && m.tile(b).spec_freezable()
    &&& forall|b: Point2D|
        #[trigger] set.contains(b) && (m.tile(b) is Crate || m.tile(b) is CrateGoal) ==> (set.contains(
            step(b, Action::Up),
        ) || set.contains(step(b, Action::Down))) && (set.contains(step(b, Action::Left)) || set.contains(
            step(b, Action::Right),
        ))
}

/// The player only walks onto floor and goal cells.
proof fn lemma_walk_reach_walkable(m: TileMatrix, marks: Seq<bool>, from: Point2D, q: Point2D)
    requires
        walk_reach(m, marks, from).contains(q),
    ensures
        walkable(m.tile(q)),
{
    let t = Set::new(|p: Point2D| walkable(m.tile(p)));
    assert(walk_closed(m, marks, from, t));
    assert(t.contains(q));
}

/// The cell the player pushes from is neither a wall nor a crate, and the
/// pushed crate, its cell ahead and its cell behind lie inside the grid.
proof fn lemma_push_cells(parent: Node, root: TileMatrix, s: Set<Point2D>, i: int, a: Action)
    requires
        node_ok(parent, root, s),
        is_enclosure(root, s),
        root.data@.len() <= usize::MAX,
        push_allowed(parent, i, a),
    ensures
        ({
            let c = parent.crates@[i];
            let ps = step(c, spec_inverse(a));
            &&& interior(root, c)
            &&& canonical(root, step(c, a))
            &&& canonical(root, ps)
            &&& can_step(step(c, a), spec_inverse(a))
            &&& step(step(c, a), spec_inverse(a)) == c
            &&& !parent.map.tile(ps).spec_freezable()
            &&& root.tile(ps) != Tile::Wall
        }),
{
    let c = parent.crates@[i];
    let ps = step(c, spec_inverse(a));
    let m = parent.map;
    lemma_walk_dir(c, a);
    assert(s.contains(c));
    lemma_enclosed_interior(root, s, c);
    lemma_interior_step(root, c, walk_dir(a));
    lemma_interior_step(root, c, walk_dir(spec_inverse(a)));
    lemma_step_inverse(c, a);
    if ps != parent.player {
        lemma_walk_reach_walkable(m, player_marks(m, parent.player), parent.player, ps);
    }
    assert((root.data@[index_of(root.width, ps)] == Tile::Wall) == (m.data@[index_of(root.width, ps)] == Tile::Wall));
}

/// A crate that ends a solving run on a goal could, at every node of the
/// run, be pulled onto that goal.
proof fn lemma_crate_track(chain: Seq<Node>, root: TileMatrix, s: Set<Point2D>, k: int, i: int)
    requires
        run_ok(chain, root, s),
        is_enclosure(root, s),
        root.data@.len() <= usize::MAX,
        0 <= k < chain.len(),
        0 <= i < chain[0].crates@.len(),
    ensures
        pull_reach(root, chain.last().crates@[i]).contains(chain[k].crates@[i]),
    decreases chain.len() - k,
{
    let g = chain.last().crates@[i];
    if k == chain.len() - 1 {
        assert forall|t: Set<Point2D>| pull_closed(root, g, t) implies #[trigger] t.contains(g) by {}
    } else {
        lemma_crate_track(chain, root, s, k + 1, i);
        let parent = chain[k];
        let child = chain[k + 1];
        assert(moved_by_push(parent, child));
        let (j, a) = choose|j: int, a: Action| #![trigger push_moves(parent, child, j, a)] push_moves(parent, child, j, a);
        assert(parent.crates@.len() == chain[0].crates@.len());
        if j == i {
            let q = parent.crates@[i];
            let q2 = step(q, a);
            let d = walk_dir(spec_inverse(a));
            assert(node_ok(parent, root, s));
            lemma_push_cells(parent, root, s, i, a);
            lemma_walk_dir(q, a);
            lemma_walk_dir(q2, a);
            assert((root.data@[index_of(root.width, q)] == Tile::Wall) == (parent.map.data@[index_of(root.width, q)]
                == Tile::Wall));
            assert(pull_step(root, q2, d));
            assert(child.crates@[i] == q2);
            assert forall|t: Set<Point2D>| pull_closed(root, g, t) implies #[trigger] t.contains(q) by {
                assert(t.contains(q2));
                assert(t.contains(step(q2, d)));
            }
        } else {
            assert(child.crates@[i] == parent.crates@[i]);
        }
    }
}

/// Every push of a solving run lands its crate on a live cell.
proof fn lemma_run_push_live(chain: Seq<Node>, root: TileMatrix, s: Set<Point2D>, sdl: BitMatrix, k: int, j: int, a: Action)
    requires
        run_ok(chain, root, s),
        is_solved(chain.last().map),
        is_enclosure(root, s),
        root.data@.len() <= usize::MAX,
        live_exact(root, sdl),
        1 <= k < chain.len(),
        push_moves(chain[k - 1], chain[k], j, a),
    ensures
        sdl.flag(step(chain[k - 1].crates@[j], a)),
{
    let parent = chain[k - 1];
    let ce = step(parent.crates@[j], a);
    assert(node_ok(parent, root, s));
    assert(parent.crates@.len() == chain[0].crates@.len());
    lemma_push_cells(parent, root, s, j, a);
    lemma_crate_track(chain, root, s, k, j);
    assert(chain[k].crates@[j] == ce);
    let goals = goal_points_of(root.width, root.data@);
    lemma_solved_on_goals(chain, root, s);
    assert(chain.last().crates@.len() == chain[0].crates@.len());
    assert(goals.contains(chain.last().crates@[j]));
    let t = choose|t: int| 0 <= t < goals.len() && goals[t] == chain.last().crates@[j];
    assert(pull_reach(root, goals[t]).contains(ce));
    reveal(live_exact);
}

/// A push leaves the tiles of a frozen set as they were.
proof fn lemma_push_keeps_frozen(parent: Node, child: Node, root: TileMatrix, s: Set<Point2D>, i: int, a: Action, set: Set<Point2D>)
    requires
        node_ok(parent, root, s),
        is_enclosure(root, s),
        root.data@.len() <= usize::MAX,
        push_moves(parent, child, i, a),
        frozen(parent.map, set),
    ensures
        forall|b: Point2D| #[trigger] set.contains(b) ==> child.map.tile(b) == parent.map.tile(b),
        frozen(child.map, set),
{
    let m = parent.map;
    let w = m.width;
    let cells = m.data@;
    let c = parent.crates@[i];
    let ce = step(c, a);
    let ps = step(c, spec_inverse(a));
    let ip = index_of(w, parent.player);
    let cs = index_of(w, c);
    let cei = index_of(w, ce);
    lemma_push_cells(parent, root, s, i, a);
    lemma_walk_dir(c, a);
    lemma_step_index(w, c, a);
    assert(s.contains(parent.player));
    lemma_enclosed_interior(root, s, parent.player);
    assert(cells[ip] is Player || cells[ip] is PlayerGoal);
    assert(!cells[cei].spec_freezable());
    assert forall|b: Point2D| #[trigger] set.contains(b) implies child.map.tile(b) == parent.map.tile(b) by {
        let ib = index_of(w, b);
        assert(canonical(m, b) && m.tile(b).spec_freezable());
        assert(ib != ip);
        assert(ib != cei);
        if ib == cs {
            lemma_index_injective(w, b, c);
            assert(b == c);
            assert(m.tile(c) is Crate || m.tile(c) is CrateGoal);
            if set.contains(ce) {
                assert(m.tile(ce).spec_freezable());
            }
            if set.contains(ps) {
                assert(m.tile(ps).spec_freezable());
            }
            assert(false);
        }
    }
}

/// The tiles of a frozen set stay as they are to the end of a run.
proof fn lemma_frozen_stays(chain: Seq<Node>, root: TileMatrix, s: Set<Point2D>, k: int, set: Set<Point2D>)
    requires
        run_ok(chain, root, s),
        is_enclosure(root, s),
        root.data@.len() <= usize::MAX,
        0 <= k < chain.len(),
        frozen(chain[k].map, set),
    ensures
        forall|b: Point2D| #[trigger] set.contains(b) ==> chain.last().map.tile(b) == chain[k].map.tile(b),
    decreases chain.len() - k,
{
    if k < chain.len() - 1 {
        assert(moved_by_push(chain[k], chain[k + 1]));
        let (j, a) = choose|j: int, a: Action| #![trigger push_moves(chain[k], chain[k + 1], j, a)] push_moves(
            chain[k],
            chain[k + 1],
            j,
            a,
        );
        assert(node_ok(chain[k], root, s));
        lemma_push_keeps_frozen(chain[k], chain[k + 1], root, s, j, a, set);
        lemma_frozen_stays(chain, root, s, k + 1, set);
    }
}

/// The point `dx` columns and `dy` rows away from `p`.
pub open spec fn off(p: Point2D, dx: int, dy: int) -> Point2D {
    Point2D { x: (p.x + dx) as usize, y: (p.y + dy) as usize }
}

/// Around an interior point, `tile_off` reads the tile of the point that
/// far away, a point within the rows, and a step goes one cell away.
proof fn lemma_off_tile(m: TileMatrix, p: Point2D, dx: int, dy: int)
    requires
        interior(m, p),
        m.data@.len() <= usize::MAX,
        -1 <= dx <= 1,
        -1 <= dy <= 1,
    ensures
        canonical(m, off(p, dx, dy)),
        m.tile(off(p, dx, dy)) == tile_off(m.width, m.data@, p, dx, dy),
        step(p, Action::Up) == off(p, 0, -1),
        step(p, Action::Down) == off(p, 0, 1),
        step(p, Action::Left) == off(p, -1, 0),
        step(p, Action::Right) == off(p, 1, 0),
        0 <= p.y + dy <= usize::MAX,
        0 <= p.x + dx <= usize::MAX,
{
    let w = m.width as int;
    let y = p.y as int;
    assert((y + dy) * w == y * w + dy * w) by (nonlinear_arith);
    assert(y * w >= w) by (nonlinear_arith)
        requires
            y >= 1,
            w >= 0,
    ;
    assert(y + dy <= y * w + w) by (nonlinear_arith)
        requires
            y >= 1,
            w >= 2,
            dy <= 1,
    ;
}

/// A 2x2 block of walls and crates is frozen.
proof fn lemma_block_frozen(m: TileMatrix, p: Point2D, dx: int, dy: int)
    requires
        interior(m, p),
        m.data@.len() <= usize::MAX,
        dx == 1 || dx == -1,
        dy == 1 || dy == -1,
        m.tile(p).spec_freezable(),
        crate::ida_star_solver::block_freezable(m.width, m.data@, p, dx, dy),
    ensures
        frozen(m, set![p, off(p, dx, 0), off(p, 0, dy), off(p, dx, dy)]),
{
    let set = set![p, off(p, dx, 0), off(p, 0, dy), off(p, dx, dy)];
    lemma_off_tile(m, p, dx, 0);
    lemma_off_tile(m, p, 0, dy);
    lemma_off_tile(m, p, dx, dy);
    lemma_off_tile(m, p, 0, 0);
    lemma_off_tile(m, p, 1, 1);
    assert(off(p, 0, 0) == p);
    assert forall|b: Point2D| #[trigger] set.contains(b) && (m.tile(b) is Crate || m.tile(b) is CrateGoal) implies (
    set.contains(step(b, Action::Up)) || set.contains(step(b, Action::Down))) && (set.contains(step(b, Action::Left))
        || set.contains(step(b, Action::Right))) by {
        let h = if dx == 1 { Action::Right } else { Action::Left };
        let hb = if dx == 1 { Action::Left } else { Action::Right };
        let v = if dy == 1 { Action::Down } else { Action::Up };
        let vb = if dy == 1 { Action::Up } else { Action::Down };
        let ph = off(p, dx, 0);
        let pv = off(p, 0, dy);
        let pd = off(p, dx, dy);
        assert(step(p, h) == ph && step(p, v) == pv);
        assert(step(ph, hb) == p && step(ph, v) == pd);
        assert(step(pv, vb) == p && step(pv, h) == pd);
        assert(step(pd, hb) == pv && step(pd, vb) == ph);
    }
}

/// A crate between two walls at a corner is frozen.
proof fn lemma_corner_frozen(m: TileMatrix, p: Point2D, v: Action, h: Action)
    requires
        interior(m, p),
        m.data@.len() <= usize::MAX,
        v is Up || v is Down,
        h is Left || h is Right,
        m.tile(p) is Crate,
        m.tile(step(p, v)) is Wall,
        m.tile(step(p, h)) is Wall,
    ensures
        frozen(m, set![p, step(p, v), step(p, h)]),
{
    let set = set![p, step(p, v), step(p, h)];
    lemma_interior_step(m, p, v);
    lemma_interior_step(m, p, h);
    assert forall|b: Point2D| #[trigger] set.contains(b) && (m.tile(b) is Crate || m.tile(b) is CrateGoal) implies (
    set.contains(step(b, Action::Up)) || set.contains(step(b, Action::Down))) && (set.contains(step(b, Action::Left))
        || set.contains(step(b, Action::Right))) by {
        assert(b == p);
    }
}

/// A crate in a freeze deadlock lies in a frozen set that holds a crate
/// off its goal.
proof fn lemma_freeze_set(m: TileMatrix, p: Point2D) -> (r: (Set<Point2D>, Point2D))
    requires
        interior(m, p),
        m.data@.len() <= usize::MAX,
        m.tile(p) is Crate || m.tile(p) is CrateGoal,
        freeze_deadlock(m.width, m.data@, p),
    ensures
        frozen(m, r.0),
        r.0.contains(r.1),
        m.tile(r.1) is Crate,
{
    let w = m.width;
    let cells = m.data@;
    lemma_off_tile(m, p, 0, -1);
    lemma_off_tile(m, p, 0, 1);
    lemma_off_tile(m, p, -1, 0);
    lemma_off_tile(m, p, 1, 0);
    if m.tile(p) is Crate {
        if tile_off(w, cells, p, 0, -1) is Wall && tile_off(w, cells, p, -1, 0) is Wall {
            lemma_corner_frozen(m, p, Action::Up, Action::Left);
            (set![p, step(p, Action::Up), step(p, Action::Left)], p)
        } else if tile_off(w, cells, p, 0, -1) is Wall && tile_off(w, cells, p, 1, 0) is Wall {
            lemma_corner_frozen(m, p, Action::Up, Action::Right);
            (set![p, step(p, Action::Up), step(p, Action::Right)], p)
        } else if tile_off(w, cells, p, -1, 0) is Wall && tile_off(w, cells, p, 0, 1) is Wall {
            lemma_corner_frozen(m, p, Action::Down, Action::Left);
            (set![p, step(p, Action::Down), step(p, Action::Left)], p)
        } else if tile_off(w, cells, p, 1, 0) is Wall && tile_off(w, cells, p, 0, 1) is Wall {
            lemma_corner_frozen(m, p, Action::Down, Action::Right);
            (set![p, step(p, Action::Down), step(p, Action::Right)], p)
        } else {
            let (dx, dy) = if crate::ida_star_solver::block_freezable(w, cells, p, -1, -1) {
                (-1int, -1int)
            } else if crate::ida_star_solver::block_freezable(w, cells, p, 1, -1) {
                (1int, -1int)
            } else if crate::ida_star_solver::block_freezable(w, cells, p, -1, 1) {
                (-1int, 1int)
            } else {
                (1int, 1int)
            };
            lemma_block_frozen(m, p, dx, dy);
            (set![p, off(p, dx, 0), off(p, 0, dy), off(p, dx, dy)], p)
        }
    } else {
        let (dx, dy) = if crate::ida_star_solver::block_freezable(w, cells, p, -1, -1)
            && crate::ida_star_solver::block_has_pure_crate(w, cells, p, -1, -1) {
            (-1int, -1int)
        } else if crate::ida_star_solver::block_freezable(w, cells, p, 1, -1)
            && crate::ida_star_solver::block_has_pure_crate(w, cells, p, 1, -1) {
            (1int, -1int)
        } else if crate::ida_star_solver::block_freezable(w, cells, p, -1, 1)
            && crate::ida_star_solver::block_has_pure_crate(w, cells, p, -1, 1) {
            (-1int, 1int)
        } else {
            (1int, 1int)
        };
        lemma_block_frozen(m, p, dx, dy);
        lemma_off_tile(m, p, dx, 0);
        lemma_off_tile(m, p, 0, dy);
        lemma_off_tile(m, p, dx, dy);
        let set = set![p, off(p, dx, 0), off(p, 0, dy), off(p, dx, dy)];
        let b = if tile_off(w, cells, p, dx, 0) is Crate {
            off(p, dx, 0)
        } else if tile_off(w, cells, p, 0, dy) is Crate {
            off(p, 0, dy)
        } else {
            off(p, dx, dy)
        };
        (set, b)
    }
}

/// No push of a solving run leaves its crate in a freeze deadlock.
proof fn lemma_run_push_unfrozen(chain: Seq<Node>, root: TileMatrix, s: Set<Point2D>, k: int, j: int, a: Action)
    requires
        run_ok(chain, root, s),
        is_solved(chain.last().map),
        is_enclosure(root, s),
        root.data@.len() <= usize::MAX,
        1 <= k < chain.len(),
        push_moves(chain[k - 1], chain[k], j, a),
    ensures
        !freeze_deadlock(chain[k].map.width, chain[k].map.data@, step(chain[k - 1].crates@[j], a)),
{
    let child = chain[k];
    let ce = step(chain[k - 1].crates@[j], a);
    if freeze_deadlock(child.map.width, child.map.data@, ce) {
        assert(node_ok(child, root, s));
        assert(child.crates@[j] == ce);
        assert(s.contains(ce));
        lemma_enclosed_interior(root, s, ce);
        assert(interior(child.map, ce));
        let (set, b) = lemma_freeze_set(child.map, ce);
        lemma_frozen_stays(chain, root, s, k, set);
        let last = chain.last();
        assert(last.map.tile(b) is Crate);
        assert(node_ok(last, root, s));
        assert(canonical(child.map, b));
        assert(!(last.map.data@[index_of(last.map.width, b)] is Crate));
    }
}

/// The deadlock pruning never cuts off a solution: every push of a run by
/// the rules of the game that solves the puzzle lands its crate on a live
/// cell and out of any freeze deadlock, so the run is one the search
/// makes.
pub proof fn lemma_pruning_keeps_solutions(chain: Seq<Node>, root: TileMatrix, s: Set<Point2D>, sdl: BitMatrix)
    requires
        run_ok(chain, root, s),
        is_solved(chain.last().map),
        is_enclosure(root, s),
        root.data@.len() <= usize::MAX,
        live_exact(root, sdl),
    ensures
        solution_ok(chain, root, s, sdl),
{
    assert forall|k: int| #![trigger chain[k]] 1 <= k < chain.len() implies is_successor(chain[k - 1], chain[k], sdl) by {
        assert(moved_by_push(chain[k - 1], chain[k]));
        let (j, a) = choose|j: int, a: Action| #![trigger push_moves(chain[k - 1], chain[k], j, a)] push_moves(
            chain[k - 1],
            chain[k],
            j,
            a,
        );
        lemma_run_push_live(chain, root, s, sdl, k, j, a);
        lemma_run_push_unfrozen(chain, root, s, k, j, a);
        assert(push_ok(chain[k - 1], chain[k], sdl, j, a));
    }
}

} // verus!
