use vstd::prelude::*;
use priority_queue::PriorityQueue;
use std::hash::Hash;

use crate::types::{
    Action, BitMatrix, Point2D, Tile, TileMatrix, can_step, index_of, lemma_step_index, lemma_step_inverse,
    spec_inverse, step,
};

verus! {

// ************************************************************************** //
// Grid geometry

/// The four directions a player or a crate can move in.
pub open spec fn is_dir(d: Action) -> bool {
    d is Up || d is Down || d is Left || d is Right
}

/// A point that names a cell of `m` in exactly one way (its column is
/// within the row).
pub open spec fn canonical(m: TileMatrix, p: Point2D) -> bool {
    p.x < m.width && m.in_bounds(p)
}

/// A point whose eight surrounding cells all lie within the grid.
pub open spec fn interior(m: TileMatrix, p: Point2D) -> bool {
    1 <= p.x && p.x + 1 < m.width && 1 <= p.y && index_of(m.width, p) + m.width + 1 < m.data@.len()
}

/// A set of interior points that no one can leave without crossing a wall:
/// every neighbour of a member that is not a wall is a member too.
pub open spec fn is_enclosure(m: TileMatrix, s: Set<Point2D>) -> bool {
    forall|p: Point2D, d: Action|
        #![trigger s.contains(p), step(p, d)]
        s.contains(p) ==> interior(m, p) && (is_dir(d) && m.tile(step(p, d)) != Tile::Wall
            ==> s.contains(step(p, d)))
}

/// `p` lies inside walls: some enclosure of `m` holds it.
pub open spec fn encloses(m: TileMatrix, p: Point2D) -> bool {
    exists|s: Set<Point2D>| is_enclosure(m, s) && s.contains(p)
}

/// A set of interior points that the player cannot walk out of: every
/// walkable neighbour (floor or goal) of a member is a member too.
pub open spec fn is_walk_enclosure(m: TileMatrix, s: Set<Point2D>) -> bool {
    forall|p: Point2D, d: Action|
        #![trigger s.contains(p), step(p, d)]
        s.contains(p) ==> interior(m, p) && (is_dir(d) && walkable(m.tile(step(p, d))) ==> s.contains(step(p, d)))
}

/// The floor and goals that the player reaches from `p` lie inside the grid.
pub open spec fn walk_encloses(m: TileMatrix, p: Point2D) -> bool {
    exists|s: Set<Point2D>| is_walk_enclosure(m, s) && s.contains(p)
}

/// A set of interior points that the player cannot walk out of even over
/// the cells a player may stand on: every neighbour of a member that holds
/// no wall and no crate is a member too.
pub open spec fn is_pass_enclosure(m: TileMatrix, s: Set<Point2D>) -> bool {
    forall|p: Point2D, d: Action|
        #![trigger s.contains(p), step(p, d)]
        s.contains(p) ==> interior(m, p) && (is_dir(d) && passable(m.tile(step(p, d))) ==> s.contains(step(p, d)))
}

/// The cells that the player can reach from `p`, walking over anything but
/// walls and crates, lie inside the grid.
pub open spec fn pass_encloses(m: TileMatrix, p: Point2D) -> bool {
    exists|s: Set<Point2D>| is_pass_enclosure(m, s) && s.contains(p)
}

/// Walls hold such walks in too.
pub proof fn lemma_enclosure_passes(m: TileMatrix, s: Set<Point2D>)
    requires
        is_enclosure(m, s),
    ensures
        is_pass_enclosure(m, s),
{
}

/// The members of such a set are interior points.
pub proof fn lemma_pass_interior(m: TileMatrix, s: Set<Point2D>, p: Point2D)
    requires
        is_pass_enclosure(m, s),
        s.contains(p),
    ensures
        interior(m, p),
{
    assert(s.contains(p) ==> interior(m, p) && (is_dir(Action::Up) && passable(m.tile(step(p, Action::Up)))
        ==> s.contains(step(p, Action::Up))));
}

/// Walls hold the player in too.
pub proof fn lemma_enclosure_walks(m: TileMatrix, s: Set<Point2D>)
    requires
        is_enclosure(m, s),
    ensures
        is_walk_enclosure(m, s),
{
}

/// The members of an enclosure are interior points.
pub proof fn lemma_enclosed_interior(m: TileMatrix, s: Set<Point2D>, p: Point2D)
    requires
        is_enclosure(m, s),
        s.contains(p),
    ensures
        interior(m, p),
{
    assert(s.contains(p) ==> interior(m, p) && (is_dir(Action::Up) && m.tile(step(p, Action::Up)) != Tile::Wall
        ==> s.contains(step(p, Action::Up))));
}

/// The neighbours of an interior point lie within the grid, one row or one
/// column away.
pub proof fn lemma_interior_step(m: TileMatrix, p: Point2D, d: Action)
    requires
        interior(m, p),
        is_dir(d),
        m.data@.len() <= usize::MAX,
    ensures
        can_step(p, d),
        canonical(m, step(p, d)),
        m.in_bounds(step(p, d)),
{
    let y = p.y as int;
    let w = m.width as int;
    assert(y * w >= y) by (nonlinear_arith)
        requires
            y >= 0,
            w >= 1,
    ;
    lemma_step_index(m.width, p, d);
}

/// Two points within the rows of a grid share an index only when they are
/// the same point.
pub proof fn lemma_index_injective(w: usize, p: Point2D, q: Point2D)
    requires
        p.x < w,
        q.x < w,
        index_of(w, p) == index_of(w, q),
    ensures
        p == q,
{
    let (px, py, qx, qy, wi) = (p.x as int, p.y as int, q.x as int, q.y as int, w as int);
    assert(py == qy) by (nonlinear_arith)
        requires
            py * wi + px == qy * wi + qx,
            0 <= px < wi,
            0 <= qx < wi,
            py >= 0,
            qy >= 0,
    {
        if py < qy {
            assert(py * wi + wi <= qy * wi);
        } else if py > qy {
            assert(qy * wi + wi <= py * wi);
        }
    }
}

/// The number of cleared flags.
pub open spec fn count_false(bits: Seq<bool>) -> nat
    decreases bits.len(),
{
    if bits.len() == 0 {
        0
    } else {
        count_false(bits.drop_last()) + if bits.last() {
            0nat
        } else {
            1nat
        }
    }
}

/// Setting a cleared flag leaves one cleared flag fewer.
pub proof fn lemma_count_false_set(bits: Seq<bool>, i: int)
    requires
        0 <= i < bits.len(),
        !bits[i],
    ensures
        count_false(bits.update(i, true)) + 1 == count_false(bits),
    decreases bits.len(),
{
    let u = bits.update(i, true);
    if i == bits.len() - 1 {
        assert(u.drop_last() =~= bits.drop_last());
    } else {
        assert(u.drop_last() =~= bits.drop_last().update(i, true));
        lemma_count_false_set(bits.drop_last(), i);
    }
}

// ************************************************************************** //
// Flood fill

/// A tile the player can walk over.
pub open spec fn walkable(t: Tile) -> bool {
    t is Floor || t is Goal
}

/// The player can step from `p` onto its neighbour `step(p, d)`: a walkable
/// cell whose flag in `marks` is cleared.
pub open spec fn open_step(m: TileMatrix, marks: Seq<bool>, p: Point2D, d: Action) -> bool {
    &&& is_dir(d)
    &&& can_step(p, d)
    &&& m.in_bounds(step(p, d))
    &&& index_of(m.width, step(p, d)) < marks.len()
    &&& walkable(m.tile(step(p, d)))
    &&& !marks[index_of(m.width, step(p, d))]
}

/// `t` is closed under open steps taken from `from` or from its members.
pub open spec fn walk_closed(m: TileMatrix, marks: Seq<bool>, from: Point2D, t: Set<Point2D>) -> bool {
    forall|p: Point2D, d: Action|
        #![trigger t.contains(step(p, d)), open_step(m, marks, p, d)]
        (p == from || t.contains(p)) && open_step(m, marks, p, d) ==> t.contains(step(p, d))
}

/// The cells the player reaches from `from` by open steps: those that every
/// set closed under open steps holds.
pub open spec fn walk_reach(m: TileMatrix, marks: Seq<bool>, from: Point2D) -> Set<Point2D> {
    Set::new(|q: Point2D| forall|t: Set<Point2D>| walk_closed(m, marks, from, t) ==> #[trigger] t.contains(q))
}

/// Marks in `walk_map` every cell that the player reaches from `current`
/// over walkable cells (floor or goal) whose flag is still cleared.
pub fn find_walkable_spaces(map: &TileMatrix, current: Point2D, walk_map: &mut BitMatrix)
    requires
        old(walk_map).width == map.width,
        old(walk_map).bits().len() == map.data@.len(),
        walk_encloses(*map, current),
    ensures
        final(walk_map).width == old(walk_map).width,
        final(walk_map).bits().len() == old(walk_map).bits().len(),
        forall|p: Point2D|
            canonical(*map, p) ==> #[trigger] final(walk_map).flag(p) == (old(walk_map).flag(p)
                || walk_reach(*map, old(walk_map).bits(), current).contains(p)),
{
    let len = map.data.len();
    let ghost old_bits = walk_map.bits();
    let ghost s = choose|s: Set<Point2D>| is_walk_enclosure(*map, s) && s.contains(current);
    let ghost mut n: Set<Point2D> = Set::empty();
    let mut stack: Vec<Point2D> = Vec::new();
    stack.push(current);
    assert(stack@[0] == current);
    while stack.len() > 0
        invariant
            walk_map.width == map.width,
            walk_map.bits().len() == map.data@.len(),
            old_bits.len() == map.data@.len(),
            is_walk_enclosure(*map, s),
            s.contains(current),
            forall|p: Point2D| n.contains(p) ==> s.contains(p),
            forall|p: Point2D|
                canonical(*map, p) ==> #[trigger] walk_map.flag(p) == (old_bits[index_of(map.width, p)]
                    || n.contains(p)),
            forall|p: Point2D| n.contains(p) ==> !old_bits[index_of(map.width, p)],
            forall|i: int| 0 <= i < stack@.len() ==> stack@[i] == current || n.contains(#[trigger] stack@[i]),
            forall|p: Point2D, d: Action|
                #![trigger n.contains(step(p, d)), open_step(*map, old_bits, p, d)]
                (p == current || n.contains(p)) && !stack@.contains(p) && open_step(*map, old_bits, p, d)
                    ==> n.contains(step(p, d)),
            forall|t: Set<Point2D>| walk_closed(*map, old_bits, current, t) ==> n.subset_of(t),
            map.data@.len() == len,
        decreases count_false(walk_map.bits()) * 5 + stack@.len(),
    {
        let ghost old_stack = stack@;
        let p = stack.pop().unwrap();
        assert(s.contains(p));
        assert(stack@ == old_stack.drop_last());
        assert forall|q: Point2D| !stack@.contains(q) && q != p implies !old_stack.contains(q) by {
            if old_stack.contains(q) {
                let i = choose|i: int| 0 <= i < old_stack.len() && old_stack[i] == q;
                if i < old_stack.len() - 1 {
                    assert(stack@[i] == q);
                }
            }
        }
        let ghost before = walk_map.bits();
        let ghost popped_len = stack@.len();
        let ghost mut marked: nat = 0;
        let dirs = [Action::Left, Action::Right, Action::Up, Action::Down];
        let mut k: usize = 0;
        while k < 4
            invariant
                0 <= k <= 4,
                dirs@ == seq![Action::Left, Action::Right, Action::Up, Action::Down],
                walk_map.width == map.width,
                walk_map.bits().len() == map.data@.len(),
                old_bits.len() == map.data@.len(),
                is_walk_enclosure(*map, s),
                s.contains(current),
                s.contains(p),
                p == current || n.contains(p),
                forall|q: Point2D| n.contains(q) ==> s.contains(q),
                forall|q: Point2D|
                    canonical(*map, q) ==> #[trigger] walk_map.flag(q) == (old_bits[index_of(map.width, q)]
                        || n.contains(q)),
                forall|q: Point2D| n.contains(q) ==> !old_bits[index_of(map.width, q)],
                forall|i: int| 0 <= i < stack@.len() ==> stack@[i] == current || n.contains(#[trigger] stack@[i]),
                forall|q: Point2D, d: Action|
                    #![trigger n.contains(step(q, d)), open_step(*map, old_bits, q, d)]
                    (q == current || n.contains(q)) && !stack@.contains(q) && q != p && open_step(*map, old_bits, q, d)
                        ==> n.contains(step(q, d)),
                forall|j: int|
                    0 <= j < k && open_step(*map, old_bits, p, #[trigger] dirs@[j]) ==> n.contains(step(p, dirs@[j])),
                forall|t: Set<Point2D>| walk_closed(*map, old_bits, current, t) ==> n.subset_of(t),
                count_false(walk_map.bits()) + marked == count_false(before),
                stack@.len() == popped_len + marked,
                marked <= k,
                map.data@.len() == len,
            decreases 4 - k,
        {
            let d = dirs[k];
            proof {
                lemma_interior_step(*map, p, d);
            }
            let q = p.from(d);
            if walk_map.get(q).unwrap() == false {
                match map.get(q) {
                    Tile::Floor | Tile::Goal => {
                        proof {
                            assert(!old_bits[index_of(map.width, q)]);
                            assert(open_step(*map, old_bits, p, d));
                            assert forall|t: Set<Point2D>| walk_closed(*map, old_bits, current, t) implies n.insert(q).subset_of(t) by {
                                assert(n.subset_of(t));
                                if p != current {
                                    assert(n.contains(p));
                                    assert(t.contains(p));
                                }
                                assert(t.contains(step(p, d)));
                            }
                            assert(s.contains(q));
                            lemma_count_false_set(walk_map.bits(), index_of(map.width, q));
                        }
                        let ghost pre = walk_map.bits();
                        let ghost pre_stack = stack@;
                        assert forall|r: Point2D| canonical(*map, r) implies pre[index_of(map.width, r)] == (
                        old_bits[index_of(map.width, r)] || n.contains(r)) by {
                            assert(walk_map.flag(r) == (old_bits[index_of(map.width, r)] || n.contains(r)));
                        }
                        walk_map.set(q, true);
                        stack.push(q);
                        proof {
                            assert(stack@[stack@.len() - 1] == q);
                            assert forall|r: Point2D| !stack@.contains(r) implies !pre_stack.contains(r) by {
                                if pre_stack.contains(r) {
                                    let i = choose|i: int| 0 <= i < pre_stack.len() && pre_stack[i] == r;
                                    assert(stack@[i] == r);
                                }
                            }
                            assert forall|r: Point2D| canonical(*map, r) implies #[trigger] walk_map.flag(r) == (old_bits[index_of(map.width, r)]
                                || n.insert(q).contains(r)) by {
                                if r != q {
                                    if index_of(map.width, r) == index_of(map.width, q) {
                                        lemma_index_injective(map.width, r, q);
                                    }
                                }
                            }
                            n = n.insert(q);
                            marked = marked + 1;
                        }
                    },
                    _ => (),
                }
            }
            k = k + 1;
        }
    }
    proof {
        assert(walk_closed(*map, old_bits, current, n));
        assert forall|q: Point2D| canonical(*map, q) implies #[trigger] walk_map.flag(q) == (old_bits[index_of(map.width, q)]
            || walk_reach(*map, old_bits, current).contains(q)) by {
            if n.contains(q) {
                assert forall|t: Set<Point2D>| walk_closed(*map, old_bits, current, t) implies #[trigger] t.contains(q) by {
                    assert(n.subset_of(t));
                }
            }
            if walk_reach(*map, old_bits, current).contains(q) {
                assert(n.contains(q));
            }
        }
    }
}

} // verus!

verus! {

// ************************************************************************** //
// Simple deadlocks

/// A crate standing at `step(p, d)` can be pulled onto `p`: both that cell
/// and the one behind it (where the puller stands) are not walls.
pub open spec fn pull_step(m: TileMatrix, p: Point2D, d: Action) -> bool {
    &&& is_dir(d)
    &&& can_step(p, d)
    &&& m.in_bounds(step(p, d))
    &&& m.tile(step(p, d)) != Tile::Wall
    &&& can_step(step(p, d), d)
    &&& m.in_bounds(step(step(p, d), d))
    &&& m.tile(step(step(p, d), d)) != Tile::Wall
}

/// `t` holds `goal` and is closed under pull steps.
pub open spec fn pull_closed(m: TileMatrix, goal: Point2D, t: Set<Point2D>) -> bool {
    &&& t.contains(goal)
    &&& forall|p: Point2D, d: Action|
        #![trigger t.contains(step(p, d)), pull_step(m, p, d)]
        t.contains(p) && pull_step(m, p, d) ==> t.contains(step(p, d))
}

/// The cells from which a crate can be pulled, one pull after another, onto
/// `goal`: those that every set closed under pull steps from `goal` holds.
/// A crate anywhere else can never be pushed onto that goal.
pub open spec fn pull_reach(m: TileMatrix, goal: Point2D) -> Set<Point2D> {
    Set::new(|q: Point2D| forall|t: Set<Point2D>| pull_closed(m, goal, t) ==> #[trigger] t.contains(q))
}

/// Two grids of the same shape with walls in the same cells.
pub open spec fn same_walls(m1: TileMatrix, m2: TileMatrix) -> bool {
    &&& m1.width == m2.width
    &&& m1.data@.len() == m2.data@.len()
    &&& forall|i: int| 0 <= i < m1.data@.len() ==> (m1.data@[i] == Tile::Wall) == (m2.data@[i] == Tile::Wall)
}

/// Enclosures and pulls only see the walls.
pub proof fn lemma_same_walls(m1: TileMatrix, m2: TileMatrix, goal: Point2D, s: Set<Point2D>)
    requires
        same_walls(m1, m2),
        m1.data@.len() <= usize::MAX,
    ensures
        pull_reach(m1, goal) == pull_reach(m2, goal),
        is_enclosure(m1, s) == is_enclosure(m2, s),
{
    assert forall|p: Point2D, d: Action| pull_step(m1, p, d) == pull_step(m2, p, d) by {}
    assert forall|t: Set<Point2D>| pull_closed(m1, goal, t) == pull_closed(m2, goal, t) by {
        assert forall|p: Point2D, d: Action| pull_step(m1, p, d) == pull_step(m2, p, d) by {}
    }
    assert(pull_reach(m1, goal) =~= pull_reach(m2, goal));
    if is_enclosure(m1, s) {
        assert forall|p: Point2D, d: Action| #![trigger s.contains(p), step(p, d)]
            s.contains(p) implies interior(m2, p) && (is_dir(d) && m2.tile(step(p, d)) != Tile::Wall
            ==> s.contains(step(p, d))) by {
            if is_dir(d) && m2.tile(step(p, d)) != Tile::Wall {
                lemma_interior_step(m1, p, d);
                assert(m1.tile(step(p, d)) != Tile::Wall);
            }
        }
    }
    if is_enclosure(m2, s) {
        assert forall|p: Point2D, d: Action| #![trigger s.contains(p), step(p, d)]
            s.contains(p) implies interior(m1, p) && (is_dir(d) && m1.tile(step(p, d)) != Tile::Wall
            ==> s.contains(step(p, d))) by {
            if is_dir(d) && m1.tile(step(p, d)) != Tile::Wall {
                lemma_interior_step(m2, p, d);
                assert(m2.tile(step(p, d)) != Tile::Wall);
            }
        }
    }
}

/// Marks in `bm` and `cur_checked` every cell from which a crate can be
/// pulled onto `cur_pos`. `map` holds only walls and floor.
fn recursive_pull(map: &TileMatrix, bm: &mut BitMatrix, cur_checked: &mut BitMatrix, cur_pos: Point2D)
    requires
        old(bm).width == map.width,
        old(bm).bits().len() == map.data@.len(),
        old(cur_checked).width == map.width,
        old(cur_checked).bits() == Seq::new(map.data@.len(), |i: int| false),
        forall|i: int| 0 <= i < map.data@.len() ==> #[trigger] map.data@[i] == Tile::Wall || map.data@[i] == Tile::Floor,
        encloses(*map, cur_pos),
    ensures
        final(bm).width == old(bm).width,
        final(bm).bits().len() == old(bm).bits().len(),
        forall|p: Point2D|
            canonical(*map, p) ==> #[trigger] final(bm).flag(p) == (old(bm).flag(p) || pull_reach(*map, cur_pos).contains(p)),
{
    let len = map.data.len();
    let ghost old_bm = bm.bits();
    let ghost s = choose|s: Set<Point2D>| is_enclosure(*map, s) && s.contains(cur_pos);
    proof {
        lemma_interior_step(*map, cur_pos, Action::Up);
        lemma_count_false_set(cur_checked.bits(), index_of(map.width, cur_pos));
    }
    bm.set(cur_pos, true);
    cur_checked.set(cur_pos, true);
    let ghost mut n: Set<Point2D> = Set::empty().insert(cur_pos);
    proof {
        assert forall|q: Point2D| canonical(*map, q) implies #[trigger] bm.flag(q) == (old_bm[index_of(map.width, q)]
            || n.contains(q)) by {
            if q != cur_pos && index_of(map.width, q) == index_of(map.width, cur_pos) {
                lemma_index_injective(map.width, q, cur_pos);
            }
        }
        assert forall|q: Point2D| canonical(*map, q) implies #[trigger] cur_checked.flag(q) == n.contains(q) by {
            if q != cur_pos && index_of(map.width, q) == index_of(map.width, cur_pos) {
                lemma_index_injective(map.width, q, cur_pos);
            }
        }
    }
    let mut stack: Vec<Point2D> = Vec::new();
    stack.push(cur_pos);
    assert(stack@[0] == cur_pos);
    while stack.len() > 0
        invariant
            bm.width == map.width,
            bm.bits().len() == map.data@.len(),
            cur_checked.width == map.width,
            cur_checked.bits().len() == map.data@.len(),
            old_bm.len() == map.data@.len(),
            map.data@.len() == len,
            forall|i: int| 0 <= i < map.data@.len() ==> #[trigger] map.data@[i] == Tile::Wall || map.data@[i] == Tile::Floor,
            is_enclosure(*map, s),
            n.contains(cur_pos),
            forall|p: Point2D| n.contains(p) ==> s.contains(p),
            forall|p: Point2D|
                canonical(*map, p) ==> #[trigger] bm.flag(p) == (old_bm[index_of(map.width, p)] || n.contains(p)),
            forall|p: Point2D| canonical(*map, p) ==> #[trigger] cur_checked.flag(p) == n.contains(p),
            forall|i: int| 0 <= i < stack@.len() ==> n.contains(#[trigger] stack@[i]),
            forall|p: Point2D, d: Action|
                #![trigger n.contains(step(p, d)), pull_step(*map, p, d)]
                n.contains(p) && !stack@.contains(p) && pull_step(*map, p, d) ==> n.contains(step(p, d)),
            forall|t: Set<Point2D>| pull_closed(*map, cur_pos, t) ==> n.subset_of(t),
        decreases count_false(cur_checked.bits()) * 5 + stack@.len(),
    {
        let ghost old_stack = stack@;
        let p = stack.pop().unwrap();
        assert(s.contains(p));
        assert(stack@ == old_stack.drop_last());
        assert forall|q: Point2D| !stack@.contains(q) && q != p implies !old_stack.contains(q) by {
            if old_stack.contains(q) {
                let i = choose|i: int| 0 <= i < old_stack.len() && old_stack[i] == q;
                if i < old_stack.len() - 1 {
                    assert(stack@[i] == q);
                }
            }
        }
        let ghost before = cur_checked.bits();
        let ghost popped_len = stack@.len();
        let ghost mut marked: nat = 0;
        let dirs = [Action::Left, Action::Right, Action::Up, Action::Down];
        let mut k: usize = 0;
        while k < 4
            invariant
                0 <= k <= 4,
                dirs@ == seq![Action::Left, Action::Right, Action::Up, Action::Down],
                bm.width == map.width,
                bm.bits().len() == map.data@.len(),
                cur_checked.width == map.width,
                cur_checked.bits().len() == map.data@.len(),
                old_bm.len() == map.data@.len(),
                map.data@.len() == len,
                forall|i: int| 0 <= i < map.data@.len() ==> #[trigger] map.data@[i] == Tile::Wall || map.data@[i] == Tile::Floor,
                is_enclosure(*map, s),
                n.contains(cur_pos),
                n.contains(p),
                s.contains(p),
                forall|q: Point2D| n.contains(q) ==> s.contains(q),
                forall|q: Point2D|
                    canonical(*map, q) ==> #[trigger] bm.flag(q) == (old_bm[index_of(map.width, q)] || n.contains(q)),
                forall|q: Point2D| canonical(*map, q) ==> #[trigger] cur_checked.flag(q) == n.contains(q),
                forall|i: int| 0 <= i < stack@.len() ==> n.contains(#[trigger] stack@[i]),
                forall|q: Point2D, d: Action|
                    #![trigger n.contains(step(q, d)), pull_step(*map, q, d)]
                    n.contains(q) && !stack@.contains(q) && q != p && pull_step(*map, q, d) ==> n.contains(step(q, d)),
                forall|j: int|
                    0 <= j < k && pull_step(*map, p, #[trigger] dirs@[j]) ==> n.contains(step(p, dirs@[j])),
                forall|t: Set<Point2D>| pull_closed(*map, cur_pos, t) ==> n.subset_of(t),
                count_false(cur_checked.bits()) + marked == count_false(before),
                stack@.len() == popped_len + marked,
                marked <= k,
            decreases 4 - k,
        {
            let d = dirs[k];
            proof {
                lemma_interior_step(*map, p, d);
            }
            let point = p.from(d);
            if map.get(point) != Tile::Wall {
                proof {
                    assert(s.contains(point));
                    lemma_interior_step(*map, point, d);
                }
                let next_point = point.from(d);
                if map.get(next_point) != Tile::Wall {
                    if cur_checked.get(point).unwrap() == false && map.get(point) == Tile::Floor
                        && map.get(next_point) == Tile::Floor {
                        proof {
                            assert(pull_step(*map, p, d));
                            assert forall|t: Set<Point2D>| pull_closed(*map, cur_pos, t) implies n.insert(point).subset_of(t) by {
                                assert(n.subset_of(t));
                                assert(t.contains(p));
                                assert(t.contains(step(p, d)));
                            }
                            lemma_count_false_set(cur_checked.bits(), index_of(map.width, point));
                        }
                        let ghost pre_bm = bm.bits();
                        let ghost pre_ck = cur_checked.bits();
                        let ghost pre_stack = stack@;
                        assert forall|r: Point2D| canonical(*map, r) implies pre_bm[index_of(map.width, r)] == (
                        old_bm[index_of(map.width, r)] || n.contains(r)) && pre_ck[index_of(map.width, r)] == n.contains(r) by {
                            assert(bm.flag(r) == (old_bm[index_of(map.width, r)] || n.contains(r)));
                            assert(cur_checked.flag(r) == n.contains(r));
                        }
                        bm.set(point, true);
                        cur_checked.set(point, true);
                        stack.push(point);
                        proof {
                            assert(stack@[stack@.len() - 1] == point);
                            assert forall|r: Point2D| !stack@.contains(r) implies !pre_stack.contains(r) by {
                                if pre_stack.contains(r) {
                                    let i = choose|i: int| 0 <= i < pre_stack.len() && pre_stack[i] == r;
                                    assert(stack@[i] == r);
                                }
                            }
                            assert forall|r: Point2D| canonical(*map, r) implies #[trigger] bm.flag(r) == (old_bm[index_of(map.width, r)]
                                || n.insert(point).contains(r)) by {
                                if r != point {
                                    if index_of(map.width, r) == index_of(map.width, point) {
                                        lemma_index_injective(map.width, r, point);
                                    }
                                }
                            }
                            assert forall|r: Point2D| canonical(*map, r) implies #[trigger] cur_checked.flag(r) == n.insert(point).contains(r) by {
                                if r != point {
                                    if index_of(map.width, r) == index_of(map.width, point) {
                                        lemma_index_injective(map.width, r, point);
                                    }
                                }
                            }
                            n = n.insert(point);
                            marked = marked + 1;
                        }
                    }
                }
            }
            k = k + 1;
        }
    }
    proof {
        assert(pull_closed(*map, cur_pos, n));
        assert forall|q: Point2D| canonical(*map, q) implies #[trigger] bm.flag(q) == (old_bm[index_of(map.width, q)]
            || pull_reach(*map, cur_pos).contains(q)) by {
            if n.contains(q) {
                assert forall|t: Set<Point2D>| pull_closed(*map, cur_pos, t) implies #[trigger] t.contains(q) by {
                    assert(n.subset_of(t));
                }
            }
            if pull_reach(*map, cur_pos).contains(q) {
                assert(n.contains(q));
            }
        }
    }
}


/// The walls of `t` alone: every other tile counts as floor.
pub open spec fn wall_or_floor(t: Tile) -> Tile {
    if t is Wall {
        Tile::Wall
    } else {
        Tile::Floor
    }
}

/// Flags every cell from which a crate can still be pushed onto one of the
/// `goals` (pulling it back from the goal). A crate on a cell whose flag is
/// cleared is a simple deadlock.
pub fn find_simple_deadlocks(map: &TileMatrix, goals: &Vec<Point2D>) -> (bm: BitMatrix)
    requires
        forall|i: int| 0 <= i < goals@.len() ==> encloses(*map, #[trigger] goals@[i]),
    ensures
        bm.width == map.width,
        bm.bits().len() == map.data@.len(),
        forall|p: Point2D|
            canonical(*map, p) ==> (#[trigger] bm.flag(p) <==> exists|i: int|
                0 <= i < goals@.len() && #[trigger] pull_reach(*map, goals@[i]).contains(p)),
{
    let len = map.data.len();
    let mut bm = BitMatrix::new(map.width, map.data.len());
    let mut new_map_data: Vec<Tile> = Vec::new();
    let mut k: usize = 0;
    while k < map.data.len()
        invariant
            k <= map.data@.len(),
            new_map_data@ == map.data@.subrange(0, k as int).map_values(|t: Tile| wall_or_floor(t)),
        decreases map.data@.len() - k,
    {
        let tile = map.data[k];
        new_map_data.push(
            match tile {
                Tile::Player => Tile::Floor,
                Tile::PlayerGoal => Tile::Floor,
                Tile::Crate => Tile::Floor,
                Tile::CrateGoal => Tile::Floor,
                Tile::Goal => Tile::Floor,
                _ => tile,
            },
        );
        assert(map.data@.subrange(0, k + 1) =~= map.data@.subrange(0, k as int).push(tile));
        k = k + 1;
    }
    assert(map.data@.subrange(0, len as int) =~= map.data@);
    let new_map = TileMatrix { width: map.width, data: new_map_data };
    assert(same_walls(*map, new_map));
    let mut i: usize = 0;
    while i < goals.len()
        invariant
            i <= goals@.len(),
            same_walls(*map, new_map),
            map.data@.len() == len,
            forall|j: int| 0 <= j < goals@.len() ==> encloses(*map, #[trigger] goals@[j]),
            forall|j: int| 0 <= j < new_map.data@.len() ==> #[trigger] new_map.data@[j] == Tile::Wall
                || new_map.data@[j] == Tile::Floor,
            bm.width == map.width,
            bm.bits().len() == len,
            forall|p: Point2D|
                canonical(*map, p) ==> (#[trigger] bm.flag(p) <==> exists|j: int|
                    0 <= j < i && #[trigger] pull_reach(*map, goals@[j]).contains(p)),
        decreases goals@.len() - i,
    {
        let goal = goals[i];
        let ghost s = choose|s: Set<Point2D>| is_enclosure(*map, s) && s.contains(goal);
        proof {
            lemma_same_walls(*map, new_map, goal, s);
        }
        let mut cur_checked = BitMatrix::new(map.width, map.data.len());
        let ghost pre = bm;
        recursive_pull(&new_map, &mut bm, &mut cur_checked, goal);
        assert forall|p: Point2D| canonical(*map, p) implies (#[trigger] bm.flag(p) <==> exists|j: int|
            0 <= j < i + 1 && #[trigger] pull_reach(*map, goals@[j]).contains(p)) by {
            assert(pre.flag(p) <==> exists|j: int| 0 <= j < i && #[trigger] pull_reach(*map, goals@[j]).contains(p));
            if pull_reach(*map, goals@[i as int]).contains(p) {
                assert(exists|j: int| 0 <= j < i + 1 && #[trigger] pull_reach(*map, goals@[j]).contains(p));
            }
            if exists|j: int| 0 <= j < i + 1 && #[trigger] pull_reach(*map, goals@[j]).contains(p) {
                let j = choose|j: int| 0 <= j < i + 1 && #[trigger] pull_reach(*map, goals@[j]).contains(p);
                if j < i {
                    assert(exists|j: int| 0 <= j < i && #[trigger] pull_reach(*map, goals@[j]).contains(p));
                }
            }
        }
        i = i + 1;
    }
    bm
}


// ************************************************************************** //
// Manhattan distance

/// The Manhattan distance between two points.
pub open spec fn manhattan(p1: Point2D, p2: Point2D) -> int {
    (if p1.x < p2.x { p2.x - p1.x } else { p1.x - p2.x }) + (if p1.y < p2.y { p2.y - p1.y } else { p1.y - p2.y })
}

pub fn manhattan_distance(p1: Point2D, p2: Point2D) -> (d: usize)
    requires
        manhattan(p1, p2) <= usize::MAX,
    ensures
        d == manhattan(p1, p2),
{
    let mut val: usize = 0;
    if p1.x < p2.x {
        val += p2.x - p1.x;
    } else {
        val += p1.x - p2.x;
    }
    if p1.y < p2.y {
        val += p2.y - p1.y;
    } else {
        val += p1.y - p2.y;
    }
    val
}

/// Within a grid of `len` cells the Manhattan distance between two cells
/// is below `len`.
pub proof fn lemma_manhattan_bound(m: TileMatrix, p: Point2D, q: Point2D)
    requires
        canonical(m, p),
        canonical(m, q),
    ensures
        manhattan(p, q) < m.data@.len(),
{
    let w = m.width as int;
    let len = m.data@.len() as int;
    let (px, py, qx, qy) = (p.x as int, p.y as int, q.x as int, q.y as int);
    let ym = if py < qy { qy } else { py };
    let xm = if py < qy { qx } else { px };
    assert(ym * w + xm < len);
    assert(manhattan(p, q) <= (w - 1) + ym);
    if ym == 0 {
        assert(py == 0 && qy == 0);
        assert(0 * w == 0) by (nonlinear_arith);
        assert(px < len && qx < len);
    } else {
        assert(w - 1 + ym <= ym * w) by (nonlinear_arith)
            requires
                ym >= 1,
                w >= 1,
        ;
    }
}

// ************************************************************************** //
// A* path finding

/// A tile the player may walk onto when going from push to push.
pub open spec fn passable(t: Tile) -> bool {
    !(t is Wall || t is Crate || t is CrateGoal)
}

/// `actions` walks the player from `from` to `to` over passable cells, one
/// step in one of the four directions at a time.
pub open spec fn is_walk(m: TileMatrix, from: Point2D, to: Point2D, actions: Seq<Action>) -> bool
    decreases actions.len(),
{
    if actions.len() == 0 {
        from == to
    } else {
        &&& is_dir(actions[0])
        &&& can_step(from, actions[0])
        &&& m.in_bounds(step(from, actions[0]))
        &&& passable(m.tile(step(from, actions[0])))
        &&& is_walk(m, step(from, actions[0]), to, actions.drop_first())
    }
}

/// `t` holds `from` and every passable neighbour of its members.
pub open spec fn step_closed(m: TileMatrix, from: Point2D, t: Set<Point2D>) -> bool {
    &&& t.contains(from)
    &&& forall|p: Point2D, d: Action|
        #![trigger t.contains(step(p, d))]
        t.contains(p) && is_dir(d) && can_step(p, d) && m.in_bounds(step(p, d)) && passable(
            m.tile(step(p, d)),
        ) ==> t.contains(step(p, d))
}

/// The cells the player can walk to from `from`.
pub open spec fn path_reach(m: TileMatrix, from: Point2D) -> Set<Point2D> {
    Set::new(|q: Point2D| forall|t: Set<Point2D>| step_closed(m, from, t) ==> #[trigger] t.contains(q))
}

#[verifier::external_type_specification]
#[verifier::external_body]
#[verifier::reject_recursive_types(I)]
#[verifier::reject_recursive_types(P)]
#[verifier::reject_recursive_types(H)]
pub struct ExPriorityQueue<I: Hash + Eq, P: Ord, H>(PriorityQueue<I, P, H>);

/// A priority queue of cell indices.
pub type CellQueue = PriorityQueue<(usize, usize), usize>;

/// The items of a priority queue with their priorities.
pub uninterp spec fn queue_entries(q: CellQueue) -> Map<(usize, usize), usize>;

/// `PriorityQueue::new`: an empty queue.
#[verifier::external_body]
fn queue_new() -> (queue: CellQueue)
    ensures
        queue_entries(queue).dom().is_empty(),
{
    PriorityQueue::new()
}

/// `PriorityQueue::is_empty`: whether the queue holds no item.
#[verifier::external_body]
fn queue_is_empty(q: &CellQueue) -> (r: bool)
    ensures
        r == queue_entries(*q).dom().is_empty(),
{
    q.is_empty()
}

/// `PriorityQueue::push`: inserts the item with the priority; when the item
/// was there already, its priority is replaced and the old one returned.
/// The search only ever raises a priority, and the `requires` admits no
/// other replacement.
#[verifier::external_body]
fn queue_push(q: &mut CellQueue, item: (usize, usize), priority: usize) -> (r: Option<usize>)
    requires
        queue_entries(*old(q)).dom().contains(item) ==> queue_entries(*old(q))[item] <= priority,
    ensures
        queue_entries(*final(q)) == queue_entries(*old(q)).insert(item, priority),
        r == (if queue_entries(*old(q)).dom().contains(item) {
            Some(queue_entries(*old(q))[item])
        } else {
            None
        }),
{
    q.push(item, priority)
}

/// `PriorityQueue::change_priority`: gives an item already in the queue a
/// new priority and returns the old one; returns `None` and changes nothing
/// when the item is not there. As with `push`, only a priority that is not
/// lower is admitted.
#[verifier::external_body]
fn queue_change_priority(q: &mut CellQueue, item: &(usize, usize), priority: usize) -> (r: Option<usize>)
    requires
        queue_entries(*old(q)).dom().contains(*item) ==> queue_entries(*old(q))[*item] <= priority,
    ensures
        queue_entries(*old(q)).dom().contains(*item) ==> queue_entries(*final(q)) == queue_entries(*old(q)).insert(*item, priority)
            && r == Some(queue_entries(*old(q))[*item]),
        !queue_entries(*old(q)).dom().contains(*item) ==> queue_entries(*final(q)) == queue_entries(*old(q)) && r is None,
{
    q.change_priority(item, priority)
}

/// `PriorityQueue::pop`: removes and returns an item of greatest priority
/// with its priority, or `None` when the queue is empty; the queue is a
/// max-heap that `push` and `change_priority` restore after each change.
/// Which of several items of equal priority comes out is left unsaid.
#[verifier::external_body]
fn queue_pop(q: &mut CellQueue) -> (r: Option<((usize, usize), usize)>)
    ensures
        r is None <==> queue_entries(*old(q)).dom().is_empty(),
        r is None ==> queue_entries(*final(q)) == queue_entries(*old(q)),
        r matches Some((item, priority)) ==> {
            &&& queue_entries(*old(q)).dom().contains(item)
            &&& queue_entries(*old(q))[item] == priority
            &&& forall|j: (usize, usize)| #[trigger] queue_entries(*old(q)).dom().contains(j) ==> queue_entries(*old(q))[j] <= priority
            &&& queue_entries(*final(q)) == queue_entries(*old(q)).remove(item)
        },
{
    q.pop()
}

/// A sequence of distinct cell indices of a grid of `len` cells is at most
/// `len` long.
proof fn lemma_distinct_cells(s: Seq<int>, len: int)
    requires
        s.no_duplicates(),
        0 <= len,
        forall|j: int| 0 <= j < s.len() ==> 0 <= #[trigger] s[j] < len,
    ensures
        s.len() <= len,
{
    s.unique_seq_to_set();
    vstd::set_lib::lemma_int_range(0, len);
    assert(s.to_set().subset_of(vstd::set_lib::set_int_range(0, len)));
    vstd::set_lib::lemma_len_subset(s.to_set(), vstd::set_lib::set_int_range(0, len));
}

/// The weight of the tentative distances: `cap` for a cell without one.
pub open spec fn g_weight(g: Seq<Option<usize>>, cap: nat) -> nat
    decreases g.len(),
{
    if g.len() == 0 {
        0
    } else {
        g_weight(g.drop_last(), cap) + match g.last() {
            Some(v) => v as nat,
            None => cap,
        }
    }
}

proof fn lemma_g_weight_update(g: Seq<Option<usize>>, cap: nat, i: int, v: usize)
    requires
        0 <= i < g.len(),
    ensures
        g_weight(g.update(i, Some(v)), cap) + match g[i] {
            Some(o) => o as nat,
            None => cap,
        } == g_weight(g, cap) + v,
    decreases g.len(),
{
    let u = g.update(i, Some(v));
    if i == g.len() - 1 {
        assert(u.drop_last() =~= g.drop_last());
    } else {
        assert(u.drop_last() =~= g.drop_last().update(i, Some(v)));
        lemma_g_weight_update(g.drop_last(), cap, i, v);
    }
}

/// Every point with a tentative distance lies in the enclosure `s`.
#[verifier::opaque]
pub open spec fn st_inside(m: TileMatrix, s: Set<Point2D>, g: Seq<Option<usize>>) -> bool {
    forall|p: Point2D| canonical(m, p) && #[trigger] g[index_of(m.width, p)] is Some ==> s.contains(p)
}

/// Every point other than `start` with a tentative distance came from a
/// passable step out of a point with a smaller one.
#[verifier::opaque]
pub open spec fn st_pred(m: TileMatrix, start: Point2D, g: Seq<Option<usize>>, came_from: Seq<Option<Action>>) -> bool {
    forall|p: Point2D|
        canonical(m, p) && #[trigger] g[index_of(m.width, p)] is Some && p != start ==> {
            &&& came_from[index_of(m.width, p)] matches Some(a)
            &&& is_dir(a)
            &&& can_step(p, spec_inverse(a))
            &&& canonical(m, step(p, spec_inverse(a)))
            &&& passable(m.tile(p))
            &&& g[index_of(m.width, step(p, spec_inverse(a)))] matches Some(gq)
            &&& gq < g[index_of(m.width, p)]->0
        }
}

/// Every tentative distance is witnessed by a walk of distinct cells, each
/// of which has a tentative distance no greater than its position.
#[verifier::opaque]
pub open spec fn st_walks(m: TileMatrix, g: Seq<Option<usize>>, walks: Map<int, Seq<int>>) -> bool {
    forall|p: Point2D|
        canonical(m, p) && #[trigger] g[index_of(m.width, p)] is Some ==> {
            let wk = walks[index_of(m.width, p)];
            &&& walks.dom().contains(index_of(m.width, p))
            &&& wk.no_duplicates()
            &&& wk.len() == g[index_of(m.width, p)]->0 + 1
            &&& forall|j: int|
                0 <= j < wk.len() ==> 0 <= #[trigger] wk[j] < m.data@.len() && g[wk[j]] is Some && g[wk[j]]->0 <= j
        }
}

/// The point a queue item stands for.
pub open spec fn item_point(k: (usize, usize)) -> Point2D {
    Point2D { x: k.0, y: k.1 }
}

/// The open queue holds points with tentative distances, each with the
/// priority `usize::MAX - f` for its estimate `f = g + h`.
#[verifier::opaque]
pub open spec fn st_queue(m: TileMatrix, goal: Point2D, g: Seq<Option<usize>>, queue: Map<(usize, usize), usize>) -> bool {
    forall|k: (usize, usize)|
        #[trigger] queue.dom().contains(k) ==> {
            &&& canonical(m, item_point(k))
            &&& g[index_of(m.width, item_point(k))] is Some
            &&& queue[k] == usize::MAX - (g[index_of(m.width, item_point(k))]->0 + manhattan(item_point(k), goal))
        }
}

/// Every point with a tentative distance that has left the queue, other
/// than `skip`, has given each of its passable neighbours a tentative
/// distance at most one greater than its own.
#[verifier::opaque]
pub open spec fn st_expanded(m: TileMatrix, g: Seq<Option<usize>>, queue: Map<(usize, usize), usize>, skip: Option<Point2D>) -> bool {
    forall|p: Point2D, d: Action|
        #![trigger g[index_of(m.width, p)], step(p, d)]
        canonical(m, p) && skip != Some(p) && g[index_of(m.width, p)] is Some && !queue.dom().contains((p.x, p.y))
            && is_dir(d) && can_step(p, d) && canonical(m, step(p, d)) && passable(m.tile(step(p, d)))
            ==> g[index_of(m.width, step(p, d))] is Some && g[index_of(m.width, step(p, d))]->0 <= g[index_of(
            m.width,
            p,
        )]->0 + 1
}

/// The A* invariant on the tentative distances `g`, the back pointers
/// `came_from`, the open queue and the walks that witness each distance.
pub open spec fn search_state(
    m: TileMatrix,
    s: Set<Point2D>,
    start: Point2D,
    goal: Point2D,
    g: Seq<Option<usize>>,
    came_from: Seq<Option<Action>>,
    queue: Map<(usize, usize), usize>,
    walks: Map<int, Seq<int>>,
) -> bool {
    &&& g.len() == m.data@.len()
    &&& came_from.len() == m.data@.len()
    &&& queue.dom().finite()
    &&& g[index_of(m.width, start)] == Some(0usize)
    &&& came_from[index_of(m.width, start)] is None
    &&& st_inside(m, s, g)
    &&& st_pred(m, start, g, came_from)
    &&& st_walks(m, g, walks)
    &&& st_queue(m, goal, g, queue)
    &&& (g[index_of(m.width, goal)] is Some ==> queue.dom().contains((goal.x, goal.y)))
}

proof fn lemma_pred_at(m: TileMatrix, start: Point2D, g: Seq<Option<usize>>, came_from: Seq<Option<Action>>, p: Point2D)
    requires
        st_pred(m, start, g, came_from),
        canonical(m, p),
        g[index_of(m.width, p)] is Some,
        p != start,
    ensures
        ({
            &&& came_from[index_of(m.width, p)] matches Some(a)
            &&& is_dir(a)
            &&& can_step(p, spec_inverse(a))
            &&& canonical(m, step(p, spec_inverse(a)))
            &&& passable(m.tile(p))
            &&& g[index_of(m.width, step(p, spec_inverse(a)))] matches Some(gq)
            &&& gq < g[index_of(m.width, p)]->0
        }),
{
    reveal(st_pred);
}

proof fn lemma_inside_at(m: TileMatrix, s: Set<Point2D>, g: Seq<Option<usize>>, p: Point2D)
    requires
        st_inside(m, s, g),
        canonical(m, p),
        g[index_of(m.width, p)] is Some,
    ensures
        s.contains(p),
{
    reveal(st_inside);
}

/// Follows `came_from` back from `goal` and returns the actions in the
/// order they are taken.
fn reconstruct_path(
    map: &TileMatrix,
    came_from: &Vec<Option<Action>>,
    goal: Point2D,
    Ghost(start): Ghost<Point2D>,
    Ghost(g): Ghost<Seq<Option<usize>>>,
    Ghost(s): Ghost<Set<Point2D>>,
) -> (path: Vec<Action>)
    requires
        came_from@.len() == map.data@.len(),
        g.len() == map.data@.len(),
        map.data@.len() <= usize::MAX,
        is_pass_enclosure(*map, s),
        canonical(*map, goal),
        g[index_of(map.width, goal)] is Some,
        came_from@[index_of(map.width, start)] is None,
        st_inside(*map, s, g),
        st_pred(*map, start, g, came_from@),
    ensures
        is_walk(*map, start, goal, path@),
        path@.len() <= g[index_of(map.width, goal)]->0,
{
    let mut total_path: Vec<Action> = Vec::new();
    let mut current = goal;
    while came_from[map.cell_index(current)].is_some()
        invariant
            came_from@.len() == map.data@.len(),
            g.len() == map.data@.len(),
            map.data@.len() <= usize::MAX,
            is_pass_enclosure(*map, s),
            canonical(*map, current),
            g[index_of(map.width, current)] is Some,
            came_from@[index_of(map.width, start)] is None,
            st_inside(*map, s, g),
            st_pred(*map, start, g, came_from@),
            is_walk(*map, current, goal, total_path@.reverse()),
            total_path@.len() + g[index_of(map.width, current)]->0 <= g[index_of(map.width, goal)]->0,
        decreases g[index_of(map.width, current)]->0,
    {
        let action = came_from[map.cell_index(current)].unwrap();
        let ghost cur = current;
        let ghost old_total = total_path@;
        proof {
            lemma_inside_at(*map, s, g, cur);
            if cur == start {
                assert(came_from@[index_of(map.width, cur)] is None);
            }
            lemma_pred_at(*map, start, g, came_from@, cur);
            lemma_pass_interior(*map, s, cur);
            lemma_interior_step(*map, cur, spec_inverse(action));
            lemma_step_inverse(step(cur, spec_inverse(action)), action);
            assert(spec_inverse(spec_inverse(action)) == action);
        }
        current = current.from(action.inverse());
        total_path.push(action);
        proof {
            assert(step(current, action) == cur);
            assert(total_path@.drop_last() == old_total);
            assert(total_path@.reverse().drop_first() =~= old_total.reverse());
            assert(total_path@.reverse()[0] == action);
            assert(map.in_bounds(cur));
        }
    }
    proof {
        if current != start {
            lemma_pred_at(*map, start, g, came_from@, current);
        }
    }
    let mut path: Vec<Action> = Vec::new();
    let mut i: usize = total_path.len();
    while i > 0
        invariant
            i <= total_path@.len(),
            total_path@.len() <= g[index_of(map.width, goal)]->0,
            path@ == total_path@.subrange(i as int, total_path@.len() as int).reverse(),
        decreases i,
    {
        i = i - 1;
        path.push(total_path[i]);
        assert(total_path@.subrange(i as int, total_path@.len() as int).reverse() =~= total_path@.subrange(
            i + 1,
            total_path@.len() as int,
        ).reverse().push(total_path@[i as int]));
    }
    assert(total_path@.subrange(0, total_path@.len() as int) =~= total_path@);
    path
}

/// A walk ends in the least set closed under passable steps.
proof fn lemma_walk_reaches(m: TileMatrix, from: Point2D, to: Point2D, actions: Seq<Action>, t: Set<Point2D>)
    requires
        is_walk(m, from, to, actions),
        t.contains(from),
        forall|p: Point2D, d: Action|
            #![trigger t.contains(step(p, d))]
            t.contains(p) && is_dir(d) && can_step(p, d) && m.in_bounds(step(p, d)) && passable(
                m.tile(step(p, d)),
            ) ==> t.contains(step(p, d)),
    ensures
        t.contains(to),
    decreases actions.len(),
{
    if actions.len() > 0 {
        lemma_walk_reaches(m, step(from, actions[0]), to, actions.drop_first(), t);
    }
}

/// A point with a tentative distance is at fewer steps than there are cells.
proof fn lemma_g_bound(m: TileMatrix, g: Seq<Option<usize>>, walks: Map<int, Seq<int>>, p: Point2D)
    requires
        st_walks(m, g, walks),
        canonical(m, p),
        g[index_of(m.width, p)] is Some,
    ensures
        g[index_of(m.width, p)]->0 < m.data@.len(),
{
    reveal(st_walks);
    let wk = walks[index_of(m.width, p)];
    assert forall|j: int| 0 <= j < wk.len() implies 0 <= #[trigger] wk[j] < m.data@.len() by {}
    lemma_distinct_cells(wk, m.data@.len() as int);
}

/// Two points within the rows share an index only when equal.
proof fn lemma_same_index(m: TileMatrix)
    ensures
        forall|p: Point2D, q: Point2D|
            canonical(m, p) && canonical(m, q) && #[trigger] index_of(m.width, p) == #[trigger] index_of(m.width, q)
                ==> p == q,
{
    assert forall|p: Point2D, q: Point2D|
        canonical(m, p) && canonical(m, q) && #[trigger] index_of(m.width, p) == #[trigger] index_of(m.width, q)
        implies p == q by {
        lemma_index_injective(m.width, p, q);
    }
}

proof fn lemma_relax_inside(m: TileMatrix, s: Set<Point2D>, g: Seq<Option<usize>>, n: Point2D, t: usize)
    requires
        st_inside(m, s, g),
        g.len() == m.data@.len(),
        s.contains(n),
        canonical(m, n),
    ensures
        st_inside(m, s, g.update(index_of(m.width, n), Some(t))),
{
    reveal(st_inside);
    lemma_same_index(m);
}

proof fn lemma_relax_pred(
    m: TileMatrix,
    start: Point2D,
    g: Seq<Option<usize>>,
    came_from: Seq<Option<Action>>,
    current: Point2D,
    action: Action,
    g_cur: usize,
)
    requires
        st_pred(m, start, g, came_from),
        g.len() == came_from.len(),
        g.len() == m.data@.len(),
        canonical(m, current),
        is_dir(action),
        can_step(current, action),
        canonical(m, step(current, action)),
        passable(m.tile(step(current, action))),
        step(current, action) != start,
        index_of(m.width, step(current, action)) != index_of(m.width, current),
        g[index_of(m.width, current)] == Some(g_cur),
        g_cur + 1 <= usize::MAX,
        match g[index_of(m.width, step(current, action))] {
            Some(gn) => g_cur + 1 < gn,
            None => true,
        },
    ensures
        st_pred(
            m,
            start,
            g.update(index_of(m.width, step(current, action)), Some((g_cur + 1) as usize)),
            came_from.update(index_of(m.width, step(current, action)), Some(action)),
        ),
{
    reveal(st_pred);
    lemma_same_index(m);
    lemma_step_inverse(current, action);
    let n = step(current, action);
    let ni = index_of(m.width, n);
    let g2 = g.update(ni, Some((g_cur + 1) as usize));
    let c2 = came_from.update(ni, Some(action));
    assert forall|p: Point2D|
        canonical(m, p) && #[trigger] g2[index_of(m.width, p)] is Some && p != start implies {
            &&& c2[index_of(m.width, p)] matches Some(a)
            &&& is_dir(a)
            &&& can_step(p, spec_inverse(a))
            &&& canonical(m, step(p, spec_inverse(a)))
            &&& passable(m.tile(p))
            &&& g2[index_of(m.width, step(p, spec_inverse(a)))] matches Some(gq)
            &&& gq < g2[index_of(m.width, p)]->0
        } by {
        let ci = index_of(m.width, current);
        if index_of(m.width, p) == ni {
            assert(p == n);
            assert(c2[ni] == Some(action));
            assert(step(n, spec_inverse(action)) == current);
            assert(g2[ci] == g[ci]);
            assert(g2[ni] == Some((g_cur + 1) as usize));
        } else {
            assert(g[index_of(m.width, p)] is Some);
            let a = came_from[index_of(m.width, p)]->0;
            let q = step(p, spec_inverse(a));
            assert(c2[index_of(m.width, p)] == came_from[index_of(m.width, p)]);
            assert(g[index_of(m.width, q)] is Some);
            let qi = index_of(m.width, q);
            assert(0 <= qi < g.len());
            if qi == ni {
                assert(g2[qi]->0 < g[qi]->0);
            } else {
                assert(g2[qi] == g[qi]);
            }
        }
    }
}

proof fn lemma_relax_walks(
    m: TileMatrix,
    g: Seq<Option<usize>>,
    walks: Map<int, Seq<int>>,
    current: Point2D,
    n: Point2D,
    g_cur: usize,
)
    requires
        st_walks(m, g, walks),
        canonical(m, current),
        canonical(m, n),
        index_of(m.width, n) != index_of(m.width, current),
        g.len() == m.data@.len(),
        g[index_of(m.width, current)] == Some(g_cur),
        g_cur + 1 <= usize::MAX,
        match g[index_of(m.width, n)] {
            Some(gn) => g_cur + 1 < gn,
            None => true,
        },
    ensures
        st_walks(
            m,
            g.update(index_of(m.width, n), Some((g_cur + 1) as usize)),
            walks.insert(index_of(m.width, n), walks[index_of(m.width, current)].push(index_of(m.width, n))),
        ),
{
    reveal(st_walks);
    lemma_same_index(m);
    let ni = index_of(m.width, n);
    let ci = index_of(m.width, current);
    let g2 = g.update(ni, Some((g_cur + 1) as usize));
    let wc = walks[ci];
    let w2 = walks.insert(ni, wc.push(ni));
    assert(g[ci] is Some);
    assert forall|j: int| 0 <= j < wc.len() implies wc[j] != ni by {
        if wc[j] == ni {
            assert(g[wc[j]]->0 <= j);
        }
    }
    assert(wc.push(ni).no_duplicates()) by {
        assert forall|a: int, b: int| 0 <= a < wc.push(ni).len() && 0 <= b < wc.push(ni).len() && a != b
            implies wc.push(ni)[a] != wc.push(ni)[b] by {
            if a < wc.len() && b < wc.len() {
            } else if a < wc.len() {
                assert(wc[a] != ni);
            } else if b < wc.len() {
                assert(wc[b] != ni);
            }
        }
    }
    assert forall|p: Point2D| canonical(m, p) && #[trigger] g2[index_of(m.width, p)] is Some implies {
        let wk = w2[index_of(m.width, p)];
        &&& w2.dom().contains(index_of(m.width, p))
        &&& wk.no_duplicates()
        &&& wk.len() == g2[index_of(m.width, p)]->0 + 1
        &&& forall|j: int|
            0 <= j < wk.len() ==> 0 <= #[trigger] wk[j] < m.data@.len() && g2[wk[j]] is Some && g2[wk[j]]->0 <= j
    } by {
        if index_of(m.width, p) == ni {
            let wk = wc.push(ni);
            assert(0 <= ni < m.data@.len());
            assert forall|j: int| 0 <= j < wk.len() implies 0 <= #[trigger] wk[j] < m.data@.len() && g2[wk[j]] is Some
                && g2[wk[j]]->0 <= j by {
                if j < wc.len() {
                    assert(wk[j] == wc[j]);
                    assert(wc[j] != ni);
                }
            }
        } else {
            assert(g[index_of(m.width, p)] is Some);
            let wk = walks[index_of(m.width, p)];
            assert forall|j: int| 0 <= j < wk.len() implies 0 <= #[trigger] wk[j] < m.data@.len() && g2[wk[j]] is Some
                && g2[wk[j]]->0 <= j by {
                assert(g[wk[j]] is Some);
            }
        }
    }
}

proof fn lemma_relax_queue(
    m: TileMatrix,
    goal: Point2D,
    g: Seq<Option<usize>>,
    queue: Map<(usize, usize), usize>,
    n: Point2D,
    t: usize,
    pri: usize,
)
    requires
        st_queue(m, goal, g, queue),
        g.len() == m.data@.len(),
        canonical(m, n),
        pri == usize::MAX - (t + manhattan(n, goal)),
        match g[index_of(m.width, n)] {
            Some(gn) => t < gn,
            None => true,
        },
        t + manhattan(n, goal) <= usize::MAX,
    ensures
        st_queue(m, goal, g.update(index_of(m.width, n), Some(t)), queue.insert((n.x, n.y), pri)),
        queue.dom().contains((n.x, n.y)) ==> queue[(n.x, n.y)] <= pri,
{
    reveal(st_queue);
    lemma_same_index(m);
    let ni = index_of(m.width, n);
    let g2 = g.update(ni, Some(t));
    let q2 = queue.insert((n.x, n.y), pri);
    assert forall|k: (usize, usize)| #[trigger] q2.dom().contains(k) implies {
        &&& canonical(m, item_point(k))
        &&& g2[index_of(m.width, item_point(k))] is Some
        &&& q2[k] == usize::MAX - (g2[index_of(m.width, item_point(k))]->0 + manhattan(item_point(k), goal))
    } by {
        if k == (n.x, n.y) {
            assert(item_point(k) == n);
        } else {
            assert(queue.dom().contains(k));
            if index_of(m.width, item_point(k)) == ni {
                assert(item_point(k) == n);
            }
        }
    }
    if queue.dom().contains((n.x, n.y)) {
        assert(item_point((n.x, n.y)) == n);
    }
}

proof fn lemma_relax_expanded(
    m: TileMatrix,
    g: Seq<Option<usize>>,
    queue: Map<(usize, usize), usize>,
    current: Point2D,
    n: Point2D,
    t: usize,
    pri: usize,
)
    requires
        st_expanded(m, g, queue, Some(current)),
        g.len() == m.data@.len(),
        canonical(m, n),
        n != current,
        match g[index_of(m.width, n)] {
            Some(gn) => t < gn,
            None => true,
        },
    ensures
        st_expanded(m, g.update(index_of(m.width, n), Some(t)), queue.insert((n.x, n.y), pri), Some(current)),
{
    reveal(st_expanded);
    lemma_same_index(m);
    let ni = index_of(m.width, n);
    let g2 = g.update(ni, Some(t));
    let q2 = queue.insert((n.x, n.y), pri);
    assert forall|p: Point2D, d: Action|
        #![trigger g2[index_of(m.width, p)], step(p, d)]
        canonical(m, p) && Some(current) != Some(p) && g2[index_of(m.width, p)] is Some && !q2.dom().contains((p.x, p.y))
            && is_dir(d) && can_step(p, d) && canonical(m, step(p, d)) && passable(m.tile(step(p, d)))
            implies g2[index_of(m.width, step(p, d))] is Some && g2[index_of(m.width, step(p, d))]->0 <= g2[index_of(
            m.width,
            p,
        )]->0 + 1 by {
        if index_of(m.width, p) == ni {
            assert(p == n);
        }
        assert(g[index_of(m.width, p)] is Some);
        assert(g[index_of(m.width, step(p, d))] is Some);
        assert(g[index_of(m.width, step(p, d))]->0 <= g[index_of(m.width, p)]->0 + 1);
    }
}

/// Walks only see the width and the cells of a grid.
pub proof fn lemma_walk_same(m1: TileMatrix, m2: TileMatrix, from: Point2D, to: Point2D, actions: Seq<Action>)
    requires
        m1.width == m2.width,
        m1.data@ == m2.data@,
    ensures
        is_walk(m1, from, to, actions) == is_walk(m2, from, to, actions),
    decreases actions.len(),
{
    if actions.len() > 0 {
        lemma_walk_same(m1, m2, step(from, actions[0]), to, actions.drop_first());
    }
}

/// The reach of a walk only sees the width and the cells of a grid.
pub proof fn lemma_path_reach_same(m1: TileMatrix, m2: TileMatrix, from: Point2D)
    requires
        m1.width == m2.width,
        m1.data@ == m2.data@,
    ensures
        path_reach(m1, from) == path_reach(m2, from),
{
    assert forall|t: Set<Point2D>| step_closed(m1, from, t) == step_closed(m2, from, t) by {}
    assert(path_reach(m1, from) =~= path_reach(m2, from));
}

/// No walk is shorter than the Manhattan distance it covers.
pub proof fn lemma_walk_manhattan(m: TileMatrix, from: Point2D, to: Point2D, actions: Seq<Action>)
    requires
        is_walk(m, from, to, actions),
    ensures
        manhattan(from, to) <= actions.len(),
    decreases actions.len(),
{
    if actions.len() > 0 {
        lemma_walk_manhattan(m, step(from, actions[0]), to, actions.drop_first());
    }
}

/// While the goal is still in the queue, every walk from a point with a
/// tentative distance passes an open point whose estimate is at most the
/// walk's length added to that distance.
proof fn lemma_open_on_walk(
    m: TileMatrix,
    s: Set<Point2D>,
    goal: Point2D,
    g: Seq<Option<usize>>,
    queue: Map<(usize, usize), usize>,
    p: Point2D,
    actions: Seq<Action>,
    base: int,
) -> (k: (usize, usize))
    requires
        is_pass_enclosure(m, s),
        m.data@.len() <= usize::MAX,
        g.len() == m.data@.len(),
        st_inside(m, s, g),
        st_expanded(m, g, queue, None),
        g[index_of(m.width, goal)] is Some ==> queue.dom().contains((goal.x, goal.y)),
        canonical(m, p),
        g[index_of(m.width, p)] is Some,
        g[index_of(m.width, p)]->0 <= base,
        is_walk(m, p, goal, actions),
    ensures
        queue.dom().contains(k),
        canonical(m, item_point(k)),
        g[index_of(m.width, item_point(k))] is Some,
        g[index_of(m.width, item_point(k))]->0 + manhattan(item_point(k), goal) <= base + actions.len(),
    decreases actions.len(),
{
    if queue.dom().contains((p.x, p.y)) {
        lemma_walk_manhattan(m, p, goal, actions);
        assert(item_point((p.x, p.y)) == p);
        (p.x, p.y)
    } else {
        let d = actions[0];
        let n = step(p, d);
        lemma_inside_at(m, s, g, p);
        lemma_pass_interior(m, s, p);
        lemma_interior_step(m, p, d);
        reveal(st_expanded);
        assert(g[index_of(m.width, n)] is Some);
        lemma_open_on_walk(m, s, goal, g, queue, n, actions.drop_first(), base + 1)
    }
}

// the heuristic function used is simple manhattan distance
fn a_star(puzzle_map: &TileMatrix, start: Point2D, goal: Point2D) -> (path: Vec<Action>)
    requires
        2 * puzzle_map.data@.len() <= usize::MAX,
        pass_encloses(*puzzle_map, start),
        canonical(*puzzle_map, goal),
    ensures
        path_reach(*puzzle_map, start).contains(goal) ==> is_walk(*puzzle_map, start, goal, path@),
        !path_reach(*puzzle_map, start).contains(goal) ==> path@.len() == 0,
        forall|walk: Seq<Action>| #[trigger] is_walk(*puzzle_map, start, goal, walk) ==> path@.len() <= walk.len(),
{
    let len = puzzle_map.data.len();
    let ghost m = *puzzle_map;
    let ghost s = choose|s: Set<Point2D>| is_pass_enclosure(*puzzle_map, s) && s.contains(start);
    assert(canonical(m, start)) by {
        lemma_pass_interior(m, s, start);
        lemma_interior_step(m, start, Action::Up);
    }
    let start_idx = puzzle_map.cell_index(start);
    let mut came_from: Vec<Option<Action>> = Vec::new();
    let mut g_score: Vec<Option<usize>> = Vec::new();
    let mut k: usize = 0;
    while k < len
        invariant
            k <= len,
            came_from@ == Seq::new(k as nat, |i: int| None::<Action>),
            g_score@ == Seq::new(k as nat, |i: int| None::<usize>),
        decreases len - k,
    {
        came_from.push(None);
        g_score.push(None);
        k = k + 1;
    }
    g_score.set(start_idx, Some(0));
    proof {
        lemma_manhattan_bound(m, start, goal);
    }
    let mut open_queue = queue_new();
    let h0 = manhattan_distance(start, goal);
    queue_push(&mut open_queue, (start.x, start.y), usize::MAX - h0);
    let ghost mut walks: Map<int, Seq<int>> = Map::empty().insert(start_idx as int, seq![start_idx as int]);
    proof {
        lemma_same_index(m);
        assert forall|p: Point2D| canonical(m, p) && #[trigger] g_score@[index_of(m.width, p)] is Some implies p == start by {
            if p != start && index_of(m.width, p) == index_of(m.width, start) {
                lemma_index_injective(m.width, p, start);
            }
        }
        assert(seq![start_idx as int].no_duplicates());
        assert(queue_entries(open_queue).dom() =~= set![(start.x, start.y)]);
        assert(queue_entries(open_queue).dom().contains((start.x, start.y)));
        if g_score@[index_of(m.width, goal)] is Some {
            assert(goal == start);
        }
        reveal(st_inside);
        reveal(st_pred);
        reveal(st_walks);
        reveal(st_queue);
        reveal(st_expanded);
        assert(st_queue(m, goal, g_score@, queue_entries(open_queue))) by {
            assert forall|k: (usize, usize)| #[trigger] queue_entries(open_queue).dom().contains(k) implies k == (start.x, start.y) by {}
        }
        assert(st_walks(m, g_score@, walks));
        assert(st_expanded(m, g_score@, queue_entries(open_queue), None));
    }
    while !queue_is_empty(&open_queue)
        invariant
            puzzle_map.data@.len() == len,
            *puzzle_map == m,
            2 * len <= usize::MAX,
            is_pass_enclosure(m, s),
            s.contains(start),
            canonical(m, goal),
            canonical(m, start),
            start_idx == index_of(m.width, start),
            search_state(m, s, start, goal, g_score@, came_from@, queue_entries(open_queue), walks),
            st_expanded(m, g_score@, queue_entries(open_queue), None),
        decreases g_weight(g_score@, (len + 1) as nat) * 2 + queue_entries(open_queue).dom().len(),
    {
        let ghost q0 = queue_entries(open_queue);
        let popped = queue_pop(&mut open_queue);
        let (key, _priority) = popped.unwrap();
        let current = Point2D::new(key.0, key.1);
        proof {
            reveal(st_queue);
            reveal(st_inside);
            assert(item_point(key) == current);
            assert(q0.dom().contains(key));
            assert(canonical(m, current));
            assert(s.contains(current));
        }
        if current == goal {
            let path = reconstruct_path(puzzle_map, &came_from, goal, Ghost(start), Ghost(g_score@), Ghost(s));
            proof {
                assert forall|t: Set<Point2D>| step_closed(m, start, t) implies #[trigger] t.contains(goal) by {
                    lemma_walk_reaches(m, start, goal, path@, t);
                }
                assert forall|walk: Seq<Action>| #[trigger] is_walk(m, start, goal, walk) implies path@.len()
                    <= walk.len() by {
                    let k = lemma_open_on_walk(m, s, goal, g_score@, q0, start, walk, 0);
                    reveal(st_queue);
                    assert(q0[k] <= q0[key]);
                    assert(manhattan(goal, goal) == 0);
                }
            }
            return path;
        }
        let cur_idx = puzzle_map.cell_index(current);
        let g_cur = g_score[cur_idx].unwrap();
        proof {
            lemma_g_bound(m, g_score@, walks, current);
            assert(q0.dom().remove(key).len() == q0.dom().len() - 1);
            assert(queue_entries(open_queue).dom() =~= q0.dom().remove(key));
            reveal(st_queue);
            reveal(st_expanded);
            assert(st_queue(m, goal, g_score@, queue_entries(open_queue)));
            assert(st_expanded(m, g_score@, queue_entries(open_queue), Some(current))) by {
                assert forall|p: Point2D, d: Action|
                    #![trigger g_score@[index_of(m.width, p)], step(p, d)]
                    canonical(m, p) && Some(current) != Some(p) && g_score@[index_of(m.width, p)] is Some
                        && !queue_entries(open_queue).dom().contains((p.x, p.y)) && is_dir(d) && can_step(p, d)
                        && canonical(m, step(p, d)) && passable(m.tile(step(p, d)))
                        implies g_score@[index_of(m.width, step(p, d))] is Some && g_score@[index_of(
                        m.width,
                        step(p, d),
                    )]->0 <= g_score@[index_of(m.width, p)]->0 + 1 by {
                    assert(!q0.dom().contains((p.x, p.y)));
                }
            }
            if g_score@[index_of(m.width, goal)] is Some {
                assert(q0.dom().contains((goal.x, goal.y)));
                assert((goal.x, goal.y) != key);
            }
        }
        let ghost weight0 = g_weight(g_score@, (len + 1) as nat);
        let ghost qlen0 = queue_entries(open_queue).dom().len();
        let neighbors = [Action::Up, Action::Down, Action::Left, Action::Right];
        let mut i: usize = 0;
        while i < 4
            invariant
                0 <= i <= 4,
                neighbors@ == seq![Action::Up, Action::Down, Action::Left, Action::Right],
                puzzle_map.data@.len() == len,
                *puzzle_map == m,
                2 * len <= usize::MAX,
                is_pass_enclosure(m, s),
                s.contains(start),
                s.contains(current),
                canonical(m, goal),
                canonical(m, start),
                canonical(m, current),
                current != goal,
                start_idx == index_of(m.width, start),
                cur_idx == index_of(m.width, current),
                g_score@[cur_idx as int] == Some(g_cur),
                g_cur < len,
                !queue_entries(open_queue).dom().contains((current.x, current.y)),
                search_state(m, s, start, goal, g_score@, came_from@, queue_entries(open_queue), walks),
                st_expanded(m, g_score@, queue_entries(open_queue), Some(current)),
                forall|j: int|
                    0 <= j < i && canonical(m, step(current, #[trigger] neighbors@[j])) && passable(
                        m.tile(step(current, neighbors@[j])),
                    ) ==> g_score@[index_of(m.width, step(current, neighbors@[j]))] is Some && g_score@[index_of(
                        m.width,
                        step(current, neighbors@[j]),
                    )]->0 <= g_cur + 1,
                g_weight(g_score@, (len + 1) as nat) * 2 + queue_entries(open_queue).dom().len() <= weight0 * 2
                    + qlen0,
            decreases 4 - i,
        {
            let action = neighbors[i];
            proof {
                lemma_interior_step(m, current, action);
                lemma_step_index(m.width, current, action);
            }
            let neighbor_point = current.from(action);
            let ghost g_pre = g_score@;
            let ghost came_pre = came_from@;
            let ghost q_pre = queue_entries(open_queue);
            let ghost w_pre = walks;
            match puzzle_map.get(neighbor_point) {
                Tile::Wall | Tile::Crate | Tile::CrateGoal => {},
                _ => {
                    let tentative_g_score = g_cur + 1;
                    let n_idx = puzzle_map.cell_index(neighbor_point);
                    let better = match g_score[n_idx] {
                        Some(g) => tentative_g_score < g,
                        None => true,
                    };
                    if better {
                        proof {
                            reveal(st_inside);
                            assert(s.contains(neighbor_point));
                            assert(neighbor_point != current);
                            assert(neighbor_point != start) by {
                                if neighbor_point == start {
                                    assert(g_pre[index_of(m.width, start)] == Some(0usize));
                                }
                            }
                            lemma_manhattan_bound(m, neighbor_point, goal);
                            lemma_g_weight_update(g_score@, (len + 1) as nat, n_idx as int, tentative_g_score);
                        }
                        came_from.set(n_idx, Some(action));
                        g_score.set(n_idx, Some(tentative_g_score));
                        let h = manhattan_distance(neighbor_point, goal);
                        let f_score = tentative_g_score + h;
                        let key_n = (neighbor_point.x, neighbor_point.y);
                        proof {
                            lemma_relax_queue(m, goal, g_pre, q_pre, neighbor_point, tentative_g_score, (usize::MAX - f_score) as usize);
                        }
                        if queue_change_priority(&mut open_queue, &key_n, usize::MAX - f_score).is_none() {
                            queue_push(&mut open_queue, key_n, usize::MAX - f_score);
                        }
                        proof {
                            let pri = (usize::MAX - f_score) as usize;
                            assert(queue_entries(open_queue) == q_pre.insert(key_n, pri));
                            lemma_relax_inside(m, s, g_pre, neighbor_point, tentative_g_score);
                            lemma_relax_pred(m, start, g_pre, came_pre, current, action, g_cur);
                            lemma_relax_walks(m, g_pre, w_pre, current, neighbor_point, g_cur);
                            lemma_relax_expanded(m, g_pre, q_pre, current, neighbor_point, tentative_g_score, pri);
                            walks = w_pre.insert(n_idx as int, w_pre[cur_idx as int].push(n_idx as int));
                            lemma_same_index(m);
                            if start_idx == n_idx {
                                lemma_index_injective(m.width, start, neighbor_point);
                            }
                            if g_score@[index_of(m.width, goal)] is Some && goal != neighbor_point {
                                assert(g_pre[index_of(m.width, goal)] is Some);
                            }
                            assert((current.x, current.y) != key_n);
                        }
                    }
                },
            }
            i = i + 1;
        }
        proof {
            reveal(st_expanded);
            assert forall|p: Point2D, d: Action|
                #![trigger g_score@[index_of(m.width, p)], step(p, d)]
                canonical(m, p) && None::<Point2D> != Some(p) && g_score@[index_of(m.width, p)] is Some
                    && !queue_entries(open_queue).dom().contains((p.x, p.y)) && is_dir(d) && can_step(p, d)
                    && canonical(m, step(p, d)) && passable(m.tile(step(p, d)))
                    implies g_score@[index_of(m.width, step(p, d))] is Some && g_score@[index_of(m.width, step(p, d))]->0
                    <= g_score@[index_of(m.width, p)]->0 + 1 by {
                if p == current {
                    if d is Up {
                        assert(neighbors@[0] == d);
                    } else if d is Down {
                        assert(neighbors@[1] == d);
                    } else if d is Left {
                        assert(neighbors@[2] == d);
                    } else {
                        assert(neighbors@[3] == d);
                    }
                }
            }
        }
    }
    proof {
        reveal(st_expanded);
        reveal(st_inside);
        let t = Set::new(|p: Point2D| canonical(m, p) && g_score@[index_of(m.width, p)] is Some);
        assert(step_closed(m, start, t)) by {
            assert forall|p: Point2D, d: Action| #![trigger t.contains(step(p, d))]
                t.contains(p) && is_dir(d) && can_step(p, d) && m.in_bounds(step(p, d)) && passable(m.tile(step(p, d)))
                implies t.contains(step(p, d)) by {
                assert(s.contains(p));
                lemma_interior_step(m, p, d);
            }
        }
        if path_reach(m, start).contains(goal) {
            assert(t.contains(goal));
        }
    }
    Vec::new()
}

/// The walk from `start_point` to `goal_point` that A* finds, followed by
/// `push_action`; just `push_action` when the player cannot get there.
pub fn astar_pathfind(puzzle_map: &TileMatrix, push_action: Action, start_point: Point2D, goal_point: Point2D) -> (path:
    Vec<Action>)
    requires
        2 * puzzle_map.data@.len() <= usize::MAX,
        pass_encloses(*puzzle_map, start_point),
    ensures
        path@.len() >= 1,
        path@.last() == push_action,
        path_reach(*puzzle_map, start_point).contains(goal_point) ==> is_walk(
            *puzzle_map,
            start_point,
            goal_point,
            path@.drop_last(),
        ),
        !path_reach(*puzzle_map, start_point).contains(goal_point) ==> path@ == seq![push_action],
        forall|walk: Seq<Action>|
            #[trigger] is_walk(*puzzle_map, start_point, goal_point, walk) ==> path@.len() <= walk.len() + 1,
{
    let in_grid = goal_point.x < puzzle_map.width && match goal_point.y.checked_mul(puzzle_map.width) {
        Some(r) => match r.checked_add(goal_point.x) {
            Some(i) => i < puzzle_map.data.len(),
            None => false,
        },
        None => false,
    };
    if !in_grid {
        // no walk leads off the grid
        let ghost m = *puzzle_map;
        proof {
            let s = choose|s: Set<Point2D>| is_pass_enclosure(m, s) && s.contains(start_point);
            assert(step_closed(m, start_point, s));
            if s.contains(goal_point) {
                lemma_pass_interior(m, s, goal_point);
            }
            assert(!path_reach(m, start_point).contains(goal_point));
            assert forall|walk: Seq<Action>| #[trigger] is_walk(m, start_point, goal_point, walk) implies false by {
                lemma_walk_reaches(m, start_point, goal_point, walk, s);
                lemma_pass_interior(m, s, goal_point);
            }
        }
        return vec![push_action];
    }
    let mut path = a_star(puzzle_map, start_point, goal_point);
    let ghost walk = path@;
    path.push(push_action);
    assert(path@.drop_last() == walk);
    path
}

} // verus!
