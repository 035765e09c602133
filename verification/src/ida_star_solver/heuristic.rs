use vstd::prelude::*;

use crate::ida_star_solver::{
    Heuristic, IDAStarSolver, Node, cell_point, goal_points_of, hashes_apart, heuristic_value, is_solved, is_successor,
    lemma_cell_point, lemma_chain_run, lemma_walk_dir, moved_by_push, node_ok, plan_within, push_moves, push_ok, run_ok, same_state,
    solution_ok, walk_dir,
};
use crate::types::{
    crate_arrives, crate_replaced_by_player, Action, BitMatrix, Point2D, Tile, TileMatrix, crate_tiles, goal_tiles, index_of, is_goal_tile, lemma_step_index, step,
};
use crate::util::{
    is_enclosure, lemma_enclosed_interior, lemma_index_injective, lemma_interior_step, manhattan, manhattan_distance,
};

verus! {

/// The distance from `p` to the closest of `pts` (`usize::MAX` when there
/// is none).
pub open spec fn nearest_dist(p: Point2D, pts: Seq<Point2D>) -> int
    decreases pts.len(),
{
    if pts.len() == 0 {
        usize::MAX as int
    } else {
        let rest = nearest_dist(p, pts.drop_last());
        let d = manhattan(pts.last(), p);
        if rest > d {
            d
        } else {
            rest
        }
    }
}

/// For each goal, the distance from the closest crate.
pub open spec fn goal_nearest(crates: Seq<Point2D>, goals: Seq<Point2D>) -> Seq<int> {
    Seq::new(goals.len(), |x: int| nearest_dist(goals[x], crates))
}

/// The sum over `goals` of the distance from the closest crate.
pub open spec fn closest_box_sum(crates: Seq<Point2D>, goals: Seq<Point2D>) -> int {
    seq_sum(goal_nearest(crates, goals))
}

/// The number of goals that no crate covers.
pub open spec fn open_goals(cells: Seq<Tile>) -> nat
    decreases cells.len(),
{
    if cells.len() == 0 {
        0
    } else {
        open_goals(cells.drop_last()) + if cells.last() is Goal || cells.last() is PlayerGoal {
            1nat
        } else {
            0nat
        }
    }
}

proof fn lemma_nearest_nonneg(p: Point2D, pts: Seq<Point2D>)
    ensures
        0 <= nearest_dist(p, pts) <= usize::MAX,
    decreases pts.len(),
{
    if pts.len() > 0 {
        lemma_nearest_nonneg(p, pts.drop_last());
    }
}

proof fn lemma_open_goals_bound(cells: Seq<Tile>)
    ensures
        open_goals(cells) <= cells.len(),
    decreases cells.len(),
{
    if cells.len() > 0 {
        lemma_open_goals_bound(cells.drop_last());
    }
}

// sum the manhattan distance from the closest box to each goal.
// This Heuristic is admissible because there is no way to push a box in fewer spaces than the manhattan distance,
// however there are many ways to push the box in more ways. Thus h(x) <= h*(x).
pub fn closest_box(solver: &IDAStarSolver, node: &Node) -> (distance: usize)
    requires
        closest_box_sum(node.crates@, solver.goal_points()) <= usize::MAX,
        forall|i: int, j: int|
            0 <= i < node.crates@.len() && 0 <= j < solver.goal_points().len() ==> manhattan(
                #[trigger] node.crates@[i],
                #[trigger] solver.goal_points()[j],
            ) <= usize::MAX,
    ensures
        distance == closest_box_sum(node.crates@, solver.goal_points()),
{
    let goals = &solver.goals;
    let crates = &node.crates;
    assert(goals@ == solver.goal_points());
    let ghost f = goal_nearest(crates@, goals@);
    proof {
        assert forall|j: int| 0 <= j < f.len() implies 0 <= #[trigger] f[j] by {
            lemma_nearest_nonneg(goals@[j], crates@);
        }
    }
    let mut distance: usize = 0;
    let mut i: usize = 0;
    while i < goals.len()
        invariant
            i <= goals@.len(),
            f == goal_nearest(crates@, goals@),
            forall|j: int| 0 <= j < f.len() ==> 0 <= #[trigger] f[j],
            seq_sum(f) <= usize::MAX,
            forall|a: int, b: int|
                0 <= a < crates@.len() && 0 <= b < goals@.len() ==> manhattan(#[trigger] crates@[a], #[trigger] goals@[b])
                    <= usize::MAX,
            distance == seq_sum(f.subrange(0, i as int)),
        decreases goals@.len() - i,
    {
        let goal_pos = goals[i];
        let mut min: usize = usize::MAX;
        let mut j: usize = 0;
        while j < crates.len()
            invariant
                j <= crates@.len(),
                i < goals@.len(),
                goal_pos == goals@[i as int],
                forall|a: int, b: int|
                    0 <= a < crates@.len() && 0 <= b < goals@.len() ==> manhattan(#[trigger] crates@[a], #[trigger] goals@[b])
                        <= usize::MAX,
                min == nearest_dist(goal_pos, crates@.subrange(0, j as int)),
            decreases crates@.len() - j,
        {
            assert(crates@.subrange(0, j + 1).drop_last() =~= crates@.subrange(0, j as int));
            let dis = manhattan_distance(crates[j], goal_pos);
            if min > dis {
                min = dis;
            }
            j = j + 1;
        }
        assert(crates@.subrange(0, crates@.len() as int) =~= crates@);
        proof {
            lemma_seq_sum_prefix(f, i + 1);
            assert(f.subrange(0, i + 1).drop_last() =~= f.subrange(0, i as int));
        }
        distance = distance + min;
        i = i + 1;
    }
    assert(f.subrange(0, goals@.len() as int) =~= f);
    distance
}

/// The number of goals not covered by a crate.
pub fn goal_count(_solver: &IDAStarSolver, node: &Node) -> (goals: usize)
    ensures
        goals == open_goals(node.map.data@),
{
    let mut goals: usize = 0;
    let mut i: usize = 0;
    while i < node.map.data.len()
        invariant
            i <= node.map.data@.len(),
            goals == open_goals(node.map.data@.subrange(0, i as int)),
        decreases node.map.data@.len() - i,
    {
        proof {
            assert(node.map.data@.subrange(0, i + 1).drop_last() =~= node.map.data@.subrange(0, i as int));
            lemma_open_goals_bound(node.map.data@.subrange(0, i + 1));
        }
        goals = goals + match node.map.data[i] {
            Tile::Goal => 1,
            Tile::PlayerGoal => 1,
            _ => 0,
        };
        i = i + 1;
    }
    assert(node.map.data@.subrange(0, node.map.data@.len() as int) =~= node.map.data@);
    goals
}


/// The Manhattan distance from crate `y` to goal `x`.
pub open spec fn dist(crates: Seq<Point2D>, goals: Seq<Point2D>, y: int, x: int) -> int {
    manhattan(crates[y], goals[x])
}

/// The smallest element of `r` (`usize::MAX` for an empty sequence).
pub open spec fn seq_min(r: Seq<int>) -> int
    decreases r.len(),
{
    if r.len() == 0 {
        usize::MAX as int
    } else {
        let rest = seq_min(r.drop_last());
        if rest > r.last() {
            r.last()
        } else {
            rest
        }
    }
}

/// The distances from crate `y` to each goal.
pub open spec fn dist_row(crates: Seq<Point2D>, goals: Seq<Point2D>, y: int) -> Seq<int> {
    Seq::new(goals.len(), |x: int| dist(crates, goals, y, x))
}

/// The distance from crate `y` to goal `x` less the smallest distance of
/// crate `y`.
pub open spec fn row_reduced(crates: Seq<Point2D>, goals: Seq<Point2D>, y: int, x: int) -> int {
    dist(crates, goals, y, x) - seq_min(dist_row(crates, goals, y))
}

/// Column `x` of the row-reduced distances.
pub open spec fn reduced_column(crates: Seq<Point2D>, goals: Seq<Point2D>, x: int) -> Seq<int> {
    Seq::new(crates.len(), |y: int| row_reduced(crates, goals, y, x))
}

/// The row-reduced distance less the smallest entry of its column.
pub open spec fn reduced(crates: Seq<Point2D>, goals: Seq<Point2D>, y: int, x: int) -> int {
    row_reduced(crates, goals, y, x) - seq_min(reduced_column(crates, goals, x))
}

/// The smallest distance of each crate.
pub open spec fn row_mins(crates: Seq<Point2D>, goals: Seq<Point2D>) -> Seq<int> {
    Seq::new(crates.len(), |y: int| seq_min(dist_row(crates, goals, y)))
}

/// The smallest row-reduced distance to each goal.
pub open spec fn column_mins(crates: Seq<Point2D>, goals: Seq<Point2D>) -> Seq<int> {
    Seq::new(goals.len(), |x: int| seq_min(reduced_column(crates, goals, x)))
}

/// The sum of a sequence.
pub open spec fn seq_sum(s: Seq<int>) -> int
    decreases s.len(),
{
    if s.len() == 0 {
        0
    } else {
        seq_sum(s.drop_last()) + s.last()
    }
}

/// The greedy perfect-match estimate: what reducing the rows and then the
/// columns of the crate-to-goal distances takes off them. Every perfect
/// matching of crates to goals costs at least this much.
pub open spec fn reduction_total(crates: Seq<Point2D>, goals: Seq<Point2D>) -> int {
    seq_sum(row_mins(crates, goals)) + seq_sum(column_mins(crates, goals))
}

/// `p` gives each of `n` crates a goal of its own among `n` goals.
pub open spec fn is_matching(p: Seq<int>, n: int) -> bool {
    &&& p.len() == n
    &&& p.no_duplicates()
    &&& forall|i: int| 0 <= i < n ==> 0 <= #[trigger] p[i] < n
}

/// The cost of sending crate `i` to goal `p[i]`, for the crates `p` covers.
pub open spec fn matching_cost(crates: Seq<Point2D>, goals: Seq<Point2D>, p: Seq<int>) -> int
    decreases p.len(),
{
    if p.len() == 0 {
        0
    } else {
        matching_cost(crates, goals, p.drop_last()) + dist(crates, goals, p.len() - 1, p.last())
    }
}

/// The sum of `f` at the places `p` lists.
pub open spec fn perm_sum(f: Seq<int>, p: Seq<int>) -> int
    decreases p.len(),
{
    if p.len() == 0 {
        0
    } else {
        perm_sum(f, p.drop_last()) + f[p.last()]
    }
}

/// Entry `(y, x)` of a square matrix of side `n` stored row by row.
pub open spec fn at(s: Seq<usize>, n: int, y: int, x: int) -> int {
    s[y * n + x] as int
}

proof fn lemma_flat_order(n: int, y1: int, x1: int, y2: int, x2: int)
    requires
        0 <= x1 < n,
        0 <= x2 < n,
        0 <= y1,
        0 <= y2,
        y1 < y2 || (y1 == y2 && x1 < x2),
    ensures
        0 <= y1 * n + x1 < y2 * n + x2,
{
    assert(0 <= y1 * n) by (nonlinear_arith)
        requires
            0 <= y1,
            0 <= n,
    ;
    if y1 < y2 {
        assert((y1 + 1) * n <= y2 * n) by (nonlinear_arith)
            requires
                y1 + 1 <= y2,
                0 <= n,
        ;
        assert((y1 + 1) * n == y1 * n + n) by (nonlinear_arith);
    }
}

proof fn lemma_flat_bound(n: int, y: int, x: int)
    requires
        0 <= x < n,
        0 <= y < n,
    ensures
        0 <= y * n + x < n * n,
{
    lemma_flat_order(n, y, x, n, 0);
}

proof fn lemma_flat_distinct(n: int, y1: int, x1: int, y2: int, x2: int)
    requires
        0 <= x1 < n,
        0 <= x2 < n,
        0 <= y1,
        0 <= y2,
        y1 != y2 || x1 != x2,
    ensures
        y1 * n + x1 != y2 * n + x2,
{
    if y1 < y2 || (y1 == y2 && x1 < x2) {
        lemma_flat_order(n, y1, x1, y2, x2);
    } else {
        lemma_flat_order(n, y2, x2, y1, x1);
    }
}

proof fn lemma_seq_min_le(r: Seq<int>, k: int)
    requires
        0 <= k < r.len(),
    ensures
        seq_min(r) <= r[k],
    decreases r.len(),
{
    if k < r.len() - 1 {
        lemma_seq_min_le(r.drop_last(), k);
    }
}

proof fn lemma_seq_min_nonneg(r: Seq<int>)
    requires
        forall|k: int| 0 <= k < r.len() ==> 0 <= #[trigger] r[k],
    ensures
        0 <= seq_min(r),
    decreases r.len(),
{
    if r.len() > 0 {
        lemma_seq_min_nonneg(r.drop_last());
    }
}

proof fn lemma_seq_min_attained(r: Seq<int>) -> (k: int)
    requires
        r.len() > 0,
        forall|j: int| 0 <= j < r.len() ==> #[trigger] r[j] <= usize::MAX,
    ensures
        0 <= k < r.len(),
        r[k] == seq_min(r),
    decreases r.len(),
{
    if r.len() == 1 {
        assert(seq_min(r.drop_last()) == usize::MAX);
        0
    } else {
        let k0 = lemma_seq_min_attained(r.drop_last());
        assert(r.drop_last()[k0] == r[k0]);
        if seq_min(r.drop_last()) > r.last() {
            r.len() - 1
        } else {
            k0
        }
    }
}

proof fn lemma_seq_min_prefix(r: Seq<int>, k: int)
    requires
        0 <= k < r.len(),
    ensures
        seq_min(r.subrange(0, k + 1)) == if seq_min(r.subrange(0, k)) > r[k] {
            r[k]
        } else {
            seq_min(r.subrange(0, k))
        },
{
    assert(r.subrange(0, k + 1).drop_last() =~= r.subrange(0, k));
}

/// The prefix sums of a sequence of non-negative numbers grow up to its sum.
proof fn lemma_seq_sum_prefix(s: Seq<int>, k: int)
    requires
        0 <= k <= s.len(),
        forall|j: int| 0 <= j < s.len() ==> 0 <= #[trigger] s[j],
    ensures
        0 <= seq_sum(s.subrange(0, k)) <= seq_sum(s),
    decreases s.len() - k,
{
    if k < s.len() {
        lemma_seq_sum_prefix(s, k + 1);
        assert(s.subrange(0, k + 1).drop_last() =~= s.subrange(0, k));
        assert(s.subrange(0, k + 1).last() == s[k]);
        assert forall|j: int| 0 <= j < s.subrange(0, k).len() implies 0 <= #[trigger] s.subrange(0, k)[j] by {
            assert(s.subrange(0, k)[j] == s[j]);
        }
        lemma_seq_sum_nonneg(s.subrange(0, k));
    } else {
        assert(s.subrange(0, k) =~= s);
        lemma_seq_sum_nonneg(s);
    }
}

proof fn lemma_seq_sum_nonneg(s: Seq<int>)
    requires
        forall|j: int| 0 <= j < s.len() ==> 0 <= #[trigger] s[j],
    ensures
        0 <= seq_sum(s),
    decreases s.len(),
{
    if s.len() > 0 {
        assert forall|j: int| 0 <= j < s.drop_last().len() implies 0 <= #[trigger] s.drop_last()[j] by {
            assert(s.drop_last()[j] == s[j]);
        }
        lemma_seq_sum_nonneg(s.drop_last());
    }
}

/// The row and column minima are not negative, and no distance is below
/// its row minimum plus its column minimum.
proof fn lemma_mins_facts(crates: Seq<Point2D>, goals: Seq<Point2D>)
    ensures
        forall|y: int| 0 <= y < crates.len() ==> 0 <= #[trigger] row_mins(crates, goals)[y],
        forall|x: int| 0 <= x < goals.len() ==> 0 <= #[trigger] column_mins(crates, goals)[x],
        forall|y: int, x: int|
            0 <= y < crates.len() && 0 <= x < goals.len() ==> row_mins(crates, goals)[y] + column_mins(crates, goals)[x]
                <= #[trigger] dist(crates, goals, y, x),
{
    assert forall|y: int| 0 <= y < crates.len() implies 0 <= #[trigger] row_mins(crates, goals)[y] by {
        lemma_seq_min_nonneg(dist_row(crates, goals, y));
    }
    assert forall|x: int| 0 <= x < goals.len() implies 0 <= #[trigger] column_mins(crates, goals)[x] by {
        let col = reduced_column(crates, goals, x);
        assert forall|j: int| 0 <= j < col.len() implies 0 <= #[trigger] col[j] by {
            lemma_seq_min_le(dist_row(crates, goals, j), x);
        }
        lemma_seq_min_nonneg(col);
    }
    assert forall|y: int, x: int| 0 <= y < crates.len() && 0 <= x < goals.len() implies row_mins(crates, goals)[y]
        + column_mins(crates, goals)[x] <= #[trigger] dist(crates, goals, y, x) by {
        lemma_seq_min_le(reduced_column(crates, goals, x), y);
    }
}

/// The partial sums of the minima stay within their totals.
proof fn lemma_reduction_parts(crates: Seq<Point2D>, goals: Seq<Point2D>)
    ensures
        0 <= seq_sum(row_mins(crates, goals)),
        0 <= seq_sum(column_mins(crates, goals)),
        forall|k: int|
            0 <= k <= crates.len() ==> #[trigger] seq_sum(row_mins(crates, goals).subrange(0, k)) <= seq_sum(
                row_mins(crates, goals),
            ),
        forall|k: int|
            0 <= k <= goals.len() ==> #[trigger] seq_sum(column_mins(crates, goals).subrange(0, k)) <= seq_sum(
                column_mins(crates, goals),
            ),
{
    lemma_mins_facts(crates, goals);
    lemma_seq_sum_nonneg(row_mins(crates, goals));
    lemma_seq_sum_nonneg(column_mins(crates, goals));
    assert forall|k: int| 0 <= k <= crates.len() implies #[trigger] seq_sum(row_mins(crates, goals).subrange(0, k))
        <= seq_sum(row_mins(crates, goals)) by {
        lemma_seq_sum_prefix(row_mins(crates, goals), k);
    }
    assert forall|k: int| 0 <= k <= goals.len() implies #[trigger] seq_sum(column_mins(crates, goals).subrange(0, k))
        <= seq_sum(column_mins(crates, goals)) by {
        lemma_seq_sum_prefix(column_mins(crates, goals), k);
    }
}

/// A matching of the first crates costs at least their row minima plus the
/// column minima of the goals they take.
proof fn lemma_matching_split(crates: Seq<Point2D>, goals: Seq<Point2D>, p: Seq<int>)
    requires
        p.len() <= crates.len(),
        forall|i: int| 0 <= i < p.len() ==> 0 <= #[trigger] p[i] < goals.len(),
    ensures
        seq_sum(row_mins(crates, goals).subrange(0, p.len() as int)) + perm_sum(column_mins(crates, goals), p)
            <= matching_cost(crates, goals, p),
    decreases p.len(),
{
    if p.len() > 0 {
        let q = p.drop_last();
        assert forall|i: int| 0 <= i < q.len() implies 0 <= #[trigger] q[i] < goals.len() by {
            assert(q[i] == p[i]);
        }
        lemma_matching_split(crates, goals, q);
        lemma_mins_facts(crates, goals);
        let r = row_mins(crates, goals);
        assert(r.subrange(0, p.len() as int).drop_last() =~= r.subrange(0, q.len() as int));
        assert(p.last() == p[p.len() - 1]);
        assert(row_mins(crates, goals)[p.len() - 1] + column_mins(crates, goals)[p.last()] <= dist(
            crates,
            goals,
            p.len() - 1,
            p.last(),
        ));
    }
}

/// Removing an element takes it off the sum.
proof fn lemma_seq_sum_remove(s: Seq<int>, v: int)
    requires
        0 <= v < s.len(),
    ensures
        seq_sum(s) == seq_sum(s.remove(v)) + s[v],
    decreases s.len(),
{
    if v < s.len() - 1 {
        lemma_seq_sum_remove(s.drop_last(), v);
        assert(s.remove(v).drop_last() =~= s.drop_last().remove(v));
        assert(s.remove(v).last() == s.last());
    } else {
        assert(s.remove(v) =~= s.drop_last());
    }
}

/// Sums over places that read equal values are equal.
proof fn lemma_perm_sum_congr(f: Seq<int>, p: Seq<int>, g: Seq<int>, q: Seq<int>)
    requires
        p.len() == q.len(),
        forall|i: int| 0 <= i < p.len() ==> f[#[trigger] p[i]] == g[q[i]],
    ensures
        perm_sum(f, p) == perm_sum(g, q),
    decreases p.len(),
{
    if p.len() > 0 {
        assert forall|i: int| 0 <= i < p.drop_last().len() implies f[#[trigger] p.drop_last()[i]] == g[q.drop_last()[i]] by {
            assert(p.drop_last()[i] == p[i] && q.drop_last()[i] == q[i]);
            assert(f[p[i]] == g[q[i]]);
        }
        lemma_perm_sum_congr(f, p.drop_last(), g, q.drop_last());
        assert(f[p[p.len() - 1]] == g[q[q.len() - 1]]);
    }
}

/// Summing `f` over a matching of all its places sums all of `f`.
proof fn lemma_perm_sum(f: Seq<int>, p: Seq<int>)
    requires
        is_matching(p, f.len() as int),
    ensures
        perm_sum(f, p) == seq_sum(f),
    decreases p.len(),
{
    if p.len() > 0 {
        let n = p.len() as int;
        let v = p.last();
        assert(v == p[n - 1]);
        let q = p.drop_last();
        let f2 = f.remove(v);
        let q2 = Seq::new(q.len(), |i: int| if q[i] > v { q[i] - 1 } else { q[i] });
        assert forall|i: int| 0 <= i < q.len() implies f[#[trigger] q[i]] == f2[q2[i]] by {
            assert(q[i] == p[i]);
            assert(p[i] != p[n - 1]);
        }
        lemma_perm_sum_congr(f, q, f2, q2);
        assert forall|i: int| 0 <= i < n - 1 implies 0 <= #[trigger] q2[i] < n - 1 by {
            assert(q[i] == p[i]);
            assert(p[i] != p[n - 1]);
        }
        assert forall|i: int, j: int| 0 <= i < q2.len() && 0 <= j < q2.len() && i != j implies q2[i] != q2[j] by {
            assert(q[i] == p[i] && q[j] == p[j]);
            assert(p[i] != p[j]);
            assert(p[i] != p[n - 1] && p[j] != p[n - 1]);
        }
        lemma_perm_sum(f2, q2);
        lemma_seq_sum_remove(f, v);
    } else {
        assert(f.len() == 0);
    }
}

/// The greedy perfect-match estimate never exceeds the cost of a perfect
/// matching of crates to goals.
pub proof fn lemma_reduction_below_matchings(crates: Seq<Point2D>, goals: Seq<Point2D>, p: Seq<int>)
    requires
        crates.len() == goals.len(),
        is_matching(p, crates.len() as int),
    ensures
        reduction_total(crates, goals) <= matching_cost(crates, goals, p),
{
    lemma_matching_split(crates, goals, p);
    assert(row_mins(crates, goals).subrange(0, p.len() as int) =~= row_mins(crates, goals));
    lemma_perm_sum(column_mins(crates, goals), p);
}

/// The cost of matching the first `k` crates with the goals of the same
/// index is at most `b` a crate.
proof fn lemma_identity_cost(crates: Seq<Point2D>, goals: Seq<Point2D>, b: int, k: int)
    requires
        0 <= k <= crates.len(),
        k <= goals.len(),
        0 <= b,
        forall|i: int, j: int|
            0 <= i < crates.len() && 0 <= j < goals.len() ==> manhattan(#[trigger] crates[i], #[trigger] goals[j]) <= b,
    ensures
        matching_cost(crates, goals, Seq::new(k as nat, |i: int| i)) <= k * b,
    decreases k,
{
    if k > 0 {
        let id = Seq::new(k as nat, |i: int| i);
        assert(id.drop_last() =~= Seq::new((k - 1) as nat, |i: int| i));
        lemma_identity_cost(crates, goals, b, k - 1);
        assert(manhattan(crates[k - 1], goals[k - 1]) <= b);
        assert((k - 1) * b + b == k * b) by (nonlinear_arith);
    }
}

/// With every distance at most `b`, the greedy perfect-match estimate is
/// at most `b` a crate.
pub proof fn lemma_reduction_bound(crates: Seq<Point2D>, goals: Seq<Point2D>, b: int)
    requires
        crates.len() == goals.len(),
        0 <= b,
        forall|i: int, j: int|
            0 <= i < crates.len() && 0 <= j < goals.len() ==> manhattan(#[trigger] crates[i], #[trigger] goals[j]) <= b,
    ensures
        reduction_total(crates, goals) <= crates.len() * b,
{
    let n = crates.len() as int;
    let id = Seq::new(n as nat, |i: int| i);
    assert(is_matching(id, n));
    lemma_reduction_below_matchings(crates, goals, id);
    lemma_identity_cost(crates, goals, b, n);
}

/// The greedy perfect-match estimate: reduces each row of the crate-to-goal
/// distances by its smallest entry, then each column, and adds up what was
/// taken off.
pub fn greedy_perfect_match(solver: &IDAStarSolver, node: &Node) -> (distance: usize)
    requires
        node.crates@.len() == solver.goal_points().len(),
        node.crates@.len() * node.crates@.len() <= usize::MAX,
        forall|y: int, x: int|
            0 <= y < node.crates@.len() && 0 <= x < node.crates@.len() ==> #[trigger] dist(
                node.crates@,
                solver.goal_points(),
                y,
                x,
            ) <= usize::MAX,
        reduction_total(node.crates@, solver.goal_points()) <= usize::MAX,
    ensures
        distance == reduction_total(node.crates@, solver.goal_points()),
        forall|p: Seq<int>|
            is_matching(p, node.crates@.len() as int) ==> distance <= #[trigger] matching_cost(
                node.crates@,
                solver.goal_points(),
                p,
            ),
{
    let goals = &solver.goals;
    let crates = &node.crates;
    let ghost cs = crates@;
    let ghost gs = goals@;
    assert(gs == solver.goal_points());
    let mut dis_vec: Vec<usize> = Vec::new();
    let width: usize = node.crates.len();
    let ghost n = width as int;

    // get initial settings. & step 0
    let mut y: usize = 0;
    while y < width
        invariant
            y <= n,
            n == cs.len() == gs.len(),
            n * n <= usize::MAX,
            width == n,
            crates@ == cs,
            goals@ == gs,
            forall|a: int, b: int| 0 <= a < n && 0 <= b < n ==> #[trigger] dist(cs, gs, a, b) <= usize::MAX,
            dis_vec@.len() == y * n,
            forall|a: int, b: int|
                0 <= a < y && 0 <= b < n ==> #[trigger] at(dis_vec@, n, a, b) == dist(cs, gs, a, b),
        decreases n - y,
    {
        let crate_pos = crates[y];
        let mut x: usize = 0;
        while x < goals.len()
            invariant
                y < n,
                x <= n,
                n == cs.len() == gs.len(),
                crate_pos == cs[y as int],
                goals@ == gs,
                forall|a: int, b: int| 0 <= a < n && 0 <= b < n ==> #[trigger] dist(cs, gs, a, b) <= usize::MAX,
                dis_vec@.len() == y * n + x,
                forall|a: int, b: int|
                    0 <= a && 0 <= b < n && (a < y || (a == y && b < x)) ==> #[trigger] at(dis_vec@, n, a, b)
                        == dist(cs, gs, a, b),
            decreases n - x,
        {
            assert(dist(cs, gs, y as int, x as int) <= usize::MAX);
            let dis = manhattan_distance(crate_pos, goals[x]);
            let ghost before = dis_vec@;
            dis_vec.push(dis);
            assert forall|a: int, b: int|
                0 <= a && 0 <= b < n && (a < y || (a == y && b < x + 1)) implies #[trigger] at(dis_vec@, n, a, b)
                    == dist(cs, gs, a, b) by {
                if a < y || (a == y && b < x) {
                    lemma_flat_order(n, a, b, y as int, x as int);
                    assert(at(before, n, a, b) == dist(cs, gs, a, b));
                }
            }
            x = x + 1;
        }
        assert((y + 1) * n == y * n + n) by (nonlinear_arith);
        y = y + 1;
    }

    assert(dis_vec@.len() == n * n);

    proof {
        lemma_reduction_parts(cs, gs);
    }
    let mut row_total: usize = 0;
    // step 0
    let mut y: usize = 0;
    while y < width
        invariant
            y <= n,
            n == cs.len() == gs.len(),
            n * n <= usize::MAX,
            width == n,
            forall|a: int, b: int| 0 <= a < n && 0 <= b < n ==> #[trigger] dist(cs, gs, a, b) <= usize::MAX,
            row_total == seq_sum(row_mins(cs, gs).subrange(0, y as int)),
            seq_sum(row_mins(cs, gs)) <= usize::MAX,
            forall|k: int| 0 <= k <= n ==> #[trigger] seq_sum(row_mins(cs, gs).subrange(0, k)) <= seq_sum(row_mins(cs, gs)),
            dis_vec@.len() == n * n,
            forall|a: int, b: int|
                0 <= a < n && 0 <= b < n ==> #[trigger] at(dis_vec@, n, a, b) == if a < y {
                    row_reduced(cs, gs, a, b)
                } else {
                    dist(cs, gs, a, b)
                },
        decreases n - y,
    {
        let mut min: usize = usize::MAX;
        let mut x: usize = 0;
        while x < width
            invariant
                y < n,
                x <= n,
                width == n,
                n * n <= usize::MAX,
                n == cs.len() == gs.len(),
                dis_vec@.len() == n * n,
                forall|a: int, b: int|
                    0 <= a < n && 0 <= b < n ==> #[trigger] at(dis_vec@, n, a, b) == if a < y {
                        row_reduced(cs, gs, a, b)
                    } else {
                        dist(cs, gs, a, b)
                    },
                min == seq_min(dist_row(cs, gs, y as int).subrange(0, x as int)),
            decreases n - x,
        {
            proof {
                lemma_flat_bound(n, y as int, x as int);
                lemma_seq_min_prefix(dist_row(cs, gs, y as int), x as int);
                assert(at(dis_vec@, n, y as int, x as int) == dist(cs, gs, y as int, x as int));
            }
            let dis = dis_vec[y * width + x];
            if min > dis {
                min = dis;
            }
            x = x + 1;
        }
        assert(dist_row(cs, gs, y as int).subrange(0, n) =~= dist_row(cs, gs, y as int));
        proof {
            let r = row_mins(cs, gs);
            assert(r.subrange(0, y + 1).drop_last() =~= r.subrange(0, y as int));
            assert(r[y as int] == min);
            assert(r.subrange(0, y + 1).last() == min);
            assert(seq_sum(r.subrange(0, y + 1)) == row_total + min);
            assert(seq_sum(r.subrange(0, y + 1)) <= seq_sum(r));
        }
        row_total = row_total + min;

        let mut x: usize = 0;
        while x < width
            invariant
                y < n,
                x <= n,
                width == n,
                n * n <= usize::MAX,
                n == cs.len() == gs.len(),
                dis_vec@.len() == n * n,
                min == seq_min(dist_row(cs, gs, y as int)),
                forall|a: int, b: int|
                    0 <= a < n && 0 <= b < n ==> #[trigger] at(dis_vec@, n, a, b) == if a < y || (a == y && b
                        < x) {
                        row_reduced(cs, gs, a, b)
                    } else {
                        dist(cs, gs, a, b)
                    },
            decreases n - x,
        {
            proof {
                lemma_flat_bound(n, y as int, x as int);
                lemma_seq_min_le(dist_row(cs, gs, y as int), x as int);
                assert(at(dis_vec@, n, y as int, x as int) == dist(cs, gs, y as int, x as int));
            }
            let i = y * width + x;
            let v = dis_vec[i];
            let ghost before = dis_vec@;
            dis_vec.set(i, v - min);
            assert forall|a: int, b: int| 0 <= a < n && 0 <= b < n implies #[trigger] at(dis_vec@, n, a, b)
                == if a < y || (a == y && b < x + 1) {
                row_reduced(cs, gs, a, b)
            } else {
                dist(cs, gs, a, b)
            } by {
                if a != y || b != x {
                    lemma_flat_distinct(n, a, b, y as int, x as int);
                    lemma_flat_bound(n, a, b);
                    assert(at(dis_vec@, n, a, b) == at(before, n, a, b));
                }
            }
            x = x + 1;
        }
        y = y + 1;
    }

    assert(row_mins(cs, gs).subrange(0, n) =~= row_mins(cs, gs));
    let mut col_total: usize = 0;
    // step 0
    let mut x: usize = 0;
    while x < width
        invariant
            x <= n,
            n == cs.len() == gs.len(),
            n * n <= usize::MAX,
            width == n,
            forall|a: int, b: int| 0 <= a < n && 0 <= b < n ==> #[trigger] dist(cs, gs, a, b) <= usize::MAX,
            row_total == seq_sum(row_mins(cs, gs)),
            col_total == seq_sum(column_mins(cs, gs).subrange(0, x as int)),
            reduction_total(cs, gs) <= usize::MAX,
            0 <= seq_sum(row_mins(cs, gs)),
            forall|k: int| 0 <= k <= n ==> #[trigger] seq_sum(column_mins(cs, gs).subrange(0, k)) <= seq_sum(column_mins(cs, gs)),
            dis_vec@.len() == n * n,
            forall|a: int, b: int|
                0 <= a < n && 0 <= b < n ==> #[trigger] at(dis_vec@, n, a, b) == if b < x {
                    reduced(cs, gs, a, b)
                } else {
                    row_reduced(cs, gs, a, b)
                },
        decreases n - x,
    {
        let mut min: usize = usize::MAX;
        let mut y: usize = 0;
        while y < width
            invariant
                y <= n,
                x < n,
                width == n,
                n * n <= usize::MAX,
                n == cs.len() == gs.len(),
                dis_vec@.len() == n * n,
                forall|a: int, b: int|
                    0 <= a < n && 0 <= b < n ==> #[trigger] at(dis_vec@, n, a, b) == if b < x {
                        reduced(cs, gs, a, b)
                    } else {
                        row_reduced(cs, gs, a, b)
                    },
                min == seq_min(reduced_column(cs, gs, x as int).subrange(0, y as int)),
            decreases n - y,
        {
            proof {
                lemma_flat_bound(n, y as int, x as int);
                lemma_seq_min_prefix(reduced_column(cs, gs, x as int), y as int);
                assert(at(dis_vec@, n, y as int, x as int) == row_reduced(cs, gs, y as int, x as int));
            }
            let dis = dis_vec[y * width + x];
            if min > dis {
                min = dis;
            }
            y = y + 1;
        }
        assert(reduced_column(cs, gs, x as int).subrange(0, n) =~= reduced_column(cs, gs, x as int));
        proof {
            let c = column_mins(cs, gs);
            assert(c.subrange(0, x + 1).drop_last() =~= c.subrange(0, x as int));
            assert(c[x as int] == min);
            assert(c.subrange(0, x + 1).last() == min);
            assert(seq_sum(c.subrange(0, x + 1)) == col_total + min);
            assert(seq_sum(c.subrange(0, x + 1)) <= seq_sum(c));
        }
        col_total = col_total + min;

        let mut y: usize = 0;
        while y < width
            invariant
                y <= n,
                x < n,
                width == n,
                n * n <= usize::MAX,
                n == cs.len() == gs.len(),
                dis_vec@.len() == n * n,
                min == seq_min(reduced_column(cs, gs, x as int)),
                forall|a: int, b: int|
                    0 <= a < n && 0 <= b < n ==> #[trigger] at(dis_vec@, n, a, b) == if b < x || (b == x && a
                        < y) {
                        reduced(cs, gs, a, b)
                    } else {
                        row_reduced(cs, gs, a, b)
                    },
            decreases n - y,
        {
            proof {
                lemma_flat_bound(n, y as int, x as int);
                lemma_seq_min_le(reduced_column(cs, gs, x as int), y as int);
                assert(at(dis_vec@, n, y as int, x as int) == row_reduced(cs, gs, y as int, x as int));
            }
            let i = y * width + x;
            let v = dis_vec[i];
            let ghost before = dis_vec@;
            dis_vec.set(i, v - min);
            assert forall|a: int, b: int| 0 <= a < n && 0 <= b < n implies #[trigger] at(dis_vec@, n, a, b)
                == if b < x || (b == x && a < y + 1) {
                reduced(cs, gs, a, b)
            } else {
                row_reduced(cs, gs, a, b)
            } by {
                if a != y || b != x {
                    lemma_flat_distinct(n, a, b, y as int, x as int);
                    lemma_flat_bound(n, a, b);
                    assert(at(dis_vec@, n, a, b) == at(before, n, a, b));
                }
            }
            y = y + 1;
        }
        x = x + 1;
    }

    assert(column_mins(cs, gs).subrange(0, n) =~= column_mins(cs, gs));
    let distance = row_total + col_total;
    proof {
        assert forall|p: Seq<int>| is_matching(p, n) implies distance <= #[trigger] matching_cost(cs, gs, p) by {
            lemma_reduction_below_matchings(cs, gs, p);
        }
    }
    return distance;
}


proof fn lemma_nearest_le(p: Point2D, pts: Seq<Point2D>, j: int)
    requires
        0 <= j < pts.len(),
    ensures
        nearest_dist(p, pts) <= manhattan(pts[j], p),
    decreases pts.len(),
{
    if j < pts.len() - 1 {
        lemma_nearest_le(p, pts.drop_last(), j);
    }
}

/// A sum of terms each at most `b` is at most `b` a term.
proof fn lemma_seq_sum_bound(s: Seq<int>, b: int)
    requires
        forall|j: int| 0 <= j < s.len() ==> #[trigger] s[j] <= b,
    ensures
        seq_sum(s) <= s.len() * b,
    decreases s.len(),
{
    if s.len() > 0 {
        let r = s.drop_last();
        assert forall|j: int| 0 <= j < r.len() implies #[trigger] r[j] <= b by {
            assert(r[j] == s[j]);
        }
        lemma_seq_sum_bound(r, b);
        assert(s.last() == s[s.len() - 1]);
        assert((s.len() - 1) * b + b == s.len() * b) by (nonlinear_arith);
    }
}

/// With a crate at most `b` away from every goal, the closest-box sum is at
/// most `b` per goal.
pub proof fn lemma_closest_box_bound(crates: Seq<Point2D>, goals: Seq<Point2D>, b: int)
    requires
        crates.len() > 0,
        0 <= b,
        forall|i: int, j: int|
            0 <= i < crates.len() && 0 <= j < goals.len() ==> manhattan(#[trigger] crates[i], #[trigger] goals[j])
                <= b,
    ensures
        closest_box_sum(crates, goals) <= goals.len() * b,
{
    let f = goal_nearest(crates, goals);
    assert forall|j: int| 0 <= j < f.len() implies #[trigger] f[j] <= b by {
        lemma_nearest_le(goals[j], crates, 0);
        assert(manhattan(crates[0], goals[j]) <= b);
    }
    lemma_seq_sum_bound(f, b);
}

/// Without crates, a single goal counts `usize::MAX`.
pub proof fn lemma_closest_box_no_crate(crates: Seq<Point2D>, goals: Seq<Point2D>)
    requires
        crates.len() == 0,
        goals.len() <= 1,
    ensures
        closest_box_sum(crates, goals) <= usize::MAX,
{
    let f = goal_nearest(crates, goals);
    if goals.len() == 1 {
        assert(f.drop_last() =~= Seq::<int>::empty());
        assert(seq_sum(f.drop_last()) == 0);
        assert(f.last() == usize::MAX);
    } else {
        assert(f =~= Seq::<int>::empty());
    }
}

/// The closest crates of the goals that a matching of the first crates
/// takes cost no more than the matching.
proof fn lemma_nearest_split(crates: Seq<Point2D>, goals: Seq<Point2D>, p: Seq<int>)
    requires
        p.len() <= crates.len(),
        forall|i: int| 0 <= i < p.len() ==> 0 <= #[trigger] p[i] < goals.len(),
    ensures
        perm_sum(goal_nearest(crates, goals), p) <= matching_cost(crates, goals, p),
    decreases p.len(),
{
    if p.len() > 0 {
        let q = p.drop_last();
        assert forall|i: int| 0 <= i < q.len() implies 0 <= #[trigger] q[i] < goals.len() by {
            assert(q[i] == p[i]);
        }
        lemma_nearest_split(crates, goals, q);
        let y = p.len() - 1;
        assert(p.last() == p[y]);
        lemma_nearest_le(goals[p[y]], crates, y);
    }
}

/// The closest-box estimate never exceeds the cost of a perfect matching of
/// crates to goals.
pub proof fn lemma_closest_box_below_matchings(crates: Seq<Point2D>, goals: Seq<Point2D>, p: Seq<int>)
    requires
        crates.len() == goals.len(),
        is_matching(p, crates.len() as int),
    ensures
        closest_box_sum(crates, goals) <= matching_cost(crates, goals, p),
{
    lemma_nearest_split(crates, goals, p);
    lemma_perm_sum(goal_nearest(crates, goals), p);
}

/// Every goal cell is listed among the goal points.
proof fn lemma_goal_point_listed(w: usize, cells: Seq<Tile>, i: int)
    requires
        0 <= i < cells.len(),
        is_goal_tile(cells[i]),
    ensures
        goal_points_of(w, cells).contains(cell_point(w, i)),
    decreases cells.len(),
{
    let rest = goal_points_of(w, cells.drop_last());
    if i == cells.len() - 1 {
        assert(goal_points_of(w, cells)[rest.len() as int] == cell_point(w, i));
    } else {
        assert(cells.drop_last()[i] == cells[i]);
        lemma_goal_point_listed(w, cells.drop_last(), i);
        let k = choose|k: int| 0 <= k < rest.len() && rest[k] == cell_point(w, i);
        assert(goal_points_of(w, cells)[k] == rest[k]);
    }
}

/// A push leaves every goal cell a goal cell and adds none.
proof fn lemma_push_keeps_goals(parent: Node, child: Node, root: TileMatrix, s: Set<Point2D>, i: int, a: Action)
    requires
        node_ok(parent, root, s),
        is_enclosure(root, s),
        root.data@.len() <= usize::MAX,
        push_moves(parent, child, i, a),
    ensures
        child.map.data@.len() == parent.map.data@.len(),
        forall|j: int|
            0 <= j < parent.map.data@.len() ==> is_goal_tile(#[trigger] child.map.data@[j]) == is_goal_tile(
                parent.map.data@[j],
            ),
        goal_tiles(child.map.data@) == goal_tiles(parent.map.data@),
        crate_tiles(child.map.data@) == crate_tiles(parent.map.data@),
        open_goals(parent.map.data@) <= open_goals(child.map.data@) + 1,
{
    let m = parent.map;
    let w = m.width;
    let cells = m.data@;
    let c = parent.crates@[i];
    let ce = step(c, a);
    let d = walk_dir(a);
    let ip = index_of(w, parent.player);
    let cs = index_of(w, c);
    let cei = index_of(w, ce);
    lemma_walk_dir(c, a);
    assert(s.contains(c));
    lemma_enclosed_interior(root, s, c);
    lemma_interior_step(root, c, d);
    lemma_step_index(w, c, a);
    assert(s.contains(parent.player));
    lemma_enclosed_interior(root, s, parent.player);
    assert(cs != cei);
    assert(!(cells[cei] is CrateGoal));
    let s1 = match cells[ip] {
        Tile::Player => cells.update(ip, Tile::Floor),
        Tile::PlayerGoal => cells.update(ip, Tile::Goal),
        _ => cells,
    };
    assert(!(s1[cei] is CrateGoal));
    assert forall|j: int| 0 <= j < cells.len() implies is_goal_tile(#[trigger] s1[j]) == is_goal_tile(cells[j]) by {}
    let s2 = s1.update(cs, crate_replaced_by_player(s1[cs]));
    lemma_counts_update(cells, ip, s1[ip]);
    assert(s1 == cells.update(ip, s1[ip]));
    lemma_counts_update(s1, cs, s2[cs]);
    lemma_counts_update(s2, cei, crate_arrives(s2[cei]));
}

/// Whether a cell is a goal with no crate on it.
spec fn open_at(t: Tile) -> int {
    if t is Goal || t is PlayerGoal {
        1
    } else {
        0
    }
}

/// Whether a cell holds a crate.
spec fn crate_at(t: Tile) -> int {
    if t is Crate || t is CrateGoal {
        1
    } else {
        0
    }
}

/// Whether a cell is a goal.
spec fn goal_at(t: Tile) -> int {
    if t is Goal || t is PlayerGoal || t is CrateGoal {
        1
    } else {
        0
    }
}

/// The tile counts after replacing one cell.
proof fn lemma_counts_update(cells: Seq<Tile>, i: int, t: Tile)
    requires
        0 <= i < cells.len(),
    ensures
        open_goals(cells.update(i, t)) == open_goals(cells) - open_at(cells[i]) + open_at(t),
        crate_tiles(cells.update(i, t)) == crate_tiles(cells) - crate_at(cells[i]) + crate_at(t),
        goal_tiles(cells.update(i, t)) == goal_tiles(cells) - goal_at(cells[i]) + goal_at(t),
    decreases cells.len(),
{
    let u = cells.update(i, t);
    if i == cells.len() - 1 {
        assert(u.drop_last() =~= cells.drop_last());
    } else {
        assert(u.drop_last() =~= cells.drop_last().update(i, t));
        lemma_counts_update(cells.drop_last(), i, t);
    }
}

/// With no crate off a goal, the goals are the open ones and those under a
/// crate.
proof fn lemma_goals_split(cells: Seq<Tile>)
    requires
        forall|j: int| 0 <= j < cells.len() ==> !(#[trigger] cells[j] is Crate),
    ensures
        goal_tiles(cells) == open_goals(cells) + crate_tiles(cells),
    decreases cells.len(),
{
    if cells.len() > 0 {
        let rest = cells.drop_last();
        assert forall|j: int| 0 <= j < rest.len() implies !(#[trigger] rest[j] is Crate) by {
            assert(rest[j] == cells[j]);
        }
        lemma_goals_split(rest);
        assert(!(cells[cells.len() - 1] is Crate));
    }
}

/// Along a run of pushes every node has the goal cells of the start.
pub(crate) proof fn lemma_run_goals(chain: Seq<Node>, root: TileMatrix, s: Set<Point2D>, k: int)
    requires
        run_ok(chain, root, s),
        is_enclosure(root, s),
        root.data@.len() <= usize::MAX,
        0 <= k < chain.len(),
    ensures
        forall|j: int|
            0 <= j < root.data@.len() ==> is_goal_tile(#[trigger] chain[k].map.data@[j]) == is_goal_tile(root.data@[j]),
        goal_tiles(chain[k].map.data@) == goal_tiles(root.data@),
        crate_tiles(chain[k].map.data@) == crate_tiles(root.data@),
    decreases k,
{
    if k > 0 {
        lemma_run_goals(chain, root, s, k - 1);
        assert(moved_by_push(chain[k - 1], chain[k]));
        let (i, a) = choose|i: int, a: Action| #![trigger push_moves(chain[k - 1], chain[k], i, a)] push_moves(chain[k - 1], chain[k], i, a);
        assert(node_ok(chain[k - 1], root, s));
        lemma_push_keeps_goals(chain[k - 1], chain[k], root, s, i, a);
    }
}

/// At the end of a solving run every crate stands on a goal.
pub(crate) proof fn lemma_solved_on_goals(chain: Seq<Node>, root: TileMatrix, s: Set<Point2D>)
    requires
        run_ok(chain, root, s),
        is_solved(chain.last().map),
        is_enclosure(root, s),
        root.data@.len() <= usize::MAX,
    ensures
        forall|j: int|
            0 <= j < chain.last().crates@.len() ==> #[trigger] goal_points_of(root.width, root.data@).contains(
                chain.last().crates@[j],
            ),
{
    let n = chain.len() - 1;
    let last = chain[n];
    let w = root.width;
    let goals = goal_points_of(w, root.data@);
    lemma_run_goals(chain, root, s, n);
    assert(node_ok(last, root, s));
    assert forall|j: int| 0 <= j < last.crates@.len() implies #[trigger] goals.contains(last.crates@[j]) by {
        let p = last.crates@[j];
        assert(s.contains(p));
        lemma_enclosed_interior(root, s, p);
        let q = index_of(w, p);
        assert(last.map.tile(p) is Crate || last.map.tile(p) is CrateGoal);
        assert(!(last.map.data@[q] is Crate));
        assert(is_goal_tile(root.data@[q]));
        lemma_goal_point_listed(w, root.data@, q);
        lemma_cell_point(root, q);
        lemma_index_injective(w, cell_point(w, q), p);
    }
}

/// The goal-count estimate never overestimates on a puzzle with as many
/// goals as crates: on a run of pushes that solves it, the number of open
/// goals at each node is at most the number of pushes still to come.
pub proof fn lemma_goal_count_admissible(chain: Seq<Node>, root: TileMatrix, s: Set<Point2D>, sdl: BitMatrix, k: int)
    requires
        solution_ok(chain, root, s, sdl),
        is_enclosure(root, s),
        root.data@.len() <= usize::MAX,
        goal_tiles(root.data@) == crate_tiles(root.data@),
        0 <= k < chain.len(),
    ensures
        open_goals(chain[k].map.data@) <= chain.len() - 1 - k,
    decreases chain.len() - k,
{
    if k == chain.len() - 1 {
        lemma_chain_run(chain, root, s, sdl);
        lemma_run_goals(chain, root, s, k);
        lemma_goals_split(chain[k].map.data@);
    } else {
        lemma_goal_count_admissible(chain, root, s, sdl, k + 1);
        assert(is_successor(chain[k], chain[k + 1], sdl));
        let (i, a) = choose|i: int, a: Action| #![trigger push_ok(chain[k], chain[k + 1], sdl, i, a)] push_ok(chain[k], chain[k + 1], sdl, i, a);
        assert(node_ok(chain[k], root, s));
        lemma_push_keeps_goals(chain[k], chain[k + 1], root, s, i, a);
    }
}

/// The cost of a matching after one crate moved to `x`.
proof fn lemma_matching_update(crates: Seq<Point2D>, goals: Seq<Point2D>, p: Seq<int>, i: int, x: Point2D)
    requires
        0 <= i < crates.len(),
        p.len() <= crates.len(),
    ensures
        matching_cost(crates.update(i, x), goals, p) == matching_cost(crates, goals, p) + if i < p.len() {
            manhattan(x, goals[p[i]]) - dist(crates, goals, i, p[i])
        } else {
            0
        },
    decreases p.len(),
{
    if p.len() > 0 {
        let q = p.drop_last();
        lemma_matching_update(crates, goals, q, i, x);
        if i < q.len() {
            assert(q[i] == p[i]);
        }
    }
}

/// A matching in which every crate stands on its goal costs nothing.
proof fn lemma_matching_zero(crates: Seq<Point2D>, goals: Seq<Point2D>, p: Seq<int>)
    requires
        forall|i: int| 0 <= i < p.len() ==> #[trigger] dist(crates, goals, i, p[i]) == 0,
    ensures
        matching_cost(crates, goals, p) == 0,
    decreases p.len(),
{
    if p.len() > 0 {
        let q = p.drop_last();
        assert forall|i: int| 0 <= i < q.len() implies #[trigger] dist(crates, goals, i, q[i]) == 0 by {
            assert(q[i] == p[i]);
            assert(dist(crates, goals, i, p[i]) == 0);
        }
        lemma_matching_zero(crates, goals, q);
        assert(dist(crates, goals, p.len() - 1, p[p.len() - 1]) == 0);
    }
}

/// Along a solving run, the matching that sends each crate to where it ends
/// costs at most the pushes still to come.
proof fn lemma_final_matching(chain: Seq<Node>, goals: Seq<Point2D>, sdl: BitMatrix, p: Seq<int>, k: int)
    requires
        chain.len() >= 1,
        forall|i: int| 0 <= i < chain.len() ==> (#[trigger] chain[i]).crates@.len() == chain[0].crates@.len(),
        forall|i: int| #![trigger chain[i]] 1 <= i < chain.len() ==> is_successor(chain[i - 1], chain[i], sdl),
        p.len() == chain[0].crates@.len(),
        forall|i: int| 0 <= i < p.len() ==> 0 <= #[trigger] p[i] < goals.len() && goals[p[i]] == chain.last().crates@[i],
        0 <= k < chain.len(),
    ensures
        matching_cost(chain[k].crates@, goals, p) <= chain.len() - 1 - k,
    decreases chain.len() - k,
{
    if k == chain.len() - 1 {
        assert forall|i: int| 0 <= i < p.len() implies #[trigger] dist(chain[k].crates@, goals, i, p[i]) == 0 by {
            assert(goals[p[i]] == chain.last().crates@[i]);
        }
        lemma_matching_zero(chain[k].crates@, goals, p);
    } else {
        lemma_final_matching(chain, goals, sdl, p, k + 1);
        assert(is_successor(chain[k], chain[k + 1], sdl));
        let (i, a) = choose|i: int, a: Action| #![trigger push_ok(chain[k], chain[k + 1], sdl, i, a)] push_ok(chain[k], chain[k + 1], sdl, i, a);
        let c = chain[k].crates@[i];
        assert(chain[k].crates@.len() == chain[0].crates@.len());
        lemma_matching_update(chain[k].crates@, goals, p, i, step(c, a));
        assert(manhattan(c, goals[p[i]]) <= manhattan(step(c, a), goals[p[i]]) + 1);
    }
}

/// On a run of pushes that solves a puzzle with as many goals as crates,
/// sending each crate to the goal it ends on is a perfect matching that
/// costs at each node at most the pushes still to come.
proof fn lemma_final_assignment(chain: Seq<Node>, root: TileMatrix, s: Set<Point2D>, sdl: BitMatrix, k: int) -> (p: Seq<int>)
    requires
        solution_ok(chain, root, s, sdl),
        is_enclosure(root, s),
        root.data@.len() <= usize::MAX,
        chain[0].crates@.len() == goal_points_of(root.width, root.data@).len(),
        0 <= k < chain.len(),
    ensures
        chain[k].crates@.len() == goal_points_of(root.width, root.data@).len(),
        is_matching(p, chain[k].crates@.len() as int),
        matching_cost(chain[k].crates@, goal_points_of(root.width, root.data@), p) <= chain.len() - 1 - k,
{
    let goals = goal_points_of(root.width, root.data@);
    let n = chain[0].crates@.len() as int;
    let last = chain[chain.len() - 1];
    lemma_chain_run(chain, root, s, sdl);
    lemma_solved_on_goals(chain, root, s);
    assert(last.crates@.len() == n);
    assert(node_ok(last, root, s));
    let p = Seq::new(n as nat, |j: int| choose|t: int| 0 <= t < goals.len() && goals[t] == last.crates@[j]);
    assert forall|j: int| 0 <= j < p.len() implies 0 <= #[trigger] p[j] < goals.len() && goals[p[j]] == chain.last().crates@[j] by {
        assert(goals.contains(last.crates@[j]));
    }
    assert forall|a: int, b: int| 0 <= a < p.len() && 0 <= b < p.len() && a != b implies p[a] != p[b] by {
        assert(goals[p[a]] == last.crates@[a] && goals[p[b]] == last.crates@[b]);
    }
    assert(is_matching(p, n));
    lemma_final_matching(chain, goals, sdl, p, k);
    assert(chain[k].crates@.len() == n);
    p
}

/// The closest-box estimate never overestimates when there are as many
/// goals as crates: on a run of pushes that solves the puzzle, it is at
/// each node at most the number of pushes still to come.
pub proof fn lemma_closest_box_admissible(chain: Seq<Node>, root: TileMatrix, s: Set<Point2D>, sdl: BitMatrix, k: int)
    requires
        solution_ok(chain, root, s, sdl),
        is_enclosure(root, s),
        root.data@.len() <= usize::MAX,
        chain[0].crates@.len() == goal_points_of(root.width, root.data@).len(),
        0 <= k < chain.len(),
    ensures
        closest_box_sum(chain[k].crates@, goal_points_of(root.width, root.data@)) <= chain.len() - 1 - k,
{
    let p = lemma_final_assignment(chain, root, s, sdl, k);
    lemma_closest_box_below_matchings(chain[k].crates@, goal_points_of(root.width, root.data@), p);
}

/// The greedy perfect-match estimate never overestimates when there are as
/// many goals as crates: on a run of pushes that solves the puzzle, it is
/// at each node at most the number of pushes still to come.
pub proof fn lemma_greedy_admissible(chain: Seq<Node>, root: TileMatrix, s: Set<Point2D>, sdl: BitMatrix, k: int)
    requires
        solution_ok(chain, root, s, sdl),
        is_enclosure(root, s),
        root.data@.len() <= usize::MAX,
        chain[0].crates@.len() == goal_points_of(root.width, root.data@).len(),
        0 <= k < chain.len(),
    ensures
        reduction_total(chain[k].crates@, goal_points_of(root.width, root.data@)) <= chain.len() - 1 - k,
{
    let p = lemma_final_assignment(chain, root, s, sdl, k);
    lemma_reduction_below_matchings(chain[k].crates@, goal_points_of(root.width, root.data@), p);
}

/// A run of pushes that solves the puzzle from the node a search starts
/// on, with no two nodes of the same hash, is a plan within its own number
/// of pushes when the heuristic never overestimates along it: goal count
/// when the puzzle has as many goals as crates, closest box and greedy
/// perfect match when the run has as many crates as the puzzle has goals.
pub proof fn lemma_solution_is_plan(
    path: Seq<Node>,
    chain: Seq<Node>,
    root: TileMatrix,
    s: Set<Point2D>,
    sdl: BitMatrix,
    kind: Heuristic,
)
    requires
        path.len() == 1,
        same_state(chain[0], path[0]),
        solution_ok(chain, root, s, sdl),
        hashes_apart(chain),
        is_enclosure(root, s),
        root.data@.len() <= usize::MAX,
        (kind is GoalCount && goal_tiles(root.data@) == crate_tiles(root.data@)) || ((kind is ClosestBox
            || kind is GreedyPerfectMatch) && chain[0].crates@.len() == goal_points_of(root.width, root.data@).len()),
    ensures
        plan_within(path, chain, sdl, kind, goal_points_of(root.width, root.data@), chain.len() - 1),
{
    reveal(plan_within);
    let goals = goal_points_of(root.width, root.data@);
    assert(path.last() == path[0]);
    assert forall|i: int, j: int| 1 <= i < chain.len() && 0 <= j < path.len() implies (#[trigger] chain[i]).hash != (
    #[trigger] path[j]).hash by {
        assert(chain[0].hash != chain[i].hash);
    }
    assert forall|i: int| 0 <= i < chain.len() implies (#[trigger] chain[i]).g + heuristic_value(
        kind,
        chain[i].crates@,
        goals,
        chain[i].map.data@,
    ) <= chain.len() - 1 by {
        if kind is ClosestBox {
            lemma_closest_box_admissible(chain, root, s, sdl, i);
        } else if kind is GoalCount {
            lemma_goal_count_admissible(chain, root, s, sdl, i);
        } else {
            lemma_greedy_admissible(chain, root, s, sdl, i);
        }
    }
}

} // verus!
