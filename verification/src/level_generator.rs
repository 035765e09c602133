use vstd::prelude::*;
use rand::rngs::ThreadRng;
use rand::Rng;

use vstd::arithmetic::div_mod::lemma_fundamental_div_mod_converse;

use crate::types::{
    Action, BitMatrix, Point2D, Tile, TileMatrix, char_tile, chars_of, index_of, line_stats, parse_text, scan_text, step,
};
use crate::util::{
    canonical, encloses, find_simple_deadlocks, interior, is_dir, is_enclosure, lemma_same_walls, pull_reach, same_walls,
};
use crate::ida_star_solver::{cell_point, lemma_cell_point};

pub mod read_back;

verus! {

// Generate levels based on:
// 1. dimensions -> H x W
// 2. complexity -> Goals and boxes
// 3. boxes cannot be placed in 'simple deadlocks'

#[verifier::external_type_specification]
#[verifier::external_body]
pub struct ExThreadRng(ThreadRng);

/// `Rng::gen_range(0, upper)`: a number drawn from `0..upper`. It panics
/// when the range is empty, which `requires` rules out; which number comes
/// is left to chance, so only the range is stated.
#[verifier::external_body]
fn random_below(rng: &mut ThreadRng, upper: usize) -> (r: usize)
    requires
        upper > 0,
    ensures
        r < upper,
{
    rng.gen_range(0, upper)
}

/// The column of position `i` of a puzzle text whose rows are `w` cells and
/// a newline.
pub open spec fn col(w: nat, i: int) -> int {
    i % (w + 1) as int
}

/// The row of position `i` of a puzzle text whose rows are `w` cells and a
/// newline.
pub open spec fn row(w: nat, i: int) -> int {
    i / (w + 1) as int
}

/// A cell on the outer ring of a `w` by `h` puzzle.
pub open spec fn on_border(w: nat, h: nat, x: int, y: int) -> bool {
    x == 0 || x == w - 1 || y == 0 || y == h - 1
}

/// Position `i` of the text is a cell inside the outer ring.
pub open spec fn inner_cell(w: nat, h: nat, i: int) -> bool {
    &&& 0 <= i < (w + 1) * h
    &&& 1 <= col(w, i) <= w - 2
    &&& 1 <= row(w, i) <= h - 2
}

/// The text of an empty `w` by `h` puzzle: walls around floor, each row
/// ended by a newline.
pub open spec fn blank_char(w: nat, h: nat, i: int) -> char {
    if col(w, i) == w {
        '\n'
    } else if on_border(w, h, col(w, i), row(w, i)) {
        '#'
    } else {
        ' '
    }
}

/// `v` has the rows, newlines and outer walls of a `w` by `h` puzzle.
pub open spec fn framed(v: Seq<char>, w: nat, h: nat) -> bool {
    &&& v.len() == (w + 1) * h
    &&& forall|i: int| 0 <= i < v.len() && !inner_cell(w, h, i) ==> #[trigger] v[i] == blank_char(w, h, i)
}

/// Position `y * (w + 1) + x` of the text is cell `(x, y)`.
pub(crate) proof fn lemma_cell_of(w: nat, h: nat, x: int, y: int)
    requires
        0 <= x <= w,
        0 <= y < h,
    ensures
        0 <= y * (w + 1) + x < (w + 1) * h,
        col(w, y * (w + 1) + x) == x,
        row(w, y * (w + 1) + x) == y,
{
    lemma_fundamental_div_mod_converse(y * (w + 1) + x, (w + 1) as int, y, x);
    assert(y * (w + 1) + x < (w + 1) * h) by (nonlinear_arith)
        requires
            0 <= x <= w,
            0 <= y < h,
    ;
}

/// Every position of the text is some cell `(x, y)`.
pub(crate) proof fn lemma_cell_split(w: nat, h: nat, i: int)
    requires
        0 <= i < (w + 1) * h,
    ensures
        0 <= col(w, i) <= w,
        0 <= row(w, i) < h,
        i == row(w, i) * (w + 1) + col(w, i),
{
    let d = (w + 1) as int;
    vstd::arithmetic::div_mod::lemma_fundamental_div_mod(i, d);
    assert(0 <= i % d < d);
    assert(row(w, i) == i / d);
    assert((i / d) * d == d * (i / d)) by (nonlinear_arith);
    assert(0 <= i / d < h) by (nonlinear_arith)
        requires
            0 <= i < d * h,
            d > 0,
            i == d * (i / d) + (i % d),
            0 <= i % d < d,
    ;
}

fn init_puzzle(width: usize, height: usize) -> (puzzle_vec: Vec<char>)
    requires
        width >= 2,
        (width + 1) * height <= usize::MAX,
    ensures
        puzzle_vec@.len() == (width + 1) * height,
        forall|i: int| 0 <= i < puzzle_vec@.len() ==> #[trigger] puzzle_vec@[i] == blank_char(width as nat, height as nat, i),
{
    let ghost (w, h) = (width as nat, height as nat);
    let mut puzzle_vec: Vec<char> = Vec::new();
    let mut y: usize = 0;
    while y < height
        invariant
            y <= height,
            width >= 2,
            w == width,
            h == height,
            (width + 1) * height <= usize::MAX,
            puzzle_vec@.len() == y * (w + 1),
            forall|i: int| 0 <= i < puzzle_vec@.len() ==> #[trigger] puzzle_vec@[i] == blank_char(w, h, i),
        decreases height - y,
    {
        let mut x: usize = 0;
        while x < width
            invariant
                y < height,
                x <= width,
                width >= 2,
                w == width,
                h == height,
                puzzle_vec@.len() == y * (w + 1) + x,
                forall|i: int| 0 <= i < puzzle_vec@.len() ==> #[trigger] puzzle_vec@[i] == blank_char(w, h, i),
            decreases width - x,
        {
            proof {
                lemma_cell_of(w, h, x as int, y as int);
            }
            if x == 0 || x == width - 1 || y == 0 || y == height - 1 {
                puzzle_vec.push('#');
            } else {
                puzzle_vec.push(' ');
            }
            x = x + 1;
        }
        proof {
            lemma_cell_of(w, h, width as int, y as int);
            assert((y + 1) * (w + 1) == y * (w + 1) + w + 1) by (nonlinear_arith);
        }
        puzzle_vec.push('\n');
        y = y + 1;
    }
    assert(height * (w + 1) == (width + 1) * height) by (nonlinear_arith)
        requires
            w == width,
    ;
    puzzle_vec
}


/// The tile a character of a generated text stands for (floor for anything
/// else).
pub open spec fn tile_of(c: char) -> Tile {
    match char_tile(c) {
        Some(t) => t,
        None => Tile::Floor,
    }
}

/// Cell `(x, y)` of tiles stored row by row, `w` to a row.
pub open spec fn grid_at(data: Seq<Tile>, w: nat, x: int, y: int) -> Tile {
    data[y * w + x]
}

/// Cell `(x, y)` of a puzzle text whose rows are `w` cells and a newline.
pub open spec fn text_at(v: Seq<char>, w: nat, x: int, y: int) -> char {
    v[y * (w + 1) + x]
}

/// The grid `m` holds the cells of the text `v`.
pub open spec fn grid_of_text(m: TileMatrix, v: Seq<char>, w: nat, h: nat) -> bool {
    &&& m.width == w
    &&& m.data@.len() == w * h
    &&& forall|x: int, y: int| 0 <= x < w && 0 <= y < h ==> #[trigger] grid_at(m.data@, w, x, y) == tile_of(text_at(v, w, x, y))
}

/// The cells inside the outer ring.
pub open spec fn inner_points(w: nat, h: nat) -> Set<Point2D> {
    Set::new(|p: Point2D| 1 <= p.x <= w - 2 && 1 <= p.y <= h - 2)
}

/// The point of position `i` of the text.
pub open spec fn text_point(w: nat, i: int) -> Point2D {
    Point2D { x: col(w, i) as usize, y: row(w, i) as usize }
}

/// The positions below `k` of inner cells, in order.
pub open spec fn inner_upto(w: nat, h: nat, k: int) -> Seq<int>
    decreases k,
{
    if k <= 0 {
        Seq::empty()
    } else if inner_cell(w, h, k - 1) {
        inner_upto(w, h, k - 1).push(k - 1)
    } else {
        inner_upto(w, h, k - 1)
    }
}

/// Positions that are no inner cells add nothing.
proof fn lemma_inner_skip(w: nat, h: nat, a: int, b: int)
    requires
        0 <= a <= b,
        forall|i: int| a <= i < b ==> !#[trigger] inner_cell(w, h, i),
    ensures
        inner_upto(w, h, b) == inner_upto(w, h, a),
    decreases b - a,
{
    if a < b {
        lemma_inner_skip(w, h, a, b - 1);
        assert(!inner_cell(w, h, b - 1));
    }
}

/// The positions of all inner cells, row by row.
fn free_cells(width: usize, height: usize) -> (free: Vec<usize>)
    requires
        width >= 3,
        height >= 3,
        (width + 1) * height <= usize::MAX,
    ensures
        free@.len() == (width - 2) * (height - 2),
        free@.no_duplicates(),
        forall|k: int| 0 <= k < free@.len() ==> inner_cell(width as nat, height as nat, #[trigger] free@[k] as int),
        free@.len() == inner_upto(width as nat, height as nat, (width + 1) * height).len(),
        forall|k: int|
            0 <= k < free@.len() ==> #[trigger] free@[k] as int == inner_upto(width as nat, height as nat, (width + 1) * height)[k],
{
    let ghost (w, h) = (width as nat, height as nat);
    let mut free: Vec<usize> = Vec::new();
    proof {
        assert forall|i: int| 0 <= i < w + 2 implies !#[trigger] inner_cell(w, h, i) by {
            if 0 <= i < (w + 1) * h {
                lemma_cell_split(w, h, i);
                if row(w, i) >= 1 && col(w, i) >= 1 {
                    assert(row(w, i) * (w + 1) >= w + 1) by (nonlinear_arith)
                        requires
                            row(w, i) >= 1,
                            w >= 0,
                    ;
                }
            }
        }
        lemma_inner_skip(w, h, 0, (w + 2) as int);
    }
    let mut y: usize = 1;
    while y + 1 < height
        invariant
            1 <= y <= height - 1,
            w == width,
            h == height,
            width >= 3,
            (width + 1) * height <= usize::MAX,
            free@.len() == (y - 1) * (w - 2),
            forall|a: int, b: int| 0 <= a < b < free@.len() ==> free@[a] < free@[b],
            forall|k: int| 0 <= k < free@.len() ==> #[trigger] free@[k] < y * (w + 1),
            forall|k: int| 0 <= k < free@.len() ==> inner_cell(w, h, #[trigger] free@[k] as int),
            free@.len() == inner_upto(w, h, y * (w + 1) + 1).len(),
            forall|k: int| 0 <= k < free@.len() ==> #[trigger] free@[k] as int == inner_upto(w, h, y * (w + 1) + 1)[k],
        decreases height - y,
    {
        let mut x: usize = 1;
        while x + 1 < width
            invariant
                1 <= y < height - 1,
                1 <= x <= width - 1,
                w == width,
                h == height,
                width >= 3,
                (width + 1) * height <= usize::MAX,
                free@.len() == (y - 1) * (w - 2) + (x - 1),
                forall|a: int, b: int| 0 <= a < b < free@.len() ==> free@[a] < free@[b],
                forall|k: int| 0 <= k < free@.len() ==> #[trigger] free@[k] < y * (w + 1) + x,
                forall|k: int| 0 <= k < free@.len() ==> inner_cell(w, h, #[trigger] free@[k] as int),
                free@.len() == inner_upto(w, h, y * (w + 1) + x).len(),
                forall|k: int| 0 <= k < free@.len() ==> #[trigger] free@[k] as int == inner_upto(w, h, y * (w + 1) + x)[k],
            decreases width - x,
        {
            proof {
                lemma_cell_of(w, h, x as int, y as int);
                assert(width + 1 <= (width + 1) * height) by (nonlinear_arith)
                    requires
                        height >= 1,
                ;
            }
            let ghost pre = free@;
            free.push(y * (width + 1) + x);
            proof {
                assert forall|k: int| 0 <= k < free@.len() implies inner_cell(w, h, #[trigger] free@[k] as int) by {
                    if k < pre.len() {
                        assert(free@[k] == pre[k]);
                    }
                }
                let pos = y * (w + 1) + x;
                assert(inner_cell(w, h, pos));
                assert(inner_upto(w, h, pos + 1) == inner_upto(w, h, pos).push(pos));
                assert forall|k: int| 0 <= k < free@.len() implies #[trigger] free@[k] as int == inner_upto(w, h, pos + 1)[k] by {
                    if k < pre.len() {
                        assert(free@[k] == pre[k]);
                    }
                }
            }
            x = x + 1;
        }
        proof {
            assert((y - 1) * (w - 2) + (w - 2) == y * (w - 2)) by (nonlinear_arith);
            assert(y * (w + 1) + w - 1 <= (y + 1) * (w + 1)) by (nonlinear_arith);
            let a0 = y * (w + 1) + w - 1;
            assert((y + 1) * (w + 1) + 1 == a0 + 3) by (nonlinear_arith)
                requires
                    a0 == y * (w + 1) + w - 1,
            ;
            lemma_cell_of(w, h, w - 1, y as int);
            lemma_cell_of(w, h, w as int, y as int);
            lemma_cell_of(w, h, 0, y + 1);
            assert((y + 1) * (w + 1) + 0 == a0 + 2) by (nonlinear_arith)
                requires
                    a0 == y * (w + 1) + w - 1,
            ;
            assert forall|i: int| a0 <= i < a0 + 3 implies !#[trigger] inner_cell(w, h, i) by {
                if i == a0 + 1 {
                    assert(i == y * (w + 1) + w);
                }
            }
            lemma_inner_skip(w, h, a0, a0 + 3);
        }
        y = y + 1;
    }
    proof {
        let a0 = (h - 1) * (w + 1) + 1;
        assert(a0 <= (w + 1) * h) by (nonlinear_arith)
            requires
                a0 == (h - 1) * (w + 1) + 1,
                w >= 3,
        ;
        assert forall|i: int| a0 <= i < (w + 1) * h implies !#[trigger] inner_cell(w, h, i) by {
            lemma_cell_split(w, h, i);
            if row(w, i) <= h - 2 {
                assert(row(w, i) * (w + 1) + col(w, i) <= (h - 2) * (w + 1) + w) by (nonlinear_arith)
                    requires
                        row(w, i) <= h - 2,
                        col(w, i) <= w,
                        row(w, i) >= 0,
                ;
                assert((h - 2) * (w + 1) + w < a0) by (nonlinear_arith)
                    requires
                        a0 == (h - 1) * (w + 1) + 1,
                ;
            }
        }
        lemma_inner_skip(w, h, a0, ((w + 1) * h) as int);
        assert((h - 2) * (w - 2) == (width - 2) * (height - 2)) by (nonlinear_arith)
            requires
                w == width,
                h == height,
        ;
        assert forall|a: int, b: int| 0 <= a < free@.len() && 0 <= b < free@.len() && a != b implies free@[a] != free@[b] by {
            if a < b {
                assert(free@[a] < free@[b]);
            } else {
                assert(free@[b] < free@[a]);
            }
        }
    }
    free
}

/// The grid of a puzzle text whose rows are `width` cells and a newline.
fn text_grid(v: &Vec<char>, width: usize, height: usize) -> (m: TileMatrix)
    requires
        v@.len() == (width + 1) * height,
        (width + 1) * height <= usize::MAX,
    ensures
        grid_of_text(m, v@, width as nat, height as nat),
{
    let ghost (w, h) = (width as nat, height as nat);
    let mut data: Vec<Tile> = Vec::new();
    let mut y: usize = 0;
    while y < height
        invariant
            y <= height,
            w == width,
            h == height,
            v@.len() == (width + 1) * height,
            (width + 1) * height <= usize::MAX,
            data@.len() == y * w,
            forall|a: int, b: int| 0 <= a < w && 0 <= b < y ==> #[trigger] grid_at(data@, w, a, b) == tile_of(text_at(v@, w, a, b)),
        decreases height - y,
    {
        let mut x: usize = 0;
        while x < width
            invariant
                y < height,
                x <= width,
                w == width,
                h == height,
                v@.len() == (width + 1) * height,
                (width + 1) * height <= usize::MAX,
                data@.len() == y * w + x,
                forall|a: int, b: int|
                    0 <= a < w && 0 <= b < y + 1 && (b < y || a < x) ==> #[trigger] grid_at(data@, w, a, b) == tile_of(
                        text_at(v@, w, a, b),
                    ),
            decreases width - x,
        {
            proof {
                lemma_cell_of(w, h, x as int, y as int);
                assert(width + 1 <= (width + 1) * height) by (nonlinear_arith)
                    requires
                        height >= 1,
                ;
            }
            let c = v[y * (width + 1) + x];
            let t = if c == '#' {
                Tile::Wall
            } else if c == '@' {
                Tile::Player
            } else if c == '+' {
                Tile::PlayerGoal
            } else if c == '$' {
                Tile::Crate
            } else if c == '*' {
                Tile::CrateGoal
            } else if c == '.' {
                Tile::Goal
            } else {
                Tile::Floor
            };
            let ghost pre = data@;
            data.push(t);
            proof {
                assert forall|a: int, b: int|
                    0 <= a < w && 0 <= b < y + 1 && (b < y || a < x + 1) implies #[trigger] grid_at(data@, w, a, b)
                        == tile_of(text_at(v@, w, a, b)) by {
                    if b < y || a < x {
                        assert(b * w + a < y * w + x) by (nonlinear_arith)
                            requires
                                0 <= a < w,
                                0 <= b <= y,
                                b < y || a < x,
                        {
                            if b < y {
                                assert(b * w + w <= y * w);
                            }
                        }
                        assert(0 <= b * w + a) by (nonlinear_arith)
                            requires
                                0 <= a,
                                0 <= b,
                                0 <= w,
                        ;
                        assert(grid_at(data@, w, a, b) == grid_at(pre, w, a, b));
                    }
                }
            }
            x = x + 1;
        }
        proof {
            assert(y * w + w == (y + 1) * w) by (nonlinear_arith);
        }
        y = y + 1;
    }
    proof {
        assert(height * w == w * height) by (nonlinear_arith);
    }
    TileMatrix { width, data }
}

/// The cells inside the outer walls of a generated puzzle form an enclosure.
proof fn lemma_text_enclosure(v: Seq<char>, w: nat, h: nat, m: TileMatrix)
    requires
        w >= 3,
        h >= 3,
        framed(v, w, h),
        grid_of_text(m, v, w, h),
    ensures
        is_enclosure(m, inner_points(w, h)),
{
    let s = inner_points(w, h);
    assert forall|p: Point2D, d: Action| #![trigger s.contains(p), step(p, d)] s.contains(p) implies interior(m, p) && (is_dir(
        d,
    ) && m.tile(step(p, d)) != Tile::Wall ==> s.contains(step(p, d))) by {
        let (x, y) = (p.x as int, p.y as int);
        assert(y * w + x + w + 1 < w * h) by (nonlinear_arith)
            requires
                1 <= x <= w - 2,
                1 <= y <= h - 2,
        {
            assert(y * w + w <= (h - 1) * w);
            assert((h - 1) * w + w == w * h);
        }
        if is_dir(d) && m.tile(step(p, d)) != Tile::Wall {
            let q = step(p, d);
            let (qx, qy) = (q.x as int, q.y as int);
            assert(0 <= qx < w && 0 <= qy < h);
            assert(grid_at(m.data@, w, qx, qy) == tile_of(text_at(v, w, qx, qy)));
            assert(m.tile(q) == grid_at(m.data@, w, qx, qy));
            lemma_cell_of(w, h, qx, qy);
            if on_border(w, h, qx, qy) {
                let i = qy * (w + 1) + qx;
                assert(!inner_cell(w, h, i));
                assert(v[i] == blank_char(w, h, i));
            }
        }
    }
}


/// The character of inner position `i` once goals are at `gs`, inner walls
/// at `ws`, crates at `cs` and the player at `pc` (a negative `pc` for no
/// player yet).
pub open spec fn placed_char(i: int, gs: Seq<int>, ws: Seq<int>, cs: Seq<int>, pc: int) -> char {
    if ws.contains(i) {
        '#'
    } else if cs.contains(i) {
        '$'
    } else if i == pc {
        if gs.contains(i) {
            '+'
        } else {
            '@'
        }
    } else if gs.contains(i) {
        '.'
    } else {
        ' '
    }
}

/// `v` is a `w` by `h` puzzle text with outer walls whose inner cells hold
/// goals at `gs`, walls at `ws`, crates at `cs` and the player at `pc`:
/// distinct inner cells, no crate or wall on a goal, and floor elsewhere.
pub open spec fn laid_out(v: Seq<char>, w: nat, h: nat, gs: Seq<int>, ws: Seq<int>, cs: Seq<int>, pc: int) -> bool {
    &&& framed(v, w, h)
    &&& forall|i: int| 0 <= i < v.len() && inner_cell(w, h, i) ==> #[trigger] v[i] == placed_char(i, gs, ws, cs, pc)
    &&& forall|k: int| 0 <= k < gs.len() ==> inner_cell(w, h, #[trigger] gs[k])
    &&& forall|k: int| 0 <= k < ws.len() ==> inner_cell(w, h, #[trigger] ws[k])
    &&& forall|k: int| 0 <= k < cs.len() ==> inner_cell(w, h, #[trigger] cs[k])
    &&& gs.no_duplicates()
    &&& ws.no_duplicates()
    &&& cs.no_duplicates()
    &&& forall|k: int| 0 <= k < gs.len() ==> !ws.contains(#[trigger] gs[k]) && !cs.contains(gs[k])
    &&& forall|k: int| 0 <= k < ws.len() ==> !cs.contains(#[trigger] ws[k])
}

/// The goal points of the goal positions `gs`.
pub open spec fn goal_points_at(w: nat, gs: Seq<int>) -> Seq<Point2D> {
    Seq::new(gs.len(), |k: int| text_point(w, gs[k]))
}

/// A crate at `p` can be pulled onto one of the goals `gp` of the grid `m`.
pub open spec fn pullable(m: TileMatrix, gp: Seq<Point2D>, p: Point2D) -> bool {
    exists|j: int| 0 <= j < gp.len() && #[trigger] pull_reach(m, gp[j]).contains(p)
}

/// Position `i` is floor from which a crate can still be pulled onto one of
/// the goals `gp` of the grid `m`.
pub open spec fn live_floor(v: Seq<char>, w: nat, m: TileMatrix, gp: Seq<Point2D>, i: int) -> bool {
    v[i] == ' ' && pullable(m, gp, text_point(w, i))
}

/// The positions below `k` that are live floor, in order.
pub open spec fn live_positions(v: Seq<char>, w: nat, m: TileMatrix, gp: Seq<Point2D>, k: int) -> Seq<int>
    decreases k,
{
    if k <= 0 {
        Seq::empty()
    } else if live_floor(v, w, m, gp, k - 1) {
        live_positions(v, w, m, gp, k - 1).push(k - 1)
    } else {
        live_positions(v, w, m, gp, k - 1)
    }
}

/// The generated puzzle text `v` of width `w` and height `h`: goals and
/// walls first, then crates on live floor, then the player.
pub open spec fn generated(v: Seq<char>, w: nat, h: nat, goal_num: nat, wall_num: nat) -> bool {
    exists|gs: Seq<int>, ws: Seq<int>, cs: Seq<int>, pc: int|
        #![trigger laid_out(v, w, h, gs, ws, cs, pc)]
        laid_out(v, w, h, gs, ws, cs, pc) && gs.len() == goal_num && ws.len() == wall_num && cs.len() == goal_num
            && inner_cell(w, h, pc) && !ws.contains(pc) && !cs.contains(pc) && forall|m: TileMatrix, k: int|
            #[trigger] grid_of_text(m, v, w, h) && 0 <= k < cs.len() ==> pullable(m, goal_points_at(w, gs), text_point(w, #[trigger] cs[k]))
}

/// What is left of `list` once entry `ds[0]` is taken out, then entry
/// `ds[1]` of what remains, and so on.
pub open spec fn left_after(list: Seq<int>, ds: Seq<int>) -> Seq<int>
    decreases ds.len(),
{
    if ds.len() == 0 {
        list
    } else {
        left_after(list, ds.drop_last()).remove(ds.last())
    }
}

/// The entries of `list` that those draws take out, in order.
pub open spec fn picks(list: Seq<int>, ds: Seq<int>) -> Seq<int>
    decreases ds.len(),
{
    if ds.len() == 0 {
        Seq::empty()
    } else {
        picks(list, ds.drop_last()).push(left_after(list, ds.drop_last())[ds.last()])
    }
}

/// Each draw names an entry of what is left of `list` when it is made.
pub open spec fn draws_fit(list: Seq<int>, ds: Seq<int>) -> bool {
    forall|k: int| 0 <= k < ds.len() ==> 0 <= #[trigger] ds[k] < list.len() - k
}

/// The `w` by `h` puzzle text with outer walls whose inner cells hold goals
/// at `gs`, walls at `ws`, crates at `cs` and the player at `pc`.
pub open spec fn text_of(w: nat, h: nat, gs: Seq<int>, ws: Seq<int>, cs: Seq<int>, pc: int) -> Seq<char> {
    Seq::new(
        ((w + 1) * h) as nat,
        |i: int|
            if inner_cell(w, h, i) {
                placed_char(i, gs, ws, cs, pc)
            } else {
                blank_char(w, h, i)
            },
    )
}

/// The positions below `k` of `v` that hold floor or a goal, in order.
pub open spec fn spots_upto(v: Seq<char>, k: int) -> Seq<int>
    decreases k,
{
    if k <= 0 {
        Seq::empty()
    } else if v[k - 1] == ' ' || v[k - 1] == '.' {
        spots_upto(v, k - 1).push(k - 1)
    } else {
        spots_upto(v, k - 1)
    }
}

/// The inner cells of a `w` by `h` puzzle text, row by row: what goals and
/// walls are drawn from.
pub open spec fn inner_positions(w: nat, h: nat) -> Seq<int> {
    inner_upto(w, h, ((w + 1) * h) as int)
}

/// The goals that the first `goal_num` draws `ds` place.
pub open spec fn drawn_goals(w: nat, h: nat, goal_num: nat, ds: Seq<int>) -> Seq<int> {
    picks(inner_positions(w, h), ds.take(goal_num as int))
}

/// The inner cells left once the goals are drawn.
pub open spec fn cells_after_goals(w: nat, h: nat, goal_num: nat, ds: Seq<int>) -> Seq<int> {
    left_after(inner_positions(w, h), ds.take(goal_num as int))
}

/// The walls that the next `wall_num` draws place.
pub open spec fn drawn_walls(w: nat, h: nat, goal_num: nat, wall_num: nat, ds: Seq<int>) -> Seq<int> {
    picks(cells_after_goals(w, h, goal_num, ds), ds.subrange(goal_num as int, (goal_num + wall_num) as int))
}

/// The text once goals and walls are placed.
pub open spec fn bare_text(w: nat, h: nat, goal_num: nat, wall_num: nat, ds: Seq<int>) -> Seq<char> {
    text_of(w, h, drawn_goals(w, h, goal_num, ds), drawn_walls(w, h, goal_num, wall_num, ds), Seq::empty(), -1)
}

/// The floor cells of that text from which a crate can be pulled onto a
/// goal, in order: what crates are drawn from.
pub open spec fn live_cells(w: nat, h: nat, goal_num: nat, wall_num: nat, ds: Seq<int>) -> Seq<int> {
    let v = bare_text(w, h, goal_num, wall_num, ds);
    live_positions(
        v,
        w,
        choose|m: TileMatrix| grid_of_text(m, v, w, h),
        goal_points_at(w, drawn_goals(w, h, goal_num, ds)),
        v.len() as int,
    )
}

/// The crates that the next `goal_num` draws place.
pub open spec fn drawn_crates(w: nat, h: nat, goal_num: nat, wall_num: nat, ds: Seq<int>) -> Seq<int> {
    picks(live_cells(w, h, goal_num, wall_num, ds), ds.subrange((goal_num + wall_num) as int, (2 * goal_num + wall_num) as int))
}

/// The text once goals, walls and crates are placed.
pub open spec fn filled_text(w: nat, h: nat, goal_num: nat, wall_num: nat, ds: Seq<int>) -> Seq<char> {
    text_of(
        w,
        h,
        drawn_goals(w, h, goal_num, ds),
        drawn_walls(w, h, goal_num, wall_num, ds),
        drawn_crates(w, h, goal_num, wall_num, ds),
        -1,
    )
}

/// The cells of that text that the player is drawn from: floor and goals.
pub open spec fn player_spots(w: nat, h: nat, goal_num: nat, wall_num: nat, ds: Seq<int>) -> Seq<int> {
    let v = filled_text(w, h, goal_num, wall_num, ds);
    spots_upto(v, v.len() as int)
}

/// The puzzle text that the draws `ds` make: `None` when fewer live floor
/// cells than goals are left for the crates.
pub open spec fn layout_from_draws(w: nat, h: nat, goal_num: nat, wall_num: nat, ds: Seq<int>) -> Option<Seq<char>> {
    if live_cells(w, h, goal_num, wall_num, ds).len() < goal_num {
        None
    } else {
        Some(
            text_of(
                w,
                h,
                drawn_goals(w, h, goal_num, ds),
                drawn_walls(w, h, goal_num, wall_num, ds),
                drawn_crates(w, h, goal_num, wall_num, ds),
                player_spots(w, h, goal_num, wall_num, ds)[ds[(2 * goal_num + wall_num) as int]],
            ),
        )
    }
}

/// The draws of a generation, each below the number of cells it chose
/// among: goals, walls, then (when they fit) crates and the player.
pub open spec fn draws_in_range(w: nat, h: nat, goal_num: nat, wall_num: nat, ds: Seq<int>) -> bool {
    &&& ds.len() >= goal_num + wall_num
    &&& draws_fit(inner_positions(w, h), ds.take(goal_num as int))
    &&& draws_fit(cells_after_goals(w, h, goal_num, ds), ds.subrange(goal_num as int, (goal_num + wall_num) as int))
    &&& if live_cells(w, h, goal_num, wall_num, ds).len() < goal_num {
        ds.len() == goal_num + wall_num
    } else {
        &&& ds.len() == 2 * goal_num + wall_num + 1
        &&& draws_fit(live_cells(w, h, goal_num, wall_num, ds), ds.subrange((goal_num + wall_num) as int, (2 * goal_num + wall_num) as int))
        &&& 0 <= ds[(2 * goal_num + wall_num) as int] < player_spots(w, h, goal_num, wall_num, ds).len()
    }
}

/// One more draw takes entry `k` of what is left.
proof fn lemma_draw_step(list: Seq<int>, ds: Seq<int>, k: int)
    ensures
        left_after(list, ds.push(k)) == left_after(list, ds).remove(k),
        picks(list, ds.push(k)) == picks(list, ds).push(left_after(list, ds)[k]),
        draws_fit(list, ds) && 0 <= k < list.len() - ds.len() ==> draws_fit(list, ds.push(k)),
{
    let e = ds.push(k);
    assert(e.drop_last() =~= ds);
    assert(e.last() == k);
    if draws_fit(list, ds) && 0 <= k < list.len() - ds.len() {
        assert forall|j: int| 0 <= j < e.len() implies 0 <= #[trigger] e[j] < list.len() - j by {
            if j < ds.len() {
                assert(e[j] == ds[j]);
            }
        }
    }
}

/// Taking entry `k` out of a list of cells and out of the list it matches.
proof fn lemma_remove_matches(pre: Seq<usize>, post: Seq<usize>, l: Seq<int>, k: int)
    requires
        0 <= k < pre.len(),
        post == pre.remove(k),
        pre.len() == l.len(),
        forall|j: int| 0 <= j < pre.len() ==> #[trigger] pre[j] as int == l[j],
    ensures
        post.len() == l.remove(k).len(),
        forall|j: int| 0 <= j < post.len() ==> #[trigger] post[j] as int == l.remove(k)[j],
{
    assert forall|j: int| 0 <= j < post.len() implies #[trigger] post[j] as int == l.remove(k)[j] by {
        if j < k {
            assert(post[j] == pre[j]);
        } else {
            assert(post[j] == pre[j + 1]);
        }
    }
}

/// A laid out text is the text of its pieces.
proof fn lemma_text_of(v: Seq<char>, w: nat, h: nat, gs: Seq<int>, ws: Seq<int>, cs: Seq<int>, pc: int)
    requires
        laid_out(v, w, h, gs, ws, cs, pc),
    ensures
        v == text_of(w, h, gs, ws, cs, pc),
{
    let t = text_of(w, h, gs, ws, cs, pc);
    assert forall|i: int| 0 <= i < v.len() implies v[i] == t[i] by {
        if inner_cell(w, h, i) {
            assert(v[i] == placed_char(i, gs, ws, cs, pc));
        } else {
            assert(v[i] == blank_char(w, h, i));
        }
    }
    assert(v =~= t);
}

/// Two grids that pull crates alike leave the same live floor.
proof fn lemma_live_same(v: Seq<char>, w: nat, m1: TileMatrix, m2: TileMatrix, gp: Seq<Point2D>, k: int)
    requires
        forall|p: Point2D| #[trigger] pull_reach(m1, p) == pull_reach(m2, p),
    ensures
        live_positions(v, w, m1, gp, k) == live_positions(v, w, m2, gp, k),
    decreases k,
{
    if k > 0 {
        lemma_live_same(v, w, m1, m2, gp, k - 1);
        let p = text_point(w, k - 1);
        if pullable(m1, gp, p) {
            let j = choose|j: int| 0 <= j < gp.len() && #[trigger] pull_reach(m1, gp[j]).contains(p);
            assert(pull_reach(m2, gp[j]) == pull_reach(m1, gp[j]));
        }
        if pullable(m2, gp, p) {
            let j = choose|j: int| 0 <= j < gp.len() && #[trigger] pull_reach(m2, gp[j]).contains(p);
            assert(pull_reach(m2, gp[j]) == pull_reach(m1, gp[j]));
        }
        assert(live_floor(v, w, m1, gp, k - 1) == live_floor(v, w, m2, gp, k - 1));
    }
}

/// The live cells of the draws are those of any grid of their text.
proof fn lemma_live_cells(w: nat, h: nat, goal_num: nat, wall_num: nat, ds: Seq<int>, tm: TileMatrix)
    requires
        w >= 1,
        (w + 1) * h <= usize::MAX,
        grid_of_text(tm, bare_text(w, h, goal_num, wall_num, ds), w, h),
    ensures
        live_cells(w, h, goal_num, wall_num, ds) == live_positions(
            bare_text(w, h, goal_num, wall_num, ds),
            w,
            tm,
            goal_points_at(w, drawn_goals(w, h, goal_num, ds)),
            bare_text(w, h, goal_num, wall_num, ds).len() as int,
        ),
{
    let v = bare_text(w, h, goal_num, wall_num, ds);
    let m = choose|m: TileMatrix| grid_of_text(m, v, w, h);
    assert(grid_of_text(m, v, w, h));
    lemma_same_walls_text(v, v, w, h, tm);
    assert forall|p: Point2D| #[trigger] pull_reach(m, p) == pull_reach(tm, p) by {}
    lemma_live_same(v, w, m, tm, goal_points_at(w, drawn_goals(w, h, goal_num, ds)), v.len() as int);
}

/// The first draws give the goals, the walls and the live cells that the
/// loops of a generation found.
proof fn lemma_draws_so_far(
    w: nat,
    h: nat,
    goal_num: nat,
    wall_num: nat,
    ds: Seq<int>,
    dg: Seq<int>,
    dw: Seq<int>,
    gs: Seq<int>,
    ws: Seq<int>,
    v: Seq<char>,
    tm: TileMatrix,
)
    requires
        dg.len() == goal_num,
        dw.len() == wall_num,
        ds.len() >= goal_num + wall_num,
        ds.take((goal_num + wall_num) as int) == dg + dw,
        gs == picks(inner_positions(w, h), dg),
        ws == picks(left_after(inner_positions(w, h), dg), dw),
        laid_out(v, w, h, gs, ws, Seq::empty(), -1),
        grid_of_text(tm, v, w, h),
        w >= 1,
        (w + 1) * h <= usize::MAX,
    ensures
        ds.take(goal_num as int) == dg,
        ds.subrange(goal_num as int, (goal_num + wall_num) as int) == dw,
        drawn_goals(w, h, goal_num, ds) == gs,
        cells_after_goals(w, h, goal_num, ds) == left_after(inner_positions(w, h), dg),
        drawn_walls(w, h, goal_num, wall_num, ds) == ws,
        bare_text(w, h, goal_num, wall_num, ds) == v,
        live_cells(w, h, goal_num, wall_num, ds) == live_positions(v, w, tm, goal_points_at(w, gs), v.len() as int),
{
    let t = ds.take((goal_num + wall_num) as int);
    assert forall|i: int| 0 <= i < goal_num implies ds.take(goal_num as int)[i] == dg[i] by {
        assert(t[i] == (dg + dw)[i]);
    }
    assert(ds.take(goal_num as int) =~= dg);
    assert forall|i: int| 0 <= i < wall_num implies ds.subrange(goal_num as int, (goal_num + wall_num) as int)[i] == dw[i] by {
        assert(t[goal_num + i] == (dg + dw)[(goal_num + i) as int]);
    }
    assert(ds.subrange(goal_num as int, (goal_num + wall_num) as int) =~= dw);
    lemma_text_of(v, w, h, gs, ws, Seq::empty(), -1);
    lemma_live_cells(w, h, goal_num, wall_num, ds, tm);
}

/// All the draws of a generation that placed its crates give the text it
/// made.
proof fn lemma_draws_done(
    w: nat,
    h: nat,
    goal_num: nat,
    wall_num: nat,
    ds: Seq<int>,
    dg: Seq<int>,
    dw: Seq<int>,
    dc: Seq<int>,
    kp: int,
    gs: Seq<int>,
    ws: Seq<int>,
    cs: Seq<int>,
    pc: int,
    vb: Seq<char>,
    tm: TileMatrix,
    vf: Seq<char>,
    v: Seq<char>,
)
    requires
        dg.len() == goal_num,
        dw.len() == wall_num,
        dc.len() == goal_num,
        ds == dg + dw + dc.push(kp),
        gs == picks(inner_positions(w, h), dg),
        ws == picks(left_after(inner_positions(w, h), dg), dw),
        laid_out(vb, w, h, gs, ws, Seq::empty(), -1),
        grid_of_text(tm, vb, w, h),
        w >= 1,
        (w + 1) * h <= usize::MAX,
        live_positions(vb, w, tm, goal_points_at(w, gs), vb.len() as int).len() >= goal_num,
        cs == picks(live_positions(vb, w, tm, goal_points_at(w, gs), vb.len() as int), dc),
        laid_out(vf, w, h, gs, ws, cs, -1),
        laid_out(v, w, h, gs, ws, cs, pc),
        0 <= kp < spots_upto(vf, vf.len() as int).len(),
        pc == spots_upto(vf, vf.len() as int)[kp],
        draws_fit(inner_positions(w, h), dg),
        draws_fit(left_after(inner_positions(w, h), dg), dw),
        draws_fit(live_positions(vb, w, tm, goal_points_at(w, gs), vb.len() as int), dc),
    ensures
        layout_from_draws(w, h, goal_num, wall_num, ds) == Some(v),
        draws_in_range(w, h, goal_num, wall_num, ds),
{
    assert(ds.take((goal_num + wall_num) as int) =~= dg + dw);
    lemma_draws_so_far(w, h, goal_num, wall_num, ds, dg, dw, gs, ws, vb, tm);
    assert(ds.subrange((goal_num + wall_num) as int, (2 * goal_num + wall_num) as int) =~= dc);
    assert(ds[(2 * goal_num + wall_num) as int] == kp);
    assert(drawn_crates(w, h, goal_num, wall_num, ds) == cs);
    lemma_text_of(vf, w, h, gs, ws, cs, -1);
    assert(filled_text(w, h, goal_num, wall_num, ds) == vf);
    lemma_text_of(v, w, h, gs, ws, cs, pc);
}

/// Makes a random `width` by `height` puzzle: walls around it, `goal_num`
/// goals and `wall_num` walls on random free cells, then (when at least
/// `goal_num` free cells can still be pulled onto a goal) `goal_num`
/// crates on random such cells and the player on a random free cell or
/// goal. Each piece goes to a cell drawn uniformly among those it may take.
/// `None` when the crates do not fit, in which case the caller retries.
/// Beside the text come the draws that were made, each the position of the
/// chosen cell in the list of those left: the text is the one those draws
/// lay out.
pub fn generate_puzzle(rng: &mut ThreadRng, width: usize, height: usize, goal_num: usize, wall_num: usize) -> (r: (
    Option<Vec<char>>,
    Ghost<Seq<int>>,
))
    requires
        width >= 3,
        height >= 3,
        (width + 1) * height <= usize::MAX,
        goal_num + wall_num <= (width - 2) * (height - 2) / 2,
    ensures
        draws_in_range(width as nat, height as nat, goal_num as nat, wall_num as nat, r.1@),
        r.0 is Some <==> layout_from_draws(width as nat, height as nat, goal_num as nat, wall_num as nat, r.1@) is Some,
        r.0 is Some ==> r.0->0@ == layout_from_draws(width as nat, height as nat, goal_num as nat, wall_num as nat, r.1@)->0,
        r.0 is Some ==> generated(r.0->0@, width as nat, height as nat, goal_num as nat, wall_num as nat),
{
    let ghost (w, h) = (width as nat, height as nat);
    let mut puzzle_vec: Vec<char> = init_puzzle(width, height);
    let mut free = free_cells(width, height);
    proof {
        assert((width - 2) * (height - 2) <= (width + 1) * height) by (nonlinear_arith)
            requires
                width >= 3,
                height >= 3,
        ;
    }
    let inner_spaces = (width - 2) * (height - 2);
    let len = puzzle_vec.len();
    proof {
        assert(width + 1 <= (width + 1) * height) by (nonlinear_arith)
            requires
                height >= 1,
        ;
        assert(inner_spaces >= 1) by (nonlinear_arith)
            requires
                width >= 3,
                height >= 3,
                inner_spaces == (width - 2) * (height - 2),
        ;
        assert forall|i: int| 0 <= i < puzzle_vec@.len() && inner_cell(w, h, i) implies #[trigger] puzzle_vec@[i]
            == placed_char(i, Seq::empty(), Seq::empty(), Seq::empty(), -1) by {
            assert(puzzle_vec@[i] == blank_char(w, h, i));
        }
    }
    let ghost mut gs: Seq<int> = Seq::empty();
    let ghost mut ws: Seq<int> = Seq::empty();
    let ghost free0 = inner_positions(w, h);
    let ghost mut dg: Seq<int> = Seq::empty();

    let mut goals: Vec<Point2D> = Vec::new();
    let mut goals_added: usize = 0;
    while goals_added < goal_num
        invariant
            w == width,
            h == height,
            width >= 3,
            height >= 3,
            (width + 1) * height <= usize::MAX,
            width + 1 <= usize::MAX,
            len == puzzle_vec@.len(),
            inner_spaces == (width - 2) * (height - 2),
            goal_num + wall_num <= inner_spaces / 2,
            goals_added <= goal_num,
            laid_out(puzzle_vec@, w, h, gs, ws, Seq::empty(), -1),
            gs.len() == goals_added,
            ws.len() == 0,
            goals@ == goal_points_at(w, gs),
            free@.len() == inner_spaces - gs.len() - ws.len(),
            free@.no_duplicates(),
            forall|k: int| 0 <= k < free@.len() ==> inner_cell(w, h, #[trigger] free@[k] as int),
            forall|k: int| 0 <= k < free@.len() ==> !gs.contains(#[trigger] free@[k] as int) && !ws.contains(free@[k] as int),
            dg.len() == goals_added,
            free0.len() == inner_spaces,
            draws_fit(free0, dg),
            gs == picks(free0, dg),
            free@.len() == left_after(free0, dg).len(),
            forall|j: int| 0 <= j < free@.len() ==> #[trigger] free@[j] as int == left_after(free0, dg)[j],
        decreases goal_num - goals_added,
    {
        let k = random_below(&mut *rng, free.len());
        let index = free[k];
        let (x, y) = (index % (width + 1), index / (width + 1));
        let ghost pre = puzzle_vec@;
        let ghost pre_free = free@;
        puzzle_vec.set(index, '.');
        goals.push(Point2D::new(x, y));
        free.remove(k);
        proof {
            lemma_place(pre, puzzle_vec@, w, h, gs, ws, Seq::empty(), -1, index as int, '.', 0);
            gs = gs.push(index as int);
            lemma_free_remove(pre_free, free@, k as int);
            lemma_remove_matches(pre_free, free@, left_after(free0, dg), k as int);
            lemma_draw_step(free0, dg, k as int);
            dg = dg.push(k as int);
            assert(goals@ =~= goal_points_at(w, gs));
        }
        goals_added = goals_added + 1;
    }

    let ghost free1 = left_after(free0, dg);
    let ghost mut dw: Seq<int> = Seq::empty();
    let mut walls_added: usize = 0;
    while walls_added < wall_num
        invariant
            w == width,
            h == height,
            width >= 3,
            height >= 3,
            (width + 1) * height <= usize::MAX,
            width + 1 <= usize::MAX,
            len == puzzle_vec@.len(),
            inner_spaces == (width - 2) * (height - 2),
            goal_num + wall_num <= inner_spaces / 2,
            walls_added <= wall_num,
            laid_out(puzzle_vec@, w, h, gs, ws, Seq::empty(), -1),
            gs.len() == goal_num,
            ws.len() == walls_added,
            goals@ == goal_points_at(w, gs),
            free@.len() == inner_spaces - gs.len() - ws.len(),
            free@.no_duplicates(),
            forall|k: int| 0 <= k < free@.len() ==> inner_cell(w, h, #[trigger] free@[k] as int),
            forall|k: int| 0 <= k < free@.len() ==> !gs.contains(#[trigger] free@[k] as int) && !ws.contains(free@[k] as int),
            dw.len() == walls_added,
            free1.len() == inner_spaces - goal_num,
            draws_fit(free1, dw),
            ws == picks(free1, dw),
            free@.len() == left_after(free1, dw).len(),
            forall|j: int| 0 <= j < free@.len() ==> #[trigger] free@[j] as int == left_after(free1, dw)[j],
        decreases wall_num - walls_added,
    {
        let k = random_below(&mut *rng, free.len());
        let index = free[k];
        let ghost pre = puzzle_vec@;
        let ghost pre_free = free@;
        puzzle_vec.set(index, '#');
        free.remove(k);
        proof {
            lemma_place(pre, puzzle_vec@, w, h, gs, ws, Seq::empty(), -1, index as int, '#', 1);
            ws = ws.push(index as int);
            lemma_free_remove(pre_free, free@, k as int);
            lemma_remove_matches(pre_free, free@, left_after(free1, dw), k as int);
            lemma_draw_step(free1, dw, k as int);
            dw = dw.push(k as int);
        }
        walls_added = walls_added + 1;
    }

    // Check all locations which can be pulled to.
    let tile_map = text_grid(&puzzle_vec, width, height);
    let ghost layout_text = puzzle_vec@;
    proof {
        lemma_text_enclosure(puzzle_vec@, w, h, tile_map);
        assert forall|j: int| 0 <= j < goals@.len() implies encloses(tile_map, #[trigger] goals@[j]) by {
            assert(inner_cell(w, h, gs[j]));
            assert(inner_points(w, h).contains(goals@[j]));
        }
    }
    let good_spaces: BitMatrix = find_simple_deadlocks(&tile_map, &goals);
    proof {
        assert(w * h <= (w + 1) * h) by (nonlinear_arith);
    }

    // the floor cells that can still be pulled onto a goal.
    let mut live: Vec<usize> = Vec::new();
    let mut i: usize = 0;
    while i < len
        invariant
            i <= len,
            len == puzzle_vec@.len(),
            puzzle_vec@ == layout_text,
            framed(layout_text, w, h),
            w == width,
            h == height,
            width >= 3,
            height >= 3,
            (width + 1) * height <= usize::MAX,
            width + 1 <= usize::MAX,
            grid_of_text(tile_map, layout_text, w, h),
            tile_map.data@.len() <= usize::MAX,
            goals@ == goal_points_at(w, gs),
            good_spaces.width == tile_map.width,
            good_spaces.bits().len() == tile_map.data@.len(),
            forall|p: Point2D|
                canonical(tile_map, p) ==> (#[trigger] good_spaces.flag(p) <==> exists|j: int|
                    0 <= j < goals@.len() && #[trigger] pull_reach(tile_map, goals@[j]).contains(p)),
            live@.len() == live_positions(layout_text, w, tile_map, goals@, i as int).len(),
            forall|k: int| 0 <= k < live@.len() ==> live@[k] as int == #[trigger] live_positions(layout_text, w, tile_map, goals@, i as int)[k],
        decreases len - i,
    {
        let ghost pre_live = live@;
        let ghost lp = live_positions(layout_text, w, tile_map, goals@, i as int);
        if puzzle_vec[i] == ' ' {
            let (x, y) = (i % (width + 1), i / (width + 1));
            proof {
                lemma_cell_split(w, h, i as int);
                assert(inner_cell(w, h, i as int)) by {
                    if !inner_cell(w, h, i as int) {
                        assert(layout_text[i as int] == blank_char(w, h, i as int));
                    }
                }
                lemma_text_point_canonical(tile_map, w, h, i as int);
                assert(Point2D { x, y } == text_point(w, i as int));
            }
            if good_spaces.get(Point2D::new(x, y)).unwrap() {
                live.push(i);
                proof {
                    assert(live_floor(layout_text, w, tile_map, goals@, i as int));
                    assert(live_positions(layout_text, w, tile_map, goals@, i + 1) == lp.push(i as int));
                    assert forall|k: int| 0 <= k < live@.len() implies live@[k] as int == #[trigger] live_positions(
                        layout_text,
                        w,
                        tile_map,
                        goals@,
                        i + 1,
                    )[k] by {
                        if k < pre_live.len() {
                            assert(live@[k] == pre_live[k]);
                        }
                    }
                }
            } else {
                proof {
                    assert(!live_floor(layout_text, w, tile_map, goals@, i as int));
                }
            }
        } else {
            proof {
                assert(!live_floor(layout_text, w, tile_map, goals@, i as int));
            }
        }
        i = i + 1;
    }

    // check if there are enough spaces for the crates to go in.
    if live.len() < goal_num {
        proof {
            assert(laid_out(layout_text, w, h, gs, ws, Seq::<int>::empty(), -1));
            assert(grid_of_text(tile_map, layout_text, w, h));
            assert(layout_text.len() == len);
        }
        let ghost ds = dg + dw;
        proof {
            assert(ds.take((goal_num + wall_num) as int) =~= dg + dw);
            lemma_draws_so_far(w, h, goal_num as nat, wall_num as nat, ds, dg, dw, gs, ws, layout_text, tile_map);
        }
        return (None, Ghost(ds));
    }
    proof {
        lemma_live_positions(layout_text, w, tile_map, goals@, len as int);
        let lp = live_positions(layout_text, w, tile_map, goals@, len as int);
        assert forall|a: int, b: int| 0 <= a < live@.len() && 0 <= b < live@.len() && a != b implies live@[a] != live@[b] by {
            assert(live@[a] as int == lp[a] && live@[b] as int == lp[b]);
        }
        assert forall|k: int| 0 <= k < live@.len() implies inner_cell(w, h, #[trigger] live@[k] as int) && !gs.contains(
            live@[k] as int,
        ) && !ws.contains(live@[k] as int) && !Seq::<int>::empty().contains(live@[k] as int) by {
            let e = lp[k];
            assert(live@[k] as int == e);
            assert(live_floor(layout_text, w, tile_map, goals@, e));
            if !inner_cell(w, h, e) {
                assert(layout_text[e] == blank_char(w, h, e));
                lemma_cell_split(w, h, e);
            }
            assert(layout_text[e] == placed_char(e, gs, ws, Seq::<int>::empty(), -1));
        }
        assert forall|k: int| 0 <= k < live@.len() implies pullable(tile_map, goals@, text_point(w, #[trigger] live@[k] as int)) by {
            let e = lp[k];
            assert(live@[k] as int == e);
            assert(live_floor(layout_text, w, tile_map, goals@, e));
        }
    }

    let ghost mut cs: Seq<int> = Seq::empty();
    let ghost live0_len = live@.len();
    let ghost live0 = live_positions(layout_text, w, tile_map, goals@, len as int);
    let ghost mut dc: Seq<int> = Seq::empty();
    let mut crates_added: usize = 0;
    while crates_added < goal_num
        invariant
            w == width,
            h == height,
            width >= 3,
            height >= 3,
            (width + 1) * height <= usize::MAX,
            len == puzzle_vec@.len(),
            layout_text.len() == len,
            crates_added <= goal_num,
            laid_out(puzzle_vec@, w, h, gs, ws, cs, -1),
            gs.len() == goal_num,
            ws.len() == wall_num,
            cs.len() == crates_added,
            goals@ == goal_points_at(w, gs),
            live@.no_duplicates(),
            live@.len() == live0_len - crates_added,
            live0_len >= goal_num,
            forall|k: int| 0 <= k < live@.len() ==> inner_cell(w, h, #[trigger] live@[k] as int) && !gs.contains(
                live@[k] as int,
            ) && !ws.contains(live@[k] as int) && !cs.contains(live@[k] as int),
            forall|k: int| 0 <= k < live@.len() ==> pullable(tile_map, goals@, text_point(w, #[trigger] live@[k] as int)),
            forall|k: int| 0 <= k < cs.len() ==> pullable(tile_map, goals@, text_point(w, #[trigger] cs[k])),
            forall|t: int| 0 <= t < len ==> (#[trigger] puzzle_vec@[t] == '#') == (layout_text[t] == '#'),
            free@.len() == inner_spaces - gs.len() - ws.len(),
            inner_spaces == (width - 2) * (height - 2),
            goal_num + wall_num <= inner_spaces / 2,
            inner_spaces >= 1,
            forall|k: int| 0 <= k < free@.len() ==> inner_cell(w, h, #[trigger] free@[k] as int),
            forall|k: int| 0 <= k < free@.len() ==> !gs.contains(#[trigger] free@[k] as int) && !ws.contains(free@[k] as int),
            goal_num == 0 ==> cs.len() == 0,
            dc.len() == crates_added,
            live0.len() == live0_len,
            draws_fit(live0, dc),
            cs == picks(live0, dc),
            live@.len() == left_after(live0, dc).len(),
            forall|j: int| 0 <= j < live@.len() ==> #[trigger] live@[j] as int == left_after(live0, dc)[j],
        decreases goal_num - crates_added,
    {
        let k = random_below(&mut *rng, live.len());
        let index = live[k];
        let ghost pre = puzzle_vec@;
        let ghost pre_live = live@;
        assert(pre[index as int] != '#') by {
            assert(pre[index as int] == placed_char(index as int, gs, ws, cs, -1));
        }
        puzzle_vec.set(index, '$');
        live.remove(k);
        proof {
            lemma_place(pre, puzzle_vec@, w, h, gs, ws, cs, -1, index as int, '$', 2);
            let old_cs = cs;
            cs = cs.push(index as int);
            lemma_free_remove(pre_live, live@, k as int);
            lemma_remove_matches(pre_live, live@, left_after(live0, dc), k as int);
            lemma_draw_step(live0, dc, k as int);
            dc = dc.push(k as int);
            assert forall|kk: int| 0 <= kk < live@.len() implies inner_cell(w, h, #[trigger] live@[kk] as int) && !gs.contains(
                live@[kk] as int,
            ) && !ws.contains(live@[kk] as int) && !cs.contains(live@[kk] as int) by {
                let kk0 = if kk < k { kk } else { kk + 1 };
                assert(live@[kk] == pre_live[kk0]);
                lemma_push_contains(old_cs, index as int, live@[kk] as int);
            }
            assert forall|kk: int| 0 <= kk < live@.len() implies pullable(tile_map, goals@, text_point(w, #[trigger] live@[kk] as int)) by {
                let kk0 = if kk < k { kk } else { kk + 1 };
                assert(live@[kk] == pre_live[kk0]);
            }
            assert forall|kk: int| 0 <= kk < cs.len() implies pullable(tile_map, goals@, text_point(w, #[trigger] cs[kk])) by {
                if kk < old_cs.len() {
                    assert(cs[kk] == old_cs[kk]);
                } else {
                    assert(cs[kk] == pre_live[k as int] as int);
                }
            }
            assert forall|kk: int| 0 <= kk < free@.len() implies !gs.contains(#[trigger] free@[kk] as int) && !ws.contains(
                free@[kk] as int,
            ) by {}
        }
        crates_added = crates_added + 1;
    }

    // the player goes to a free cell or a goal.
    let mut spots: Vec<usize> = Vec::new();
    let mut i: usize = 0;
    while i < len
        invariant
            i <= len,
            len == puzzle_vec@.len(),
            forall|k: int| 0 <= k < spots@.len() ==> #[trigger] spots@[k] < len && (puzzle_vec@[spots@[k] as int] == ' '
                || puzzle_vec@[spots@[k] as int] == '.'),
            forall|t: int| 0 <= t < i && (puzzle_vec@[t] == ' ' || puzzle_vec@[t] == '.') ==> #[trigger] spots@.contains(
                t as usize,
            ),
            spots@.len() == spots_upto(puzzle_vec@, i as int).len(),
            forall|j: int| 0 <= j < spots@.len() ==> #[trigger] spots@[j] as int == spots_upto(puzzle_vec@, i as int)[j],
        decreases len - i,
    {
        let ghost pre_spots = spots@;
        if puzzle_vec[i] == ' ' || puzzle_vec[i] == '.' {
            spots.push(i);
            proof {
                assert(spots@[pre_spots.len() as int] == i);
            }
        }
        proof {
            let sp = spots_upto(puzzle_vec@, i as int);
            assert forall|j: int| 0 <= j < spots@.len() implies #[trigger] spots@[j] as int == spots_upto(puzzle_vec@, i + 1)[j] by {
                if j < pre_spots.len() {
                    assert(spots@[j] == pre_spots[j]);
                    assert(pre_spots[j] as int == sp[j]);
                }
            }
            assert forall|t: int| 0 <= t < i + 1 && (puzzle_vec@[t] == ' ' || puzzle_vec@[t] == '.') implies #[trigger] spots@.contains(
                t as usize,
            ) by {
                if t < i {
                    assert(pre_spots.contains(t as usize));
                    let kk = choose|kk: int| 0 <= kk < pre_spots.len() && pre_spots[kk] == t as usize;
                    assert(spots@[kk] == t as usize);
                } else {
                    assert(spots@[pre_spots.len() as int] == i);
                }
            }
        }
        i = i + 1;
    }
    proof {
        if goal_num > 0 {
            let g = gs[0];
            assert(inner_cell(w, h, g));
            assert(puzzle_vec@[g] == placed_char(g, gs, ws, cs, -1));
            assert(gs.contains(g));
            assert(spots@.contains(g as usize));
        } else {
            assert(free@.len() > 0) by (nonlinear_arith)
                requires
                    free@.len() == inner_spaces - gs.len() - ws.len(),
                    gs.len() + ws.len() <= inner_spaces / 2,
                    inner_spaces >= 1,
            ;
            let f = free@[0] as int;
            assert(inner_cell(w, h, f));
            assert(puzzle_vec@[f] == placed_char(f, gs, ws, cs, -1));
            assert(spots@.contains(f as usize));
        }
    }
    let k = random_below(&mut *rng, spots.len());
    let index = spots[k];
    let ghost pre = puzzle_vec@;
    let ghost pc = index as int;
    proof {
        assert(inner_cell(w, h, pc)) by {
            if !inner_cell(w, h, pc) {
                assert(pre[pc] == blank_char(w, h, pc));
                lemma_cell_split(w, h, pc);
            }
        }
        assert(pre[pc] == placed_char(pc, gs, ws, cs, -1));
    }
    if puzzle_vec[index] == ' ' {
        puzzle_vec.set(index, '@');
    } else {
        puzzle_vec.set(index, '+');
    }
    proof {
        lemma_place_player(pre, puzzle_vec@, w, h, gs, ws, cs, pc);
        assert forall|t: int| 0 <= t < len implies (#[trigger] puzzle_vec@[t] == '#') == (layout_text[t] == '#') by {
            assert((pre[t] == '#') == (layout_text[t] == '#'));
        }
        lemma_same_walls_text(layout_text, puzzle_vec@, w, h, tile_map);
        let v = puzzle_vec@;
        assert forall|m: TileMatrix, k: int| #[trigger] grid_of_text(m, v, w, h) && 0 <= k < cs.len() implies pullable(
            m,
            goal_points_at(w, gs),
            text_point(w, #[trigger] cs[k]),
        ) by {
            assert(pullable(tile_map, goals@, text_point(w, cs[k])));
            let j = choose|j: int| 0 <= j < goals@.len() && #[trigger] pull_reach(tile_map, goals@[j]).contains(
                text_point(w, cs[k]),
            );
            assert(goals@[j] == goal_points_at(w, gs)[j]);
            assert(pull_reach(m, goals@[j]) == pull_reach(tile_map, goals@[j]));
        }
        assert(laid_out(v, w, h, gs, ws, cs, pc));
    }
    let ghost ds = dg + dw + dc.push(k as int);
    proof {
        lemma_draws_done(
            w,
            h,
            goal_num as nat,
            wall_num as nat,
            ds,
            dg,
            dw,
            dc,
            k as int,
            gs,
            ws,
            cs,
            pc,
            layout_text,
            tile_map,
            pre,
            puzzle_vec@,
        );
    }
    (Some(puzzle_vec), Ghost(ds))
}

proof fn lemma_live_positions(v: Seq<char>, w: nat, m: TileMatrix, gp: Seq<Point2D>, k: int)
    requires
        0 <= k,
    ensures
        forall|a: int|
            0 <= a < live_positions(v, w, m, gp, k).len() ==> 0 <= #[trigger] live_positions(v, w, m, gp, k)[a] < k
                && live_floor(v, w, m, gp, live_positions(v, w, m, gp, k)[a]),
        forall|a: int, b: int|
            0 <= a < b < live_positions(v, w, m, gp, k).len() ==> live_positions(v, w, m, gp, k)[a] < live_positions(
                v,
                w,
                m,
                gp,
                k,
            )[b],
    decreases k,
{
    if k > 0 {
        lemma_live_positions(v, w, m, gp, k - 1);
        let pre = live_positions(v, w, m, gp, k - 1);
        let cur = live_positions(v, w, m, gp, k);
        if live_floor(v, w, m, gp, k - 1) {
            assert(cur == pre.push(k - 1));
            assert forall|a: int| 0 <= a < cur.len() implies 0 <= #[trigger] cur[a] < k && live_floor(v, w, m, gp, cur[a]) by {
                if a < pre.len() {
                    assert(cur[a] == pre[a]);
                }
            }
            assert forall|a: int, b: int| 0 <= a < b < cur.len() implies cur[a] < cur[b] by {
                assert(cur[a] == pre[a]);
                if b < pre.len() {
                    assert(cur[b] == pre[b]);
                }
            }
        }
    }
}

/// Crates and the player leave the walls of the text alone, so every grid of
/// the finished text pulls crates as the grid of the goals and walls did.
proof fn lemma_same_walls_text(layout: Seq<char>, v: Seq<char>, w: nat, h: nat, tm: TileMatrix)
    requires
        w >= 1,
        (w + 1) * h <= usize::MAX,
        layout.len() == (w + 1) * h,
        v.len() == layout.len(),
        grid_of_text(tm, layout, w, h),
        forall|t: int| 0 <= t < layout.len() ==> (#[trigger] v[t] == '#') == (layout[t] == '#'),
    ensures
        forall|m: TileMatrix, p: Point2D| grid_of_text(m, v, w, h) ==> #[trigger] pull_reach(m, p) == pull_reach(tm, p),
{
    assert(w * h <= (w + 1) * h) by (nonlinear_arith);
    assert forall|m: TileMatrix, p: Point2D| grid_of_text(m, v, w, h) implies #[trigger] pull_reach(m, p) == pull_reach(
        tm,
        p,
    ) by {
        assert forall|j: int| 0 <= j < tm.data@.len() implies (tm.data@[j] == Tile::Wall) == (m.data@[j] == Tile::Wall) by {
            lemma_cell_point(tm, j);
            let q = cell_point(tm.width, j);
            let (x, y) = (q.x as int, q.y as int);
            assert(y * w + x == j);
            assert(0 <= y < h) by (nonlinear_arith)
                requires
                    y * w + x == j,
                    0 <= x < w,
                    j < w * h,
                    y >= 0,
            ;
            lemma_cell_of(w, h, x, y);
            assert(grid_at(tm.data@, w, x, y) == tile_of(text_at(layout, w, x, y)));
            assert(grid_at(m.data@, w, x, y) == tile_of(text_at(v, w, x, y)));
            let t = y * (w + 1) + x;
            assert((v[t] == '#') == (layout[t] == '#'));
        }
        assert(same_walls(tm, m));
        lemma_same_walls(tm, m, p, Set::empty());
    }
}

/// Putting the player on a floor cell or a goal completes the layout.
proof fn lemma_place_player(pre: Seq<char>, post: Seq<char>, w: nat, h: nat, gs: Seq<int>, ws: Seq<int>, cs: Seq<int>, pc: int)
    requires
        laid_out(pre, w, h, gs, ws, cs, -1),
        inner_cell(w, h, pc),
        0 <= pc < pre.len(),
        pre[pc] == ' ' || pre[pc] == '.',
        post == pre.update(pc, if pre[pc] == ' ' { '@' } else { '+' }),
    ensures
        laid_out(post, w, h, gs, ws, cs, pc),
        !ws.contains(pc),
        !cs.contains(pc),
        forall|t: int| 0 <= t < pre.len() ==> (#[trigger] post[t] == '#') == (pre[t] == '#'),
{
    assert(pre[pc] == placed_char(pc, gs, ws, cs, -1));
    assert forall|j: int| 0 <= j < post.len() && !inner_cell(w, h, j) implies #[trigger] post[j] == blank_char(w, h, j) by {
        assert(pre[j] == blank_char(w, h, j));
    }
    assert forall|j: int| 0 <= j < post.len() && inner_cell(w, h, j) implies #[trigger] post[j] == placed_char(j, gs, ws, cs, pc) by {
        assert(pre[j] == placed_char(j, gs, ws, cs, -1));
    }
}


proof fn lemma_text_point_canonical(m: TileMatrix, w: nat, h: nat, i: int)
    requires
        (w + 1) * h <= usize::MAX,
        m.width == w,
        m.data@.len() == w * h,
        inner_cell(w, h, i),
    ensures
        canonical(m, text_point(w, i)),
        index_of(m.width, text_point(w, i)) == row(w, i) * w + col(w, i),
{
    lemma_cell_split(w, h, i);
    let (x, y) = (col(w, i), row(w, i));
    assert(w * h <= (w + 1) * h) by (nonlinear_arith);
    assert(y * w + x < w * h) by (nonlinear_arith)
        requires
            0 <= x < w,
            0 <= y < h,
    {
        assert(y * w + w <= h * w);
    }
}

proof fn lemma_push_contains(s: Seq<int>, x: int, j: int)
    ensures
        s.push(x).contains(j) == (s.contains(j) || j == x),
{
    if s.contains(j) {
        let k = choose|k: int| 0 <= k < s.len() && s[k] == j;
        assert(s.push(x)[k] == j);
    }
    if j == x {
        assert(s.push(x)[s.len() as int] == j);
    }
    if s.push(x).contains(j) {
        let k = choose|k: int| 0 <= k < s.len() + 1 && s.push(x)[k] == j;
        if k < s.len() {
            assert(s[k] == j);
        }
    }
}

/// Placing `c` on a floor cell `i` that no piece holds extends the goals
/// (`kind` 0) or the walls (`kind` 1) or the crates (`kind` 2).
proof fn lemma_place(
    pre: Seq<char>,
    post: Seq<char>,
    w: nat,
    h: nat,
    gs: Seq<int>,
    ws: Seq<int>,
    cs: Seq<int>,
    pc: int,
    i: int,
    c: char,
    kind: int,
)
    requires
        laid_out(pre, w, h, gs, ws, cs, pc),
        inner_cell(w, h, i),
        !gs.contains(i),
        !ws.contains(i),
        !cs.contains(i),
        i != pc,
        0 <= i < pre.len(),
        post == pre.update(i, c),
        kind == 0 ==> c == '.',
        kind == 1 ==> c == '#',
        kind == 2 ==> c == '$',
        0 <= kind <= 2,
    ensures
        kind == 0 ==> laid_out(post, w, h, gs.push(i), ws, cs, pc),
        kind == 1 ==> laid_out(post, w, h, gs, ws.push(i), cs, pc),
        kind == 2 ==> laid_out(post, w, h, gs, ws, cs.push(i), pc),
{
    let (gs2, ws2, cs2) = if kind == 0 {
        (gs.push(i), ws, cs)
    } else if kind == 1 {
        (gs, ws.push(i), cs)
    } else {
        (gs, ws, cs.push(i))
    };
    assert forall|j: int| #[trigger] gs2.contains(j) == (gs.contains(j) || (kind == 0 && j == i)) by {
        lemma_push_contains(gs, i, j);
    }
    assert forall|j: int| #[trigger] ws2.contains(j) == (ws.contains(j) || (kind == 1 && j == i)) by {
        lemma_push_contains(ws, i, j);
    }
    assert forall|j: int| #[trigger] cs2.contains(j) == (cs.contains(j) || (kind == 2 && j == i)) by {
        lemma_push_contains(cs, i, j);
    }
    assert forall|j: int| 0 <= j < post.len() && !inner_cell(w, h, j) implies #[trigger] post[j] == blank_char(w, h, j) by {
        assert(pre[j] == blank_char(w, h, j));
    }
    assert forall|j: int| 0 <= j < post.len() && inner_cell(w, h, j) implies #[trigger] post[j] == placed_char(j, gs2, ws2, cs2, pc) by {
        if j != i {
            assert(pre[j] == placed_char(j, gs, ws, cs, pc));
            assert(gs2.contains(j) == gs.contains(j));
            assert(ws2.contains(j) == ws.contains(j));
            assert(cs2.contains(j) == cs.contains(j));
        } else {
            assert(gs2.contains(i) == (kind == 0));
            assert(ws2.contains(i) == (kind == 1));
            assert(cs2.contains(i) == (kind == 2));
        }
    }
    assert forall|k: int| 0 <= k < gs2.len() implies inner_cell(w, h, #[trigger] gs2[k]) by {
        if k < gs.len() {
            assert(gs2[k] == gs[k]);
        }
    }
    assert forall|k: int| 0 <= k < ws2.len() implies inner_cell(w, h, #[trigger] ws2[k]) by {
        if k < ws.len() {
            assert(ws2[k] == ws[k]);
        }
    }
    assert forall|k: int| 0 <= k < cs2.len() implies inner_cell(w, h, #[trigger] cs2[k]) by {
        if k < cs.len() {
            assert(cs2[k] == cs[k]);
        }
    }
    assert forall|k: int| 0 <= k < gs2.len() implies !ws2.contains(#[trigger] gs2[k]) && !cs2.contains(gs2[k]) by {
        if k < gs.len() {
            assert(gs2[k] == gs[k]);
        }
    }
    assert forall|k: int| 0 <= k < ws2.len() implies !cs2.contains(#[trigger] ws2[k]) by {
        if k < ws.len() {
            assert(ws2[k] == ws[k]);
        }
    }
    assert(gs2.no_duplicates()) by {
        assert forall|a: int, b: int| 0 <= a < gs2.len() && 0 <= b < gs2.len() && a != b implies gs2[a] != gs2[b] by {
            if kind == 0 && (a == gs.len() || b == gs.len()) {
            } else {
                assert(gs.no_duplicates());
            }
        }
    }
    assert(ws2.no_duplicates()) by {
        assert forall|a: int, b: int| 0 <= a < ws2.len() && 0 <= b < ws2.len() && a != b implies ws2[a] != ws2[b] by {
            if kind == 1 && (a == ws.len() || b == ws.len()) {
            } else {
                assert(ws.no_duplicates());
            }
        }
    }
    assert(cs2.no_duplicates()) by {
        assert forall|a: int, b: int| 0 <= a < cs2.len() && 0 <= b < cs2.len() && a != b implies cs2[a] != cs2[b] by {
            if kind == 2 && (a == cs.len() || b == cs.len()) {
            } else {
                assert(cs.no_duplicates());
            }
        }
    }
}

/// Removing entry `k` of a list of distinct cells.
proof fn lemma_free_remove(pre: Seq<usize>, post: Seq<usize>, k: int)
    requires
        0 <= k < pre.len(),
        post == pre.remove(k),
        pre.no_duplicates(),
    ensures
        post.no_duplicates(),
        forall|j: int| 0 <= j < post.len() ==> #[trigger] post[j] != pre[k] && pre.contains(post[j]),
{
    assert forall|j: int| 0 <= j < post.len() implies #[trigger] post[j] != pre[k] && pre.contains(post[j]) by {
        if j < k {
            assert(post[j] == pre[j]);
        } else {
            assert(post[j] == pre[j + 1]);
        }
    }
    assert forall|a: int, b: int| 0 <= a < post.len() && 0 <= b < post.len() && a != b implies post[a] != post[b] by {
        let ia = if a < k { a } else { a + 1 };
        let ib = if b < k { b } else { b + 1 };
        assert(post[a] == pre[ia]);
        assert(post[b] == pre[ib]);
    }
}

/// How many members of `s` lie below `k`.
pub open spec fn count_below(s: Seq<int>, k: int) -> nat
    decreases s.len(),
{
    if s.len() == 0 {
        0
    } else {
        count_below(s.drop_last(), k) + if s.last() < k {
            1nat
        } else {
            0nat
        }
    }
}

/// Raising the limit by one counts `k` once if `s` holds it.
proof fn lemma_count_below_step(s: Seq<int>, k: int)
    requires
        s.no_duplicates(),
    ensures
        count_below(s, k + 1) == count_below(s, k) + if s.contains(k) {
            1nat
        } else {
            0nat
        },
    decreases s.len(),
{
    if s.len() > 0 {
        let r = s.drop_last();
        assert forall|a: int, b: int| 0 <= a < b < r.len() implies r[a] != r[b] by {
            assert(r[a] == s[a] && r[b] == s[b]);
        }
        lemma_count_below_step(r, k);
        if s.last() == k {
            if r.contains(k) {
                let t = choose|t: int| 0 <= t < r.len() && r[t] == k;
                assert(s[t] == s[s.len() - 1]);
            }
        } else {
            if s.contains(k) {
                let t = choose|t: int| 0 <= t < s.len() && s[t] == k;
                assert(r[t] == k);
            }
            if r.contains(k) {
                let t = choose|t: int| 0 <= t < r.len() && r[t] == k;
                assert(s[t] == k);
            }
        }
    }
}

/// All members of `s` lie below `n`.
proof fn lemma_count_below_all(s: Seq<int>, n: int)
    requires
        forall|j: int| 0 <= j < s.len() ==> #[trigger] s[j] < n,
    ensures
        count_below(s, n) == s.len(),
    decreases s.len(),
{
    if s.len() > 0 {
        let r = s.drop_last();
        assert forall|j: int| 0 <= j < r.len() implies #[trigger] r[j] < n by {
            assert(r[j] == s[j]);
        }
        lemma_count_below_all(r, n);
        assert(s[s.len() - 1] < n);
    }
}

/// Reading a laid-out puzzle text up to position `k`: rows of `w` cells,
/// no stray character, the player once it is passed, and the goals and
/// crates passed so far.
proof fn lemma_scan_laid_out(v: Seq<char>, w: nat, h: nat, gs: Seq<int>, ws: Seq<int>, cs: Seq<int>, pc: int, k: int)
    requires
        laid_out(v, w, h, gs, ws, cs, pc),
        inner_cell(w, h, pc),
        !ws.contains(pc),
        !cs.contains(pc),
        w >= 3,
        h >= 3,
        0 <= k <= v.len(),
    ensures
        line_stats(v.subrange(0, k)) == (if row(w, k) >= 1 {
            w
        } else {
            0nat
        }, col(w, k) as nat),
        ({
            let r = scan_text(v.subrange(0, k), w);
            &&& r.6 is None
            &&& r.2 == row(w, k)
            &&& r.1 == row(w, k) * w + col(w, k)
            &&& r.0.len() == r.1
            &&& r.3 == (if pc < k {
                1nat
            } else {
                0nat
            })
            &&& r.4 == count_below(gs, k)
            &&& r.5 == count_below(cs, k)
        }),
    decreases k,
{
    let d = (w + 1) as int;
    if k == 0 {
        assert(v.subrange(0, 0) =~= Seq::<char>::empty());
        vstd::arithmetic::div_mod::lemma_fundamental_div_mod_converse(0, d, 0, 0);
        assert(count_below(gs, 0) == 0) by {
            lemma_count_below_zero(gs);
        }
        assert(count_below(cs, 0) == 0) by {
            lemma_count_below_zero(cs);
        }
    } else {
        let j = k - 1;
        lemma_scan_laid_out(v, w, h, gs, ws, cs, pc, j);
        assert(v.subrange(0, k).drop_last() =~= v.subrange(0, j));
        assert(v.subrange(0, k).last() == v[j]);
        lemma_cell_split(w, h, j);
        let (x, y) = (col(w, j), row(w, j));
        if x < w {
            lemma_cell_of(w, h, x + 1, y);
            assert(k == y * (w + 1) + x + 1);
        } else if y + 1 < h {
            lemma_cell_of(w, h, 0, y + 1);
            assert(k == (y + 1) * (w + 1)) by (nonlinear_arith)
                requires
                    j == y * (w + 1) + x,
                    x == w,
                    k == j + 1,
            ;
        } else {
            assert(k == h * (w + 1)) by (nonlinear_arith)
                requires
                    j == y * (w + 1) + x,
                    x == w,
                    y + 1 == h,
                    k == j + 1,
            ;
            vstd::arithmetic::div_mod::lemma_fundamental_div_mod_converse(k, d, h as int, 0);
        }
        let c = v[j];
        if inner_cell(w, h, j) {
            assert(c == placed_char(j, gs, ws, cs, pc));
        } else {
            assert(c == blank_char(w, h, j));
        }
        lemma_count_below_step(gs, j);
        lemma_count_below_step(cs, j);
        if gs.contains(j) {
            let t = choose|t: int| 0 <= t < gs.len() && gs[t] == j;
            assert(inner_cell(w, h, gs[t]));
            assert(!ws.contains(gs[t]) && !cs.contains(gs[t]));
        }
        if cs.contains(j) {
            let t = choose|t: int| 0 <= t < cs.len() && cs[t] == j;
            assert(inner_cell(w, h, cs[t]));
            if ws.contains(j) {
                let u = choose|u: int| 0 <= u < ws.len() && ws[u] == j;
                assert(!cs.contains(ws[u]));
            }
        }
        if x == w {
            assert((y + 1) * w == y * w + w) by (nonlinear_arith);
            assert(Seq::<Tile>::empty() + Seq::new(0, |q: int| Tile::Floor) =~= Seq::<Tile>::empty());
            let tiles = scan_text(v.subrange(0, j), w).0;
            assert(tiles + Seq::new(0, |q: int| Tile::Floor) =~= tiles);
        }
    }
}

proof fn lemma_count_below_zero(s: Seq<int>)
    requires
        forall|j: int| 0 <= j < s.len() ==> #[trigger] s[j] >= 0,
    ensures
        count_below(s, 0) == 0,
    decreases s.len(),
{
    if s.len() > 0 {
        let r = s.drop_last();
        assert forall|j: int| 0 <= j < r.len() implies #[trigger] r[j] >= 0 by {
            assert(r[j] == s[j]);
        }
        lemma_count_below_zero(r);
        assert(s[s.len() - 1] >= 0);
    }
}

/// Every puzzle the generator makes reads back as a puzzle `w` wide with
/// `w * h` cells, exactly one player and as many goals as crates.
#[verifier::spinoff_prover]
pub proof fn lemma_generated_reads_back(v: Seq<char>, w: nat, h: nat, goal_num: nat, wall_num: nat)
    requires
        w >= 3,
        h >= 3,
        generated(v, w, h, goal_num, wall_num),
    ensures
        parse_text(v, true) is Ok,
        parse_text(v, true)->Ok_0.0 == w,
        parse_text(v, true)->Ok_0.1.len() == w * h,
{
    let (gs, ws, cs, pc) = choose|gs: Seq<int>, ws: Seq<int>, cs: Seq<int>, pc: int|
        #![trigger laid_out(v, w, h, gs, ws, cs, pc)]
        laid_out(v, w, h, gs, ws, cs, pc) && gs.len() == goal_num && ws.len() == wall_num && cs.len() == goal_num
            && inner_cell(w, h, pc) && !ws.contains(pc) && !cs.contains(pc) && forall|m: TileMatrix, k: int|
            #[trigger] grid_of_text(m, v, w, h) && 0 <= k < cs.len() ==> pullable(m, goal_points_at(w, gs), text_point(w, #[trigger] cs[k]));
    let n = v.len() as int;
    lemma_scan_laid_out(v, w, h, gs, ws, cs, pc, n);
    assert(v.subrange(0, n) =~= v);
    vstd::arithmetic::div_mod::lemma_fundamental_div_mod_converse(n, (w + 1) as int, h as int, 0);
    lemma_count_below_all(gs, n);
    lemma_count_below_all(cs, n);
    lemma_cell_of(w, h, w as int, 0);
    assert(v[w as int] == blank_char(w, h, w as int));
    assert(v.contains('\n'));
    assert(h * w == w * h) by (nonlinear_arith);
}


/// The character of the decimal digit `d`.
pub open spec fn digit_char(d: nat) -> char {
    if d == 0 {
        '0'
    } else if d == 1 {
        '1'
    } else if d == 2 {
        '2'
    } else if d == 3 {
        '3'
    } else if d == 4 {
        '4'
    } else if d == 5 {
        '5'
    } else if d == 6 {
        '6'
    } else if d == 7 {
        '7'
    } else if d == 8 {
        '8'
    } else {
        '9'
    }
}

/// The decimal digits of `n`, most significant first.
pub open spec fn decimal(n: nat) -> Seq<char>
    decreases n,
{
    if n < 10 {
        seq![digit_char(n)]
    } else {
        decimal(n / 10).push(digit_char(n % 10))
    }
}

fn digit(d: usize) -> (c: char)
    requires
        d < 10,
    ensures
        c == digit_char(d as nat),
{
    if d == 0 {
        '0'
    } else if d == 1 {
        '1'
    } else if d == 2 {
        '2'
    } else if d == 3 {
        '3'
    } else if d == 4 {
        '4'
    } else if d == 5 {
        '5'
    } else if d == 6 {
        '6'
    } else if d == 7 {
        '7'
    } else if d == 8 {
        '8'
    } else {
        '9'
    }
}

/// `n` written in decimal.
pub fn decimal_chars(n: usize) -> (v: Vec<char>)
    ensures
        v@ == decimal(n as nat),
    decreases n,
{
    if n < 10 {
        vec![digit(n)]
    } else {
        let mut v = decimal_chars(n / 10);
        v.push(digit(n % 10));
        v
    }
}

/// The text of `lines`, each followed by a newline.
pub open spec fn joined(lines: Seq<Seq<char>>) -> Seq<char>
    decreases lines.len(),
{
    if lines.len() == 0 {
        Seq::empty()
    } else {
        joined(lines.drop_last()) + lines.last().push('\n')
    }
}

/// The lines of the head of a generated `.sok` collection named `name`.
pub open spec fn header_lines(name: Seq<char>) -> Seq<Seq<char>> {
    seq![
        "Date of Last Change:"@,
        Seq::empty(),
        "Set: "@ + name,
        "Copyright: Geb"@,
        "Email:"@,
        "Homepage:"@,
        Seq::empty(),
        "This sokoban puzzle set was automatically generated"@,
        Seq::empty(),
    ]
}

/// The head of a generated `.sok` collection named `name`.
pub open spec fn sok_header(name: Seq<char>) -> Seq<char> {
    joined(header_lines(name))
}

/// One more line joins the text of the lines before it.
pub proof fn lemma_joined_step(lines: Seq<Seq<char>>, k: int)
    requires
        0 <= k < lines.len(),
    ensures
        joined(lines.take(k + 1)) == joined(lines.take(k)) + lines[k].push('\n'),
{
    assert(lines.take(k + 1).drop_last() =~= lines.take(k));
}

/// Appends `line` and a newline to `text`.
fn push_line(text: &mut Vec<char>, line: &str)
    ensures
        final(text)@ == old(text)@ + line@.push('\n'),
{
    let mut chars = chars_of(line);
    text.append(&mut chars);
    text.push('\n');
}

/// The entries of the first `n` puzzles of a collection: each one's number
/// (counted from 1) on a line of its own, its text and a blank line.
pub open spec fn sok_entries(puzzles: Seq<Seq<char>>, n: int) -> Seq<char>
    decreases n,
{
    if n <= 0 {
        Seq::empty()
    } else {
        sok_entries(puzzles, n - 1) + decimal(n as nat) + seq!['\n'] + puzzles[n - 1] + seq!['\n', '\n']
    }
}

/// The text of a `.sok` collection named `file_name` that holds `puzzles`,
/// numbered from 1 in order.
pub fn sok_collection(file_name: &str, puzzles: &Vec<Vec<char>>) -> (text: Vec<char>)
    ensures
        text@ == sok_header(file_name@) + sok_entries(
            Seq::new(puzzles@.len(), |i: int| puzzles@[i]@),
            puzzles@.len() as int,
        ),
{
    let ghost ps = Seq::new(puzzles@.len(), |i: int| puzzles@[i]@);
    let ghost hl = header_lines(file_name@);
    let mut text: Vec<char> = Vec::new();
    assert(text@ =~= joined(hl.take(0)));
    push_line(&mut text, "Date of Last Change:");
    proof {
        lemma_joined_step(hl, 0);
    }
    push_line(&mut text, "");
    proof {
        lemma_joined_step(hl, 1);
        assert(""@ =~= Seq::<char>::empty()) by {
            reveal_strlit("");
        }
    }
    let mut set_line = chars_of("Set: ");
    let mut name = chars_of(file_name);
    set_line.append(&mut name);
    text.append(&mut set_line);
    text.push('\n');
    proof {
        lemma_joined_step(hl, 2);
        assert(text@ =~= joined(hl.take(3)));
    }
    push_line(&mut text, "Copyright: Geb");
    proof {
        lemma_joined_step(hl, 3);
    }
    push_line(&mut text, "Email:");
    proof {
        lemma_joined_step(hl, 4);
    }
    push_line(&mut text, "Homepage:");
    proof {
        lemma_joined_step(hl, 5);
    }
    push_line(&mut text, "");
    proof {
        lemma_joined_step(hl, 6);
    }
    push_line(&mut text, "This sokoban puzzle set was automatically generated");
    proof {
        lemma_joined_step(hl, 7);
    }
    push_line(&mut text, "");
    proof {
        lemma_joined_step(hl, 8);
        assert(hl.take(9) =~= hl);
    }
    let ghost head = text@;
    let mut i: usize = 0;
    while i < puzzles.len()
        invariant
            i <= puzzles@.len(),
            ps == Seq::new(puzzles@.len(), |i: int| puzzles@[i]@),
            head == sok_header(file_name@),
            text@ == head + sok_entries(ps, i as int),
        decreases puzzles@.len() - i,
    {
        let ghost pre = text@;
        let mut number = decimal_chars(i + 1);
        text.append(&mut number);
        text.push('\n');
        let mut j: usize = 0;
        while j < puzzles[i].len()
            invariant
                i < puzzles@.len(),
                j <= puzzles@[i as int]@.len(),
                text@ == pre + decimal((i + 1) as nat) + seq!['\n'] + puzzles@[i as int]@.take(j as int),
            decreases puzzles@[i as int]@.len() - j,
        {
            text.push(puzzles[i][j]);
            proof {
                assert(puzzles@[i as int]@.take(j + 1) == puzzles@[i as int]@.take(j as int).push(puzzles@[i as int]@[j as int]));
            }
            j = j + 1;
        }
        text.push('\n');
        text.push('\n');
        proof {
            assert(puzzles@[i as int]@.take(j as int) == puzzles@[i as int]@);
            assert(ps[i as int] == puzzles@[i as int]@);
            assert(text@ =~= head + sok_entries(ps, i + 1));
        }
        i = i + 1;
    }
    text
}

} // verus!
