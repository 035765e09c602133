use vstd::prelude::*;
use bit_vec::BitVec;

verus! {

/// One cell of a Sokoban puzzle.
#[derive(Copy, Clone, PartialEq, Eq, Structural, Hash, Debug)]
pub enum Tile {
    Wall,
    Player,
    PlayerGoal,
    Crate,
    CrateGoal,
    Goal,
    Floor,
}

impl Tile {
    /// A tile that stops a crate from moving away: a wall or another crate.
    pub open spec fn spec_freezable(self) -> bool {
        self is Wall || self is Crate || self is CrateGoal
    }

    /// Whether the tile blocks a crate from moving (used by freeze deadlocks).
    pub fn is_freezable(&self) -> (r: bool)
        ensures
            r == self.spec_freezable(),
    {
        match self {
            Tile::Wall => true,
            Tile::Crate => true,
            Tile::CrateGoal => true,
            _ => false,
        }
    }

    /// Whether the tile is a crate that is not standing on a goal.
    pub fn is_pure_crate(&self) -> (r: bool)
        ensures
            r == (*self is Crate),
    {
        match self {
            Tile::Crate => true,
            _ => false,
        }
    }
}

/// A grid coordinate; `x` is the column and `y` the row.
#[derive(Copy, Clone, Hash, PartialEq, Eq, Structural, Debug)]
pub struct Point2D {
    pub x: usize,
    pub y: usize,
}

/// A move of the player. The `Push` variants move a crate along.
#[derive(Copy, Clone, PartialEq, Eq, Structural, Debug)]
pub enum Action {
    Up,
    Down,
    Left,
    Right,
    PushUp,
    PushDown,
    PushLeft,
    PushRight,
    NoMove,
}

/// Whether `p.from(a)` stays within the range of `usize`.
pub open spec fn can_step(p: Point2D, a: Action) -> bool {
    match a {
        Action::Up | Action::PushUp => p.y > 0,
        Action::Down | Action::PushDown => p.y < usize::MAX,
        Action::Left | Action::PushLeft => p.x > 0,
        Action::Right | Action::PushRight => p.x < usize::MAX,
        Action::NoMove => true,
    }
}

/// The point one step from `p` in the direction of `a` (rows grow downwards).
pub open spec fn step(p: Point2D, a: Action) -> Point2D {
    match a {
        Action::Up | Action::PushUp => Point2D { x: p.x, y: (p.y - 1) as usize },
        Action::Down | Action::PushDown => Point2D { x: p.x, y: (p.y + 1) as usize },
        Action::Left | Action::PushLeft => Point2D { x: (p.x - 1) as usize, y: p.y },
        Action::Right | Action::PushRight => Point2D { x: (p.x + 1) as usize, y: p.y },
        Action::NoMove => p,
    }
}

/// The opposite direction of an action; pushes stay pushes.
pub open spec fn spec_inverse(a: Action) -> Action {
    match a {
        Action::Up => Action::Down,
        Action::Down => Action::Up,
        Action::Left => Action::Right,
        Action::Right => Action::Left,
        Action::PushUp => Action::PushDown,
        Action::PushDown => Action::PushUp,
        Action::PushLeft => Action::PushRight,
        Action::PushRight => Action::PushLeft,
        Action::NoMove => Action::NoMove,
    }
}

/// The letter that the standard Sokoban notation writes for an action
/// (`None` for `NoMove`, which writes nothing).
pub open spec fn action_letter(a: Action) -> Option<char> {
    match a {
        Action::Up => Some('u'),
        Action::Down => Some('d'),
        Action::Left => Some('l'),
        Action::Right => Some('r'),
        Action::PushUp => Some('U'),
        Action::PushDown => Some('D'),
        Action::PushLeft => Some('L'),
        Action::PushRight => Some('R'),
        Action::NoMove => None,
    }
}

/// The notation of a whole sequence of actions.
pub open spec fn actions_text(actions: Seq<Action>) -> Seq<char>
    decreases actions.len(),
{
    if actions.len() == 0 {
        Seq::empty()
    } else {
        let prefix = actions_text(actions.drop_last());
        match action_letter(actions.last()) {
            Some(c) => prefix.push(c),
            None => prefix,
        }
    }
}


/// Index of a point in the row-major cell vector of a grid of width `w`.
pub open spec fn index_of(w: usize, p: Point2D) -> int {
    p.y * w + p.x
}

/// How far a step in the direction of `a` moves the row-major index.
pub open spec fn index_delta(w: usize, a: Action) -> int {
    match a {
        Action::Up | Action::PushUp => -(w as int),
        Action::Down | Action::PushDown => w as int,
        Action::Left | Action::PushLeft => -1,
        Action::Right | Action::PushRight => 1,
        Action::NoMove => 0,
    }
}

/// A step moves the row-major index by `index_delta`.
pub proof fn lemma_step_index(w: usize, p: Point2D, a: Action)
    requires
        can_step(p, a),
    ensures
        index_of(w, step(p, a)) == index_of(w, p) + index_delta(w, a),
{
    let y = p.y as int;
    let wi = w as int;
    assert((y - 1) * wi == y * wi - wi) by (nonlinear_arith);
    assert((y + 1) * wi == y * wi + wi) by (nonlinear_arith);
}

/// A step and the step in the inverse direction lead back to the start.
pub proof fn lemma_step_inverse(p: Point2D, a: Action)
    requires
        can_step(p, a),
    ensures
        can_step(step(p, a), spec_inverse(a)),
        step(step(p, a), spec_inverse(a)) == p,
{
}

/// A rectangular grid of tiles, stored row by row.
#[derive(Hash)]
pub struct TileMatrix {
    pub width: usize,
    pub data: Vec<Tile>,
}

/// The tile left behind when the player walks off a cell.
pub open spec fn vacated(t: Tile) -> Tile {
    match t {
        Tile::Player => Tile::Floor,
        Tile::PlayerGoal => Tile::Goal,
        _ => t,
    }
}

/// The tile of a cell when the player steps onto it from a pushed crate's place.
pub open spec fn crate_replaced_by_player(t: Tile) -> Tile {
    match t {
        Tile::Crate => Tile::Player,
        Tile::CrateGoal => Tile::PlayerGoal,
        _ => t,
    }
}

/// The tile of the cell a crate is pushed onto.
pub open spec fn crate_arrives(t: Tile) -> Tile {
    match t {
        Tile::Goal | Tile::PlayerGoal => Tile::CrateGoal,
        _ => Tile::Crate,
    }
}

/// The tile of the cell the player is put back on by an undo.
pub open spec fn player_returns(t: Tile) -> Tile {
    match t {
        Tile::Floor => Tile::Player,
        Tile::Goal => Tile::PlayerGoal,
        _ => t,
    }
}

/// The tile of the cell the player leaves by an undo: the crate comes back.
pub open spec fn player_replaced_by_crate(t: Tile) -> Tile {
    match t {
        Tile::Player => Tile::Crate,
        Tile::PlayerGoal => Tile::CrateGoal,
        _ => t,
    }
}

/// The tile of the cell a crate is pulled away from by an undo.
pub open spec fn crate_leaves(t: Tile) -> Tile {
    match t {
        Tile::Crate => Tile::Floor,
        Tile::CrateGoal => Tile::Goal,
        _ => t,
    }
}

/// The cells after a push: the player leaves `player` (as recorded in
/// `before`), the crate at `crate_start` is replaced by the player and
/// the crate lands one step further in the direction of `action`.
pub open spec fn pushed_cells(
    cells: Seq<Tile>,
    w: usize,
    action: Action,
    crate_start: Point2D,
    before: Seq<Tile>,
    player: Point2D,
) -> Seq<Tile> {
    let ip = index_of(w, player);
    let cs = index_of(w, crate_start);
    let ce = index_of(w, step(crate_start, action));
    let s1 = match before[ip] {
        Tile::Player => cells.update(ip, Tile::Floor),
        Tile::PlayerGoal => cells.update(ip, Tile::Goal),
        _ => cells,
    };
    let s2 = s1.update(cs, crate_replaced_by_player(s1[cs]));
    s2.update(ce, crate_arrives(s2[ce]))
}

/// The cells after undoing a push made by a player now standing at `player`:
/// the player goes back one step against `action`, and the crate in front of
/// it comes back to where the player stands.
pub open spec fn unpushed_cells(cells: Seq<Tile>, w: usize, action: Action, player: Point2D) -> Seq<Tile> {
    let e = index_of(w, step(player, spec_inverse(action)));
    let p = index_of(w, player);
    let c = index_of(w, step(player, action));
    let s1 = cells.update(e, player_returns(cells[e]));
    let s2 = s1.update(p, player_replaced_by_crate(s1[p]));
    s2.update(c, crate_leaves(s2[c]))
}


/// Inverting an action twice gives it back, and a push stays a push.
pub proof fn lemma_inverse_involution(a: Action)
    ensures
        spec_inverse(spec_inverse(a)) == a,
        is_push(a) == is_push(spec_inverse(a)),
{
}

/// Whether an action pushes a crate.
pub open spec fn is_push(a: Action) -> bool {
    a is PushUp || a is PushDown || a is PushLeft || a is PushRight
}

/// The cells of `cells` with the player moved from the cell at index `from`
/// to the cell at index `to`.
pub open spec fn player_moved(cells: Seq<Tile>, from: int, to: int) -> Seq<Tile> {
    let s1 = cells.update(from, vacated(cells[from]));
    s1.update(to, player_returns(s1[to]))
}

/// Undoing a push takes the crate back where it was and leaves the player on
/// the cell it pushed from: apart from where the player stands, the grid is
/// the one before the push. When the player pushed from where it stood, the
/// undo gives back the grid before the push exactly.
pub proof fn lemma_undo_after_push(cells: Seq<Tile>, w: usize, action: Action, crate_start: Point2D, player: Point2D)
    requires
        w > 0,
        is_push(action),
        can_step(crate_start, action),
        can_step(crate_start, spec_inverse(action)),
        0 <= index_of(w, player) < cells.len(),
        0 <= index_of(w, crate_start) < cells.len(),
        0 <= index_of(w, step(crate_start, action)) < cells.len(),
        0 <= index_of(w, step(crate_start, spec_inverse(action))) < cells.len(),
        cells[index_of(w, player)] is Player || cells[index_of(w, player)] is PlayerGoal,
        cells[index_of(w, crate_start)] is Crate || cells[index_of(w, crate_start)] is CrateGoal,
        cells[index_of(w, step(crate_start, action))] is Floor
            || cells[index_of(w, step(crate_start, action))] is Goal,
        index_of(w, step(crate_start, spec_inverse(action))) == index_of(w, player)
            || cells[index_of(w, step(crate_start, spec_inverse(action)))] is Floor
            || cells[index_of(w, step(crate_start, spec_inverse(action)))] is Goal,
    ensures
        unpushed_cells(pushed_cells(cells, w, action, crate_start, cells, player), w, action, crate_start)
            == player_moved(cells, index_of(w, player), index_of(w, step(crate_start, spec_inverse(action)))),
        index_of(w, step(crate_start, spec_inverse(action))) == index_of(w, player) ==> unpushed_cells(
            pushed_cells(cells, w, action, crate_start, cells, player),
            w,
            action,
            crate_start,
        ) == cells,
{
    lemma_step_index(w, crate_start, action);
    lemma_step_index(w, crate_start, spec_inverse(action));
    let pushed = pushed_cells(cells, w, action, crate_start, cells, player);
    let undone = unpushed_cells(pushed, w, action, crate_start);
    let moved = player_moved(cells, index_of(w, player), index_of(w, step(crate_start, spec_inverse(action))));
    assert(undone =~= moved);
    if index_of(w, step(crate_start, spec_inverse(action))) == index_of(w, player) {
        assert(moved =~= cells);
    }
}

impl Clone for TileMatrix {
    fn clone(&self) -> (r: TileMatrix)
        ensures
            r.width == self.width,
            r.data@ == self.data@,
    {
        let mut data: Vec<Tile> = Vec::new();
        let mut i: usize = 0;
        while i < self.data.len()
            invariant
                i <= self.data@.len(),
                data@ == self.data@.subrange(0, i as int),
            decreases self.data@.len() - i,
        {
            data.push(self.data[i]);
            i = i + 1;
        }
        assert(data@ =~= self.data@);
        TileMatrix { width: self.width, data }
    }
}

impl TileMatrix {
    /// Reads a puzzle: `#` wall, `@` player, `+` player on a goal, `$` crate,
    /// `*` crate on a goal, `.` goal, space floor. Rows are as wide as the
    /// longest line ending in a newline; shorter rows are padded with floor.
    /// The puzzle must hold exactly one player and as many goals as crates.
    pub fn from_string(puzzle_string: &str) -> (r: Result<TileMatrix, PuzzleError>)
        requires
            text_fits(puzzle_string@),
        ensures
            match r {
                Ok(m) => parse_text(puzzle_string@, true) == Ok::<(nat, Seq<Tile>), PuzzleError>((m.width as nat, m.data@)),
                Err(e) => parse_text(puzzle_string@, true) == Err::<(nat, Seq<Tile>), PuzzleError>(e),
            },
    {
        let text = chars_of(puzzle_string);
        parse_grid(&text, true)
    }

    /// Reads a puzzle like `from_string`, without checking its pieces.
    pub fn from_string_bare(puzzle_string: &str) -> (r: Result<TileMatrix, PuzzleError>)
        requires
            text_fits(puzzle_string@),
        ensures
            match r {
                Ok(m) => parse_text(puzzle_string@, false) == Ok::<(nat, Seq<Tile>), PuzzleError>((m.width as nat, m.data@)),
                Err(e) => parse_text(puzzle_string@, false) == Err::<(nat, Seq<Tile>), PuzzleError>(e),
            },
    {
        let text = chars_of(puzzle_string);
        parse_grid(&text, false)
    }

    /// Whether the two grids hold the same tiles in the same shape.
    pub fn same_as(&self, other: &TileMatrix) -> (r: bool)
        ensures
            r == (self.width == other.width && self.data@ == other.data@),
    {
        if self.width != other.width || self.data.len() != other.data.len() {
            return false;
        }
        let mut i: usize = 0;
        while i < self.data.len()
            invariant
                i <= self.data@.len(),
                self.data@.len() == other.data@.len(),
                forall|j: int| 0 <= j < i ==> self.data@[j] == other.data@[j],
            decreases self.data@.len() - i,
        {
            if self.data[i] != other.data[i] {
                return false;
            }
            i = i + 1;
        }
        assert(self.data@ =~= other.data@);
        true
    }

    /// Whether `p` names a cell of the grid.
    pub open spec fn in_bounds(&self, p: Point2D) -> bool {
        0 <= index_of(self.width, p) < self.data@.len()
    }

    /// The tile at `p`.
    pub open spec fn tile(&self, p: Point2D) -> Tile {
        self.data@[index_of(self.width, p)]
    }

    pub fn get(&self, p: Point2D) -> (t: Tile)
        requires
            self.in_bounds(p),
        ensures
            t == self.tile(p),
    {
        let i = self.cell_index(p);
        self.data[i]
    }

    /// The row-major index of an in-bounds point.
    pub(crate) fn cell_index(&self, p: Point2D) -> (i: usize)
        requires
            self.in_bounds(p),
        ensures
            i == index_of(self.width, p),
    {
        let len = self.data.len();
        assert(p.y * self.width <= p.y * self.width + p.x);
        p.y * self.width + p.x
    }

    pub fn set(&mut self, p: Point2D, val: Tile)
        requires
            old(self).in_bounds(p),
        ensures
            final(self).width == old(self).width,
            final(self).data@ == old(self).data@.update(index_of(old(self).width, p), val),
    {
        let i = self.cell_index(p);
        self.data.set(i, val);
    }

    /// Moves the crate at `crate_start` one step in the direction of `action`,
    /// puts the player where the crate was, and clears the player's former
    /// cell `inital_player` (whose tile is read from `old_map`).
    pub fn apply_action_and_move(
        &mut self,
        action: Action,
        crate_start: Point2D,
        old_map: &TileMatrix,
        inital_player: Point2D,
    )
        requires
            can_step(crate_start, action),
            old(self).in_bounds(inital_player),
            old(self).in_bounds(crate_start),
            old(self).in_bounds(step(crate_start, action)),
            old_map.width == old(self).width,
            old_map.data@.len() == old(self).data@.len(),
        ensures
            final(self).width == old(self).width,
            final(self).data@ == pushed_cells(
                old(self).data@,
                old(self).width,
                action,
                crate_start,
                old_map.data@,
                inital_player,
            ),
    {
        let crate_end = crate_start.from(action);
        match old_map.get(inital_player) {
            Tile::Player => self.set(inital_player, Tile::Floor),
            Tile::PlayerGoal => self.set(inital_player, Tile::Goal),
            _ => (),
        }
        match self.get(crate_start) {
            Tile::Crate => self.set(crate_start, Tile::Player),
            Tile::CrateGoal => self.set(crate_start, Tile::PlayerGoal),
            _ => (),
        }
        match self.get(crate_end) {
            Tile::Goal => self.set(crate_end, Tile::CrateGoal),
            Tile::PlayerGoal => self.set(crate_end, Tile::CrateGoal),
            _ => self.set(crate_end, Tile::Crate),
        }
        assert(self.data@ =~= pushed_cells(
            old(self).data@,
            old(self).width,
            action,
            crate_start,
            old_map.data@,
            inital_player,
        ));
    }

    /// Takes back a push: the player standing at `player_start` steps back
    /// against `action` and the crate in front of it returns to `player_start`.
    pub fn undo_action(&mut self, action: Action, player_start: Point2D)
        requires
            can_step(player_start, action),
            can_step(player_start, spec_inverse(action)),
            old(self).in_bounds(player_start),
            old(self).in_bounds(step(player_start, action)),
            old(self).in_bounds(step(player_start, spec_inverse(action))),
        ensures
            final(self).width == old(self).width,
            final(self).data@ == unpushed_cells(old(self).data@, old(self).width, action, player_start),
    {
        let empty_pos = player_start.from(action.inverse());
        let crate_start = player_start.from(action);
        match self.get(empty_pos) {
            Tile::Floor => self.set(empty_pos, Tile::Player),
            Tile::Goal => self.set(empty_pos, Tile::PlayerGoal),
            _ => (),
        }
        match self.get(player_start) {
            Tile::Player => self.set(player_start, Tile::Crate),
            Tile::PlayerGoal => self.set(player_start, Tile::CrateGoal),
            _ => (),
        }
        match self.get(crate_start) {
            Tile::Crate => self.set(crate_start, Tile::Floor),
            Tile::CrateGoal => self.set(crate_start, Tile::Goal),
            _ => (),
        }
        assert(self.data@ =~= unpushed_cells(old(self).data@, old(self).width, action, player_start));
    }
}


#[verifier::external_type_specification]
#[verifier::external_body]
#[verifier::reject_recursive_types(B)]
pub struct ExBitVec<B>(BitVec<B>);

/// The bits that a `BitVec` holds, in order.
pub uninterp spec fn bit_contents(bv: BitVec) -> Seq<bool>;

/// `BitVec::from_elem`: a vector of `nbits` bits, each equal to `bit`.
#[verifier::external_body]
fn bitvec_from_elem(nbits: usize, bit: bool) -> (bv: BitVec)
    ensures
        bit_contents(bv) == Seq::new(nbits as nat, |i: int| bit),
{
    BitVec::from_elem(nbits, bit)
}

/// `BitVec::get`: the bit at `i`, or `None` when `i` is past the end.
#[verifier::external_body]
fn bitvec_get(bv: &BitVec, i: usize) -> (r: Option<bool>)
    ensures
        i < bit_contents(*bv).len() ==> r == Some(bit_contents(*bv)[i as int]),
        i >= bit_contents(*bv).len() ==> r is None,
{
    bv.get(i)
}

/// `BitVec::set`: sets the bit at `i` to `x`; it panics when `i` is past
/// the end, which the `requires` rules out.
#[verifier::external_body]
fn bitvec_set(bv: &mut BitVec, i: usize, x: bool)
    requires
        i < bit_contents(*old(bv)).len(),
    ensures
        bit_contents(*final(bv)) == bit_contents(*old(bv)).update(i as int, x),
{
    bv.set(i, x);
}

/// `BitVec::len`: the number of bits.
#[verifier::external_body]
fn bitvec_len(bv: &BitVec) -> (n: usize)
    ensures
        n == bit_contents(*bv).len(),
{
    bv.len()
}

/// A grid of flags with the same layout as a `TileMatrix`.
pub struct BitMatrix {
    pub width: usize,
    pub bv: BitVec,
}

impl BitMatrix {
    /// The flags, row by row.
    pub open spec fn bits(&self) -> Seq<bool> {
        bit_contents(self.bv)
    }

    /// Whether the flag of `p` exists.
    pub open spec fn in_bounds(&self, p: Point2D) -> bool {
        0 <= index_of(self.width, p) < self.bits().len()
    }

    /// The flag of `p`.
    pub open spec fn flag(&self, p: Point2D) -> bool {
        self.bits()[index_of(self.width, p)]
    }

    /// A grid of `len` cleared flags, `width` flags per row.
    pub fn new(width: usize, len: usize) -> (m: BitMatrix)
        ensures
            m.width == width,
            m.bits() == Seq::new(len as nat, |i: int| false),
    {
        BitMatrix { width, bv: bitvec_from_elem(len, false) }
    }

    /// The flag of `p`, or `None` when `p` lies past the end.
    pub fn get(&self, p: Point2D) -> (r: Option<bool>)
        requires
            index_of(self.width, p) <= usize::MAX,
        ensures
            self.in_bounds(p) ==> r == Some(self.flag(p)),
            !self.in_bounds(p) ==> r is None,
    {
        assert(p.y * self.width <= p.y * self.width + p.x);
        bitvec_get(&self.bv, p.y * self.width + p.x)
    }

    pub fn set(&mut self, p: Point2D, val: bool)
        requires
            old(self).in_bounds(p),
        ensures
            final(self).width == old(self).width,
            final(self).bits() == old(self).bits().update(index_of(old(self).width, p), val),
    {
        let len = bitvec_len(&self.bv);
        assert(p.y * self.width <= p.y * self.width + p.x);
        bitvec_set(&mut self.bv, p.y * self.width + p.x, val);
    }
}

impl Point2D {
    pub fn new(x: usize, y: usize) -> (p: Point2D)
        ensures
            p.x == x,
            p.y == y,
    {
        Point2D { x, y }
    }

    /// The neighbouring point in the direction of `action`.
    pub fn from(&self, action: Action) -> (p: Point2D)
        requires
            can_step(*self, action),
        ensures
            p == step(*self, action),
    {
        match action {
            Action::Up => Point2D::new(self.x, self.y - 1),
            Action::Down => Point2D::new(self.x, self.y + 1),
            Action::Left => Point2D::new(self.x - 1, self.y),
            Action::Right => Point2D::new(self.x + 1, self.y),
            Action::PushUp => Point2D::new(self.x, self.y - 1),
            Action::PushDown => Point2D::new(self.x, self.y + 1),
            Action::PushLeft => Point2D::new(self.x - 1, self.y),
            Action::PushRight => Point2D::new(self.x + 1, self.y),
            Action::NoMove => *self,
        }
    }
}

impl Action {
    /// Writes a solution in the standard notation: `udlr` for walks,
    /// `UDLR` for pushes.
    pub fn to_string(actions: &Vec<Action>) -> (s: String)
        ensures
            s@ == actions_text(actions@),
    {
        let mut s = String::new();
        let mut i: usize = 0;
        while i < actions.len()
            invariant
                i <= actions.len(),
                s@ == actions_text(actions@.subrange(0, i as int)),
            decreases actions.len() - i,
        {
            proof {
                assert(actions@.subrange(0, i + 1).drop_last() =~= actions@.subrange(0, i as int));
                reveal_strlit("u");
                reveal_strlit("d");
                reveal_strlit("l");
                reveal_strlit("r");
                reveal_strlit("U");
                reveal_strlit("D");
                reveal_strlit("L");
                reveal_strlit("R");
            }
            match actions[i] {
                Action::Up => s.append("u"),
                Action::Down => s.append("d"),
                Action::Left => s.append("l"),
                Action::Right => s.append("r"),
                Action::PushUp => s.append("U"),
                Action::PushDown => s.append("D"),
                Action::PushLeft => s.append("L"),
                Action::PushRight => s.append("R"),
                Action::NoMove => (),
            }
            i = i + 1;
        }
        assert(actions@.subrange(0, actions@.len() as int) =~= actions@);
        s
    }

    /// The opposite direction; the inverse of `NoMove` is `NoMove`.
    pub fn inverse(&self) -> (r: Action)
        ensures
            r == spec_inverse(*self),
    {
        match self {
            Action::Up => Action::Down,
            Action::Down => Action::Up,
            Action::Left => Action::Right,
            Action::Right => Action::Left,
            Action::PushUp => Action::PushDown,
            Action::PushDown => Action::PushUp,
            Action::PushLeft => Action::PushRight,
            Action::PushRight => Action::PushLeft,
            Action::NoMove => Action::NoMove,
        }
    }
}

/// Counters gathered during a search.
pub struct RunDat {
    pub nodes_checked: usize,
    pub nodes_generated: usize,
    pub nodes_deadlocked: usize,
    pub nodes_skipped: usize,
}

impl RunDat {
    pub fn new() -> (r: RunDat)
        ensures
            r.nodes_checked == 0,
            r.nodes_generated == 0,
            r.nodes_deadlocked == 0,
            r.nodes_skipped == 0,
    {
        RunDat { nodes_checked: 0, nodes_generated: 0, nodes_deadlocked: 0, nodes_skipped: 0 }
    }
}


/// The characters of `s`, in order.
pub(crate) fn chars_of(s: &str) -> (v: Vec<char>)
    ensures
        v@ == s@,
{
    let mut v: Vec<char> = Vec::new();
    for c in it: s.chars()
        invariant
            v@ == it.seq().take(it.index() as int),
    {
        v.push(c);
    }
    v
}


/// A goal cell (with or without a crate or the player on it).
pub open spec fn is_goal_tile(t: Tile) -> bool {
    t is Goal || t is PlayerGoal || t is CrateGoal
}

/// A cell holding a crate.
pub open spec fn is_crate_tile(t: Tile) -> bool {
    t is Crate || t is CrateGoal
}

/// A cell holding the player.
pub open spec fn is_player_tile(t: Tile) -> bool {
    t is Player || t is PlayerGoal
}

/// Why a puzzle text could not be read.
#[derive(Clone, Copy, PartialEq, Eq, Structural, Debug)]
pub enum PuzzleError {
    /// The text has no newline.
    NoNewline,
    /// The text begins with a newline.
    NewlineFirst,
    /// A character other than `#@+$*. `, a newline or a carriage return.
    InvalidChar(char),
    /// There is not exactly one player.
    PlayerCount,
    /// The numbers of goals and crates differ.
    GoalCrateMismatch,
}

/// The tile a character of a puzzle text stands for.
pub open spec fn char_tile(c: char) -> Option<Tile> {
    if c == '#' {
        Some(Tile::Wall)
    } else if c == '@' {
        Some(Tile::Player)
    } else if c == '+' {
        Some(Tile::PlayerGoal)
    } else if c == '$' {
        Some(Tile::Crate)
    } else if c == '*' {
        Some(Tile::CrateGoal)
    } else if c == '.' {
        Some(Tile::Goal)
    } else if c == ' ' {
        Some(Tile::Floor)
    } else {
        None
    }
}

/// The length of the longest line of `t` that ends in a newline, and the
/// length of the text after the last newline.
pub open spec fn line_stats(t: Seq<char>) -> (nat, nat)
    decreases t.len(),
{
    if t.len() == 0 {
        (0, 0)
    } else {
        let (best, cur) = line_stats(t.drop_last());
        if t.last() == '\n' {
            (if cur > best {
                cur
            } else {
                best
            }, 0)
        } else {
            (best, cur + 1)
        }
    }
}

/// One for a tile that satisfies the test, zero otherwise.
pub open spec fn count_if(b: bool) -> nat {
    if b {
        1
    } else {
        0
    }
}

/// The reading of `t` with rows `w` wide: the tiles so far, the tile count
/// that the next row's padding counts from, the number of newlines, the
/// numbers of players, goals and crates, and the first character that is no
/// tile. A newline pads the row with floor up to the next multiple of `w`; a
/// carriage return is skipped.
pub open spec fn scan_text(t: Seq<char>, w: nat) -> (Seq<Tile>, nat, nat, nat, nat, nat, Option<char>)
    decreases t.len(),
{
    if t.len() == 0 {
        (Seq::empty(), 0, 0, 0, 0, 0, None)
    } else {
        let (tiles, index, lines, players, goals, crates, bad) = scan_text(t.drop_last(), w);
        let c = t.last();
        if bad is Some {
            (tiles, index, lines, players, goals, crates, bad)
        } else if c == '\n' {
            let end = (lines + 1) * w;
            let pad: nat = if end > index {
                (end - index) as nat
            } else {
                0
            };
            (tiles + Seq::new(pad, |k: int| Tile::Floor), end, lines + 1, players, goals, crates, None)
        } else if c == '\r' {
            (tiles, index, lines, players, goals, crates, None)
        } else {
            match char_tile(c) {
                Some(tile) => (
                    tiles.push(tile),
                    index + 1,
                    lines,
                    players + count_if(is_player_tile(tile)),
                    goals + count_if(is_goal_tile(tile)),
                    crates + count_if(is_crate_tile(tile)),
                    None,
                ),
                None => (tiles, index, lines, players, goals, crates, Some(c)),
            }
        }
    }
}

/// What reading a puzzle text gives: its width and tiles, or the first
/// problem found. With `check_pieces`, the text must also hold exactly one
/// player and as many goals as crates.
pub open spec fn parse_text(t: Seq<char>, check_pieces: bool) -> Result<(nat, Seq<Tile>), PuzzleError> {
    let w = line_stats(t).0;
    let (tiles, index, lines, players, goals, crates, bad) = scan_text(t, w);
    if !t.contains('\n') {
        Err(PuzzleError::NoNewline)
    } else if t[0] == '\n' {
        Err(PuzzleError::NewlineFirst)
    } else if bad is Some {
        Err(PuzzleError::InvalidChar(bad->0))
    } else if check_pieces && players != 1 {
        Err(PuzzleError::PlayerCount)
    } else if check_pieces && crates != goals {
        Err(PuzzleError::GoalCrateMismatch)
    } else {
        Ok((w, tiles))
    }
}

/// A text without newlines is one open line.
proof fn lemma_line_stats_open(t: Seq<char>)
    requires
        !t.contains('\n'),
    ensures
        line_stats(t) == (0nat, t.len()),
    decreases t.len(),
{
    if t.len() > 0 {
        let pre = t.drop_last();
        assert(!pre.contains('\n')) by {
            if pre.contains('\n') {
                let j = choose|j: int| 0 <= j < pre.len() && pre[j] == '\n';
                assert(t[j] == '\n');
            }
        }
        assert(t[t.len() - 1] != '\n');
        lemma_line_stats_open(pre);
    }
}

/// A text that does not begin with a newline but holds one has a line of
/// at least one character that ends in a newline.
proof fn lemma_first_line_counts(t: Seq<char>)
    requires
        t.len() > 0,
        t[0] != '\n',
        t.contains('\n'),
    ensures
        line_stats(t).0 >= 1,
    decreases t.len(),
{
    let pre = t.drop_last();
    if pre.contains('\n') {
        let j = choose|j: int| 0 <= j < pre.len() && pre[j] == '\n';
        assert(pre[0] == t[0]);
        lemma_first_line_counts(pre);
    } else {
        lemma_line_stats_open(pre);
        let j = choose|j: int| 0 <= j < t.len() && t[j] == '\n';
        if j < t.len() - 1 {
            assert(pre[j] == '\n');
        }
        assert(t.last() == '\n');
        assert(pre.len() >= 1);
    }
}

pub(crate) proof fn lemma_line_stats_bound(t: Seq<char>)
    ensures
        line_stats(t).0 <= t.len(),
        line_stats(t).1 <= t.len(),
    decreases t.len(),
{
    if t.len() > 0 {
        lemma_line_stats_bound(t.drop_last());
    }
}

proof fn lemma_line_stats_mono(t: Seq<char>, i: int)
    requires
        0 <= i <= t.len(),
    ensures
        line_stats(t.subrange(0, i)).0 <= line_stats(t).0,
    decreases t.len() - i,
{
    if i < t.len() {
        lemma_line_stats_mono(t, i + 1);
        assert(t.subrange(0, i + 1).drop_last() =~= t.subrange(0, i));
    } else {
        assert(t.subrange(0, i) =~= t);
    }
}

proof fn lemma_scan_bad_sticks(t: Seq<char>, w: nat, k: int)
    requires
        0 <= k <= t.len(),
        scan_text(t.subrange(0, k), w).6 is Some,
    ensures
        scan_text(t, w).6 == scan_text(t.subrange(0, k), w).6,
    decreases t.len() - k,
{
    if k < t.len() {
        assert(t.subrange(0, k + 1).drop_last() =~= t.subrange(0, k));
        lemma_scan_bad_sticks(t, w, k + 1);
    } else {
        assert(t.subrange(0, k) =~= t);
    }
}

/// A grid read from `t` has room in memory: the text's length times its
/// widest line fits in `usize`.
pub open spec fn text_fits(t: Seq<char>) -> bool {
    t.len() * line_stats(t).0 <= usize::MAX
}

/// Reading without the check of the pieces gives what the full reading
/// gives whenever that succeeds.
pub proof fn lemma_bare_reading_agrees(t: Seq<char>)
    ensures
        parse_text(t, true) is Ok ==> parse_text(t, false) == parse_text(t, true),
{
}

/// The length of the longest line of `text` that ends in a newline.
fn widest_line(text: &Vec<char>) -> (w: usize)
    ensures
        w == line_stats(text@).0,
{
    let ghost t = text@;
    let n = text.len();
    let mut puzzle_width: usize = 0;
    let mut line_len: usize = 0;
    let mut i: usize = 0;
    while i < n
        invariant
            i <= n,
            n == t.len(),
            text@ == t,
            (puzzle_width as nat, line_len as nat) == line_stats(t.subrange(0, i as int)),
        decreases n - i,
    {
        proof {
            let pre = t.subrange(0, i as int);
            let post = t.subrange(0, i + 1);
            assert(post.drop_last() =~= pre);
            assert(post.last() == t[i as int]);
            lemma_line_stats_bound(pre);
        }
        if text[i] == '\n' {
            if line_len > puzzle_width {
                puzzle_width = line_len;
            }
            line_len = 0;
        } else {
            line_len = line_len + 1;
        }
        i = i + 1;
    }
    assert(t.subrange(0, n as int) =~= t);
    puzzle_width
}

/// Whether a grid read from `s` has room in memory (see `text_fits`), which
/// `TileMatrix::from_string` asks of its text.
pub fn text_fits_in_memory(s: &str) -> (r: bool)
    ensures
        r == text_fits(s@),
{
    let text = chars_of(s);
    let w = widest_line(&text);
    text.len().checked_mul(w).is_some()
}

/// Reads the characters of a puzzle text into a grid (see `parse_text`).
pub(crate) fn parse_grid(text: &Vec<char>, check_pieces: bool) -> (r: Result<TileMatrix, PuzzleError>)
    requires
        text_fits(text@),
    ensures
        match r {
            Ok(m) => parse_text(text@, check_pieces) == Ok::<(nat, Seq<Tile>), PuzzleError>((m.width as nat, m.data@)),
            Err(e) => parse_text(text@, check_pieces) == Err::<(nat, Seq<Tile>), PuzzleError>(e),
        },
{
    let ghost t = text@;
    let n = text.len();

    // find puzzle width.
    let mut has_newline = false;
    let mut puzzle_width: usize = 0;
    let mut line_len: usize = 0;
    let mut i: usize = 0;
    while i < n
        invariant
            i <= n,
            n == t.len(),
            text@ == t,
            has_newline == t.subrange(0, i as int).contains('\n'),
            (puzzle_width as nat, line_len as nat) == line_stats(t.subrange(0, i as int)),
        decreases n - i,
    {
        proof {
            let pre = t.subrange(0, i as int);
            let post = t.subrange(0, i + 1);
            assert(post.drop_last() =~= pre);
            assert(post.last() == t[i as int]);
            lemma_line_stats_bound(pre);
            if post.contains('\n') {
                let j = choose|j: int| 0 <= j < post.len() && post[j] == '\n';
                if j < i {
                    assert(pre[j] == '\n');
                }
            }
            if pre.contains('\n') {
                let j = choose|j: int| 0 <= j < pre.len() && pre[j] == '\n';
                assert(post[j] == '\n');
            }
            if t[i as int] == '\n' {
                assert(post[i as int] == '\n');
            }
        }
        if text[i] == '\n' {
            has_newline = true;
            if line_len > puzzle_width {
                puzzle_width = line_len;
            }
            line_len = 0;
        } else {
            line_len = line_len + 1;
        }
        i = i + 1;
    }
    assert(t.subrange(0, n as int) =~= t);
    if !has_newline {
        return Err(PuzzleError::NoNewline);
    }
    if text[0] == '\n' {
        return Err(PuzzleError::NewlineFirst);
    }
    let ghost w = puzzle_width as nat;
    proof {
        lemma_line_stats_bound(t);
        lemma_first_line_counts(t);
    }

    let mut player_count: usize = 0;
    let mut goal_count: usize = 0;
    let mut crate_count: usize = 0;

    // map string to Tile enum.
    let mut line_number: usize = 0;
    let mut index: usize = 0;
    let mut tile_vec: Vec<Tile> = Vec::new();
    let mut i: usize = 0;
    while i < n
        invariant
            i <= n,
            n == t.len(),
            text@ == t,
            t == text@,
            n * w <= usize::MAX,
            1 <= w <= n,
            w == puzzle_width,
            w == line_stats(t).0,
            t.contains('\n'),
            t[0] != '\n',
            index <= i * w,
            line_number <= i,
            player_count <= i,
            goal_count <= i,
            crate_count <= i,
            scan_text(t.subrange(0, i as int), w) == (
                tile_vec@,
                index as nat,
                line_number as nat,
                player_count as nat,
                goal_count as nat,
                crate_count as nat,
                None::<char>,
            ),
        decreases n - i,
    {
        let ghost pre = t.subrange(0, i as int);
        let ghost post = t.subrange(0, i + 1);
        proof {
            assert(post.drop_last() =~= pre);
            assert(post.last() == t[i as int]);
            assert(i * w + w == (i + 1) * w) by (nonlinear_arith);
            assert((i + 1) * w <= n * w) by (nonlinear_arith)
                requires
                    i + 1 <= n,
            ;
            assert((line_number + 1) * w <= (i + 1) * w) by (nonlinear_arith)
                requires
                    line_number <= i,
            ;
        }
        let ch = text[i];
        if ch == '#' {
            tile_vec.push(Tile::Wall);
            index = index + 1;
        } else if ch == '@' {
            tile_vec.push(Tile::Player);
            player_count = player_count + 1;
            index = index + 1;
        } else if ch == '+' {
            tile_vec.push(Tile::PlayerGoal);
            player_count = player_count + 1;
            goal_count = goal_count + 1;
            index = index + 1;
        } else if ch == '$' {
            tile_vec.push(Tile::Crate);
            crate_count = crate_count + 1;
            index = index + 1;
        } else if ch == '*' {
            tile_vec.push(Tile::CrateGoal);
            goal_count = goal_count + 1;
            crate_count = crate_count + 1;
            index = index + 1;
        } else if ch == '.' {
            tile_vec.push(Tile::Goal);
            goal_count = goal_count + 1;
            index = index + 1;
        } else if ch == ' ' {
            tile_vec.push(Tile::Floor);
            index = index + 1;
        } else if ch == '\n' {
            // add extra padding to the map.
            line_number = line_number + 1;
            let end = line_number * puzzle_width;
            let ghost before = tile_vec@;
            let mut k: usize = index;
            while k < end
                invariant
                    index <= k,
                    k <= end || k == index,
                    tile_vec@ == before + Seq::new((k - index) as nat, |j: int| Tile::Floor),
                decreases end - k,
            {
                let ghost prev = tile_vec@;
                tile_vec.push(Tile::Floor);
                k = k + 1;
                assert(tile_vec@ =~= before + Seq::new((k - index) as nat, |j: int| Tile::Floor)) by {
                    assert(tile_vec@ == prev.push(Tile::Floor));
                    assert forall|j: int| 0 <= j < tile_vec@.len() implies tile_vec@[j] == (before + Seq::new(
                        (k - index) as nat,
                        |j: int| Tile::Floor,
                    ))[j] by {
                        if j < prev.len() {
                            assert(tile_vec@[j] == prev[j]);
                        }
                    }
                }
            }
            assert(tile_vec@ =~= before + Seq::new(
                (if end > index {
                    end - index
                } else {
                    0
                }) as nat,
                |j: int| Tile::Floor,
            ));
            index = end;
        } else if ch == '\r' {
        } else {
            proof {
                assert(char_tile(ch) is None);
                assert(scan_text(post, w).6 == Some(ch));
                lemma_scan_bad_sticks(t, w, i + 1);
                assert(t.subrange(0, n as int) =~= t);
                assert(scan_text(t, w).6 == Some(ch));
                assert(t == text@);
            }
            return Err(PuzzleError::InvalidChar(ch));
        }
        i = i + 1;
    }
    assert(t.subrange(0, n as int) =~= t);

    if check_pieces && player_count != 1 {
        return Err(PuzzleError::PlayerCount);
    }
    if check_pieces && crate_count != goal_count {
        return Err(PuzzleError::GoalCrateMismatch);
    }
    Ok(TileMatrix { width: puzzle_width, data: tile_vec })
}

/// The number of cells holding a crate (on a goal or not).
pub open spec fn crate_tiles(cells: Seq<Tile>) -> nat
    decreases cells.len(),
{
    if cells.len() == 0 {
        0
    } else {
        crate_tiles(cells.drop_last()) + if cells.last() is Crate || cells.last() is CrateGoal {
            1nat
        } else {
            0nat
        }
    }
}

/// The number of cells holding a goal (under a crate, the player or nothing).
pub open spec fn goal_tiles(cells: Seq<Tile>) -> nat
    decreases cells.len(),
{
    if cells.len() == 0 {
        0
    } else {
        goal_tiles(cells.drop_last()) + if cells.last() is Goal || cells.last() is PlayerGoal
            || cells.last() is CrateGoal {
            1nat
        } else {
            0nat
        }
    }
}

/// The number of cells holding the player.
pub open spec fn player_tiles(cells: Seq<Tile>) -> nat
    decreases cells.len(),
{
    if cells.len() == 0 {
        0
    } else {
        player_tiles(cells.drop_last()) + count_if(is_player_tile(cells.last()))
    }
}

proof fn lemma_counts_with_floor(tiles: Seq<Tile>, n: nat)
    ensures
        goal_tiles(tiles + Seq::new(n, |k: int| Tile::Floor)) == goal_tiles(tiles),
        crate_tiles(tiles + Seq::new(n, |k: int| Tile::Floor)) == crate_tiles(tiles),
        player_tiles(tiles + Seq::new(n, |k: int| Tile::Floor)) == player_tiles(tiles),
    decreases n,
{
    let all = tiles + Seq::new(n, |k: int| Tile::Floor);
    if n == 0 {
        assert(all =~= tiles);
    } else {
        lemma_counts_with_floor(tiles, (n - 1) as nat);
        assert(all.drop_last() =~= tiles + Seq::new((n - 1) as nat, |k: int| Tile::Floor));
        assert(all.last() == Tile::Floor);
    }
}

proof fn lemma_scan_counts(t: Seq<char>, w: nat)
    ensures
        scan_text(t, w).6 is None ==> scan_text(t, w).3 == player_tiles(scan_text(t, w).0) && scan_text(t, w).4
            == goal_tiles(scan_text(t, w).0) && scan_text(t, w).5 == crate_tiles(scan_text(t, w).0),
    decreases t.len(),
{
    if t.len() > 0 {
        lemma_scan_counts(t.drop_last(), w);
        let prev = scan_text(t.drop_last(), w);
        let tiles = prev.0;
        if prev.6 is None && t.last() == '\n' {
            let end = (prev.2 + 1) * w;
            let pad: nat = if end > prev.1 {
                (end - prev.1) as nat
            } else {
                0
            };
            lemma_counts_with_floor(tiles, pad);
        } else if prev.6 is None && t.last() != '\r' {
            match char_tile(t.last()) {
                Some(tile) => {
                    assert(tiles.push(tile).drop_last() =~= tiles);
                },
                None => {},
            }
        }
    }
}

/// A puzzle that `from_string` accepts has exactly one player and as many
/// goals as crates.
pub proof fn lemma_read_pieces(t: Seq<char>)
    requires
        parse_text(t, true) is Ok,
    ensures
        player_tiles(parse_text(t, true)->Ok_0.1) == 1,
        goal_tiles(parse_text(t, true)->Ok_0.1) == crate_tiles(parse_text(t, true)->Ok_0.1),
{
    lemma_scan_counts(t, line_stats(t).0);
}

} // verus!
