use vstd::prelude::*;

use crate::level_generator::{
    blank_char, decimal, digit_char, generated, goal_points_at, grid_of_text, header_lines, inner_cell, joined,
    laid_out, lemma_cell_of, lemma_generated_reads_back, lemma_joined_step, placed_char, pullable, sok_entries,
    sok_header, text_point,
};
use crate::level_reader::{
    all_digits, digits_value, is_digit, is_header, parse_number, sok_result, sok_scan, sok_step, split_lines,
    starts_puzzle_row, strip_cr, text_lines, SokError, SokState,
};
use crate::types::{parse_text, PuzzleError, Tile, TileMatrix};

verus! {

/// A text without newlines is one open line.
proof fn lemma_split_open(x: Seq<char>)
    requires
        !x.contains('\n'),
    ensures
        split_lines(x) == (Seq::<Seq<char>>::empty(), x),
    decreases x.len(),
{
    if x.len() > 0 {
        let pre = x.drop_last();
        assert(!pre.contains('\n')) by {
            if pre.contains('\n') {
                let j = choose|j: int| 0 <= j < pre.len() && pre[j] == '\n';
                assert(x[j] == '\n');
            }
        }
        lemma_split_open(pre);
        assert(x[x.len() - 1] != '\n');
        assert(pre.push(x.last()) =~= x);
    }
}

/// Splitting a text that ends a line goes on where the splitting of the
/// first part ended.
proof fn lemma_split_concat(a: Seq<char>, b: Seq<char>)
    requires
        split_lines(a).1.len() == 0,
    ensures
        split_lines(a + b) == (split_lines(a).0 + split_lines(b).0, split_lines(b).1),
    decreases b.len(),
{
    if b.len() == 0 {
        assert(a + b =~= a);
        assert(split_lines(a).0 + split_lines(b).0 =~= split_lines(a).0);
        assert(split_lines(a).1 =~= Seq::<char>::empty());
    } else {
        lemma_split_concat(a, b.drop_last());
        assert((a + b).drop_last() =~= a + b.drop_last());
        assert((a + b).last() == b.last());
        let (la, _) = split_lines(a);
        let (lb, cb) = split_lines(b.drop_last());
        if b.last() == '\n' {
            assert(la + lb.push(strip_cr(cb)) =~= (la + lb).push(strip_cr(cb)));
        }
    }
}

/// Lines without newlines or carriage returns split back out of their
/// joined text.
proof fn lemma_split_joined(lines: Seq<Seq<char>>)
    requires
        forall|i: int| 0 <= i < lines.len() ==> !(#[trigger] lines[i]).contains('\n') && !lines[i].contains('\r'),
    ensures
        split_lines(joined(lines)) == (lines, Seq::<char>::empty()),
    decreases lines.len(),
{
    if lines.len() == 0 {
        assert(joined(lines) =~= Seq::<char>::empty());
        assert(lines =~= Seq::<Seq<char>>::empty());
    } else {
        let pre = lines.drop_last();
        let l = lines.last();
        assert forall|i: int| 0 <= i < pre.len() implies !(#[trigger] pre[i]).contains('\n') && !pre[i].contains('\r') by {
            assert(pre[i] == lines[i]);
        }
        lemma_split_joined(pre);
        assert(l == lines[lines.len() - 1]);
        lemma_split_open(l);
        let t = l.push('\n');
        assert(t.drop_last() =~= l);
        assert(split_lines(t) == (seq![strip_cr(l)], Seq::<char>::empty()));
        if l.len() > 0 {
            assert(l.last() != '\r') by {
                assert(l[l.len() - 1] == l.last());
            }
        }
        assert(strip_cr(l) == l);
        lemma_split_concat(joined(pre), t);
        assert(pre + seq![l] =~= lines);
    }
}

/// The text of two runs of lines is the text of the first then of the
/// second.
proof fn lemma_joined_concat(a: Seq<Seq<char>>, b: Seq<Seq<char>>)
    ensures
        joined(a + b) == joined(a) + joined(b),
    decreases b.len(),
{
    if b.len() == 0 {
        assert(a + b =~= a);
        assert(joined(a) + joined(b) =~= joined(a));
    } else {
        lemma_joined_concat(a, b.drop_last());
        assert((a + b).drop_last() =~= a + b.drop_last());
        assert((a + b).last() == b.last());
        assert(joined(a) + (joined(b.drop_last()) + b.last().push('\n')) =~= (joined(a) + joined(b.drop_last()))
            + b.last().push('\n'));
    }
}

/// The rows of a `w` by `h` puzzle text, without their newlines.
pub open spec fn puzzle_rows(v: Seq<char>, w: nat, h: nat) -> Seq<Seq<char>> {
    Seq::new(h, |j: int| v.subrange(j * (w + 1), j * (w + 1) + w))
}

/// A cell of a laid out text is no newline or carriage return, and a wall
/// in the first column.
proof fn lemma_cell_char(v: Seq<char>, w: nat, h: nat, gs: Seq<int>, ws: Seq<int>, cs: Seq<int>, pc: int, x: int, y: int)
    requires
        laid_out(v, w, h, gs, ws, cs, pc),
        0 <= x < w,
        0 <= y < h,
    ensures
        0 <= y * (w + 1) + x < v.len(),
        v[y * (w + 1) + x] != '\n',
        v[y * (w + 1) + x] != '\r',
        x == 0 ==> v[y * (w + 1) + x] == '#',
{
    lemma_cell_of(w, h, x, y);
    let i = y * (w + 1) + x;
    if inner_cell(w, h, i) {
        assert(v[i] == placed_char(i, gs, ws, cs, pc));
    } else {
        assert(v[i] == blank_char(w, h, i));
    }
}

/// The rows of a laid out text join back into it; each holds no newline
/// or carriage return and starts with a wall.
proof fn lemma_rows(v: Seq<char>, w: nat, h: nat, gs: Seq<int>, ws: Seq<int>, cs: Seq<int>, pc: int)
    requires
        laid_out(v, w, h, gs, ws, cs, pc),
        w >= 1,
    ensures
        joined(puzzle_rows(v, w, h)) == v,
        forall|j: int|
            0 <= j < h ==> !(#[trigger] puzzle_rows(v, w, h)[j]).contains('\n') && !puzzle_rows(v, w, h)[j].contains('\r')
                && starts_puzzle_row(puzzle_rows(v, w, h)[j]),
{
    let rows = puzzle_rows(v, w, h);
    assert forall|j: int| 0 <= j < h implies !(#[trigger] rows[j]).contains('\n') && !rows[j].contains('\r')
        && starts_puzzle_row(rows[j]) by {
        lemma_cell_of(w, h, w as int, j);
        assert forall|x: int| 0 <= x < w implies rows[j][x] != '\n' && rows[j][x] != '\r' by {
            lemma_cell_char(v, w, h, gs, ws, cs, pc, x, j);
        }
        lemma_cell_char(v, w, h, gs, ws, cs, pc, 0, j);
        assert(rows[j][0] == '#');
    }
    lemma_rows_prefix(v, w, h, gs, ws, cs, pc, h as int);
    assert((h as int) * (w + 1) == (w + 1) * h) by (nonlinear_arith);
    assert(rows.take(h as int) =~= rows);
    assert(v.take((h as int) * (w + 1)) =~= v);
}

/// The first `j` rows join into the first `j` rows of the text.
proof fn lemma_rows_prefix(v: Seq<char>, w: nat, h: nat, gs: Seq<int>, ws: Seq<int>, cs: Seq<int>, pc: int, j: int)
    requires
        laid_out(v, w, h, gs, ws, cs, pc),
        w >= 1,
        0 <= j <= h,
    ensures
        joined(puzzle_rows(v, w, h).take(j)) == v.take(j * (w + 1)),
    decreases j,
{
    let rows = puzzle_rows(v, w, h);
    if j == 0 {
        assert(rows.take(0) =~= Seq::<Seq<char>>::empty());
        assert(0 * (w + 1) == 0);
        assert(v.take(0) =~= Seq::<char>::empty());
    } else {
        lemma_rows_prefix(v, w, h, gs, ws, cs, pc, j - 1);
        lemma_joined_step(rows, j - 1);
        let a = (j - 1) * (w + 1);
        assert(a + w + 1 == j * (w + 1)) by (nonlinear_arith)
            requires
                a == (j - 1) * (w + 1),
        ;
        assert(j * (w + 1) <= (w + 1) * h) by (nonlinear_arith)
            requires
                j <= h,
                w >= 0,
        ;
        lemma_cell_of(w, h, w as int, j - 1);
        lemma_cell_of(w, h, 0, j - 1);
        assert(v[a + w] == blank_char(w, h, a + w));
        assert(v.take(j * (w + 1)) =~= v.take(a) + rows[j - 1].push('\n'));
    }
}

/// The lines of the entry of puzzle number `k` with text `v`: its number,
/// its rows and two blank lines.
pub open spec fn entry_lines(k: nat, v: Seq<char>, w: nat, h: nat) -> Seq<Seq<char>> {
    seq![decimal(k)] + puzzle_rows(v, w, h) + seq![Seq::<char>::empty(), Seq::<char>::empty()]
}

/// The lines of the entries of the first `n` puzzles.
pub open spec fn entries_lines(ps: Seq<Seq<char>>, w: nat, h: nat, n: int) -> Seq<Seq<char>>
    decreases n,
{
    if n <= 0 {
        Seq::empty()
    } else {
        entries_lines(ps, w, h, n - 1) + entry_lines(n as nat, ps[n - 1], w, h)
    }
}

/// One line joins into itself and a newline.
proof fn lemma_joined_one(l: Seq<char>)
    ensures
        joined(seq![l]) == l.push('\n'),
{
    let one = seq![l];
    assert(one.drop_last() =~= Seq::<Seq<char>>::empty());
    assert(one.last() == l);
    assert(joined(one.drop_last()) == Seq::<char>::empty());
    assert(Seq::<char>::empty() + l.push('\n') =~= l.push('\n'));
}

/// The entries of a collection are the text of their lines.
proof fn lemma_entries_joined(ps: Seq<Seq<char>>, w: nat, h: nat, n: int)
    requires
        0 <= n <= ps.len(),
        forall|k: int| 0 <= k < n ==> joined(puzzle_rows(#[trigger] ps[k], w, h)) == ps[k],
    ensures
        sok_entries(ps, n) == joined(entries_lines(ps, w, h, n)),
    decreases n,
{
    if n == 0 {
        assert(joined(entries_lines(ps, w, h, 0)) =~= Seq::<char>::empty());
    } else {
        lemma_entries_joined(ps, w, h, n - 1);
        let rows = puzzle_rows(ps[n - 1], w, h);
        let e = Seq::<char>::empty();
        lemma_joined_concat(entries_lines(ps, w, h, n - 1), entry_lines(n as nat, ps[n - 1], w, h));
        lemma_joined_concat(seq![decimal(n as nat)] + rows, seq![e, e]);
        lemma_joined_concat(seq![decimal(n as nat)], rows);
        lemma_joined_one(decimal(n as nat));
        assert(seq![e, e].drop_last() =~= seq![e]);
        lemma_joined_one(e);
        assert(joined(seq![e, e]) =~= seq!['\n', '\n']);
        assert(decimal(n as nat).push('\n') =~= decimal(n as nat) + seq!['\n']);
        assert(sok_entries(ps, n) =~= joined(entries_lines(ps, w, h, n)));
    }
}

/// The character of a digit stands for it.
proof fn lemma_digit_value(d: nat)
    requires
        d < 10,
    ensures
        is_digit(digit_char(d)),
        (digit_char(d) as nat - '0' as nat) as nat == d,
{
    assert('0' as nat == 48);
    if d == 0 {
    } else if d == 1 {
        assert('1' as nat == 49);
    } else if d == 2 {
        assert('2' as nat == 50);
    } else if d == 3 {
        assert('3' as nat == 51);
    } else if d == 4 {
        assert('4' as nat == 52);
    } else if d == 5 {
        assert('5' as nat == 53);
    } else if d == 6 {
        assert('6' as nat == 54);
    } else if d == 7 {
        assert('7' as nat == 55);
    } else if d == 8 {
        assert('8' as nat == 56);
    } else {
        assert('9' as nat == 57);
    }
}

/// The digits of `m` in decimal write `m`.
proof fn lemma_decimal_value(m: nat)
    ensures
        decimal(m).len() >= 1,
        all_digits(decimal(m)),
        digits_value(decimal(m)) == m,
    decreases m,
{
    let d = decimal(m);
    if m < 10 {
        assert(d.drop_last() =~= Seq::<char>::empty());
        assert(d.last() == digit_char(m));
        lemma_digit_value(m);
        assert(digits_value(d.drop_last()) == 0);
        assert(is_digit(d[0]));
    } else {
        lemma_decimal_value(m / 10);
        let pre = decimal(m / 10);
        assert(d.drop_last() =~= pre);
        assert(d.last() == digit_char(m % 10));
        lemma_digit_value(m % 10);
        assert forall|i: int| 0 <= i < d.len() implies is_digit(#[trigger] d[i]) by {
            if i < pre.len() {
                assert(d[i] == pre[i]);
            }
        }
        vstd::arithmetic::div_mod::lemma_fundamental_div_mod(m as int, 10);
    }
}

/// A line that opens with no `+`, digit or colon is no header and no number.
pub open spec fn quiet(l: Seq<char>) -> bool {
    l.len() == 0 || (l[0] != '+' && !is_digit(l[0]) && l[0] != ':')
}

proof fn lemma_quiet(l: Seq<char>)
    requires
        quiet(l),
    ensures
        !is_header(l),
        parse_number(l) is None,
{
    if l.len() > 0 {
        if is_header(l) {
            assert(l[0] == ':');
        }
        if all_digits(l) {
            assert(is_digit(l[0]));
        }
    }
}

/// Quiet lines leave the reader looking for the header.
proof fn lemma_scan_quiet(lines: Seq<Seq<char>>)
    requires
        forall|i: int| 0 <= i < lines.len() ==> quiet(#[trigger] lines[i]),
    ensures
        sok_scan(lines) == (SokState::LookingForHeader, Seq::<char>::empty(), 1nat, Seq::<(nat, Seq<Tile>)>::empty(), None::<PuzzleError>),
    decreases lines.len(),
{
    if lines.len() > 0 {
        let pre = lines.drop_last();
        assert forall|i: int| 0 <= i < pre.len() implies quiet(#[trigger] pre[i]) by {
            assert(pre[i] == lines[i]);
        }
        lemma_scan_quiet(pre);
        assert(quiet(lines[lines.len() - 1]));
        lemma_quiet(lines.last());
    }
}

/// The head of a generated collection: its lines hold no newline or
/// carriage return, and the reader passes over them.
proof fn lemma_header_lines(name: Seq<char>)
    requires
        !name.contains('\n'),
        !name.contains('\r'),
    ensures
        forall|i: int|
            0 <= i < header_lines(name).len() ==> !(#[trigger] header_lines(name)[i]).contains('\n')
                && !header_lines(name)[i].contains('\r') && quiet(header_lines(name)[i]),
{
    reveal_strlit("Date of Last Change:");
    reveal_strlit("Set: ");
    reveal_strlit("Copyright: Geb");
    reveal_strlit("Email:");
    reveal_strlit("Homepage:");
    reveal_strlit("This sokoban puzzle set was automatically generated");
    let hl = header_lines(name);
    let set = "Set: "@ + name;
    assert(set[0] == 'S');
    assert(!set.contains('\n') && !set.contains('\r')) by {
        if set.contains('\n') {
            let j = choose|j: int| 0 <= j < set.len() && set[j] == '\n';
            if j >= 5 {
                assert(name[j - 5] == '\n');
            }
        }
        if set.contains('\r') {
            let j = choose|j: int| 0 <= j < set.len() && set[j] == '\r';
            if j >= 5 {
                assert(name[j - 5] == '\r');
            }
        }
    }
    assert forall|i: int| 0 <= i < hl.len() implies !(#[trigger] hl[i]).contains('\n') && !hl[i].contains('\r')
        && quiet(hl[i]) by {
        if i == 2 {
            assert(hl[i] == set);
        }
    }
}

/// The reader after one more line.
proof fn lemma_scan_push(a: Seq<Seq<char>>, x: Seq<char>)
    requires
        sok_scan(a).4 is None,
    ensures
        sok_scan(a.push(x)) == sok_step(sok_scan(a).0, sok_scan(a).1, sok_scan(a).2, sok_scan(a).3, x),
{
    assert(a.push(x).drop_last() =~= a);
}

/// After the number line of an entry and its first `j` rows the reader
/// holds those rows.
proof fn lemma_scan_rows(
    a: Seq<Seq<char>>,
    k: nat,
    v: Seq<char>,
    w: nat,
    h: nat,
    res: Seq<(nat, Seq<Tile>)>,
    j: int,
)
    requires
        sok_scan(a + entry_lines(k, v, w, h).take(1)) == (SokState::SavingPuzzle, Seq::<char>::empty(), k, res, None::<
            PuzzleError,
        >),
        forall|i: int| 0 <= i < h ==> starts_puzzle_row(#[trigger] puzzle_rows(v, w, h)[i]),
        0 <= j <= h,
    ensures
        sok_scan(a + entry_lines(k, v, w, h).take(1 + j)) == (
            SokState::SavingPuzzle,
            joined(puzzle_rows(v, w, h).take(j)),
            k,
            res,
            None::<PuzzleError>,
        ),
    decreases j,
{
    let e = entry_lines(k, v, w, h);
    let rows = puzzle_rows(v, w, h);
    if j == 0 {
        assert(rows.take(0) =~= Seq::<Seq<char>>::empty());
    } else {
        lemma_scan_rows(a, k, v, w, h, res, j - 1);
        assert(a + e.take(1 + j) =~= (a + e.take(j)).push(e[j]));
        lemma_scan_push(a + e.take(j), e[j]);
        assert(e[j] == rows[j - 1]);
        assert(starts_puzzle_row(rows[j - 1]));
        lemma_joined_step(rows, j - 1);
    }
}

/// The reader takes in a whole entry: its number, its rows, and the blank
/// line that ends the puzzle, which it reads.
proof fn lemma_scan_entry(
    a: Seq<Seq<char>>,
    k: nat,
    v: Seq<char>,
    w: nat,
    h: nat,
    gs: Seq<int>,
    ws: Seq<int>,
    cs: Seq<int>,
    pc: int,
    res: Seq<(nat, Seq<Tile>)>,
    st0: SokState,
)
    requires
        sok_scan(a) == (st0, Seq::<char>::empty(), k, res, None::<PuzzleError>),
        st0 == SokState::LookingForPuzzleNumber || (st0 == SokState::LookingForHeader && k == 1),
        1 <= k <= usize::MAX,
        laid_out(v, w, h, gs, ws, cs, pc),
        w >= 1,
        parse_text(v, true) is Ok,
    ensures
        sok_scan(a + entry_lines(k, v, w, h)) == (
            SokState::LookingForPuzzleNumber,
            Seq::<char>::empty(),
            k + 1,
            res.push(parse_text(v, true)->Ok_0),
            None::<PuzzleError>,
        ),
{
    let e = entry_lines(k, v, w, h);
    let rows = puzzle_rows(v, w, h);
    let empty = Seq::<char>::empty();
    let hh = h as int;
    lemma_rows(v, w, h, gs, ws, cs, pc);
    lemma_decimal_value(k);
    let d = decimal(k);
    assert(is_digit(d[0]));
    assert(parse_number(d) == Some(k));
    assert(!is_header(d)) by {
        if is_header(d) {
            assert(d[0] == ':');
        }
    }
    assert(e.len() == h + 3);
    assert(a + e.take(1) =~= a.push(e[0]));
    lemma_scan_push(a, e[0]);
    lemma_scan_rows(a, k, v, w, h, res, hh);
    assert(rows.take(hh) =~= rows);
    assert(a + e.take(hh + 2) =~= (a + e.take(hh + 1)).push(e[hh + 1]));
    lemma_scan_push(a + e.take(hh + 1), e[hh + 1]);
    assert(e[hh + 1] == empty);
    assert(a + e.take(hh + 3) =~= (a + e.take(hh + 2)).push(e[hh + 2]));
    lemma_scan_push(a + e.take(hh + 2), e[hh + 2]);
    assert(e[hh + 2] == empty);
    assert(parse_number(empty) is None);
    assert(e.take(hh + 3) =~= e);
}

/// What reading the first `n` puzzle texts of `ps` gives.
pub open spec fn readings(ps: Seq<Seq<char>>, n: int) -> Seq<(nat, Seq<Tile>)> {
    Seq::new(n as nat, |k: int| parse_text(ps[k], true)->Ok_0)
}

/// A generated puzzle is laid out by some pieces.
proof fn lemma_generated_laid_out(v: Seq<char>, w: nat, h: nat, goal_num: nat, wall_num: nat) -> (r: (
    Seq<int>,
    Seq<int>,
    Seq<int>,
    int,
))
    requires
        generated(v, w, h, goal_num, wall_num),
    ensures
        laid_out(v, w, h, r.0, r.1, r.2, r.3),
{
    choose|gs: Seq<int>, ws: Seq<int>, cs: Seq<int>, pc: int|
        #![trigger laid_out(v, w, h, gs, ws, cs, pc)]
        laid_out(v, w, h, gs, ws, cs, pc) && gs.len() == goal_num && ws.len() == wall_num && cs.len() == goal_num
            && inner_cell(w, h, pc) && !ws.contains(pc) && !cs.contains(pc) && forall|m: TileMatrix, k: int|
            #[trigger] grid_of_text(m, v, w, h) && 0 <= k < cs.len()
                ==> pullable(m, goal_points_at(w, gs), text_point(w, #[trigger] cs[k]))
}

/// The lines of the entries of generated puzzles hold no newline or
/// carriage return.
proof fn lemma_entries_clean(ps: Seq<Seq<char>>, w: nat, h: nat, goal_num: nat, wall_num: nat, n: int)
    requires
        0 <= n <= ps.len(),
        w >= 1,
        forall|k: int| 0 <= k < ps.len() ==> generated(#[trigger] ps[k], w, h, goal_num, wall_num),
    ensures
        forall|i: int|
            0 <= i < entries_lines(ps, w, h, n).len() ==> !(#[trigger] entries_lines(ps, w, h, n)[i]).contains('\n')
                && !entries_lines(ps, w, h, n)[i].contains('\r'),
    decreases n,
{
    if n > 0 {
        lemma_entries_clean(ps, w, h, goal_num, wall_num, n - 1);
        let pre = entries_lines(ps, w, h, n - 1);
        let e = entry_lines(n as nat, ps[n - 1], w, h);
        let r = lemma_generated_laid_out(ps[n - 1], w, h, goal_num, wall_num);
        lemma_rows(ps[n - 1], w, h, r.0, r.1, r.2, r.3);
        lemma_decimal_value(n as nat);
        let d = decimal(n as nat);
        assert(!d.contains('\n') && !d.contains('\r')) by {
            if d.contains('\n') {
                let j = choose|j: int| 0 <= j < d.len() && d[j] == '\n';
                assert(is_digit(d[j]));
            }
            if d.contains('\r') {
                let j = choose|j: int| 0 <= j < d.len() && d[j] == '\r';
                assert(is_digit(d[j]));
            }
        }
        let rows = puzzle_rows(ps[n - 1], w, h);
        let all = entries_lines(ps, w, h, n);
        assert forall|i: int| 0 <= i < all.len() implies !(#[trigger] all[i]).contains('\n') && !all[i].contains('\r') by {
            if i < pre.len() {
                assert(all[i] == pre[i]);
            } else {
                let j = i - pre.len();
                assert(all[i] == e[j]);
                if j == 0 {
                    assert(e[j] == d);
                } else if j <= h {
                    assert(e[j] == rows[j - 1]);
                } else {
                    assert(e[j] == Seq::<char>::empty());
                }
            }
        }
    }
}

/// The reader after the head and the first `n` entries of a collection of
/// generated puzzles.
proof fn lemma_scan_entries(
    name: Seq<char>,
    ps: Seq<Seq<char>>,
    w: nat,
    h: nat,
    goal_num: nat,
    wall_num: nat,
    n: int,
)
    requires
        forall|i: int| 0 <= i < header_lines(name).len() ==> quiet(#[trigger] header_lines(name)[i]),
        0 <= n <= ps.len(),
        ps.len() <= usize::MAX,
        w >= 3,
        h >= 3,
        forall|k: int| 0 <= k < ps.len() ==> generated(#[trigger] ps[k], w, h, goal_num, wall_num),
    ensures
        sok_scan(header_lines(name) + entries_lines(ps, w, h, n)) == (
            if n == 0 {
                SokState::LookingForHeader
            } else {
                SokState::LookingForPuzzleNumber
            },
            Seq::<char>::empty(),
            (n + 1) as nat,
            readings(ps, n),
            None::<PuzzleError>,
        ),
    decreases n,
{
    let hl = header_lines(name);
    if n == 0 {
        assert(hl + entries_lines(ps, w, h, 0) =~= hl);
        lemma_scan_quiet(hl);
        assert(readings(ps, 0) =~= Seq::<(nat, Seq<Tile>)>::empty());
    } else {
        lemma_scan_entries(name, ps, w, h, goal_num, wall_num, n - 1);
        let a = hl + entries_lines(ps, w, h, n - 1);
        let v = ps[n - 1];
        let r = lemma_generated_laid_out(v, w, h, goal_num, wall_num);
        lemma_generated_reads_back(v, w, h, goal_num, wall_num);
        let st0 = if n - 1 == 0 {
            SokState::LookingForHeader
        } else {
            SokState::LookingForPuzzleNumber
        };
        lemma_scan_entry(a, n as nat, v, w, h, r.0, r.1, r.2, r.3, readings(ps, n - 1), st0);
        assert(hl + entries_lines(ps, w, h, n) =~= a + entry_lines(n as nat, v, w, h));
        assert(readings(ps, n) =~= readings(ps, n - 1).push(parse_text(v, true)->Ok_0));
    }
}

/// A collection written from generated puzzles reads back: the reader of
/// `.sok` collections gives, in order, what reading each puzzle text
/// gives, a grid `w` wide of `w * h` cells.
pub proof fn lemma_collection_reads_back(
    name: Seq<char>,
    puzzles: Seq<Seq<char>>,
    w: nat,
    h: nat,
    goal_num: nat,
    wall_num: nat,
)
    requires
        !name.contains('\n'),
        !name.contains('\r'),
        1 <= puzzles.len() <= usize::MAX,
        w >= 3,
        h >= 3,
        forall|k: int| 0 <= k < puzzles.len() ==> generated(#[trigger] puzzles[k], w, h, goal_num, wall_num),
    ensures
        sok_result(sok_header(name) + sok_entries(puzzles, puzzles.len() as int)) == Ok::<
            Seq<(nat, Seq<Tile>)>,
            SokError,
        >(readings(puzzles, puzzles.len() as int)),
        forall|k: int|
            0 <= k < puzzles.len() ==> parse_text(#[trigger] puzzles[k], true) is Ok && parse_text(puzzles[k], true)->Ok_0.0
                == w && parse_text(puzzles[k], true)->Ok_0.1.len() == w * h,
{
    let n = puzzles.len() as int;
    let hl = header_lines(name);
    let el = entries_lines(puzzles, w, h, n);
    let all = hl + el;
    lemma_header_lines(name);
    assert forall|k: int| 0 <= k < n implies joined(puzzle_rows(#[trigger] puzzles[k], w, h)) == puzzles[k] by {
        let r = lemma_generated_laid_out(puzzles[k], w, h, goal_num, wall_num);
        lemma_rows(puzzles[k], w, h, r.0, r.1, r.2, r.3);
    }
    lemma_entries_joined(puzzles, w, h, n);
    lemma_joined_concat(hl, el);
    let t = sok_header(name) + sok_entries(puzzles, n);
    assert(t == joined(all));
    lemma_entries_clean(puzzles, w, h, goal_num, wall_num, n);
    assert forall|i: int| 0 <= i < all.len() implies !(#[trigger] all[i]).contains('\n') && !all[i].contains('\r') by {
        if i < hl.len() {
            assert(all[i] == hl[i]);
        } else {
            assert(all[i] == el[i - hl.len()]);
        }
    }
    lemma_split_joined(all);
    assert(text_lines(t) == all);
    lemma_scan_entries(name, puzzles, w, h, goal_num, wall_num, n);
    assert forall|k: int| 0 <= k < n implies parse_text(#[trigger] puzzles[k], true) is Ok && parse_text(
        puzzles[k],
        true,
    )->Ok_0.0 == w && parse_text(puzzles[k], true)->Ok_0.1.len() == w * h by {
        lemma_generated_reads_back(puzzles[k], w, h, goal_num, wall_num);
    }
}

/// After the number line `1` and the first `j` rows, the reader holds those
/// rows.
proof fn lemma_scan_numbered_rows(rows: Seq<Seq<char>>, j: int)
    requires
        0 <= j <= rows.len(),
        forall|i: int| 0 <= i < rows.len() ==> starts_puzzle_row(#[trigger] rows[i]),
    ensures
        sok_scan((seq![seq!['1']] + rows).take(1 + j)) == (
            SokState::SavingPuzzle,
            joined(rows.take(j)),
            1nat,
            Seq::<(nat, Seq<Tile>)>::empty(),
            None::<PuzzleError>,
        ),
    decreases j,
{
    let all = seq![seq!['1']] + rows;
    if j == 0 {
        let one = seq!['1'];
        assert(all.take(1) =~= Seq::<Seq<char>>::empty().push(one));
        lemma_scan_push(Seq::<Seq<char>>::empty(), one);
        assert(one.drop_last() =~= Seq::<char>::empty());
        assert(digits_value(one.drop_last()) == 0);
        assert(one.last() == '1');
        assert('1' as nat == 49 && '0' as nat == 48);
        assert(digits_value(one) == 1);
        assert(all_digits(one));
        assert(parse_number(one) == Some(1nat));
        assert(!is_header(one));
        assert(rows.take(0) =~= Seq::<Seq<char>>::empty());
    } else {
        lemma_scan_numbered_rows(rows, j - 1);
        assert(all.take(1 + j) =~= all.take(j).push(all[j]));
        lemma_scan_push(all.take(j), all[j]);
        assert(all[j] == rows[j - 1]);
        lemma_joined_step(rows, j - 1);
    }
}

/// A line after the puzzle number that starts with a wall, a space, the
/// player, a crate or a goal is a row of that puzzle: a collection of puzzle
/// `1` followed by such rows reads as the puzzle those rows spell.
pub proof fn lemma_numbered_rows_read(rows: Seq<Seq<char>>)
    requires
        rows.len() >= 1,
        forall|i: int|
            0 <= i < rows.len() ==> (#[trigger] rows[i]).len() > 0 && !rows[i].contains('\n') && !rows[i].contains('\r')
                && (rows[i][0] == '#' || rows[i][0] == ' ' || rows[i][0] == '@' || rows[i][0] == '$' || rows[i][0] == '.'
                || rows[i][0] == '+' || rows[i][0] == '*'),
        parse_text(joined(rows), true) is Ok,
    ensures
        sok_result(seq!['1', '\n'] + joined(rows)) == Ok::<Seq<(nat, Seq<Tile>)>, SokError>(
            seq![parse_text(joined(rows), true)->Ok_0],
        ),
{
    let one = seq!['1'];
    let all = seq![one] + rows;
    lemma_joined_one(one);
    lemma_joined_concat(seq![one], rows);
    assert(one.push('\n') =~= seq!['1', '\n']);
    let t = seq!['1', '\n'] + joined(rows);
    assert(t == joined(all));
    assert forall|i: int| 0 <= i < all.len() implies !(#[trigger] all[i]).contains('\n') && !all[i].contains('\r') by {
        if i == 0 {
            assert(all[i] == one);
            if one.contains('\n') || one.contains('\r') {
                assert(one[0] == '1');
            }
        } else {
            assert(all[i] == rows[i - 1]);
        }
    }
    lemma_split_joined(all);
    assert(text_lines(t) == all);
    assert forall|i: int| 0 <= i < rows.len() implies starts_puzzle_row(#[trigger] rows[i]) by {}
    lemma_scan_numbered_rows(rows, rows.len() as int);
    assert(all.take(1 + rows.len() as int) =~= all);
    assert(rows.take(rows.len() as int) =~= rows);
    assert(Seq::<(nat, Seq<Tile>)>::empty().push(parse_text(joined(rows), true)->Ok_0) =~= seq![
        parse_text(joined(rows), true)->Ok_0,
    ]);
}

} // verus!
