use vstd::prelude::*;

use crate::types::{PuzzleError, Tile, TileMatrix, chars_of, lemma_line_stats_bound, line_stats, parse_grid, parse_text, text_fits};

verus! {

/// Why a `.sok` collection could not be read.
#[derive(Clone, Copy, PartialEq, Eq, Structural, Debug)]
pub enum SokError {
    /// One of its puzzles could not be read.
    Puzzle(PuzzleError),
    /// It holds no puzzle.
    NoPuzzles,
}

/// Where the reader of a `.sok` collection stands.
#[derive(Clone, Copy, PartialEq, Eq, Structural, Debug)]
pub enum SokState {
    LookingForHeader,
    LookingForHeaderEnd,
    LookingForPuzzleNumber,
    SavingPuzzle,
}

/// The number of colons in the line that opens and closes the header.
pub const HEADER_LEN: usize = 70;

/// A line of colons that opens or closes the header of a collection.
pub open spec fn is_header(line: Seq<char>) -> bool {
    line.len() == HEADER_LEN && forall|i: int| 0 <= i < line.len() ==> #[trigger] line[i] == ':'
}

/// A decimal digit.
pub open spec fn is_digit(c: char) -> bool {
    '0' <= c <= '9'
}

/// Every character is a decimal digit.
pub open spec fn all_digits(d: Seq<char>) -> bool {
    forall|i: int| 0 <= i < d.len() ==> is_digit(#[trigger] d[i])
}

/// The number that a string of decimal digits writes.
pub open spec fn digits_value(d: Seq<char>) -> nat
    decreases d.len(),
{
    if d.len() == 0 {
        0
    } else {
        digits_value(d.drop_last()) * 10 + (d.last() as nat - '0' as nat) as nat
    }
}

/// The `usize` that a line writes: an optional `+` and at least one
/// decimal digit, with a value that fits in `usize`.
pub open spec fn parse_number(line: Seq<char>) -> Option<nat> {
    let d = if line.len() > 0 && line[0] == '+' {
        line.drop_first()
    } else {
        line
    };
    if d.len() > 0 && all_digits(d) && digits_value(d) <= usize::MAX {
        Some(digits_value(d))
    } else {
        None
    }
}

/// A line that can belong to a puzzle: it starts with one of `# @$.+*`.
pub open spec fn starts_puzzle_row(line: Seq<char>) -> bool {
    line.len() != 0 && (line[0] == '#' || line[0] == ' ' || line[0] == '@' || line[0] == '$' || line[0] == '.'
        || line[0] == '+' || line[0] == '*')
}

/// A line without the carriage return that ends it, if one does.
pub open spec fn strip_cr(line: Seq<char>) -> Seq<char> {
    if line.len() > 0 && line.last() == '\r' {
        line.drop_last()
    } else {
        line
    }
}

/// The lines of `t` that end in a newline (without it and a carriage return
/// before it), and the text after the last newline.
pub open spec fn split_lines(t: Seq<char>) -> (Seq<Seq<char>>, Seq<char>)
    decreases t.len(),
{
    if t.len() == 0 {
        (Seq::empty(), Seq::empty())
    } else {
        let (lines, cur) = split_lines(t.drop_last());
        if t.last() == '\n' {
            (lines.push(strip_cr(cur)), Seq::empty())
        } else {
            (lines, cur.push(t.last()))
        }
    }
}

/// The lines of `t`: those ending in a newline, then the text after the
/// last newline when there is any.
pub open spec fn text_lines(t: Seq<char>) -> Seq<Seq<char>> {
    let (lines, cur) = split_lines(t);
    if cur.len() > 0 {
        lines.push(cur)
    } else {
        lines
    }
}

/// One line read by the reader of a collection, from the state `st`, the
/// puzzle text `cur` gathered so far, the puzzle number `num` looked for and
/// the puzzles `ps` read so far.
pub open spec fn sok_step(
    st: SokState,
    cur: Seq<char>,
    num: nat,
    ps: Seq<(nat, Seq<Tile>)>,
    line: Seq<char>,
) -> (SokState, Seq<char>, nat, Seq<(nat, Seq<Tile>)>, Option<PuzzleError>) {
    match st {
        SokState::LookingForHeader => {
            if is_header(line) {
                (SokState::LookingForHeaderEnd, cur, num, ps, None)
            } else if parse_number(line) == Some(num) {
                (SokState::SavingPuzzle, cur, num, ps, None)
            } else {
                (st, cur, num, ps, None)
            }
        },
        SokState::LookingForHeaderEnd => {
            if is_header(line) {
                (SokState::LookingForPuzzleNumber, cur, num, ps, None)
            } else {
                (st, cur, num, ps, None)
            }
        },
        SokState::LookingForPuzzleNumber => {
            if parse_number(line) == Some(num) {
                (SokState::SavingPuzzle, cur, num, ps, None)
            } else {
                (st, cur, num, ps, None)
            }
        },
        SokState::SavingPuzzle => {
            if starts_puzzle_row(line) {
                (st, cur + line.push('\n'), num, ps, None)
            } else {
                match parse_text(cur, true) {
                    Ok(p) => (SokState::LookingForPuzzleNumber, Seq::empty(), num + 1, ps.push(p), None),
                    Err(e) => (st, cur, num, ps, Some(e)),
                }
            }
        },
    }
}

/// The reader of a collection after `lines`; it stops at the first puzzle
/// that cannot be read.
pub open spec fn sok_scan(lines: Seq<Seq<char>>) -> (SokState, Seq<char>, nat, Seq<(nat, Seq<Tile>)>, Option<PuzzleError>)
    decreases lines.len(),
{
    if lines.len() == 0 {
        (SokState::LookingForHeader, Seq::empty(), 1, Seq::empty(), None)
    } else {
        let (st, cur, num, ps, err) = sok_scan(lines.drop_last());
        if err is Some {
            (st, cur, num, ps, err)
        } else {
            sok_step(st, cur, num, ps, lines.last())
        }
    }
}

/// What reading a `.sok` collection gives: the puzzles numbered from 1 (each
/// after its number line, up to the first line that cannot belong to a
/// puzzle), the last one ending with the text; or the first puzzle that
/// cannot be read; or `NoPuzzles`.
pub open spec fn sok_result(t: Seq<char>) -> Result<Seq<(nat, Seq<Tile>)>, SokError> {
    let (st, cur, num, ps, err) = sok_scan(text_lines(t));
    if err is Some {
        Err(SokError::Puzzle(err->0))
    } else if st is SavingPuzzle && parse_text(cur, true) is Err {
        Err(SokError::Puzzle(parse_text(cur, true)->Err_0))
    } else {
        let all = if st is SavingPuzzle {
            ps.push(parse_text(cur, true)->Ok_0)
        } else {
            ps
        };
        if all.len() == 0 {
            Err(SokError::NoPuzzles)
        } else {
            Ok(all)
        }
    }
}

/// The widths and tiles of the grids.
pub open spec fn grids(ps: Seq<TileMatrix>) -> Seq<(nat, Seq<Tile>)> {
    Seq::new(ps.len(), |i: int| (ps[i].width as nat, ps[i].data@))
}

proof fn lemma_digits_grow(d: Seq<char>, k: int)
    requires
        0 <= k <= d.len(),
        forall|i: int| 0 <= i < d.len() ==> is_digit(#[trigger] d[i]),
    ensures
        digits_value(d.subrange(0, k)) <= digits_value(d),
    decreases d.len() - k,
{
    if k < d.len() {
        lemma_digits_grow(d, k + 1);
        assert(d.subrange(0, k + 1).drop_last() =~= d.subrange(0, k));
    } else {
        assert(d.subrange(0, k) =~= d);
    }
}

/// The number a line writes (see `parse_number`).
fn line_number_value(line: &Vec<char>) -> (r: Option<usize>)
    ensures
        r is Some ==> parse_number(line@) == Some(r->0 as nat),
        r is None ==> parse_number(line@) is None,
{
    let n = line.len();
    let start: usize = if n > 0 && line[0] == '+' {
        1
    } else {
        0
    };
    let ghost d = if line@.len() > 0 && line@[0] == '+' {
        line@.drop_first()
    } else {
        line@
    };
    assert(d =~= line@.subrange(start as int, n as int));
    if start == n {
        return None;
    }
    let mut value: usize = 0;
    let mut i: usize = start;
    while i < n
        invariant
            start <= i <= n,
            n == line@.len(),
            d == line@.subrange(start as int, n as int),
            d == (if line@.len() > 0 && line@[0] == '+' {
                line@.drop_first()
            } else {
                line@
            }),
            forall|j: int| 0 <= j < i - start ==> is_digit(#[trigger] d[j]),
            value == digits_value(d.subrange(0, i - start)),
        decreases n - i,
    {
        let c = line[i];
        let ghost k = i - start;
        proof {
            assert(d[k] == c);
            assert(d.subrange(0, k + 1).drop_last() =~= d.subrange(0, k));
        }
        if !('0' <= c && c <= '9') {
            assert(!is_digit(d[k]));
            assert(!all_digits(d));
            return None;
        }
        let digit = (c as u32 - '0' as u32) as usize;
        proof {
            assert(digit == c as nat - '0' as nat);
            let sub = d.subrange(0, k + 1);
            assert(sub.last() == c);
            assert(digits_value(sub) == digits_value(d.subrange(0, k)) * 10 + digit);
        }
        match value.checked_mul(10) {
            Some(v10) => match v10.checked_add(digit) {
                Some(v) => {
                    value = v;
                },
                None => {
                    proof {
                        assert forall|j: int| 0 <= j < k + 1 implies is_digit(#[trigger] d.subrange(0, k + 1)[j]) by {
                            assert(d.subrange(0, k + 1)[j] == d[j]);
                        }
                        if all_digits(d) {
                            lemma_digits_grow(d, k + 1);
                        }
                    }
                    return None;
                },
            },
            None => {
                proof {
                    if all_digits(d) {
                        lemma_digits_grow(d, k + 1);
                    }
                }
                return None;
            },
        }
        i = i + 1;
    }
    assert(d.subrange(0, n - start) =~= d);
    Some(value)
}

/// Whether a line is the line of colons around a collection's header.
fn is_header_line(line: &Vec<char>) -> (r: bool)
    ensures
        r == is_header(line@),
{
    if line.len() != HEADER_LEN {
        return false;
    }
    let mut i: usize = 0;
    while i < line.len()
        invariant
            i <= line@.len(),
            forall|j: int| 0 <= j < i ==> #[trigger] line@[j] == ':',
        decreases line@.len() - i,
    {
        if line[i] != ':' {
            return false;
        }
        i = i + 1;
    }
    true
}

/// A text whose length squared fits in `usize` has room in memory.
proof fn lemma_square_fits(t: Seq<char>)
    requires
        t.len() * t.len() <= usize::MAX,
    ensures
        text_fits(t),
{
    lemma_line_stats_bound(t);
    let (n, w) = (t.len() as int, line_stats(t).0 as int);
    assert(n * w <= n * n) by (nonlinear_arith)
        requires
            0 <= w <= n,
    ;
}

/// Reads the characters of one puzzle of a collection, as
/// `TileMatrix::from_string` reads a puzzle text.
pub fn puzzle_string_to_puzzle(puzzle_string: &Vec<char>) -> (r: Result<TileMatrix, PuzzleError>)
    requires
        text_fits(puzzle_string@),
    ensures
        match r {
            Ok(m) => parse_text(puzzle_string@, true) == Ok::<(nat, Seq<Tile>), PuzzleError>((m.width as nat, m.data@)),
            Err(e) => parse_text(puzzle_string@, true) == Err::<(nat, Seq<Tile>), PuzzleError>(e),
        },
{
    parse_grid(puzzle_string, true)
}


proof fn lemma_split_prefix(t: Seq<char>, k: int)
    requires
        0 <= k <= t.len(),
    ensures
        split_lines(t.subrange(0, k)).0.len() <= split_lines(t).0.len(),
        split_lines(t).0.subrange(0, split_lines(t.subrange(0, k)).0.len() as int) == split_lines(t.subrange(0, k)).0,
    decreases t.len() - k,
{
    if k < t.len() {
        lemma_split_prefix(t, k + 1);
        let pre = t.subrange(0, k);
        let post = t.subrange(0, k + 1);
        assert(post.drop_last() =~= pre);
        let a = split_lines(pre).0;
        let b = split_lines(post).0;
        let all = split_lines(t).0;
        assert(b.subrange(0, a.len() as int) =~= a);
        assert(all.subrange(0, a.len() as int) =~= all.subrange(0, b.len() as int).subrange(0, a.len() as int));
    } else {
        assert(t.subrange(0, k) =~= t);
        assert(split_lines(t).0.subrange(0, split_lines(t).0.len() as int) =~= split_lines(t).0);
    }
}

proof fn lemma_scan_error_sticks(lines: Seq<Seq<char>>, k: int)
    requires
        0 <= k <= lines.len(),
        sok_scan(lines.subrange(0, k)).4 is Some,
    ensures
        sok_scan(lines).4 == sok_scan(lines.subrange(0, k)).4,
    decreases lines.len() - k,
{
    if k < lines.len() {
        assert(lines.subrange(0, k + 1).drop_last() =~= lines.subrange(0, k));
        lemma_scan_error_sticks(lines, k + 1);
    } else {
        assert(lines.subrange(0, k) =~= lines);
    }
}

/// Reads one line of a collection: `state`, `cur`, `number` and `puzzles`
/// move as `sok_step` says, or the puzzle that the line ends cannot be read.
fn read_sok_line(
    state: &mut SokState,
    cur: &mut Vec<char>,
    number: &mut usize,
    puzzles: &mut Vec<TileMatrix>,
    line: &Vec<char>,
) -> (r: Result<(), PuzzleError>)
    requires
        old(cur)@.len() * old(cur)@.len() <= usize::MAX,
        *old(number) < usize::MAX,
    ensures
        sok_step(*old(state), old(cur)@, *old(number) as nat, grids(old(puzzles)@), line@).4 is None ==> r is Ok && (
        *final(state),
            final(cur)@,
            *final(number) as nat,
            grids(final(puzzles)@),
            None::<PuzzleError>,
        ) == sok_step(*old(state), old(cur)@, *old(number) as nat, grids(old(puzzles)@), line@),
        sok_step(*old(state), old(cur)@, *old(number) as nat, grids(old(puzzles)@), line@).4 is Some ==> r
            == Err::<(), PuzzleError>(sok_step(*old(state), old(cur)@, *old(number) as nat, grids(old(puzzles)@), line@).4->0),
        final(puzzles)@.len() <= old(puzzles)@.len() + 1,
        *final(number) - *old(number) == final(puzzles)@.len() - old(puzzles)@.len(),
        final(cur)@.len() <= old(cur)@.len() + line@.len() + 1,
{
    match *state {
        SokState::LookingForHeader => {
            if is_header_line(line) {
                *state = SokState::LookingForHeaderEnd;
            } else {
                // case: no header.
                match line_number_value(line) {
                    Some(num) => {
                        if num == *number {
                            *state = SokState::SavingPuzzle;
                        }
                    },
                    None => (),
                }
            }
        },
        SokState::LookingForHeaderEnd => {
            if is_header_line(line) {
                *state = SokState::LookingForPuzzleNumber;
            }
        },
        SokState::LookingForPuzzleNumber => {
            match line_number_value(line) {
                Some(num) => {
                    if num == *number {
                        *state = SokState::SavingPuzzle;
                    }
                },
                None => (),
            }
        },
        SokState::SavingPuzzle => {
            // a line that does not start like a row ends the puzzle.
            let c = if line.len() != 0 {
                line[0]
            } else {
                'x'
            };
            if line.len() != 0 && (c == '#' || c == ' ' || c == '@' || c == '$' || c == '.' || c == '+' || c
                == '*') {
                let ghost before = cur@;
                let mut j: usize = 0;
                while j < line.len()
                    invariant
                        j <= line@.len(),
                        cur@ == before + line@.subrange(0, j as int),
                    decreases line@.len() - j,
                {
                    cur.push(line[j]);
                    j = j + 1;
                    assert(cur@ =~= before + line@.subrange(0, j as int));
                }
                cur.push('\n');
                assert(cur@ =~= before + line@.push('\n'));
            } else {
                let ghost before = puzzles@;
                proof {
                    lemma_square_fits(cur@);
                }
                match puzzle_string_to_puzzle(cur) {
                    Ok(cur_puzzle) => {
                        puzzles.push(cur_puzzle);
                        assert(grids(puzzles@) =~= grids(before).push((cur_puzzle.width as nat, cur_puzzle.data@)));
                    },
                    Err(e) => {
                        return Err(e);
                    },
                }
                *state = SokState::LookingForPuzzleNumber;
                *number = *number + 1;
                *cur = Vec::new();
            }
        },
    }
    Ok(())
}

/// Reads a `.sok` collection: a header between two lines of colons, then
/// puzzles, each after a line with its number (counting from 1) and ending
/// at the first line that does not start like a row (see `sok_result`).
pub fn parse_sok(file_string: &str) -> (r: Result<Vec<TileMatrix>, SokError>)
    requires
        (file_string@.len() + 1) * (file_string@.len() + 1) <= usize::MAX,
    ensures
        r is Ok ==> sok_result(file_string@) == Ok::<Seq<(nat, Seq<Tile>)>, SokError>(grids(r->Ok_0@)),
        r is Err ==> sok_result(file_string@) == Err::<Seq<(nat, Seq<Tile>)>, SokError>(r->Err_0),
{
    let text = chars_of(file_string);
    let ghost t = text@;
    let n = text.len();
    let mut puzzles: Vec<TileMatrix> = Vec::new();
    let mut current_puzzle_string: Vec<char> = Vec::new();
    let mut current_number: usize = 1;
    let mut state = SokState::LookingForHeader;
    let mut line: Vec<char> = Vec::new();
    let mut i: usize = 0;
    proof {
        assert(n + 1 < usize::MAX) by (nonlinear_arith)
            requires
                (n + 1) * (n + 1) <= usize::MAX,
        ;
        assert(t.subrange(0, 0) =~= Seq::<char>::empty());
        assert(grids(puzzles@) =~= Seq::<(nat, Seq<Tile>)>::empty());
    }
    while i < n
        invariant
            i <= n,
            n == t.len(),
            t == file_string@,
            text@ == t,
            (n + 1) * (n + 1) <= usize::MAX,
            n + 1 < usize::MAX,
            line@ == split_lines(t.subrange(0, i as int)).1,
            (state, current_puzzle_string@, current_number as nat, grids(puzzles@), None::<PuzzleError>) == sok_scan(
                split_lines(t.subrange(0, i as int)).0,
            ),
            current_puzzle_string@.len() + line@.len() <= i,
            current_number == puzzles@.len() + 1,
            puzzles@.len() <= split_lines(t.subrange(0, i as int)).0.len(),
            split_lines(t.subrange(0, i as int)).0.len() <= i,
        decreases n - i,
    {
        let ghost pre = t.subrange(0, i as int);
        let ghost post = t.subrange(0, i + 1);
        let ghost lines = split_lines(pre).0;
        proof {
            assert(post.drop_last() =~= pre);
            assert(post.last() == t[i as int]);
        }
        let c = text[i];
        if c == '\n' {
            if line.len() > 0 && line[line.len() - 1] == '\r' {
                line.pop();
            }
            assert(line@ == strip_cr(split_lines(pre).1));
            proof {
                assert(split_lines(post).0 == lines.push(line@));
                assert(split_lines(post).0.drop_last() =~= lines);
                assert(current_puzzle_string@.len() * current_puzzle_string@.len() <= usize::MAX) by (nonlinear_arith)
                    requires
                        current_puzzle_string@.len() <= n + 1,
                        (n + 1) * (n + 1) <= usize::MAX,
                ;
            }
            match read_sok_line(&mut state, &mut current_puzzle_string, &mut current_number, &mut puzzles, &line) {
                Ok(()) => (),
                Err(e) => {
                    proof {
                        assert(sok_scan(split_lines(post).0).4 == Some(e));
                        lemma_split_prefix(t, i + 1);
                        let all_lines = split_lines(t).0;
                        let k = split_lines(post).0.len() as int;
                        assert(text_lines(t).subrange(0, k) =~= split_lines(post).0);
                        lemma_scan_error_sticks(text_lines(t), k);
                        assert(t.subrange(0, n as int) =~= t);
                    }
                    return Err(SokError::Puzzle(e));
                },
            }
            line = Vec::new();
        } else {
            line.push(c);
        }
        i = i + 1;
    }
    assert(t.subrange(0, n as int) =~= t);
    if line.len() > 0 {
        let ghost lines = split_lines(t).0;
        proof {
            assert(text_lines(t) == lines.push(line@));
            assert(text_lines(t).drop_last() =~= lines);
            assert(current_puzzle_string@.len() * current_puzzle_string@.len() <= usize::MAX) by (nonlinear_arith)
                requires
                    current_puzzle_string@.len() <= n + 1,
                    (n + 1) * (n + 1) <= usize::MAX,
            ;
        }
        match read_sok_line(&mut state, &mut current_puzzle_string, &mut current_number, &mut puzzles, &line) {
            Ok(()) => (),
            Err(e) => {
                return Err(SokError::Puzzle(e));
            },
        }
    }
    assert(current_puzzle_string@.len() <= n + 1);
    assert(current_puzzle_string@.len() * current_puzzle_string@.len() <= usize::MAX) by (nonlinear_arith)
        requires
            current_puzzle_string@.len() <= n + 1,
            (n + 1) * (n + 1) <= usize::MAX,
    ;

    if state == SokState::SavingPuzzle {
        let ghost before = puzzles@;
        proof {
            lemma_square_fits(current_puzzle_string@);
        }
        match puzzle_string_to_puzzle(&current_puzzle_string) {
            Ok(cur_puzzle) => {
                puzzles.push(cur_puzzle);
                assert(grids(puzzles@) =~= grids(before).push((cur_puzzle.width as nat, cur_puzzle.data@)));
            },
            Err(e) => {
                return Err(SokError::Puzzle(e));
            },
        }
    }
    if puzzles.len() == 0 {
        return Err(SokError::NoPuzzles);
    }
    Ok(puzzles)
}

} // verus!
