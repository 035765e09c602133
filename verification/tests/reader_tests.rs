use rustsoko::level_reader::{parse_sok, puzzle_string_to_puzzle, SokError};
use rustsoko::types::{text_fits_in_memory, PuzzleError, Tile, TileMatrix};

fn header() -> String {
    ":".repeat(70)
}

#[test]
fn sok_with_header_and_two_puzzles() {
    let text = format!(
        "{h}\nSet: demo\n{h}\n\n1\n#####\n#@$.#\n#####\nTitle: first\n\n2\n######\n#.$@ #\n######\n",
        h = header()
    );
    let puzzles = match parse_sok(&text) {
        Ok(p) => p,
        Err(e) => panic!("not read: {:?}", e),
    };
    assert_eq!(puzzles.len(), 2);
    assert_eq!(puzzles[0].width, 5);
    assert_eq!(puzzles[0].data[6], Tile::Player);
    assert_eq!(puzzles[1].width, 6);
    assert_eq!(puzzles[1].data[8], Tile::Crate);
}

#[test]
fn sok_without_header() {
    let text = "Title\n\n1\n#####\n#@$.#\n#####\n";
    let puzzles = parse_sok(text).unwrap();
    assert_eq!(puzzles.len(), 1);
    assert_eq!(puzzles[0].data.len(), 15);
}

#[test]
fn sok_number_with_plus_sign_and_crlf() {
    let text = "+1\r\n#####\r\n#@$.#\r\n#####\r\n";
    let puzzles = parse_sok(text).unwrap();
    assert_eq!(puzzles.len(), 1);
    assert_eq!(puzzles[0].width, 5);
}

#[test]
fn sok_skips_numbers_out_of_order() {
    // puzzle 2 is looked for only after puzzle 1
    let text = "2\n#####\n#@$.#\n#####\n";
    assert_eq!(parse_sok(text).err(), Some(SokError::NoPuzzles));
}

#[test]
fn sok_without_puzzles() {
    assert_eq!(parse_sok("").err(), Some(SokError::NoPuzzles));
    assert_eq!(parse_sok("just words\n").err(), Some(SokError::NoPuzzles));
}

#[test]
fn sok_with_a_bad_puzzle() {
    let text = "1\n#####\n#@$$#\n#####\nTitle\n";
    assert_eq!(parse_sok(text).err(), Some(SokError::Puzzle(PuzzleError::GoalCrateMismatch)));
}

#[test]
fn sok_number_too_large_is_no_number() {
    let text = "99999999999999999999999999\n1\n#####\n#@$.#\n#####\n";
    let puzzles = parse_sok(text).unwrap();
    assert_eq!(puzzles.len(), 1);
}

#[test]
fn collection_puzzle_reads_as_a_puzzle_text() {
    let text = "####\n#@$.#\n#####\n";
    let chars: Vec<char> = text.chars().collect();
    let a = puzzle_string_to_puzzle(&chars).unwrap();
    let b = TileMatrix::from_string(text).unwrap();
    assert_eq!(a.width, b.width);
    assert_eq!(a.data, b.data);
    let bad: Vec<char> = "#@$$.#\n".chars().collect();
    assert_eq!(puzzle_string_to_puzzle(&bad).err(), TileMatrix::from_string("#@$$.#\n").err());
}

#[test]
fn bare_reading_agrees_when_the_pieces_check_out() {
    let text = "#####\n#@$.#\n#####\n";
    let a = TileMatrix::from_string_bare(text).unwrap();
    let b = TileMatrix::from_string(text).unwrap();
    assert_eq!(a.width, b.width);
    assert_eq!(a.data, b.data);
    assert!(text_fits_in_memory(text));
}
