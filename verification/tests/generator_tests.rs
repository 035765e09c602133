use rustsoko::level_generator::{decimal_chars, generate_puzzle, sok_collection};
use rustsoko::level_reader::parse_sok;
use rustsoko::types::TileMatrix;

fn count(v: &[char], c: char) -> usize {
    v.iter().filter(|x| **x == c).count()
}

#[test]
fn generated_puzzle_has_its_pieces() {
    let mut rng = rand::thread_rng();
    let (w, h, goals, walls) = (8, 7, 3, 4);
    let mut tries = 0;
    let puzzle = loop {
        tries += 1;
        assert!(tries < 1000);
        if let (Some(p), _) = generate_puzzle(&mut rng, w, h, goals, walls) {
            break p;
        }
    };
    assert_eq!(puzzle.len(), (w + 1) * h);
    for y in 0..h {
        assert_eq!(puzzle[y * (w + 1) + w], '\n');
        for x in 0..w {
            let c = puzzle[y * (w + 1) + x];
            if x == 0 || x == w - 1 || y == 0 || y == h - 1 {
                assert_eq!(c, '#');
            } else {
                assert!("# .$@+".contains(c));
            }
        }
    }
    let border = 2 * w + 2 * h - 4;
    assert_eq!(count(&puzzle, '#'), border + walls);
    assert_eq!(count(&puzzle, '.') + count(&puzzle, '+'), goals);
    assert_eq!(count(&puzzle, '$'), goals);
    assert_eq!(count(&puzzle, '@') + count(&puzzle, '+'), 1);
    // the text reads back as a puzzle
    let text: String = puzzle.iter().collect();
    let m = TileMatrix::from_string(&text).unwrap();
    assert_eq!(m.width, w);
    assert_eq!(m.data.len(), w * h);
}

#[test]
fn generated_puzzle_without_goals() {
    let mut rng = rand::thread_rng();
    let p = generate_puzzle(&mut rng, 4, 4, 0, 2).0.unwrap();
    assert_eq!(count(&p, '@'), 1);
    assert_eq!(count(&p, '#'), 12 + 2);
    assert_eq!(count(&p, '$'), 0);
}

#[test]
fn numbers_in_decimal() {
    assert_eq!(decimal_chars(0), vec!['0']);
    assert_eq!(decimal_chars(7), vec!['7']);
    assert_eq!(decimal_chars(10), vec!['1', '0']);
    assert_eq!(decimal_chars(407), vec!['4', '0', '7']);
}

#[test]
fn collection_text_numbers_its_puzzles() {
    let a: Vec<char> = "####\n#@.#\n####\n".chars().collect();
    let b: Vec<char> = "###\n#+#\n###\n".chars().collect();
    let text: String = sok_collection("gen", &vec![a, b]).into_iter().collect();
    assert_eq!(
        text,
        "Date of Last Change:\n\nSet: gen\nCopyright: Geb\nEmail:\nHomepage:\n\n\
         This sokoban puzzle set was automatically generated\n\n\
         1\n####\n#@.#\n####\n\n\n2\n###\n#+#\n###\n\n\n"
    );
}

#[test]
fn empty_collection_is_the_header() {
    let text: String = sok_collection("x", &Vec::new()).into_iter().collect();
    assert_eq!(text, "Date of Last Change:\n\nSet: x\nCopyright: Geb\nEmail:\nHomepage:\n\n\
                      This sokoban puzzle set was automatically generated\n\n");
}

#[test]
fn three_by_three_puzzle_holds_only_the_player() {
    let mut rng = rand::thread_rng();
    let p = generate_puzzle(&mut rng, 3, 3, 0, 0).0.unwrap();
    let text: String = p.into_iter().collect();
    assert_eq!(text, "###\n#@#\n###\n");
}

#[test]
fn three_by_three_collection_text() {
    let mut rng = rand::thread_rng();
    let a = generate_puzzle(&mut rng, 3, 3, 0, 0).0.unwrap();
    let b = generate_puzzle(&mut rng, 3, 3, 0, 0).0.unwrap();
    let text: String = sok_collection("t", &vec![a, b]).into_iter().collect();
    assert_eq!(
        text,
        "Date of Last Change:\n\nSet: t\nCopyright: Geb\nEmail:\nHomepage:\n\n\
         This sokoban puzzle set was automatically generated\n\n\
         1\n###\n#@#\n###\n\n\n2\n###\n#@#\n###\n\n\n"
    );
}

#[test]
fn generated_collection_reads_back() {
    let mut rng = rand::thread_rng();
    let (w, h, goals, walls) = (7, 6, 2, 2);
    let mut puzzles: Vec<Vec<char>> = Vec::new();
    while puzzles.len() < 3 {
        if let (Some(p), _) = generate_puzzle(&mut rng, w, h, goals, walls) {
            puzzles.push(p);
        }
    }
    let text: String = sok_collection("gen", &puzzles).into_iter().collect();
    let read = parse_sok(&text).unwrap();
    assert_eq!(read.len(), 3);
    for (m, p) in read.iter().zip(puzzles.iter()) {
        assert_eq!(m.width, w);
        assert_eq!(m.data.len(), w * h);
        let again = TileMatrix::from_string(&p.iter().collect::<String>()).unwrap();
        assert_eq!(m.data, again.data);
    }
}
