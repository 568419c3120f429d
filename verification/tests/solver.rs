use fifteen_solver::board::decode_board;
use fifteen_solver::solvability::inversions;
use fifteen_solver::search::State;
use fifteen_solver::{generate_random_solvable, solver, validate};

/// The canonical solved arrangement.
fn solved() -> Vec<u8> {
    vec![1, 2, 3, 4, 5, 6, 7, 8, 9, 10, 11, 12, 13, 14, 15, 0]
}

/// Apply a sequence of move tags to an arrangement: each tag slides the
/// blank one cell in the stated direction.
fn apply_tags(mut tiles: Vec<u8>, tags: &str) -> Vec<u8> {
    for t in tags.chars() {
        let b = tiles.iter().position(|&v| v == 0).expect("no blank");
        let (row, col) = (b / 4, b % 4);
        let nb = match t {
            'd' => {
                assert!(row < 3, "blank cannot move down from row 3");
                b + 4
            }
            'u' => {
                assert!(row > 0, "blank cannot move up from row 0");
                b - 4
            }
            'r' => {
                assert!(col < 3, "blank cannot move right from column 3");
                b + 1
            }
            'l' => {
                assert!(col > 0, "blank cannot move left from column 0");
                b - 1
            }
            other => panic!("unknown move tag {other}"),
        };
        tiles.swap(b, nb);
    }
    tiles
}

/// No two adjacent tags in a solution undo one another.
fn has_adjacent_inverses(tags: &str) -> bool {
    let cs: Vec<char> = tags.chars().collect();
    cs.windows(2).any(|w| {
        matches!(
            (w[0], w[1]),
            ('d', 'u') | ('u', 'd') | ('r', 'l') | ('l', 'r')
        )
    })
}

#[test]
fn validate_accepts_solved() {
    assert_eq!(validate(&solved()), Ok(()));
}

#[test]
fn solver_on_solved_returns_empty() {
    assert_eq!(solver(solved()), Ok(String::new()));
}

#[test]
fn validate_rejects_shifted_arrangement() {
    // Blank in cell 0 (row 0, even), the 15 tiles fully ascending after it:
    // 105 ascending pairs, odd, so the parity rule rejects it.
    let tiles: Vec<u8> = (0..16).collect();
    assert_eq!(validate(&tiles), Err("Invalid Permutation".to_string()));
    assert_eq!(solver(tiles), Err("Invalid Permutation".to_string()));
}

#[test]
fn validate_rejects_adjacent_transposition() {
    // Solved except tiles 1 and 2 swapped: one ascending pair fewer, parity
    // flips, provably unsolvable.
    let mut tiles = solved();
    tiles.swap(0, 1);
    assert_eq!(validate(&tiles), Err("Invalid Permutation".to_string()));
}

#[test]
fn validate_rejects_short_input() {
    let tiles: Vec<u8> = (0..15).collect();
    assert_eq!(validate(&tiles), Err("Incomplete input".to_string()));
    let tiles: Vec<u8> = (0..15).collect();
    assert_eq!(solver(tiles), Err("Incomplete input".to_string()));
}

#[test]
fn validate_rejects_long_input() {
    let mut tiles = solved();
    tiles.push(7);
    assert_eq!(validate(&tiles), Err("Incomplete input".to_string()));
}

#[test]
fn validate_rejects_duplicates() {
    let mut tiles = solved();
    tiles[0] = 2;
    assert_eq!(
        validate(&tiles),
        Err("Invalid or duplicate numbers".to_string())
    );
}

#[test]
fn validate_rejects_out_of_range_values() {
    let mut tiles = solved();
    tiles[3] = 16;
    assert_eq!(
        validate(&tiles),
        Err("Invalid or duplicate numbers".to_string())
    );
}

#[test]
fn solver_single_move() {
    // Solved with the blank one cell to the left: one slide right finishes.
    let tiles = vec![1, 2, 3, 4, 5, 6, 7, 8, 9, 10, 11, 12, 13, 14, 0, 15];
    assert_eq!(solver(tiles), Ok("r".to_string()));
}

#[test]
fn solver_solution_reaches_solved() {
    // Scramble the solved arrangement by legal slides; the result is
    // solvable and the returned tags must carry it back to solved.
    let tiles = apply_tags(solved(), "uldr");
    assert_eq!(validate(&tiles), Ok(()));
    let tags = solver(tiles.clone()).expect("solvable arrangement");
    assert!(!has_adjacent_inverses(&tags));
    assert_eq!(apply_tags(tiles, &tags), solved());
}

#[test]
fn solver_solution_reaches_solved_deeper() {
    let tiles = apply_tags(solved(), "uulldrrduldr");
    assert_eq!(validate(&tiles), Ok(()));
    let tags = solver(tiles.clone()).expect("solvable arrangement");
    assert!(!has_adjacent_inverses(&tags));
    assert_eq!(apply_tags(tiles, &tags), solved());
}

#[test]
fn generated_arrangements_are_solvable() {
    let a = generate_random_solvable();
    assert_eq!(a.len(), 16);
    assert_eq!(validate(&a), Ok(()));
    let b = generate_random_solvable();
    assert_eq!(validate(&b), Ok(()));
    // Two independently generated 16-tile permutations virtually never
    // coincide; equality would mean the shuffle did nothing.
    assert_ne!(a, b);
}

#[test]
fn encode_then_decode_roundtrips() {
    let tiles = solved();
    let st = State::new(tiles.clone());
    assert_eq!(decode_board(st.board), tiles);

    let scrambled = apply_tags(solved(), "ulul");
    let st = State::new(scrambled.clone());
    assert_eq!(decode_board(st.board), scrambled);
}

#[test]
fn solved_board_packs_to_known_value() {
    let st = State::new(solved());
    assert_eq!(st.board, 0x123456789abcdef0);
}

#[test]
fn inversions_counts_ascending_pairs() {
    assert_eq!(inversions(&solved()), 105);
    let shifted: Vec<u8> = (0..16).collect();
    assert_eq!(inversions(&shifted), 105);
    let mut two_swapped = solved();
    two_swapped.swap(0, 1);
    assert_eq!(inversions(&two_swapped), 104);
}
