use aoc2024::wordsearch::{
    byte_matcher, fits_part_1, fits_part_2, found, solve_part_1, solve_part_2, Heading,
    PuzzleError,
};

const PUZZLE: &str = "MMMSXXMASM
MSAMXMSMSA
AMXSXMAAMM
MSAMASMSMX
XMASAMXAMM
XXAMMXXAMA
SMSMSASXSS
SAXAMASAAA
MAMMMXMMMM
MXMXAXMASX";

#[test]
fn test_part_1_first_col() {
    let word = "XMAS";
    let puzzle = "XZZZ
MZZZ
AZZZ
SZZZ";
    let result = 1;
    let sum = solve_part_1(&puzzle, &word);
    assert_eq!(Ok(result), sum);
}

#[test]
fn test_part_1_word_search() {
    let word = "XMAS";
    let puzzle = PUZZLE;
    let result = 18;
    let sum = solve_part_1(&puzzle, &word);
    assert_eq!(Ok(result), sum);
}

#[test]
fn test_part_2_word_search() {
    let word = "MAS";
    let puzzle = PUZZLE;
    let result = 9;
    let sum = solve_part_2(&puzzle, &word);
    assert_eq!(Ok(result), sum);
}

#[test]
fn every_heading_is_counted_both_ways() {
    assert_eq!(solve_part_1("ABC\n...\n...", "ABC"), Ok(1));
    assert_eq!(solve_part_1("CBA\n...\n...", "ABC"), Ok(1));
    assert_eq!(solve_part_1("A..\nB..\nC..", "ABC"), Ok(1));
    assert_eq!(solve_part_1("..C\n..B\n..A", "ABC"), Ok(1));
    assert_eq!(solve_part_1("A..\n.B.\n..C", "ABC"), Ok(1));
    assert_eq!(solve_part_1("C..\n.B.\n..A", "ABC"), Ok(1));
    assert_eq!(solve_part_1("..A\n.B.\nC..", "ABC"), Ok(1));
    assert_eq!(solve_part_1("..C\n.B.\nA..", "ABC"), Ok(1));
    assert_eq!(solve_part_1("ABA\nBBB\nABA", "ABA"), Ok(6));
    assert_eq!(solve_part_1("AA\nAA", "A"), Ok(16));
    assert_eq!(solve_part_1("...\n...\n...", "ABC"), Ok(0));
}

#[test]
fn puzzles_that_cannot_be_searched() {
    assert_eq!(solve_part_1("XMAS", "XMAS"), Err(PuzzleError::NoLineEnd));
    assert_eq!(solve_part_1("", "XMAS"), Err(PuzzleError::NoLineEnd));
    assert_eq!(solve_part_2("", "MAS"), Err(PuzzleError::NoLine));
    assert_eq!(solve_part_2("MAS\nMAS\n", ""), Ok(0));
}

#[test]
fn fitting_is_told_before_the_search() {
    assert!(fits_part_1(PUZZLE, "XMAS"));
    assert!(!fits_part_1(PUZZLE, ""));
    assert!(!fits_part_1(PUZZLE, "ABCDEFGHIJK"));
    assert!(!fits_part_1("ABC\nAB\nABC", "AB"));
    assert!(fits_part_1("ABC\nABCD\nABC", "AB"));
    assert!(!fits_part_1("ABC", "AB"));
    assert!(!fits_part_1("ABC\nABC", "ABC"));
    assert!(fits_part_2(PUZZLE, "MAS"));
    assert!(!fits_part_2(PUZZLE, "ABCDEFGHIJ"));
    assert!(!fits_part_2("M.S\n.A.\nM.S\n", "MAS"));
    assert!(fits_part_2("MMS\nAAA\nMMS\n", "MAS"));
    assert!(!fits_part_2("", "MAS"));
}

#[test]
fn crosses_need_both_diagonals() {
    assert_eq!(solve_part_2("MXS\nXAX\nMXS\n", "MAS"), Ok(1));
    assert_eq!(solve_part_2("SXS\nXAX\nMXM\n", "MAS"), Ok(1));
    assert_eq!(solve_part_2("MXS\nXAX\nMXX\n", "MAS"), Ok(0));
    assert_eq!(solve_part_2("MXS\nXAX\nSXM\n", "MAS"), Ok(0));
}

#[test]
fn matcher_reads_the_offsets() {
    let bytes = b"ABCDEFGHI";
    assert!(byte_matcher(bytes, 0, &[0, 4, 8], b"AEI"));
    assert!(!byte_matcher(bytes, 0, &[0, 4, 8], b"AEX"));
    assert!(byte_matcher(bytes, 1, &[1, 3, 5], b"CEG"));
    assert!(byte_matcher(bytes, 8, &[], b""));
    let rows = vec![b"ABC".to_vec(), b"DEF".to_vec(), b"GHI".to_vec()];
    assert!(found(&rows, 0, 0, Heading::Falling, b"AEI"));
    assert!(found(&rows, 0, 0, Heading::Falling, b"IEA"));
    assert!(found(&rows, 0, 2, Heading::Rising, b"CEG"));
    assert!(found(&rows, 0, 1, Heading::Down, b"HEB"));
    assert!(found(&rows, 2, 0, Heading::Across, b"GHI"));
    assert!(!found(&rows, 2, 0, Heading::Across, b"GHX"));
}
