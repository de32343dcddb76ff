use aoc2024::calibration::{
    calculate_recursively, checked_solve, join, parse_input_line, shift_of, solve_part_1,
    solve_part_2, CalibrationError,
};

#[test]
fn test_calculate_recursively() {
    let inputs: [(usize, &[usize]); 9] = [
        (190, &[10, 19]),
        (3267, &[81, 40, 27]),
        (83, &[17, 5]),
        (156, &[15, 6]),
        (7290, &[6, 8, 6, 15]),
        (161011, &[16, 10, 13]),
        (192, &[17, 8, 14]),
        (21037, &[9, 7, 18, 13]),
        (292, &[11, 6, 16, 20]),
    ];

    let expected_sum = 3749;
    let mut actual_sum = 0;

    for (limit, factors) in inputs {
        if calculate_recursively(0, limit, &factors, false) {
            actual_sum += limit;
        }
    }
    assert_eq!(actual_sum, expected_sum)
}

#[test]
fn test_part1_example() {
    let example_sum = 3749;
    let example_input = "190: 10 19
3267: 81 40 27
83: 17 5
156: 15 6
7290: 6 8 6 15
161011: 16 10 13
192: 17 8 14
21037: 9 7 18 13
292: 11 6 16 20";
    assert_eq!(solve_part_1(&example_input), example_sum);
}

#[test]
fn test_part2_example() {
    let example_sum = 11387;
    let example_input = "190: 10 19
3267: 81 40 27
83: 17 5
156: 15 6
7290: 6 8 6 15
161011: 16 10 13
192: 17 8 14
21037: 9 7 18 13
292: 11 6 16 20";
    assert_eq!(solve_part_2(&example_input), example_sum);
}

#[test]
fn digits_are_joined_in_decimal() {
    assert_eq!(shift_of(0), Some(10));
    assert_eq!(shift_of(9), Some(10));
    assert_eq!(shift_of(10), Some(100));
    assert_eq!(shift_of(12345), Some(100000));
    assert_eq!(shift_of(usize::MAX), None);
    assert_eq!(join(12, 345), Some(12345));
    assert_eq!(join(0, 5), Some(5));
    assert_eq!(join(5, 0), Some(50));
    assert_eq!(join(0, usize::MAX), Some(usize::MAX));
    assert_eq!(join(1, usize::MAX), None);
    assert_eq!(join(usize::MAX, 1), None);
}

#[test]
fn numbers_come_in_from_the_left() {
    assert!(calculate_recursively(0, 156, &[15, 6], true));
    assert!(!calculate_recursively(0, 156, &[15, 6], false));
    assert!(calculate_recursively(0, 7290, &[6, 8, 6, 15], true));
    assert!(calculate_recursively(0, 192, &[17, 8, 14], true));
    assert!(calculate_recursively(7, 7, &[], false));
    assert!(!calculate_recursively(7, 8, &[], true));
    assert!(calculate_recursively(0, 5, &[5], false));
    assert!(calculate_recursively(2, 10, &[5], false));
    assert!(!calculate_recursively(2, 9, &[5], true));
    assert!(!calculate_recursively(usize::MAX, usize::MAX, &[2], true));
    assert!(calculate_recursively(usize::MAX, usize::MAX, &[1], false));
    assert!(calculate_recursively(0, usize::MAX, &[usize::MAX, 1], false));
}

#[test]
fn equations_are_read_from_the_front() {
    let eq = parse_input_line(b"190: 10 19").unwrap();
    assert_eq!(eq.calibration_sum, 190);
    assert_eq!(eq.calibration_vectors, vec![10, 19]);
    let tail = parse_input_line(b"7: 1 2  3").unwrap();
    assert_eq!(tail.calibration_vectors, vec![1, 2]);
    assert!(parse_input_line(b"7:1 2").is_none());
    assert!(parse_input_line(b"7: ").is_none());
    assert!(parse_input_line(b": 1").is_none());
    assert!(parse_input_line(b"").is_none());
    assert!(parse_input_line(b"7").is_none());
    assert!(parse_input_line(b"99999999999999999999999: 1").is_none());
    assert!(parse_input_line(b"7: 99999999999999999999999").is_none());
    assert!(parse_input_line(b"7: 1 99999999999999999999999").is_none());
}

#[test]
fn documents_that_give_no_total() {
    assert_eq!(
        checked_solve("6: 2 3\nx\n", false),
        Err(CalibrationError::BadLine { line: 1 })
    );
    let max = usize::MAX;
    let doc = format!("{max}: {max}\n1: 1\n");
    assert_eq!(
        checked_solve(&doc, false),
        Err(CalibrationError::TooLarge { line: 1 })
    );
    let fine = format!("{max}: {max}\n1: 2\n");
    assert_eq!(checked_solve(&fine, false), Ok(max));
    assert_eq!(checked_solve("", true), Ok(0));
    assert_eq!(checked_solve("156: 15 6\r\n", true), Ok(156));
    assert_eq!(checked_solve("156: 15 6\r\n", false), Ok(0));
}
