use aoc2024::memory::{
    checked_solve_part_1, checked_solve_part_2, parse_do, parse_dont, parse_mul, solve_part_1,
    solve_part_2, Mul,
};

#[test]
fn test_single_tag() {
    let tag = "mul(1,2)";
    let result = parse_mul(tag.as_bytes());
    assert_eq!(result, Some(("".as_bytes(), Mul { x: 1, y: 2 })));
}

#[test]
fn test_part_1_example() {
    let memory = "xmul(2,4)%&mul[3,7]!@^do_not_mul(5,5)+mul(32,64]then(mul(11,8)mul(8,5))";
    let result = 161;
    let sum = solve_part_1(&memory);
    assert_eq!(result, sum);
}

#[test]
fn test_part_2_example() {
    let memory = "xmul(2,4)&mul[3,7]!^don't()_mul(5,5)+mul(32,64](mul(11,8)undo()?mul(8,5))";
    let result = 48;
    let sum = solve_part_2(&memory);
    assert_eq!(result, sum);
}

#[test]
fn multiplications_that_are_not_whole() {
    assert_eq!(parse_mul(b"mul(1,2"), None);
    assert_eq!(parse_mul(b"mul(,2)"), None);
    assert_eq!(parse_mul(b"mul(1,)"), None);
    assert_eq!(parse_mul(b"mul (1,2)"), None);
    assert_eq!(parse_mul(b"mul(1, 2)"), None);
    assert_eq!(parse_mul(b"Mul(1,2)"), None);
    assert_eq!(parse_mul(b""), None);
    assert_eq!(parse_mul(b"mul(99999999999999999999999,2)"), None);
    assert_eq!(
        parse_mul(b"mul(12,345)rest"),
        Some((&b"rest"[..], Mul { x: 12, y: 345 }))
    );
}

#[test]
fn switches_are_read_whole() {
    assert_eq!(parse_do(b"do()x"), Some((&b"x"[..], &b"do()"[..])));
    assert_eq!(parse_do(b"don't()"), None);
    assert_eq!(parse_do(b"do("), None);
    assert_eq!(parse_dont(b"don't()x"), Some((&b"x"[..], &b"don't()"[..])));
    assert_eq!(parse_dont(b"do()"), None);
}

#[test]
fn the_last_seven_bytes_are_not_read() {
    assert_eq!(solve_part_1("mul(2,3)"), 6);
    assert_eq!(solve_part_1("mul(2,3"), 0);
    assert_eq!(solve_part_1("xxmul(2,3)"), 6);
    assert_eq!(solve_part_1("mul(2,3)mul(4,5)"), 26);
    assert_eq!(solve_part_1("mul(2,3)mul(45)"), 6);
    assert_eq!(solve_part_1(""), 0);
    assert_eq!(solve_part_2("don't()mul(2,3)do()mul(4,5)"), 20);
    assert_eq!(solve_part_2("mul(2,3)don't()"), 6);
    assert_eq!(solve_part_2("don't()mul(2,3)do()"), 0);
    assert_eq!(solve_part_2("don't()do()_mul(2,3)"), 6);
}

#[test]
fn sums_above_the_largest_number_are_none() {
    let max = usize::MAX;
    let one = format!("mul({max},1)");
    assert_eq!(checked_solve_part_1(&one), Some(max));
    let two = format!("mul({max},2)");
    assert_eq!(checked_solve_part_1(&two), None);
    let sum = format!("mul({max},1)mul(1,1)");
    assert_eq!(checked_solve_part_1(&sum), None);
    assert_eq!(checked_solve_part_2(&sum), None);
    let off = format!("mul(1,1)don't()mul({max},1)");
    assert_eq!(checked_solve_part_2(&off), Some(1));
}
