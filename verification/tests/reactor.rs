use aoc2024::reactor::{
    check_row_safety, count_safe_rows, parse_reactor_line_into_vec, FieldError, Reactor,
    ReactorError, ReactorSafety,
};
use aoc2024::text::NumberError;

#[test]
fn test_unsafe_slope() {
    let slope = [0, 1, 0, 1, 2];
    let result = check_row_safety(&slope);
    assert_eq!(result, ReactorSafety::UnevenSlope);
}

#[test]
fn test_safe_slope() {
    let slope = [0, 1, 2, 3, 4];
    let result = check_row_safety(&slope);
    assert_eq!(result, ReactorSafety::Safe);
}

#[test]
fn test_safe_flat_start_slope() {
    let slope = [0, 0, 1, 2, 3];
    let result = check_row_safety(&slope);
    assert_eq!(result, ReactorSafety::NoSlope);
}

#[test]
fn test_safe_plateau_slope() {
    let slope = [0, 1, 2, 3, 3];
    let result = check_row_safety(&slope);
    assert_eq!(result, ReactorSafety::NoSlope);
}

#[test]
fn test_unsafe_delta() {
    let slope = [0, 1, 2, 3, 7];
    let result = check_row_safety(&slope);
    assert_eq!(result, ReactorSafety::UnsafeDelta);
}

#[test]
fn test_unsafe_delta_with_uneven_slope() {
    // The unsafe delta should take prevelance over the uneven slope
    let slope = [1, 2, 3, 4, 0];
    let result = check_row_safety(&slope);
    assert_eq!(result, ReactorSafety::UnsafeDelta);
}

#[test]
fn main_test_part_1() {
    let test_input = r#"7 6 4 2 1
1 2 7 8 9
9 7 6 2 1
1 3 2 4 5
8 6 4 4 1
1 3 6 7 9"#;
    let test_output = 2;

    let reactor = Reactor::try_from_text(&test_input).unwrap();

    let mut count = 0;
    for i in 0..reactor.rows() {
        if check_row_safety(reactor.row(i)) == ReactorSafety::Safe {
            count += 1;
        }
    }

    assert_eq!(count, test_output);
    assert_eq!(count_safe_rows(&reactor), test_output);
}

#[test]
fn short_rows_are_safe() {
    assert_eq!(check_row_safety(&[]), ReactorSafety::Safe);
    assert_eq!(check_row_safety(&[5]), ReactorSafety::Safe);
    assert_eq!(check_row_safety(&[5, 2]), ReactorSafety::Safe);
    assert_eq!(check_row_safety(&[5, 1]), ReactorSafety::UnsafeDelta);
    assert_eq!(check_row_safety(&[9, 7, 6, 2, 1]), ReactorSafety::UnsafeDelta);
    assert_eq!(check_row_safety(&[7, 6, 4, 2, 1]), ReactorSafety::Safe);
    assert_eq!(check_row_safety(&[7, 6, 7]), ReactorSafety::UnevenSlope);
}

#[test]
fn rows_are_cut_from_the_data() {
    let reactor = Reactor::try_from_text("1 2 3\n4 5 6\n").unwrap();
    assert_eq!(reactor.row_size, 3);
    assert_eq!(reactor.data, vec![1, 2, 3, 4, 5, 6]);
    assert_eq!(reactor.rows(), 2);
    assert_eq!(reactor.row(0), &[1, 2, 3]);
    assert_eq!(reactor.row(1), &[4, 5, 6]);
    let blank = Reactor::try_from_text("\n\n").unwrap();
    assert_eq!(blank.row_size, 0);
    assert_eq!(blank.rows(), 0);
}

#[test]
fn line_numbers_are_appended() {
    let mut data = vec![9];
    assert_eq!(
        parse_reactor_line_into_vec(&mut data, b"  10\t20  30 "),
        Ok(3)
    );
    assert_eq!(data, vec![9, 10, 20, 30]);
    assert_eq!(
        parse_reactor_line_into_vec(&mut data, b"1 2 x 4"),
        Err(FieldError {
            field: 2,
            why: NumberError::InvalidDigit
        })
    );
    assert_eq!(data, vec![9, 10, 20, 30, 1, 2]);
    assert_eq!(parse_reactor_line_into_vec(&mut data, b""), Ok(0));
}

#[test]
fn reports_that_are_none() {
    assert_eq!(Reactor::try_from_text("").err(), Some(ReactorError::Empty));
    assert_eq!(
        Reactor::try_from_text("1 2\n3 4 5").err(),
        Some(ReactorError::RowSize {
            line: 1,
            found: 3,
            expected: 2
        })
    );
    assert_eq!(
        Reactor::try_from_text("1 2\n3 -4").err(),
        Some(ReactorError::BadNumber {
            line: 1,
            field: 1,
            why: NumberError::InvalidDigit
        })
    );
    assert_eq!(
        Reactor::try_from_text("99999999999999999999999999").err(),
        Some(ReactorError::BadNumber {
            line: 0,
            field: 0,
            why: NumberError::TooLarge
        })
    );
}
