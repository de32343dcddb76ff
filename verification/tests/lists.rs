use aoc2024::lists::{
    calc_part_1, calc_part_2, checked_calc_part_1, checked_calc_part_2, count_runs, is_sorted,
    parse_input, sort, ListError, ParsedLists,
};

#[test]
fn test_part_1() {
    let test_input = r#"3   4
4   3
2   5
1   3
3   9
3   3"#;
    let test_output = 11;

    let parsed_lists = parse_input(&test_input).unwrap();
    let result = calc_part_1(&parsed_lists);

    assert_eq!(result, test_output)
}

#[test]
fn test_part_2() {
    let test_input = r#"3   4
4   3
2   5
1   3
3   9
3   3"#;
    let test_output = 31;

    let parsed_lists = parse_input(&test_input).unwrap();
    let result = calc_part_2(&parsed_lists);

    assert_eq!(result, test_output)
}

#[test]
fn columns_come_out_sorted() {
    let lists = parse_input("3   4\n4   3\n2   5\n1   3\n3   9\n3   3").unwrap();
    assert_eq!(lists.left, vec![1, 2, 3, 3, 3, 4]);
    assert_eq!(lists.right, vec![3, 3, 3, 4, 5, 9]);
}

#[test]
fn sort_orders_and_keeps_every_number() {
    let mut v = vec![5, 1, 4, 1, 0, 9, 4];
    sort(&mut v);
    assert_eq!(v, vec![0, 1, 1, 4, 4, 5, 9]);
    let mut empty: Vec<usize> = vec![];
    sort(&mut empty);
    assert!(empty.is_empty());
}

#[test]
fn lines_without_two_numbers_are_refused() {
    assert_eq!(parse_input("12").err(), Some(ListError::NoSpace { line: 0 }));
    assert_eq!(
        parse_input("1 2\n3 x").err(),
        Some(ListError::BadNumber { line: 1 })
    );
    assert_eq!(
        parse_input("1 2\n 7").err(),
        Some(ListError::BadNumber { line: 1 })
    );
    assert_eq!(
        parse_input("1 2\n\n3 4").err(),
        Some(ListError::NoSpace { line: 1 })
    );
    let plus = parse_input("+1 \t 2\r\n3 4\n").unwrap();
    assert_eq!(plus.left, vec![1, 3]);
    assert_eq!(plus.right, vec![2, 4]);
    let empty = parse_input("").unwrap();
    assert!(empty.left.is_empty() && empty.right.is_empty());
}

#[test]
fn sums_that_do_not_fit_are_none() {
    let far = ParsedLists {
        left: vec![0, 0],
        right: vec![usize::MAX, 1],
    };
    assert_eq!(checked_calc_part_1(&far), None);
    let near = ParsedLists {
        left: vec![0, 7],
        right: vec![usize::MAX, 7],
    };
    assert_eq!(checked_calc_part_1(&near), Some(usize::MAX));
    let alike = ParsedLists {
        left: vec![2, usize::MAX],
        right: vec![2, 2, usize::MAX],
    };
    assert_eq!(checked_calc_part_2(&alike), None);
    let twice = ParsedLists {
        left: vec![usize::MAX / 2 + 1],
        right: vec![usize::MAX / 2 + 1, usize::MAX / 2 + 1],
    };
    assert_eq!(checked_calc_part_2(&twice), None);
    let fine = ParsedLists {
        left: vec![3, 3, 4],
        right: vec![3, 3, 5],
    };
    assert!(fine.is_well_formed());
    assert_eq!(checked_calc_part_2(&fine), Some(12));
    assert_eq!(checked_calc_part_1(&fine), Some(1));
    let mixed = ParsedLists {
        left: vec![3, 4, 3],
        right: vec![3, 3, 5],
    };
    assert!(!mixed.is_well_formed());
    assert_eq!(checked_calc_part_1(&mixed), Some(3));
}

#[test]
fn uneven_columns_pair_up_to_the_shorter() {
    let lists = ParsedLists {
        left: vec![1, 10, 100],
        right: vec![4, 6],
    };
    assert_eq!(calc_part_1(&lists), 7);
    assert_eq!(calc_part_2(&lists), 0);
}

#[test]
fn runs_are_counted_under_their_number() {
    let lookup = count_runs(&vec![3, 3, 3, 4, 5, 9, 9]);
    assert_eq!(lookup.len(), 4);
    assert_eq!(lookup.get(&3), Some(&3));
    assert_eq!(lookup.get(&4), Some(&1));
    assert_eq!(lookup.get(&5), Some(&1));
    assert_eq!(lookup.get(&9), Some(&2));
    assert_eq!(lookup.get(&0), None);
    assert!(count_runs(&vec![]).is_empty());
    assert_eq!(count_runs(&vec![7]).get(&7), Some(&1));
}

#[test]
fn sortedness_is_told() {
    assert!(is_sorted(&vec![]));
    assert!(is_sorted(&vec![4]));
    assert!(is_sorted(&vec![1, 1, 2, 9]));
    assert!(!is_sorted(&vec![1, 3, 2]));
    assert!(!is_sorted(&vec![2, 1]));
}
