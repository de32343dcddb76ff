use aoc2024::pages::{
    checked_parse_input, checked_solve, holds, parse_input, parse_ordering_rule, parse_pages,
    position, solve_part_1, solve_part_2, ManualError, PageOrderingRule, PageOrderingRules,
    UpdateError,
};

const EXAMPLE_INPUT: &str = "47|53
97|13
97|61
97|47
75|29
61|13
75|53
29|13
97|29
53|29
61|53
97|53
61|29
47|13
75|47
97|75
47|61
75|61
47|29
75|13
53|13

75,47,61,53,29
97,61,53,29,13
75,29,13
75,97,47,61,53
61,13,29
97,13,75,29,47";

#[test]
fn test_parse_rule() {
    let result = parse_ordering_rule("47|53".as_bytes());
    assert_eq!(
        result,
        Some((
            "".as_bytes(),
            PageOrderingRule {
                left: 47,
                right: 53
            }
        ))
    );
}

#[test]
fn test_parse_pages() {
    let result = parse_pages("75,47,61,53,29".as_bytes());
    assert_eq!(result, Some(vec![75, 47, 61, 53, 29]));
}

#[test]
fn main_test_part_1_first_col() {
    let (rules, manual) = parse_input(EXAMPLE_INPUT);
    let solution = solve_part_1(&rules, &manual);

    assert_eq!(solution, 143);
}

#[test]
fn test_page_sort() {
    let ruleset_1 = vec![
        PageOrderingRule { left: 1, right: 2 },
        PageOrderingRule { left: 3, right: 4 },
        PageOrderingRule { left: 4, right: 1 },
    ];

    assert_eq!(vec![3, 4, 1, 2], ruleset_1.sort_pages(&vec![1, 2, 3, 4]));
}

#[test]
fn main_test_part_2() {
    let (rules, manual) = parse_input(EXAMPLE_INPUT);
    let solution = solve_part_2(&rules, &manual);

    assert_eq!(solution, 123);
}

#[test]
fn example_updates_are_put_in_order() {
    let (rules, manual) = parse_input(EXAMPLE_INPUT);
    assert_eq!(rules.len(), 21);
    assert_eq!(manual.len(), 6);
    let in_order: Vec<bool> = manual.iter().map(|u| rules.has_correct_order(u)).collect();
    assert_eq!(in_order, vec![true, true, true, false, false, false]);
    assert_eq!(rules.sort_pages(&manual[3]), vec![97, 75, 47, 61, 53]);
    assert_eq!(rules.sort_pages(&manual[4]), vec![61, 29, 13]);
    assert_eq!(rules.sort_pages(&manual[5]), vec![97, 75, 47, 29, 13]);
    assert_eq!(rules.sort_pages(&manual[0]), manual[0]);
    for update in &manual {
        let sorted = rules.sort_pages(update);
        assert!(rules.has_correct_order(&sorted));
        let mut a = sorted.clone();
        let mut b = update.clone();
        a.sort();
        b.sort();
        assert_eq!(a, b);
    }
}

#[test]
fn relevant_rules_have_both_pages() {
    let rules = vec![
        PageOrderingRule { left: 1, right: 2 },
        PageOrderingRule { left: 3, right: 4 },
        PageOrderingRule { left: 4, right: 1 },
    ];
    let relevant = rules.get_relevant_rules(&[1, 4, 9]);
    assert_eq!(relevant, vec![&PageOrderingRule { left: 4, right: 1 }]);
    assert!(rules.get_relevant_rules(&[]).is_empty());
    assert!(rules[0].is_relevant_rule(1, 2));
    assert!(rules[0].is_relevant_rule(2, 1));
    assert!(!rules[0].is_relevant_rule(1, 3));
    assert!(rules.has_correct_order(&[4, 1, 2]));
    assert!(!rules.has_correct_order(&[1, 4]));
    assert!(rules.has_correct_order(&[]));
    assert!(rules.has_correct_order(&[2, 3]));
}

#[test]
fn rules_in_a_ring_leave_the_first_page_first() {
    let ring = vec![
        PageOrderingRule { left: 1, right: 2 },
        PageOrderingRule { left: 2, right: 3 },
        PageOrderingRule { left: 3, right: 1 },
    ];
    assert_eq!(ring.sort_pages(&[1, 2, 3]), vec![1, 2, 3]);
    assert_eq!(ring.sort_pages(&[3, 2, 1]), vec![3, 1, 2]);
    let none: Vec<PageOrderingRule> = vec![];
    assert_eq!(none.sort_pages(&[5, 3, 5, 1]), vec![5, 3, 5, 1]);
    assert_eq!(none.sort_pages(&[]), Vec::<usize>::new());
}

#[test]
fn places_and_members() {
    assert!(holds(&[1, 2, 3], 2));
    assert!(!holds(&[1, 2, 3], 4));
    assert_eq!(position(&[5, 6, 5], 5), Some(0));
    assert_eq!(position(&[5, 6, 5], 6), Some(1));
    assert_eq!(position(&[5, 6, 5], 7), None);
}

#[test]
fn lines_that_are_no_rule_or_update() {
    assert_eq!(
        checked_parse_input("1|2\nx\n\n1,2").err(),
        Some(ManualError::BadRule { line: 1 })
    );
    assert_eq!(
        checked_parse_input("\n1|2").err(),
        Some(ManualError::BadRule { line: 0 })
    );
    assert_eq!(
        checked_parse_input("1|2\n\n1,2\n\n").err(),
        Some(ManualError::BadPages { line: 3 })
    );
    assert_eq!(
        checked_parse_input("1|2\n\n,1").err(),
        Some(ManualError::BadPages { line: 2 })
    );
    let (rules, updates) = checked_parse_input("1|2 first\r\n\r\n1,2,x\n7,99999999999999999999999,8\n").unwrap();
    assert_eq!(rules, vec![PageOrderingRule { left: 1, right: 2 }]);
    assert_eq!(updates, vec![vec![1, 2], vec![7]]);
    let (no_rules, no_updates) = checked_parse_input("").unwrap();
    assert!(no_rules.is_empty() && no_updates.is_empty());
    assert_eq!(parse_ordering_rule(b"1|"), None);
    assert_eq!(parse_ordering_rule(b"|2"), None);
    assert_eq!(parse_ordering_rule(b"1,2"), None);
    assert_eq!(parse_pages(b""), None);
    assert_eq!(parse_pages(b"99999999999999999999999,1"), None);
    assert_eq!(parse_pages(b"1,,2"), Some(vec![1]));
}

#[test]
fn sums_of_middle_pages() {
    let rules = vec![PageOrderingRule { left: 1, right: 2 }];
    let updates = vec![vec![1, 5, 2], vec![2, 7, 1, 9], vec![], vec![usize::MAX]];
    assert_eq!(
        checked_solve(&rules, &updates, false),
        Err(UpdateError::Empty { update: 2 })
    );
    assert_eq!(checked_solve(&rules, &updates, true), Ok(2));
    let large = vec![vec![4], vec![usize::MAX]];
    assert_eq!(
        checked_solve(&rules, &large, false),
        Err(UpdateError::TooLarge { update: 1 })
    );
    let fine = vec![vec![1, 5, 2], vec![8, 9]];
    assert_eq!(checked_solve(&rules, &fine, false), Ok(14));
    assert_eq!(solve_part_1(&rules, &fine), 14);
    assert_eq!(solve_part_2(&rules, &fine), 0);
}
