use aoc2024::patrol::{
    solve_part_1, solve_part_2, Coord, GridError, GridErrorKind, MapElements, Orientation, Player,
    SituationMap,
};

const EXAMPLE_INPUT: &str = "....#.....
.........#
..........
..#.......
.......#..
..........
.#..^.....
........#.
#.........
......#...";

#[test]
fn main_test_part_1_example() {
    let board = SituationMap::try_from(EXAMPLE_INPUT).unwrap();
    assert_eq!(solve_part_1(board), 41);
}

#[test]
fn test_insert() {
    let mut board = SituationMap::try_from(
        "....
....
..^.
..#.",
    )
    .unwrap();
    assert_eq!(board.map_height, 4);
    assert_eq!(board.map_width, 4);

    let coords = Coord { col: 0, row: 0 };
    board.set_at(&coords, MapElements::Obstructed);
    println!("{board:?}");

    assert!(board
        .what_is_at(&coords)
        .is_some_and(|e| *e == MapElements::Obstructed));

    let coords = Coord { col: 3, row: 3 };
    board.set_at(&coords, MapElements::Obstructed);
    println!("{board:?}");

    assert!(board
        .what_is_at(&coords)
        .is_some_and(|e| *e == MapElements::Obstructed));

    assert!(board
        .what_is_in_front(&board.player)
        .is_some_and(|(_, e)| *e == MapElements::Free));

    board.player.orientation = Orientation::Down;

    assert!(board
        .what_is_in_front(&board.player)
        .is_some_and(|(_, e)| *e == MapElements::Obstructed));
}

#[test]
fn main_test_part_2_example() {
    let board = SituationMap::try_from(EXAMPLE_INPUT).unwrap();

    assert_eq!(solve_part_2(board), 6);
}

#[test]
fn test_circular_path_detection() {
    let boards = [".............
...........#.
#v..........#
.#.........#."];

    for board in boards {
        println!("{board}");
        let parsed_board = SituationMap::try_from(board).unwrap();
        println!("{parsed_board:?}");
        assert_eq!(solve_part_2(parsed_board), 1);
    }
}

#[test]
fn test_detection_near_edges() {
    let boards = [
        "#<..
....
....
....",
        "#...
^...
....
....",
        "..>#
....
....
....",
        "...#
...^
....
....",
        "....
....
....
#<..",
        "....
....
v...
#...",
        "....
....
....
..>#",
        "....
....
...v
...#",
    ];
    for board in boards {
        let parsed_board = SituationMap::try_from(board).unwrap();
        match parsed_board.what_is_in_front(&parsed_board.player) {
            Some((_, element)) => assert_eq!(element, &MapElements::Obstructed),
            _ => panic!("Failed to get expected element."),
        }
    }
}

#[test]
fn rotation_is_a_four_cycle() {
    for start in [
        Orientation::Up,
        Orientation::Right,
        Orientation::Down,
        Orientation::Left,
    ] {
        let mut o = start;
        for _ in 0..4 {
            o = o.rotate_right();
        }
        assert_eq!(o, start);
    }
    assert_eq!(Orientation::Up.rotate_right(), Orientation::Right);
    assert_eq!(Orientation::Right.rotate_right(), Orientation::Down);
    assert_eq!(Orientation::Down.rotate_right(), Orientation::Left);
    assert_eq!(Orientation::Left.rotate_right(), Orientation::Up);
}

#[test]
fn guard_facing_the_edge_makes_no_move() {
    let mut board = SituationMap::try_from("..^.\n....\n....").unwrap();
    assert!(board.what_is_in_front(&board.player).is_none());
    assert_eq!(board.step(), None);
    assert_eq!(board.player.coords, Coord { row: 0, col: 2 });
    assert_eq!(board.seen_tiles(), 1);
    let again = SituationMap::try_from("..^.\n....\n....").unwrap();
    assert_eq!(solve_part_1(again), 1);
    let third = SituationMap::try_from("..^.\n....\n....").unwrap();
    assert_eq!(solve_part_2(third), 0);
}

#[test]
fn step_moves_marks_and_turns() {
    let mut board = SituationMap::try_from(".#.\n.^.\n...").unwrap();
    assert_eq!(board.seen_tiles(), 1);
    assert_eq!(board.step(), Some(Coord { row: 1, col: 1 }));
    assert_eq!(board.player.orientation, Orientation::Right);
    assert_eq!(board.seen_tiles(), 1);
    assert_eq!(board.step(), Some(Coord { row: 1, col: 2 }));
    assert_eq!(board.player.coords, Coord { row: 1, col: 2 });
    assert_eq!(
        board.what_is_at(&Coord { row: 1, col: 2 }),
        Some(&MapElements::PrevouslySeen)
    );
    assert_eq!(board.seen_tiles(), 2);
    assert_eq!(board.step(), None);
    assert_eq!(board.seen_tiles(), 2);
}

#[test]
fn seen_count_never_shrinks_and_stays_in_the_grid() {
    let mut board = SituationMap::try_from(EXAMPLE_INPUT).unwrap();
    let mut last = board.seen_tiles();
    assert_eq!(last, 1);
    while board.step().is_some() {
        let now = board.seen_tiles();
        assert!(now >= last);
        assert!(now <= board.map_width * board.map_height);
        last = now;
    }
    assert_eq!(last, 41);
}

#[test]
fn probe_leaves_the_grid_as_it_was() {
    let mut board = SituationMap::try_from(EXAMPLE_INPUT).unwrap();
    let before = board.map.clone();
    let guard = board.player;
    let start = Coord { row: 6, col: 4 };
    let first = board.test_circular_path(start, Orientation::Left);
    assert_eq!(first, Some(Coord { row: 6, col: 3 }));
    assert_eq!(board.map, before);
    assert_eq!(board.player, guard);
    let second = board.test_circular_path(start, Orientation::Left);
    assert_eq!(second, first);
    assert_eq!(board.map, before);

    let none = board.test_circular_path(start, Orientation::Up);
    assert_eq!(none, None);
    assert_eq!(board.map, before);
    assert_eq!(board.test_circular_path(start, Orientation::Up), None);
    assert_eq!(board.map, before);
}

#[test]
fn probe_without_a_cell_ahead_finds_nothing() {
    let mut board = SituationMap::try_from("^..\n...").unwrap();
    let before = board.map.clone();
    assert_eq!(
        board.test_circular_path(Coord { row: 0, col: 0 }, Orientation::Up),
        None
    );
    assert_eq!(
        board.test_circular_path(Coord { row: 2, col: 0 }, Orientation::Up),
        None
    );
    assert_eq!(board.map, before);
}

#[test]
fn cells_outside_the_grid_are_none() {
    let board = SituationMap::try_from("..\n.>").unwrap();
    assert_eq!(board.what_is_at(&Coord { row: 2, col: 0 }), None);
    assert_eq!(board.what_is_at(&Coord { row: 0, col: 2 }), None);
    assert_eq!(
        board.what_is_at(&Coord { row: 1, col: 1 }),
        Some(&MapElements::PrevouslySeen)
    );
    assert_eq!(
        board.what_is_at(&Coord { row: 0, col: 0 }),
        Some(&MapElements::Free)
    );
    assert_eq!(
        board.player,
        Player {
            orientation: Orientation::Right,
            coords: Coord { row: 1, col: 1 }
        }
    );
}

#[test]
fn update_map_writes_one_cell() {
    let mut board = SituationMap::try_from("..\n.>").unwrap();
    board.update_map(&Coord { row: 0, col: 1 }, MapElements::PrevouslySeen);
    assert_eq!(
        board.map,
        vec![
            MapElements::Free,
            MapElements::PrevouslySeen,
            MapElements::Free,
            MapElements::PrevouslySeen
        ]
    );
    assert_eq!(board.seen_tiles(), 2);
}

#[test]
fn trapped_guard_is_cut_short() {
    let board = SituationMap::try_from(".#.\n#^#\n.#.").unwrap();
    assert_eq!(solve_part_1(board), 1);
    let ring = SituationMap::try_from(".#..\n.>.#\n#...\n..#.").unwrap();
    assert_eq!(solve_part_1(ring), 4);
}

#[test]
fn grid_text_errors() {
    assert_eq!(SituationMap::try_from("").err(), Some(GridError::NoLines));
    assert_eq!(
        SituationMap::try_from("..^\n..").err(),
        Some(GridError::RaggedLine { row: 1 })
    );
    assert_eq!(
        SituationMap::try_from("..^\n.x.").err(),
        Some(GridError::UnknownGlyph {
            at: Coord { row: 1, col: 1 }
        })
    );
    assert_eq!(
        SituationMap::try_from("..^\n.v.").err(),
        Some(GridError::SecondPlayer {
            first: Coord { row: 0, col: 2 },
            second: Coord { row: 1, col: 1 }
        })
    );
    assert_eq!(
        SituationMap::try_from("...\n.#.").err(),
        Some(GridError::NoPlayer)
    );
    assert_eq!(SituationMap::try_from("\n").err(), Some(GridError::NoPlayer));
    assert!(SituationMap::try_from("..^\r\n...\r\n").is_ok());
}

#[test]
fn faults_come_in_two_kinds() {
    let malformed = ["", "..^\n..", "..^\n.x."];
    for text in malformed {
        let error = SituationMap::try_from(text).err().unwrap();
        assert_eq!(error.kind(), GridErrorKind::MalformedGrid, "{text:?}");
    }
    let cursor = ["..^\n.v.", "...\n.#."];
    for text in cursor {
        let error = SituationMap::try_from(text).err().unwrap();
        assert_eq!(error.kind(), GridErrorKind::MissingOrGoneCursor, "{text:?}");
    }
}
