use life::board::Board;
use life::coords::{is_within_bounds, Coordinates, EdgePolicy};
use life::grid::{advance_board, living_neighbors_count};
use life::rules::will_survive;
use std::collections::HashMap;

fn get_test_board() -> Vec<bool> {
    vec![false, true, true, false, true, false, false, false, false]
}

fn living(board: &Board) -> Vec<Coordinates> {
    let n = board.size();
    let mut res = vec![];
    for (i, alive) in board.cells().iter().enumerate() {
        if *alive {
            res.push(Coordinates::new(i as i32 / n, i as i32 % n));
        }
    }
    res
}

#[test]
fn test_is_within_bounds() {
    assert_eq!(is_within_bounds(1, 2, 3), true);
    assert_eq!(is_within_bounds(-1, 2, 3), false);
    assert_eq!(is_within_bounds(0, 4, 3), false);
}

#[test]
fn can_increment_generation() {
    let mut test_board = get_test_board();
    test_board = advance_board(&test_board);
    let expected = vec![false, true, true, false, true, true, false, false, false];
    assert_eq!(test_board, expected);
}

#[test]
fn main_can_get_neighbors() {
    let test_board = get_test_board();
    let test_cases = [2, 2, 2, 2, 2, 3, 1, 1, 1];
    for (i, case) in test_cases.iter().enumerate() {
        println!("At index {} with case: {}", i, case);
        let n = living_neighbors_count(i as i32, &test_board);
        assert_eq!(n, *case);
    }
}

#[test]
fn dies_on_one_or_less_neighbors() {
    assert_eq!(false, will_survive(true, 0));
    assert_eq!(false, will_survive(true, 1));
}

#[test]
fn survives_with_two_or_three_neighbors() {
    assert_eq!(true, will_survive(true, 2));
    assert_eq!(true, will_survive(true, 3));
}

#[test]
fn dies_with_four_or_more_neighbors() {
    assert_eq!(false, will_survive(true, 4));
    assert_eq!(false, will_survive(true, 999));
}

#[test]
fn born_with_exactly_three_neighbors() {
    assert_eq!(true, will_survive(false, 3));
}

#[test]
fn test_get_coordinates() {
    let coords = Coordinates::new(1, 2);
    assert_eq!(coords.x, 1);
    assert_eq!(coords.y, 2);
    let n = 10;
    let coords = Coordinates::random(n);
    assert!(coords.x < n && coords.x >= 0);
    assert!(coords.y < n && coords.y >= 0);
}

#[test]
fn test_can_get_neighbors_from_coordinates() {
    let coords = Coordinates::new(3, 4);
    let n = 6;
    let expected = [
        [2, 3],
        [3, 3],
        [4, 3],
        [2, 4],
        [4, 4],
        [2, 5],
        [3, 5],
        [4, 5],
    ];
    let actual = coords.neighbors(n, EdgePolicy::Toroidal);
    assert_eq!(actual.len(), 8);
    for i in 0..8 {
        let b = actual[i];
        assert_eq!(expected[i][0], b.x);
        assert_eq!(expected[i][1], b.y);
    }
}

#[test]
fn can_get_a_new_board() {
    let board = Board::new(10, EdgePolicy::Toroidal).unwrap();
    assert_eq!(0, living(&board).len());
}

#[test]
fn can_set_board_state() {
    let mut board = Board::new(10, EdgePolicy::Toroidal).unwrap();
    let mut new_state: Vec<Coordinates> = vec![];
    new_state.push(Coordinates::new(1, 2));
    new_state.push(Coordinates::new(3, 4));
    board.set_living_cells(new_state.clone()).unwrap();
    assert_eq!(2, living(&board).len());
    for coord in living(&board) {
        assert!(new_state.contains(&coord));
    }
}

#[test]
fn main_old_can_get_neighbors() {
    let mut board = Board::new(10, EdgePolicy::Toroidal).unwrap();
    board.set_living_cells(vec![Coordinates::new(2, 2)]).unwrap();
    let neighbors = board.get_neighbors();
    let mut expected = HashMap::new();
    expected.insert(1, vec![1, 2, 3]);
    expected.insert(2, vec![1, 3]);
    expected.insert(3, vec![1, 2, 3]);
    assert_eq!(neighbors.len(), 3);
    for (key, val) in expected.iter() {
        assert!(neighbors.contains_key(&key));
        assert_eq!(*neighbors.get(&key).unwrap(), *val);
    }
    board
        .set_living_cells(vec![Coordinates::new(2, 2), Coordinates::new(3, 3)])
        .unwrap();
    let mut cnt = 0;
    let neighbors = board.get_neighbors();
    for y_coord in neighbors.get(&2).unwrap().iter() {
        if *y_coord == 3 {
            cnt += 1;
        }
    }
    assert_eq!(2, cnt);
}

#[test]
fn can_increment_board_state() {
    let mut board = Board::new(10, EdgePolicy::Toroidal).unwrap();
    board
        .set_living_cells(vec![Coordinates::new(2, 2), Coordinates::new(3, 3)])
        .unwrap();
    board.tick();
    assert_eq!(0, living(&board).len());
}
