use life::board::{Board, GridError};
use life::coords::{Coordinates, EdgePolicy};
use life::rules::{will_be_alive, will_survive};

fn board_with(n: i32, policy: EdgePolicy, alive: &[(i32, i32)]) -> Board {
    let mut board = Board::new(n, policy).unwrap();
    let cells: Vec<Coordinates> = alive.iter().map(|&(x, y)| Coordinates::new(x, y)).collect();
    board.set_living_cells(cells).unwrap();
    board
}

fn grid_of(n: i32, alive: &[(i32, i32)]) -> Vec<bool> {
    let mut cells = vec![false; (n * n) as usize];
    for &(x, y) in alive {
        cells[(x * n + y) as usize] = true;
    }
    cells
}

#[test]
fn toroidal_wrap_on_row_axis() {
    let c = Coordinates::new(0, 2);
    let got: Vec<(i32, i32)> = c.neighbors(6, EdgePolicy::Toroidal).iter().map(|p| (p.x, p.y)).collect();
    assert_eq!(got.len(), 8);
    for want in [(5, 2), (5, 1), (5, 3), (0, 1), (0, 3), (1, 1), (1, 2), (1, 3)] {
        assert!(got.contains(&want), "missing {:?}", want);
    }
}

#[test]
fn toroidal_wrap_at_corner() {
    let c = Coordinates::new(0, 0);
    let got: Vec<(i32, i32)> = c.neighbors(4, EdgePolicy::Toroidal).iter().map(|p| (p.x, p.y)).collect();
    assert_eq!(got, vec![(3, 3), (0, 3), (1, 3), (3, 0), (1, 0), (3, 1), (0, 1), (1, 1)]);
}

#[test]
fn toroidal_wrap_of_negative_coordinates() {
    let c = Coordinates::new(-7, 12);
    let got: Vec<(i32, i32)> = c.neighbors(5, EdgePolicy::Toroidal).iter().map(|p| (p.x, p.y)).collect();
    assert_eq!(got, vec![(2, 1), (3, 1), (4, 1), (2, 2), (4, 2), (2, 3), (3, 3), (4, 3)]);
}

#[test]
fn toroidal_small_board_repeats_neighbors() {
    let c = Coordinates::new(0, 0);
    let got: Vec<(i32, i32)> = c.neighbors(2, EdgePolicy::Toroidal).iter().map(|p| (p.x, p.y)).collect();
    assert_eq!(got.len(), 8);
    assert_eq!(got.iter().filter(|&&p| p == (1, 1)).count(), 4);
}

#[test]
fn clipped_neighbors_at_corner_edge_and_interior() {
    assert_eq!(Coordinates::new(0, 0).neighbors(5, EdgePolicy::Clipped).len(), 3);
    assert_eq!(Coordinates::new(0, 2).neighbors(5, EdgePolicy::Clipped).len(), 5);
    assert_eq!(Coordinates::new(2, 2).neighbors(5, EdgePolicy::Clipped).len(), 8);
    assert_eq!(Coordinates::new(-3, 2).neighbors(5, EdgePolicy::Clipped).len(), 0);
}

#[test]
fn neighbor_counts_stay_within_eight() {
    let all: Vec<(i32, i32)> = (0..4).flat_map(|x| (0..4).map(move |y| (x, y))).collect();
    let full = board_with(4, EdgePolicy::Toroidal, &all);
    let clipped = board_with(4, EdgePolicy::Clipped, &all);
    for x in -2..6 {
        for y in -2..6 {
            let c = Coordinates::new(x, y);
            assert_eq!(full.living_neighbor_count(&c), 8);
            assert!(clipped.living_neighbor_count(&c) <= 8);
        }
    }
    assert_eq!(clipped.living_neighbor_count(&Coordinates::new(0, 0)), 3);
    assert_eq!(clipped.living_neighbor_count(&Coordinates::new(1, 1)), 8);
}

#[test]
fn rule_table_is_total() {
    for n in 0..=8u32 {
        assert_eq!(will_survive(true, n), n == 2 || n == 3);
        assert_eq!(will_survive(false, n), n == 3);
        assert_eq!(will_be_alive(true, n as usize), n == 2 || n == 3);
        assert_eq!(will_be_alive(false, n as usize), n == 3);
    }
    assert!(!will_be_alive(false, usize::MAX));
}

#[test]
fn block_is_still_life() {
    for n in [4, 5, 8] {
        let block = [(1, 1), (1, 2), (2, 1), (2, 2)];
        let board = board_with(n, EdgePolicy::Toroidal, &block);
        let next = board.advance();
        assert_eq!(next.cells(), board.cells());
        assert_eq!(board.living_neighbor_count(&Coordinates::new(1, 1)), 3);
    }
    let across = [(3, 3), (3, 0), (0, 3), (0, 0)];
    let board = board_with(4, EdgePolicy::Toroidal, &across);
    assert_eq!(board.advance().cells(), board.cells());
}

#[test]
fn blinker_has_period_two() {
    for n in [5, 6, 9] {
        let horizontal = board_with(n, EdgePolicy::Toroidal, &[(2, 1), (2, 2), (2, 3)]);
        let vertical = board_with(n, EdgePolicy::Toroidal, &[(1, 2), (2, 2), (3, 2)]);
        let once = horizontal.advance();
        assert_eq!(once.cells(), vertical.cells());
        let twice = once.advance();
        assert_eq!(twice.cells(), horizontal.cells());
    }
}

#[test]
fn simultaneous_update_on_board() {
    let mut board = board_with(3, EdgePolicy::Clipped, &[(0, 1), (0, 2), (1, 1)]);
    board.tick();
    assert_eq!(
        *board.cells(),
        vec![false, true, true, false, true, true, false, false, false]
    );
}

#[test]
fn same_seed_same_generations() {
    let glider = [(0, 1), (1, 2), (2, 0), (2, 1), (2, 2)];
    let mut a = board_with(8, EdgePolicy::Toroidal, &glider);
    let mut b = board_with(8, EdgePolicy::Toroidal, &glider);
    for step in 0..12 {
        if step % 2 == 0 {
            let _ = a.is_alive(&Coordinates::new(3, 3));
            let _ = a.living_neighbor_count(&Coordinates::new(1, 1));
            let _ = a.get_neighbors();
        }
        a.tick();
        b.tick();
        assert_eq!(a.cells(), b.cells());
    }
    assert_eq!(a.cells(), &grid_of(8, &[(3, 4), (4, 5), (5, 3), (5, 4), (5, 5)]));
}

#[test]
fn new_board_refuses_small_sides() {
    assert_eq!(Board::new(0, EdgePolicy::Clipped).unwrap_err(), GridError::InvalidDimension);
    assert_eq!(Board::new(-4, EdgePolicy::Toroidal).unwrap_err(), GridError::InvalidDimension);
    let one = Board::new(1, EdgePolicy::Clipped).unwrap();
    assert_eq!(one.size(), 1);
    assert_eq!(one.policy(), EdgePolicy::Clipped);
    assert_eq!(*one.cells(), vec![false]);
}

#[test]
fn out_of_bounds_is_refused() {
    let mut board = board_with(3, EdgePolicy::Toroidal, &[(0, 0)]);
    assert_eq!(board.is_alive(&Coordinates::new(3, 0)), Err(GridError::OutOfBounds));
    assert_eq!(board.is_alive(&Coordinates::new(0, -1)), Err(GridError::OutOfBounds));
    assert_eq!(board.is_alive(&Coordinates::new(0, 0)), Ok(true));
    assert_eq!(board.is_alive(&Coordinates::new(2, 2)), Ok(false));
    let res = board.set_living_cells(vec![Coordinates::new(1, 1), Coordinates::new(1, 3)]);
    assert_eq!(res, Err(GridError::OutOfBounds));
    assert_eq!(*board.cells(), grid_of(3, &[(0, 0)]));
}

#[test]
fn seeding_replaces_previous_cells() {
    let mut board = board_with(3, EdgePolicy::Clipped, &[(0, 0), (2, 2)]);
    board
        .set_living_cells(vec![Coordinates::new(1, 0), Coordinates::new(1, 0)])
        .unwrap();
    assert_eq!(*board.cells(), grid_of(3, &[(1, 0)]));
}

#[test]
fn randomize_with_extreme_densities() {
    let mut board = Board::new(6, EdgePolicy::Toroidal).unwrap();
    board.randomize(7, 7);
    assert!(board.cells().iter().all(|c| *c));
    assert_eq!(board.cells().len(), 36);
    board.randomize(0, 3);
    assert!(board.cells().iter().all(|c| !*c));
}

#[test]
fn random_coordinates_stay_on_board() {
    for _ in 0..200 {
        let c = Coordinates::random(3);
        assert!((0..3).contains(&c.x) && (0..3).contains(&c.y));
    }
    let c = Coordinates::random(1);
    assert_eq!((c.x, c.y), (0, 0));
}

#[test]
fn clipped_neighbors_are_grouped_by_row() {
    let board = board_with(3, EdgePolicy::Clipped, &[(0, 0), (2, 1)]);
    let groups = board.get_neighbors();
    assert_eq!(groups.len(), 3);
    assert_eq!(groups[&0], vec![1]);
    assert_eq!(groups[&1], vec![0, 1, 0, 1, 2]);
    assert_eq!(groups[&2], vec![0, 2]);
}

#[test]
fn empty_board_has_no_neighbor_groups() {
    let board = Board::new(4, EdgePolicy::Toroidal).unwrap();
    assert!(board.get_neighbors().is_empty());
}

#[test]
fn fill_cells_copies_the_draws() {
    let mut board = Board::new(2, EdgePolicy::Clipped).unwrap();
    board.fill_cells(&vec![true, false, false, true]);
    assert_eq!(*board.cells(), vec![true, false, false, true]);
    assert_eq!(board.is_alive(&Coordinates::new(1, 1)), Ok(true));
    assert_eq!(board.is_alive(&Coordinates::new(0, 1)), Ok(false));
}
