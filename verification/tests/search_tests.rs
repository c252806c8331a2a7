use gridrun::engine::{Heuristic, SearchParameters};
use gridrun::frontier::Frontier;
use gridrun::grid::{Coordinate, GridError, GridModel};
use gridrun::state::{Axis, Move, SearchState};

const GRID_13: &str = "2413432311323\n3215453535623\n3255245654254\n3446585845452\n4546657867536\n1438598798454\n4457876987766\n3637877979653\n4654967986887\n4564679986453\n1224686865563\n2546548887735\n4322674655533\n";

fn params(start: (usize, usize), end: (usize, usize), min_run: usize, max_run: usize) -> SearchParameters {
    SearchParameters {
        start: Coordinate { x: start.0, y: start.1 },
        end: Coordinate { x: end.0, y: end.1 },
        min_run,
        max_run,
    }
}

#[test]
fn test_parse_grid() {
    let grid = GridModel::from_digit_lines(GRID_13).expect("Input should be valid grid");
    assert_eq!(grid.width(), 13);
    assert_eq!(grid.height(), 13);
    assert_eq!(grid.cell_count(), 13 * 13);
    // First row
    let first_row = [2u32, 4, 1, 3, 4, 3, 2, 3, 1, 1, 3, 2, 3];
    for (x, expected) in first_row.iter().enumerate() {
        assert_eq!(grid.cost(Coordinate { x, y: 0 }), Ok(*expected));
    }
}

#[test]
fn main_test_parse_grid() {
    let grid = GridModel::from_digit_lines(GRID_13).expect("Input should be valid grid");
    assert_eq!(grid.width(), 13);
    assert_eq!(grid.height(), 13);
    assert_eq!(grid.cost(Coordinate { x: 0, y: 0 }), Ok(2));
    assert_eq!(grid.cost(Coordinate { x: 12, y: 0 }), Ok(3));
    assert_eq!(grid.cost(Coordinate { x: 0, y: 12 }), Ok(4));
    assert_eq!(grid.cost(Coordinate { x: 12, y: 12 }), Ok(3));
}

#[test]
fn test_successors() {
    let grid = GridModel::from_digit_lines(GRID_13).expect("Input should be valid grid");
    let start = SearchState { pos: Coordinate { x: 0, y: 0 }, axis: Axis::Start };
    let successors = grid.successors(start, 0, 4, 5);
    let expected = vec![
        Move { to: Coordinate { x: 4, y: 0 }, via_axis: Axis::Horizontal, cost: 12 },
        Move { to: Coordinate { x: 0, y: 4 }, via_axis: Axis::Vertical, cost: 13 },
        Move { to: Coordinate { x: 5, y: 0 }, via_axis: Axis::Horizontal, cost: 15 },
        Move { to: Coordinate { x: 0, y: 5 }, via_axis: Axis::Vertical, cost: 14 },
    ];
    assert_eq!(successors.len(), 4);
    assert_eq!(successors, expected);
}

#[test]
fn test_find_lowest_heatloss() {
    let grid = GridModel::from_digit_lines(GRID_13).expect("Input should be valid grid");
    let result = grid
        .run_search(params((0, 0), (12, 12), 4, 10), Heuristic::Zero)
        .expect("There should be a correct path");
    assert_eq!(result, Some(94));
}

#[test]
fn main_test_find_lowest_heatloss() {
    let grid = GridModel::from_digit_lines(GRID_13).expect("Input should be valid grid");
    let result = grid
        .run_search(params((0, 0), (12, 12), 1, 3), Heuristic::Manhattan)
        .expect("Endpoints should be on the grid");
    assert_eq!(result, Some(102));
}

// The run-length window and turn rule hold of every emitted move: no run
// shorter than the minimum or longer than the maximum, and none continuing
// along the arrival axis.
#[test]
fn test_successor_runs_conform() {
    let grid = GridModel::from_digit_lines(GRID_13).expect("Input should be valid grid");
    let from = SearchState { pos: Coordinate { x: 6, y: 6 }, axis: Axis::Horizontal };
    let moves = grid.successors(from, 17, 2, 3);
    assert!(!moves.is_empty());
    for m in &moves {
        // Arriving horizontally forces a vertical run.
        assert_eq!(m.via_axis, Axis::Vertical);
        assert_eq!(m.to.x, 6);
        let d = if m.to.y >= 6 { m.to.y - 6 } else { 6 - m.to.y };
        assert!(2 <= d && d <= 3);
        assert!(m.to.y < 13);
        // The cost accumulates the crossed cells on top of the base cost.
        let mut sum = 17u32;
        let step: isize = if m.to.y > 6 { 1 } else { -1 };
        let mut y = 6isize;
        while y != m.to.y as isize {
            y += step;
            sum += grid.cost(Coordinate { x: 6, y: y as usize }).unwrap();
        }
        assert_eq!(m.cost, sum);
    }
    // Both directions of each allowed length appear.
    assert_eq!(moves.len(), 4);
}

// Repeated runs on identical input yield identical minimal cost.
#[test]
fn test_search_is_deterministic() {
    let grid = GridModel::from_digit_lines(GRID_13).expect("Input should be valid grid");
    for heuristic in [Heuristic::Zero, Heuristic::Manhattan] {
        let first = grid.run_search(params((0, 0), (12, 12), 1, 3), heuristic);
        let second = grid.run_search(params((0, 0), (12, 12), 1, 3), heuristic);
        assert_eq!(first, second);
    }
}

// The zero and the Manhattan heuristics agree on the minimal cost.
#[test]
fn test_heuristics_agree() {
    let grid = GridModel::from_digit_lines(GRID_13).expect("Input should be valid grid");
    for (min_run, max_run) in [(1usize, 3usize), (4, 10)] {
        let plain = grid
            .run_search(params((0, 0), (12, 12), min_run, max_run), Heuristic::Zero)
            .unwrap();
        let guided = grid
            .run_search(params((0, 0), (12, 12), min_run, max_run), Heuristic::Manhattan)
            .unwrap();
        assert_eq!(plain, guided);
    }
    let small = GridModel::from_digit_lines("241\n321\n325\n").unwrap();
    let plain = small.run_search(params((0, 0), (2, 2), 1, 3), Heuristic::Zero).unwrap();
    let guided = small.run_search(params((0, 0), (2, 2), 1, 3), Heuristic::Manhattan).unwrap();
    assert_eq!(plain, guided);
}

// The successor destinations and costs of the corner state at base cost 2,
// window 1..=3: the same six moves either variant of the search generates,
// compared as a set since the unified generator orders by run length.
#[test]
fn main_test_successors() {
    let grid = GridModel::from_digit_lines(GRID_13).expect("Input should be valid grid");
    let first = SearchState { pos: Coordinate { x: 0, y: 0 }, axis: Axis::Start };
    let successors = grid.successors(first, 2, 1, 3);
    let expected = vec![
        Move { to: Coordinate { x: 1, y: 0 }, via_axis: Axis::Horizontal, cost: 6 },
        Move { to: Coordinate { x: 2, y: 0 }, via_axis: Axis::Horizontal, cost: 7 },
        Move { to: Coordinate { x: 3, y: 0 }, via_axis: Axis::Horizontal, cost: 10 },
        Move { to: Coordinate { x: 0, y: 1 }, via_axis: Axis::Vertical, cost: 5 },
        Move { to: Coordinate { x: 0, y: 2 }, via_axis: Axis::Vertical, cost: 8 },
        Move { to: Coordinate { x: 0, y: 3 }, via_axis: Axis::Vertical, cost: 11 },
    ];
    assert_eq!(successors.len(), expected.len());
    for m in &expected {
        assert!(successors.contains(m));
    }
}

// The accumulated cost excludes the start cell, so on this small grid the
// minimal route right-right then down-down costs 11 — not 13, which would
// count the start cell's own cost against the search's convention (the
// 13x13 answers above hold only under the uncounted-start convention).
#[test]
fn test_small_grid_minimal_cost() {
    let grid = GridModel::from_digit_lines("241\n321\n325\n").unwrap();
    let result = grid.run_search(params((0, 0), (2, 2), 1, 3), Heuristic::Manhattan).unwrap();
    assert_eq!(result, Some(11));
}

// A grid smaller than the minimum run in both axes reports unreachability
// rather than panicking or looping.
#[test]
fn test_unreachable_reports_none() {
    let grid = GridModel::from_digit_lines("12\n34\n").unwrap();
    let result = grid.run_search(params((0, 0), (1, 1), 4, 10), Heuristic::Zero).unwrap();
    assert_eq!(result, None);
    let result = grid.run_search(params((0, 0), (1, 1), 4, 10), Heuristic::Manhattan).unwrap();
    assert_eq!(result, None);
}

// The start state sits on the goal before any run is taken.
#[test]
fn test_start_equals_end_costs_nothing() {
    let grid = GridModel::from_digit_lines("5\n").unwrap();
    let result = grid.run_search(params((0, 0), (0, 0), 1, 3), Heuristic::Zero).unwrap();
    assert_eq!(result, Some(0));
}

#[test]
fn test_endpoint_off_grid_is_error() {
    let grid = GridModel::from_digit_lines("12\n34\n").unwrap();
    let result = grid.run_search(params((0, 0), (2, 2), 1, 3), Heuristic::Zero);
    assert_eq!(result, Err(GridError::OutOfBounds));
}

#[test]
fn test_ragged_grid_is_malformed() {
    assert_eq!(
        GridModel::from_digit_lines("123\n12\n").map(|_| ()),
        Err(GridError::MalformedGrid)
    );
    assert_eq!(
        GridModel::from_digit_lines("12a\n123\n").map(|_| ()),
        Err(GridError::MalformedGrid)
    );
    assert_eq!(GridModel::from_digit_lines("").map(|_| ()), Err(GridError::MalformedGrid));
}

#[test]
fn test_grid_new_checks_cell_count() {
    assert!(GridModel::new(2, 2, vec![1, 2, 3, 4]).is_ok());
    assert_eq!(GridModel::new(2, 2, vec![1, 2, 3]).map(|_| ()), Err(GridError::MalformedGrid));
    assert_eq!(GridModel::new(0, 2, vec![]).map(|_| ()), Err(GridError::MalformedGrid));
}

#[test]
fn test_search_budget_holds_for_small_grids() {
    let grid = GridModel::from_digit_lines(GRID_13).unwrap();
    assert!(gridrun::engine::fits_search_budget(&grid, 10));
}

// The frontier orders pops by priority and keeps the better priority of a
// repeated item; a push with a worse priority changes nothing.
#[test]
fn test_frontier_orders_and_improves() {
    let mut frontier = Frontier::new();
    frontier.push_improve(7, 30);
    frontier.push_improve(8, 20);
    frontier.push_improve(7, 10);
    // Raising an item's priority is ignored.
    frontier.push_improve(8, 25);
    assert_eq!(frontier.pop_min(), Some((7, 10)));
    assert_eq!(frontier.pop_min(), Some((8, 20)));
    assert_eq!(frontier.pop_min(), None);
}
