//! Tests of the bounded-run shortest-path engine.

use advent_solvers::crucible::{Constraints, Grid, SearchError};

/// The canonical worked example: a 13 by 13 grid of single-digit costs.
const EXAMPLE: &str = "2413432311323
3215453535623
3255245654254
3446585845452
4546657867536
1438598798454
4457876987766
3637877979653
4654967986887
4564679986453
1224686865563
2546548887735
4322674655533";

#[test]
fn test_q1_normal() {
    let g = Grid::parse(EXAMPLE).unwrap();
    let actual = g.q1();
    assert_eq!(actual, Ok(102));
}

#[test]
fn test_q2_min_run() {
    let g = Grid::parse(EXAMPLE).unwrap();
    let actual = g.q2();
    assert_eq!(actual, Ok(94));
}

#[test]
fn test_solve_small() {
    // two ones in each row: the cheapest path steps into two cells
    let g = Grid::parse("11\n11").unwrap();
    assert_eq!(g.solve(Constraints { max_run: 3, min_run_before_turn: 0 }), Ok(2));
}

#[test]
fn test_single_cell() {
    let g = Grid::parse("5").unwrap();
    // with no minimum run, both start states accept immediately at cost 0
    assert_eq!(g.solve(Constraints { max_run: 3, min_run_before_turn: 0 }), Ok(0));
    // a positive minimum run can never be met on a single cell
    assert_eq!(
        g.solve(Constraints { max_run: 10, min_run_before_turn: 4 }),
        Err(SearchError::NoPathFound)
    );
}

#[test]
fn test_degenerate_corridor() {
    // a single-row strip with a positive minimum run must reject: the
    // target can never be entered from above
    let g = Grid::parse("11111111").unwrap();
    assert_eq!(
        g.solve(Constraints { max_run: 10, min_run_before_turn: 2 }),
        Err(SearchError::NoPathFound)
    );
}

#[test]
fn test_invalid_constraints() {
    let g = Grid::parse("12\n34").unwrap();
    assert_eq!(
        g.solve(Constraints { max_run: 0, min_run_before_turn: 0 }),
        Err(SearchError::InvalidConstraints)
    );
    assert_eq!(
        g.solve(Constraints { max_run: 3, min_run_before_turn: 4 }),
        Err(SearchError::InvalidConstraints)
    );
}

#[test]
fn test_reachability_floor() {
    // the straight-line Manhattan path length (2) is less than the
    // minimum run (4): no accepting state exists at all
    let g = Grid::parse("11\n11").unwrap();
    assert_eq!(
        g.solve(Constraints { max_run: 4, min_run_before_turn: 4 }),
        Err(SearchError::NoPathFound)
    );
}

#[test]
fn test_determinism() {
    let g = Grid::parse(EXAMPLE).unwrap();
    let first = g.solve(Constraints { max_run: 3, min_run_before_turn: 0 });
    let second = g.solve(Constraints { max_run: 3, min_run_before_turn: 0 });
    assert_eq!(first, second);
}

#[test]
fn test_monotonicity() {
    // raising the run bound cannot increase the optimum
    let g = Grid::parse(EXAMPLE).unwrap();
    let mut previous = None;
    for k in 2..6u8 {
        let cost = g
            .solve(Constraints { max_run: k, min_run_before_turn: 0 })
            .unwrap();
        if let Some(p) = previous {
            assert!(cost <= p);
        }
        previous = Some(cost);
    }
}

#[test]
fn test_malformed_grid() {
    assert!(matches!(Grid::parse("12\n345"), Err(SearchError::MalformedGrid)));
    assert!(matches!(Grid::parse("1a3"), Err(SearchError::MalformedGrid)));
    assert!(matches!(Grid::parse(""), Err(SearchError::MalformedGrid)));
}
