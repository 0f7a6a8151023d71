//! Tests of the beam tracer.

use advent_solvers::beams::{energized, max_energy, Dir, Grid, Point};

const EXAMPLE: &str = r".|...\....
|.-.\.....
.....|-...
........|.
..........
.........\
..../.\\..
.-.-/..|..
.|....-|.\
..//.|....";

#[test]
fn main_test_parse() {
    let g = Grid::parse(EXAMPLE).unwrap();
    assert_eq!(g.width, 10);
    assert_eq!(g.height, 10);
}

#[test]
fn main_test_q1() {
    let g = Grid::parse(EXAMPLE).unwrap();
    let actual = energized(&g, (Point::default(), Dir::Right)).len();
    assert_eq!(actual, 46);
}

#[test]
fn main_test_q2() {
    let g = Grid::parse(EXAMPLE).unwrap();
    let actual = max_energy(&g);
    assert_eq!(actual, 51);
}
