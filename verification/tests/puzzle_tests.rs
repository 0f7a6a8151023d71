//! Tests of the smaller puzzle solvers: pipes, mirrors, extrapolation,
//! camel cards, the schematic and the cube game.

use advent_solvers::camel_cards::{Card, Hand, HandType};
use advent_solvers::cube_game::{parse_game, q1 as cube_q1, q2 as cube_q2, Game};
use advent_solvers::galaxies::{Point, Universe};
use advent_solvers::mirrors;
use advent_solvers::oasis;
use advent_solvers::pipes;
use advent_solvers::schematic::Diagram;
use advent_solvers::scratchcards;
use advent_solvers::scratchcards::number_list;
use advent_solvers::trebuchet::{parser_1, parser_2};

const PIPES_EXAMPLE_1: &str = ".....
.S-7.
.|.|.
.L-J.
.....";

const PIPES_EXAMPLE_2: &str = "..F7.
.FJ|.
SJ.L7
|F--J
LJ...";

#[test]
fn test_parse() {
    for (input, start_is, expected_q1) in [
        (PIPES_EXAMPLE_1, pipes::Tile::SouthEast, 4u64),
        (PIPES_EXAMPLE_2, pipes::Tile::SouthEast, 8u64),
    ] {
        let (grid, start) = pipes::Grid::parse(input, start_is).unwrap();
        let (actual_q1, _this_loop) = grid.loop_containing(start);
        assert_eq!(actual_q1, expected_q1);
    }
}

const MIRROR_EXAMPLE_1: &str = "#.##..##.
..#.##.#.
##......#
##......#
..#.##.#.
..##..##.
#.#.##.#.";

const MIRROR_EXAMPLE_2: &str = "#...##..#
#....#..#
..##..###
#####.##.
#####.##.
..##..###
#....#..#";

#[test]
fn test_name() {
    for (expected, input) in [
        (mirrors::Reflection::Col(5), MIRROR_EXAMPLE_1),
        (mirrors::Reflection::Row(4), MIRROR_EXAMPLE_2),
    ] {
        let map = mirrors::Grid::parse(input).unwrap();
        let actual = mirrors::Reflection::of_q1(&map).unwrap();
        assert_eq!(actual, expected);
    }
}

#[test]
fn test_smudge() {
    // repairing a single smudge of the first pattern reveals a horizontal
    // line instead
    let mut map = mirrors::Grid::parse(MIRROR_EXAMPLE_1).unwrap();
    let (refl, _x, _y) = mirrors::Reflection::of_q2(&mut map).unwrap();
    assert_eq!(refl, mirrors::Reflection::Row(3));
}

const OASIS_EXAMPLE: &str = "0 3 6 9 12 15
1 3 6 10 15 21
10 13 16 21 30 45";

#[test]
fn main_test_name() {
    let data = oasis::parse(OASIS_EXAMPLE).unwrap();
    let all_ds: Vec<_> = data.into_iter().map(oasis::all_deltas).collect();
    let expected_all_ds = vec![
        vec![vec![0i64, 3, 6, 9, 12, 15], vec![3, 3, 3, 3, 3]],
        vec![
            vec![1, 3, 6, 10, 15, 21],
            vec![2, 3, 4, 5, 6],
            vec![1, 1, 1, 1],
        ],
        vec![
            vec![10, 13, 16, 21, 30, 45],
            vec![3, 3, 5, 9, 15],
            vec![0, 2, 4, 6],
            vec![2, 2, 2],
        ],
    ];
    assert_eq!(all_ds, expected_all_ds);
    let all_extrapolateds: Vec<_> = all_ds
        .iter()
        .map(|h| oasis::extrapolate_next_step(h))
        .collect();
    assert_eq!(all_extrapolateds, vec![18, 28, 68]);
    let all_prevs: Vec<_> = all_ds
        .iter()
        .map(|h| oasis::extrapolate_prev_step(h))
        .collect();
    assert_eq!(all_prevs, vec![-3, 0, 5]);
}

fn hand_of(row: &str) -> Hand {
    let cards: Vec<Card> = row.chars().map(Card::parse).collect();
    Hand([cards[0], cards[1], cards[2], cards[3], cards[4]])
}

#[test]
fn hand_types() {
    for (row, expected) in [
        ("KK677", HandType::TwoPair),
        ("AAAAA", HandType::FiveOfAKind),
        ("AA8AA", HandType::FourOfAKind),
        ("23332", HandType::FullHouse),
        ("TTT98", HandType::ThreeOfAKind),
        ("23432", HandType::TwoPair),
        ("A23A4", HandType::OnePair),
        ("23456", HandType::HighCard),
        ("32T3K", HandType::OnePair),
    ] {
        assert_eq!(hand_of(row).classify_q1(), expected,);
    }
    assert_eq!(
        Hand([
            Card::T,
            Card::Number(5),
            Card::Number(5),
            Card::J,
            Card::Number(5),
        ])
        .classify_q2(),
        HandType::FourOfAKind
    );
    assert_eq!(
        Hand([Card::Q, Card::Q, Card::Q, Card::J, Card::A,]).classify_q2(),
        HandType::FourOfAKind
    );
    assert_eq!(
        Hand([Card::K, Card::T, Card::J, Card::J, Card::T,]).classify_q2(),
        HandType::FourOfAKind
    );
}

const SCHEMATIC_EXAMPLE: &str = "467..114..
...*......
..35..633.
......#...
617*......
.....+.58.
..592.....
......755.
...$.*....
.664.598..";

#[test]
fn test_example() {
    let d = Diagram::parse(SCHEMATIC_EXAMPLE).unwrap();
    assert_eq!(d.q1(), 4361);
    assert_eq!(d.q2(), 467835);
}

const CUBE_EXAMPLE: &str = "Game 1: 3 blue, 4 red; 1 red, 2 green, 6 blue; 2 green
Game 2: 1 blue, 2 green; 3 green, 4 blue, 1 red; 1 green, 1 blue
Game 3: 8 green, 6 blue, 20 red; 5 blue, 4 red, 13 green; 5 green, 1 red
Game 4: 1 green, 3 red, 6 blue; 3 green, 6 red; 3 green, 15 blue, 14 red
Game 5: 6 red, 1 blue, 3 green; 2 blue, 1 red, 2 green";

fn cube_games() -> Vec<Game> {
    CUBE_EXAMPLE
        .lines()
        .map(|line| parse_game(line).unwrap())
        .collect()
}

#[test]
fn test_cube_q1() {
    let games = cube_games();
    assert_eq!(8, cube_q1(&games));
}

#[test]
fn test_cube_q2() {
    let games = cube_games();
    assert_eq!(2286, cube_q2(&games));
}

#[test]
fn test_componentwise_limit() {
    // a reveal of twenty green cubes cannot come from a bag of thirteen,
    // whatever the red count says
    let games = vec![parse_game("Game 1: 5 red, 20 green").unwrap()];
    assert_eq!(0, cube_q1(&games));
    let games = vec![parse_game("Game 7: 12 red, 13 green, 14 blue").unwrap()];
    assert_eq!(7, cube_q1(&games));
}

#[test]
fn test_parse_game_rejects() {
    assert!(parse_game("Game 1: 3 orange").is_none());
    assert!(parse_game("no colon here").is_none());
    assert!(parse_game("Game x: 3 blue").is_none());
}

const GALAXY_EXAMPLE: &str = "...#......
.......#..
#.........
..........
......#...
.#........
.........#
..........
.......#..
#...#.....";

#[test]
fn test_expansion() {
    let universe = Universe::parse(GALAXY_EXAMPLE, 2).unwrap();
    let expected_galaxies = vec![
        Point { x: 4, y: 0 },
        Point { x: 9, y: 1 },
        Point { x: 0, y: 2 },
        Point { x: 8, y: 5 },
        Point { x: 1, y: 6 },
        Point { x: 12, y: 7 },
        Point { x: 9, y: 10 },
        Point { x: 0, y: 11 },
        Point { x: 5, y: 11 },
    ];
    let mut actual: Vec<_> = universe.galaxies;
    actual.sort_by_key(|p| (p.y, p.x));
    assert_eq!(expected_galaxies, actual);
}

#[test]
fn test_distances() {
    for (expansion_factor, expected) in [(2, 374u64), (10, 1030), (100, 8410)] {
        let universe = Universe::parse(GALAXY_EXAMPLE, expansion_factor).unwrap();
        assert_eq!(universe.q1(), expected);
    }
}

#[test]
fn test_calibration_1() {
    assert_eq!(parser_1("1abc2"), Some(12));
    assert_eq!(parser_1("pqr3stu8vwx"), Some(38));
    assert_eq!(parser_1("a1b2c3d4e5f"), Some(15));
    assert_eq!(parser_1("treb7uchet"), Some(77));
    assert_eq!(parser_1("nodigits"), None);
}

#[test]
fn test_calibration_2() {
    assert_eq!(parser_2("two1nine"), Some(29));
    assert_eq!(parser_2("eightwothree"), Some(83));
    assert_eq!(parser_2("abcone2threexyz"), Some(13));
    assert_eq!(parser_2("xtwone3four"), Some(24));
    assert_eq!(parser_2("4nineeightseven2"), Some(42));
    assert_eq!(parser_2("zoneight234"), Some(14));
    assert_eq!(parser_2("7pqrstsixteen"), Some(76));
}

const CARDS_EXAMPLE: &str = "Card 1: 41 48 83 86 17 | 83 86  6 31 17  9 48 53
Card 2: 13 32 20 16 61 | 61 30 68 82 17 32 24 19
Card 3:  1 21 53 59 44 | 69 82 63 72 16 21 14  1
Card 4: 41 92 73 84 69 | 59 84 76 51 58  5 54 83
Card 5: 87 83 26 28 32 | 88 30 70 12 93 22 82 36
Card 6: 31 18 13 56 72 | 74 77 10 23 35 67 36 11";

#[test]
fn test_scratchcard_scores() {
    let cards: Vec<_> = CARDS_EXAMPLE
        .lines()
        .map(|l| scratchcards::parse(l).unwrap())
        .collect();
    let q1: u64 = cards.iter().map(scratchcards::score).sum();
    assert_eq!(q1, 13);
    assert_eq!(scratchcards::q2(&cards), 30);
}

#[test]
fn test_number_list() {
    let ns = number_list("41 48  83 41").unwrap();
    assert_eq!(ns, vec![41, 48, 83]);
    assert!(number_list("41 4x8").is_none());
}
