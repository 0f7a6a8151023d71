//! Bounded-run directional shortest-path engine: core data model and
//! transition rule.
//!
//! A mover crosses a rectangular grid of per-cell entry costs.  Its legal
//! next moves depend not only on its position but on how many consecutive
//! steps it has already taken in its current heading: at most `max_run`
//! steps may be taken before a turn is mandatory, and (optionally) at least
//! `min_run_before_turn` steps must be taken before a turn is allowed.  The
//! search space is therefore the augmented state space of
//! (cell, heading, run length), modelled here by [`Node`].
//!
//! This file holds the grid, the state type, the constraint parameters and
//! the pure transition rule, together with the mathematical model (valid
//! paths, path costs, accepting states) that the search engine's contract in
//! [`crate::crucible_search`] is stated over.

use vstd::prelude::*;
use vstd::string::StringSliceAdditionalSpecFns;

use crate::scan::{split_on, split_bytes};

verus! {

/// One of the four grid-aligned directions of travel.
#[derive(Clone, Copy, Debug, Hash, PartialEq, Eq, Structural)]
pub enum Dir {
    Up,
    Down,
    Left,
    Right,
}

/// A cell coordinate: `0 <= x < width`, `0 <= y < height`.
#[derive(Clone, Copy, Debug, Hash, Default, PartialEq, Eq, Structural)]
pub struct Point {
    pub x: usize,
    pub y: usize,
}

/// A node of the augmented search space: cell, heading, and the count of
/// consecutive steps already taken in that heading to reach the cell.
///
/// `moves_in_straight_line == 0` identifies the two synthetic start states
/// (no step taken yet).  Run length participates in identity: two paths
/// reaching the same cell along the same heading with different run counts
/// are distinct search nodes, because their future move legality differs.
#[derive(Clone, Copy, Debug, Hash, PartialEq, Eq, Structural)]
pub struct Node {
    pub point: Point,
    pub moves_in_straight_line: u8,
    pub current_direction: Dir,
}

/// Constraint parameters of one search.
///
/// A configuration is self-contradictory unless `max_run >= 1` and
/// `min_run_before_turn <= max_run`.
#[derive(Clone, Copy, Debug, PartialEq, Eq, Structural)]
pub struct Constraints {
    pub max_run: u8,
    pub min_run_before_turn: u8,
}

/// The failure signals of grid construction and search.
#[derive(Clone, Copy, Debug, PartialEq, Eq, Structural)]
pub enum SearchError {
    /// Rows of unequal length, an empty grid, or an entry that is not a
    /// single decimal digit.
    MalformedGrid,
    /// The frontier was exhausted before the termination condition was met:
    /// the constraints make the target unreachable.
    NoPathFound,
    /// `max_run == 0`, or `min_run_before_turn > max_run`.
    InvalidConstraints,
}

impl Constraints {
    /// A configuration that can produce legal moves.
    pub open spec fn valid(self) -> bool {
        1 <= self.max_run && self.min_run_before_turn <= self.max_run
    }
}

/// The exact opposite of a heading.
pub open spec fn opposite(d: Dir) -> Dir {
    match d {
        Dir::Up => Dir::Down,
        Dir::Down => Dir::Up,
        Dir::Left => Dir::Right,
        Dir::Right => Dir::Left,
    }
}

/// Width of a grid view (all rows share the length of row 0).
pub open spec fn gw(g: Seq<Seq<u8>>) -> int {
    g[0].len() as int
}

/// Height of a grid view.
pub open spec fn gh(g: Seq<Seq<u8>>) -> int {
    g.len() as int
}

/// A well-formed grid view: at least one row, at least one column, all rows
/// of equal length, every entry a single decimal digit.
pub open spec fn grid_wf(g: Seq<Seq<u8>>) -> bool {
    &&& g.len() >= 1
    &&& g[0].len() >= 1
    &&& forall|i: int| 0 <= i < g.len() ==> (#[trigger] g[i]).len() == g[0].len()
    &&& forall|i: int, j: int|
        0 <= i < g.len() && 0 <= j < g[0].len() ==> #[trigger] g[i][j] <= 9
}

/// Grid sizes whose state space and cost sums stay well inside `u64`
/// arithmetic.  Any grid that fits in memory satisfies this.
pub open spec fn fits(w: int, h: int) -> bool {
    w * h <= 0x4_0000_0000_0000
}

/// Entry cost of the cell at `p`.
pub open spec fn cost_of(g: Seq<Seq<u8>>, p: Point) -> int {
    g[p.y as int][p.x as int] as int
}

/// The cell one step from `p` along `d`, or `None` when that step leaves
/// the `w` by `h` grid (only the moved coordinate is checked; the other is
/// inherited).
pub open spec fn spec_advance(w: int, h: int, p: Point, d: Dir) -> Option<Point> {
    match d {
        Dir::Left => if p.x >= 1 {
            Some(Point { x: (p.x - 1) as usize, y: p.y })
        } else {
            None
        },
        Dir::Right => if p.x + 1 < w {
            Some(Point { x: (p.x + 1) as usize, y: p.y })
        } else {
            None
        },
        Dir::Up => if p.y >= 1 {
            Some(Point { x: p.x, y: (p.y - 1) as usize })
        } else {
            None
        },
        Dir::Down => if p.y + 1 < h {
            Some(Point { x: p.x, y: (p.y + 1) as usize })
        } else {
            None
        },
    }
}

/// The node reached from `p` by one step along `d` carrying run count
/// `moves`, or `None` when the step leaves the grid.
pub open spec fn spec_move_along(w: int, h: int, p: Point, d: Dir, moves: u8) -> Option<Node> {
    match spec_advance(w, h, p, d) {
        None => None,
        Some(q) => Some(
            Node { point: q, moves_in_straight_line: moves, current_direction: d },
        ),
    }
}

/// The transition rule: the state reached from `n` by one step in direction
/// `d`, or `None` when that step is illegal.  In order: reversal is always
/// illegal; continuing straight is legal only while the run is below
/// `max_run`; turning is legal only from a start state or once the run has
/// reached `min_run_before_turn`; and a step that leaves the grid is simply
/// not a neighbour.
pub open spec fn spec_step(w: int, h: int, c: Constraints, n: Node, d: Dir) -> Option<Node> {
    if d == opposite(n.current_direction) {
        None
    } else if d == n.current_direction {
        if n.moves_in_straight_line < c.max_run {
            spec_move_along(w, h, n.point, d, (n.moves_in_straight_line + 1) as u8)
        } else {
            None
        }
    } else {
        if n.moves_in_straight_line == 0 || n.moves_in_straight_line >= c.min_run_before_turn {
            spec_move_along(w, h, n.point, d, 1u8)
        } else {
            None
        }
    }
}

/// One legal move of the search space: `b` is a successor of `a`.
pub open spec fn valid_step(w: int, h: int, c: Constraints, a: Node, b: Node) -> bool {
    spec_step(w, h, c, a, b.current_direction) == Some(b)
}

/// The synthetic start state with heading `d`: top-left cell, no step taken.
pub open spec fn start_node(d: Dir) -> Node {
    Node { point: Point { x: 0, y: 0 }, moves_in_straight_line: 0, current_direction: d }
}

/// The two legal starting headings.
pub open spec fn is_start(n: Node) -> bool {
    n == start_node(Dir::Down) || n == start_node(Dir::Right)
}

/// A valid path: it begins at a start state and each later node is reached
/// from its predecessor by one legal move.
pub open spec fn valid_path(w: int, h: int, c: Constraints, p: Seq<Node>) -> bool {
    &&& p.len() >= 1
    &&& is_start(p[0])
    &&& forall|i: int| 1 <= i < p.len() ==> valid_step(w, h, c, p[i - 1], #[trigger] p[i])
}

/// Total entry cost of a path: the cost of every cell stepped into.  No cost
/// is charged for the starting cell.
pub open spec fn path_cost(g: Seq<Seq<u8>>, p: Seq<Node>) -> int
    decreases p.len(),
{
    if p.len() <= 1 {
        0
    } else {
        path_cost(g, p.drop_last()) + cost_of(g, p.last().point)
    }
}

/// An accepting state: its cell is the bottom-right target and its run
/// satisfies the minimum-run constraint.
pub open spec fn accepting(g: Seq<Seq<u8>>, c: Constraints, n: Node) -> bool {
    &&& n.point.x == gw(g) - 1
    &&& n.point.y == gh(g) - 1
    &&& n.moves_in_straight_line >= c.min_run_before_turn
}

/// A valid path that ends in an accepting state.
pub open spec fn accept_path(g: Seq<Seq<u8>>, c: Constraints, p: Seq<Node>) -> bool {
    valid_path(gw(g), gh(g), c, p) && accepting(g, c, p.last())
}

/// The target cell can be entered along two headings (from above and from
/// the left).  The search succeeds only once both entry-heading classes have
/// produced an accepting state; this predicate says both classes are
/// reachable at all.
pub open spec fn solvable(g: Seq<Seq<u8>>, c: Constraints) -> bool {
    &&& exists|p: Seq<Node>| #[trigger] accept_path(g, c, p) && p.last().current_direction == Dir::Down
    &&& exists|p: Seq<Node>| #[trigger] accept_path(g, c, p) && p.last().current_direction == Dir::Right
}

/// `m` is the minimal total entry cost over all accepting paths.
pub open spec fn is_min_accept_cost(g: Seq<Seq<u8>>, c: Constraints, m: int) -> bool {
    &&& exists|p: Seq<Node>| #[trigger] accept_path(g, c, p) && path_cost(g, p) == m
    &&& forall|p: Seq<Node>| #[trigger] accept_path(g, c, p) ==> path_cost(g, p) >= m
}

/// The full contract of the search: which result [`Grid::solve`] returns on
/// a well-formed grid for every configuration.
pub open spec fn solve_post(g: Seq<Seq<u8>>, c: Constraints, r: Result<u64, SearchError>) -> bool {
    match r {
        Ok(m) => c.valid() && solvable(g, c) && is_min_accept_cost(g, c, m as int),
        Err(SearchError::InvalidConstraints) => !c.valid(),
        Err(SearchError::NoPathFound) => c.valid() && !solvable(g, c),
        Err(SearchError::MalformedGrid) => false,
    }
}

impl Node {
    /// The accepting predicate of the unconstrained-minimum variant: the
    /// node's cell is the bottom-right target.
    pub fn is_final_q1(&self, width: usize, height: usize) -> (r: bool)
        requires
            width >= 1,
            height >= 1,
        ensures
            r == (self.point.x == width - 1 && self.point.y == height - 1),
    {
        self.point.x == width - 1 && self.point.y == height - 1
    }

    /// The accepting predicate of the minimum-run variant: the target cell,
    /// reached with a run of at least four.
    pub fn is_final_q2(&self, width: usize, height: usize) -> (r: bool)
        requires
            width >= 1,
            height >= 1,
        ensures
            r == (self.moves_in_straight_line >= 4 && self.point.x == width - 1 && self.point.y
                == height - 1),
    {
        self.moves_in_straight_line >= 4 && self.is_final_q1(width, height)
    }

    /// The cell-advancing half of the transition rule: build the node one
    /// step along `next_dir`, or `None` when the step leaves the grid.
    pub fn move_along(
        current: Point,
        next_dir: Dir,
        moves_in_straight_line: u8,
        width: usize,
        height: usize,
    ) -> (r: Option<Node>)
        ensures
            r == spec_move_along(width as int, height as int, current, next_dir, moves_in_straight_line),
    {
        let p = match next_dir {
            Dir::Left => {
                if current.x >= 1 {
                    Some(Point { x: current.x - 1, y: current.y })
                } else {
                    None
                }
            },
            Dir::Right => {
                if current.x < usize::MAX && current.x + 1 < width {
                    Some(Point { x: current.x + 1, y: current.y })
                } else {
                    None
                }
            },
            Dir::Up => {
                if current.y >= 1 {
                    Some(Point { x: current.x, y: current.y - 1 })
                } else {
                    None
                }
            },
            Dir::Down => {
                if current.y < usize::MAX && current.y + 1 < height {
                    Some(Point { x: current.x, y: current.y + 1 })
                } else {
                    None
                }
            },
        };
        match p {
            None => None,
            Some(q) => Some(
                Node { point: q, moves_in_straight_line, current_direction: next_dir },
            ),
        }
    }

    /// One step of the transition rule in direction `d` under `c`.
    pub fn step(&self, d: Dir, c: Constraints, width: usize, height: usize) -> (r: Option<Node>)
        ensures
            r == spec_step(width as int, height as int, c, *self, d),
    {
        let rev = match (self.current_direction, d) {
            (Dir::Up, Dir::Down) => true,
            (Dir::Down, Dir::Up) => true,
            (Dir::Left, Dir::Right) => true,
            (Dir::Right, Dir::Left) => true,
            _ => false,
        };
        let same = match (self.current_direction, d) {
            (Dir::Up, Dir::Up) => true,
            (Dir::Down, Dir::Down) => true,
            (Dir::Left, Dir::Left) => true,
            (Dir::Right, Dir::Right) => true,
            _ => false,
        };
        if rev {
            None
        } else if same {
            if self.moves_in_straight_line < c.max_run {
                Node::move_along(self.point, d, self.moves_in_straight_line + 1, width, height)
            } else {
                None
            }
        } else {
            if self.moves_in_straight_line == 0 || self.moves_in_straight_line
                >= c.min_run_before_turn {
                Node::move_along(self.point, d, 1, width, height)
            } else {
                None
            }
        }
    }

    /// All legal successors of `self` under `c`: at most four candidates,
    /// with reversal, over-long runs, too-early turns and off-grid steps
    /// filtered out.  The result holds a node exactly when the transition
    /// rule admits it.
    pub fn neighbours(&self, c: Constraints, width: usize, height: usize) -> (r: Vec<Node>)
        ensures
            r@.len() <= 4,
            r@.no_duplicates(),
            forall|m: Node| r@.contains(m) <==> valid_step(width as int, height as int, c, *self, m),
    {
        let mut r: Vec<Node> = Vec::new();
        let ghost mut idx_up: int = -1;
        let ghost mut idx_down: int = -1;
        let ghost mut idx_left: int = -1;
        let ghost mut idx_right: int = -1;
        if let Some(m) = self.step(Dir::Up, c, width, height) {
            proof {
                idx_up = r@.len() as int;
                assert(m.current_direction == Dir::Up);
            }
            r.push(m);
        }
        if let Some(m) = self.step(Dir::Down, c, width, height) {
            proof {
                idx_down = r@.len() as int;
                assert(m.current_direction == Dir::Down);
            }
            r.push(m);
        }
        if let Some(m) = self.step(Dir::Left, c, width, height) {
            proof {
                idx_left = r@.len() as int;
                assert(m.current_direction == Dir::Left);
            }
            r.push(m);
        }
        if let Some(m) = self.step(Dir::Right, c, width, height) {
            proof {
                idx_right = r@.len() as int;
                assert(m.current_direction == Dir::Right);
            }
            r.push(m);
        }
        proof {
            let w = width as int;
            let h = height as int;
            assert forall|m: Node| r@.contains(m) implies valid_step(w, h, c, *self, m) by {
                let i = choose|i: int| 0 <= i < r@.len() && r@[i] == m;
                assert(spec_step(w, h, c, *self, m.current_direction) == Some(m));
            }
            assert forall|m: Node| valid_step(w, h, c, *self, m) implies r@.contains(m) by {
                match m.current_direction {
                    Dir::Up => assert(r@[idx_up] == m),
                    Dir::Down => assert(r@[idx_down] == m),
                    Dir::Left => assert(r@[idx_left] == m),
                    Dir::Right => assert(r@[idx_right] == m),
                }
            }
            // each occupied slot came from a distinct heading
            assert forall|i: int, j: int| 0 <= i < j < r@.len() implies r@[i] != r@[j] by {
                assert(i == idx_up || i == idx_down || i == idx_left || i == idx_right);
                assert(j == idx_up || j == idx_down || j == idx_left || j == idx_right);
                assert(r@[i].current_direction != r@[j].current_direction);
            }
        }
        r
    }

    /// Successors under the unconstrained-minimum rule: runs of at most
    /// three, turns always allowed.
    pub fn neighbours_q1(&self, width: usize, height: usize) -> (r: Vec<Node>)
        ensures
            r@.len() <= 4,
            r@.no_duplicates(),
            forall|m: Node| r@.contains(m) <==> valid_step(
                width as int,
                height as int,
                Constraints { max_run: 3, min_run_before_turn: 0 },
                *self,
                m,
            ),
    {
        self.neighbours(Constraints { max_run: 3, min_run_before_turn: 0 }, width, height)
    }

    /// Successors under the minimum-run rule: runs of at most ten, turns
    /// only after at least four straight steps.
    pub fn neighbours_q2(&self, width: usize, height: usize) -> (r: Vec<Node>)
        ensures
            r@.len() <= 4,
            r@.no_duplicates(),
            forall|m: Node| r@.contains(m) <==> valid_step(
                width as int,
                height as int,
                Constraints { max_run: 10, min_run_before_turn: 4 },
                *self,
                m,
            ),
    {
        self.neighbours(Constraints { max_run: 10, min_run_before_turn: 4 }, width, height)
    }
}

/// Immutable two-dimensional array of non-negative entry costs with
/// bounds-checked lookup.  Constructed once per puzzle instance, read-only
/// thereafter.
#[derive(Clone, Debug)]
pub struct Grid {
    pub tiles: Vec<Vec<u8>>,
    pub width: usize,
    pub height: usize,
}

impl View for Grid {
    type V = Seq<Seq<u8>>;

    open spec fn view(&self) -> Seq<Seq<u8>> {
        self.tiles.deep_view()
    }
}

/// Relates the deep view of a cost table to its row views.
pub proof fn lemma_grid_deep_view(tiles: &Vec<Vec<u8>>)
    ensures
        tiles.deep_view().len() == tiles@.len(),
        forall|i: int| 0 <= i < tiles@.len() ==> #[trigger] tiles.deep_view()[i] =~= tiles@[i]@,
{
    assert forall|i: int| 0 <= i < tiles@.len() implies #[trigger] tiles.deep_view()[i]
        =~= tiles@[i]@ by {
        assert(tiles.deep_view()[i] == tiles@[i].deep_view());
        assert(tiles@[i].deep_view().len() == tiles@[i]@.len());
        assert forall|j: int| 0 <= j < tiles@[i]@.len() implies tiles@[i].deep_view()[j]
            == tiles@[i]@[j] by {}
    }
}

impl Grid {
    /// The struct's cached dimensions agree with its rows and the rows form
    /// a well-formed digit grid.
    pub open spec fn wf(&self) -> bool {
        &&& grid_wf(self@)
        &&& self.height == gh(self@)
        &&& self.width == gw(self@)
    }

    /// Build a grid from a table of per-cell digit costs.  Fails with
    /// `MalformedGrid` exactly when the table is empty, a row is empty or of
    /// unequal length, or an entry exceeds nine.
    #[verifier::loop_isolation(false)]
    pub fn new(tiles: Vec<Vec<u8>>) -> (r: Result<Grid, SearchError>)
        ensures
            match r {
                Ok(g) => grid_wf(tiles.deep_view()) && g.wf() && g@ == tiles.deep_view(),
                Err(e) => e == SearchError::MalformedGrid && !grid_wf(tiles.deep_view()),
            },
    {
        proof {
            lemma_grid_deep_view(&tiles);
        }
        let height = tiles.len();
        if height == 0 {
            return Err(SearchError::MalformedGrid);
        }
        let width = tiles[0].len();
        if width == 0 {
            return Err(SearchError::MalformedGrid);
        }
        let mut y: usize = 0;
        while y < height
            invariant
                0 <= y <= height,
                forall|i: int| 0 <= i < y ==> (#[trigger] tiles@[i])@.len() == width,
                forall|i: int, j: int|
                    0 <= i < y && 0 <= j < tiles@[i]@.len() ==> #[trigger] tiles@[i]@[j] <= 9,
            decreases height - y,
        {
            let row_len = tiles[y].len();
            if row_len != width {
                proof {
                    assert(tiles.deep_view()[y as int].len() != tiles.deep_view()[0].len());
                }
                return Err(SearchError::MalformedGrid);
            }
            let mut x: usize = 0;
            while x < width
                invariant
                    0 <= y < height,
                    tiles@[y as int]@.len() == width,
                    0 <= x <= width,
                    forall|j: int| 0 <= j < x ==> #[trigger] tiles@[y as int]@[j] <= 9,
                decreases width - x,
            {
                if tiles[y][x] > 9 {
                    proof {
                        assert(tiles.deep_view()[y as int][x as int] > 9);
                    }
                    return Err(SearchError::MalformedGrid);
                }
                x += 1;
            }
            y += 1;
        }
        proof {
            assert(grid_wf(tiles.deep_view()));
        }
        Ok(Grid { tiles, width, height })
    }

    /// Number of columns.
    pub fn width(&self) -> (r: usize)
        requires
            self.wf(),
        ensures
            r == gw(self@),
    {
        self.width
    }

    /// Number of rows.
    pub fn height(&self) -> (r: usize)
        requires
            self.wf(),
        ensures
            r == gh(self@),
    {
        self.height
    }

    /// Entry cost incurred when stepping into the cell at `p`.
    pub fn cost_at(&self, p: Point) -> (r: u8)
        requires
            self.wf(),
            p.x < gw(self@),
            p.y < gh(self@),
        ensures
            r == cost_of(self@, p),
            r <= 9,
    {
        proof {
            assert(self@[p.y as int] =~= self.tiles@[p.y as int]@);
        }
        self.tiles[p.y][p.x]
    }
}


/// The lines of a cost-grid text, with one trailing newline tolerated.
pub open spec fn text_rows(bs: Seq<u8>) -> Seq<Seq<u8>> {
    let ls = split_on(bs, 10);
    if ls.len() > 1 && ls.last().len() == 0 {
        ls.drop_last()
    } else {
        ls
    }
}

/// A well-formed cost-grid text: at least one non-empty line, all lines of
/// equal length, every character a decimal digit.
pub open spec fn text_ok(rows: Seq<Seq<u8>>) -> bool {
    &&& rows.len() >= 1
    &&& rows[0].len() >= 1
    &&& forall|i: int| 0 <= i < rows.len() ==> (#[trigger] rows[i]).len() == rows[0].len()
    &&& forall|i: int, j: int|
        0 <= i < rows.len() && 0 <= j < rows[i].len() ==> 48 <= #[trigger] rows[i][j] <= 57
}

/// The cost table a digit text denotes.
pub open spec fn text_grid(rows: Seq<Seq<u8>>) -> Seq<Seq<u8>> {
    Seq::new(rows.len(), |i: int| Seq::new(rows[i].len(), |j: int| (rows[i][j] - 48) as u8))
}

impl Grid {
    /// Parse a block of digit lines into a cost grid.  Fails with
    /// `MalformedGrid` exactly when a line is empty or of unequal length,
    /// or a character is not a decimal digit.
    pub fn parse(s: &str) -> (r: Result<Grid, SearchError>)
        ensures
            match r {
                Ok(g) => text_ok(text_rows(s.spec_bytes())) && g.wf() && g@ == text_grid(
                    text_rows(s.spec_bytes()),
                ),
                Err(e) => e == SearchError::MalformedGrid && !text_ok(text_rows(s.spec_bytes())),
            },
    {
        let pieces = split_bytes(s.as_bytes(), 10);
        proof {
            lemma_grid_deep_view(&pieces);
        }
        let mut rows = pieces;
        if rows.len() > 1 && rows[rows.len() - 1].len() == 0 {
            rows.pop();
        }
        let ghost rs = text_rows(s.spec_bytes());
        proof {
            lemma_grid_deep_view(&rows);
            assert(rows.deep_view() =~~= rs);
        }
        let height = rows.len();
        let width = rows[0].len();
        if width == 0 {
            return Err(SearchError::MalformedGrid);
        }
        let mut tiles: Vec<Vec<u8>> = Vec::new();
        let mut y: usize = 0;
        #[verifier::loop_isolation(false)]
        while y < rows.len()
            invariant
                0 <= y <= rows@.len(),
                tiles@.len() == y,
                forall|t: int| 0 <= t < y ==> (#[trigger] tiles@[t])@.len() == width,
                forall|t: int| 0 <= t < y ==> (#[trigger] rs[t]).len() == width,
                forall|t: int, x: int|
                    0 <= t < y && 0 <= x < width ==> 48 <= #[trigger] rs[t][x] <= 57
                        && tiles@[t]@[x] == rs[t][x] - 48,
            decreases rows@.len() - y,
        {
            let line = &rows[y];
            if line.len() != width {
                proof {
                    assert(line@ == rs[y as int]);
                    assert(rs[0].len() == width);
                    assert(!text_ok(rs));
                }
                return Err(SearchError::MalformedGrid);
            }
            let mut row: Vec<u8> = Vec::new();
            let mut x: usize = 0;
            #[verifier::loop_isolation(false)]
            while x < width
                invariant
                    0 <= x <= width,
                    row@.len() == x,
                    line@.len() == width,
                    line@ == rs[y as int],
                    forall|t: int|
                        0 <= t < x ==> 48 <= #[trigger] rs[y as int][t] <= 57 && row@[t] == rs[y
                            as int][t] - 48,
                decreases width - x,
            {
                let b = line[x];
                if b < 48 || b > 57 {
                    return Err(SearchError::MalformedGrid);
                }
                row.push(b - 48);
                x += 1;
            }
            tiles.push(row);
            y += 1;
        }
        let g = Grid { tiles, width, height };
        proof {
            lemma_grid_deep_view(&g.tiles);
            assert(text_ok(rs));
            assert(g@ =~~= text_grid(rs));
            assert(grid_wf(g@));
        }
        Ok(g)
    }
}

} // verus!
