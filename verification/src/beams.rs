//! Beams of light crossing a grid of mirrors and splitters: trace which
//! tiles a beam energizes, and the best entry point along the border.

use vstd::prelude::*;
use vstd::string::StringSliceAdditionalSpecFns;

use crate::crucible::lemma_grid_deep_view;
use crate::crucible_search::lemma_u64_set_card;
use crate::scan::{split_bytes, split_on};

verus! {

/// One grid tile.
#[derive(Clone, Copy, Debug, PartialEq, Eq, Structural)]
pub enum Tile {
    /// `.`
    Empty,
    /// `/`
    MirrorForwards,
    /// `\`
    MirrorBackwards,
    /// `|`
    SplitUpDown,
    /// `-`
    SplitLeftRight,
}

/// A heading of the beam.
#[derive(Clone, Copy, Debug, PartialEq, Eq, Hash, Structural)]
pub enum Dir {
    Up,
    Down,
    Left,
    Right,
}

/// A cell position; beams can momentarily sit just outside the grid.
#[derive(Clone, Copy, Debug, PartialEq, Eq, Hash, Default, Structural)]
pub struct Point {
    pub x: i32,
    pub y: i32,
}

/// What a tile character denotes.
pub open spec fn spec_tile(b: u8) -> Option<Tile> {
    if b == 46 {
        Some(Tile::Empty)
    } else if b == 47 {
        Some(Tile::MirrorForwards)
    } else if b == 92 {
        Some(Tile::MirrorBackwards)
    } else if b == 124 {
        Some(Tile::SplitUpDown)
    } else if b == 45 {
        Some(Tile::SplitLeftRight)
    } else {
        None
    }
}

/// Parse one tile character.
pub fn tile_from(b: u8) -> (r: Option<Tile>)
    ensures
        r == spec_tile(b),
{
    if b == 46 {
        Some(Tile::Empty)
    } else if b == 47 {
        Some(Tile::MirrorForwards)
    } else if b == 92 {
        Some(Tile::MirrorBackwards)
    } else if b == 124 {
        Some(Tile::SplitUpDown)
    } else if b == 45 {
        Some(Tile::SplitLeftRight)
    } else {
        None
    }
}

/// The cell one step along a heading.
pub open spec fn spec_move_along(p: Point, d: Dir) -> Point {
    match d {
        Dir::Up => Point { x: p.x, y: (p.y - 1) as i32 },
        Dir::Down => Point { x: p.x, y: (p.y + 1) as i32 },
        Dir::Left => Point { x: (p.x - 1) as i32, y: p.y },
        Dir::Right => Point { x: (p.x + 1) as i32, y: p.y },
    }
}

impl Point {
    /// The cell one step along `dir`.
    pub fn move_along(self, dir: Dir) -> (r: Point)
        requires
            i32::MIN < self.x < i32::MAX,
            i32::MIN < self.y < i32::MAX,
        ensures
            r == spec_move_along(self, dir),
    {
        match dir {
            Dir::Up => Point { x: self.x, y: self.y - 1 },
            Dir::Down => Point { x: self.x, y: self.y + 1 },
            Dir::Left => Point { x: self.x - 1, y: self.y },
            Dir::Right => Point { x: self.x + 1, y: self.y },
        }
    }
}

/// A grid of mirrors and splitters.
#[derive(Clone, Debug)]
pub struct Grid {
    pub tiles: Vec<Vec<Tile>>,
    pub width: usize,
    pub height: usize,
}

impl Grid {
    /// A rectangular, non-empty grid of moderate size.
    pub open spec fn wf(&self) -> bool {
        &&& self.tiles@.len() == self.height
        &&& 1 <= self.height < 32768
        &&& 1 <= self.width < 32768
        &&& forall|y: int|
            0 <= y < self.tiles@.len() ==> (#[trigger] self.tiles@[y])@.len() == self.width
    }

    /// Parse a grid: equal-length lines of tile characters (one trailing
    /// newline tolerated).  Every cell holds exactly the tile its
    /// character denotes.
    pub fn parse(s: &str) -> (r: Option<Grid>)
        ensures
            match r {
                Some(g) => g.wf() && {
                    let ls = split_on(s.spec_bytes(), 10);
                    let rows = if ls.len() > 1 && ls.last().len() == 0 {
                        ls.drop_last()
                    } else {
                        ls
                    };
                    g.height == rows.len() && g.width == rows[0].len() && forall|y: int, x: int|
                        0 <= y < g.height && 0 <= x < g.width ==> Some(
                            #[trigger] g.tiles@[y]@[x],
                        ) == spec_tile(rows[y][x])
                },
                None => true,
            },
    {
        let pieces = split_bytes(s.as_bytes(), 10);
        proof {
            lemma_grid_deep_view(&pieces);
        }
        let ghost ls = split_on(s.spec_bytes(), 10);
        let mut rows = pieces;
        if rows.len() > 1 && rows[rows.len() - 1].len() == 0 {
            rows.pop();
        }
        let ghost spec_rows = if ls.len() > 1 && ls.last().len() == 0 {
            ls.drop_last()
        } else {
            ls
        };
        proof {
            lemma_grid_deep_view(&rows);
            assert(rows.deep_view() =~~= spec_rows);
        }
        if rows.len() == 0 || rows.len() >= 32768 {
            return None;
        }
        let width = rows[0].len();
        if width == 0 || width >= 32768 {
            return None;
        }
        let mut tiles: Vec<Vec<Tile>> = Vec::new();
        let mut y: usize = 0;
        #[verifier::loop_isolation(false)]
        while y < rows.len()
            invariant
                0 <= y <= rows@.len(),
                tiles@.len() == y,
                forall|t: int| 0 <= t < y ==> (#[trigger] tiles@[t])@.len() == width,
                forall|t: int, x: int|
                    0 <= t < y && 0 <= x < width ==> Some(#[trigger] tiles@[t]@[x]) == spec_tile(
                        rows.deep_view()[t][x],
                    ),
            decreases rows@.len() - y,
        {
            let line = &rows[y];
            if line.len() != width {
                return None;
            }
            let mut row: Vec<Tile> = Vec::new();
            let mut x: usize = 0;
            #[verifier::loop_isolation(false)]
            while x < width
                invariant
                    0 <= x <= width,
                    row@.len() == x,
                    line@.len() == width,
                    line@ == rows.deep_view()[y as int],
                    forall|t: int|
                        0 <= t < x ==> Some(#[trigger] row@[t]) == spec_tile(
                            rows.deep_view()[y as int][t],
                        ),
                decreases width - x,
            {
                match tile_from(line[x]) {
                    Some(t) => {
                        row.push(t);
                    },
                    None => {
                        return None;
                    },
                }
                x += 1;
            }
            tiles.push(row);
            y += 1;
        }
        let height = rows.len();
        Some(Grid { tiles, width, height })
    }

    /// Bounds-checked lookup.
    pub fn at(&self, p: Point) -> (r: Option<Tile>)
        requires
            self.wf(),
        ensures
            r == (if 0 <= p.x < self.width && 0 <= p.y < self.height {
                Some(self.tiles@[p.y as int]@[p.x as int])
            } else {
                None::<Tile>
            }),
    {
        if p.x >= 0 && (p.x as usize) < self.width && p.y >= 0 && (p.y as usize) < self.height {
            Some(self.tiles[p.y as usize][p.x as usize])
        } else {
            None
        }
    }
}

/// The beam states one step onward from `s`: the beam advances one cell,
/// then the tile there passes, bends or splits it; leaving the grid ends
/// the path.
#[verifier::opaque]
pub open spec fn spec_beam_next(g: &Grid, s: (Point, Dir)) -> Seq<(Point, Dir)> {
    let np = spec_move_along(s.0, s.1);
    if !(0 <= np.x < g.width && 0 <= np.y < g.height) {
        Seq::empty()
    } else {
        let tile = g.tiles@[np.y as int]@[np.x as int];
        match (tile, s.1) {
            (Tile::Empty, d) => seq![(np, d)],
            (Tile::MirrorForwards, Dir::Up) => seq![(np, Dir::Right)],
            (Tile::MirrorForwards, Dir::Down) => seq![(np, Dir::Left)],
            (Tile::MirrorForwards, Dir::Left) => seq![(np, Dir::Down)],
            (Tile::MirrorForwards, Dir::Right) => seq![(np, Dir::Up)],
            (Tile::MirrorBackwards, Dir::Up) => seq![(np, Dir::Left)],
            (Tile::MirrorBackwards, Dir::Down) => seq![(np, Dir::Right)],
            (Tile::MirrorBackwards, Dir::Left) => seq![(np, Dir::Up)],
            (Tile::MirrorBackwards, Dir::Right) => seq![(np, Dir::Down)],
            (Tile::SplitUpDown, Dir::Up) => seq![(np, Dir::Up)],
            (Tile::SplitUpDown, Dir::Down) => seq![(np, Dir::Down)],
            (Tile::SplitUpDown, _) => seq![(np, Dir::Up), (np, Dir::Down)],
            (Tile::SplitLeftRight, Dir::Left) => seq![(np, Dir::Left)],
            (Tile::SplitLeftRight, Dir::Right) => seq![(np, Dir::Right)],
            (Tile::SplitLeftRight, _) => seq![(np, Dir::Left), (np, Dir::Right)],
        }
    }
}

/// A beam path from `start`: each state one step onward from the one
/// before it.
pub open spec fn beam_path(g: &Grid, start: (Point, Dir), p: Seq<(Point, Dir)>) -> bool {
    &&& p.len() >= 1
    &&& p[0] == start
    &&& forall|i: int|
        1 <= i < p.len() ==> spec_beam_next(g, p[i - 1]).contains(#[trigger] p[i])
}

/// Some beam path from `start` ends in state `s`.
pub open spec fn beam_reach(g: &Grid, start: (Point, Dir), s: (Point, Dir)) -> bool {
    exists|p: Seq<(Point, Dir)>| #[trigger] beam_path(g, start, p) && p.last() == s
}

/// The set of cells some beam state reaches.
pub open spec fn energized_set(g: &Grid, start: (Point, Dir)) -> Set<Point> {
    Set::new(|p: Point| exists|d: Dir| beam_reach(g, start, (p, d)))
}

proof fn lemma_beam_reach_start(g: &Grid, start: (Point, Dir))
    ensures
        beam_reach(g, start, start),
{
    let p = seq![start];
    assert(beam_path(g, start, p));
}

proof fn lemma_beam_reach_step(g: &Grid, start: (Point, Dir), s: (Point, Dir), t: (Point, Dir))
    requires
        beam_reach(g, start, s),
        spec_beam_next(g, s).contains(t),
    ensures
        beam_reach(g, start, t),
{
    let p = choose|p: Seq<(Point, Dir)>| #[trigger] beam_path(g, start, p) && p.last() == s;
    let q = p.push(t);
    assert(q[0] == p[0]);
    assert(forall|i: int|
        1 <= i < q.len() - 1 ==> q[i - 1] == p[i - 1] && #[trigger] q[i] == p[i]);
    assert(q[q.len() - 2] == s);
    assert(beam_path(g, start, q));
    assert(q.last() == t);
}

/// Once the worklist is empty the visited states are closed under the
/// step relation, so they hold every reachable state.
proof fn lemma_beam_complete(
    g: &Grid,
    start: (Point, Dir),
    vis: Seq<(Point, Dir)>,
    p: Seq<(Point, Dir)>,
)
    requires
        vis.contains(start),
        forall|v: (Point, Dir), t: (Point, Dir)|
            #[trigger] vis.contains(v) && #[trigger] spec_beam_next(g, v).contains(t)
                ==> vis.contains(t),
        beam_path(g, start, p),
    ensures
        vis.contains(p.last()),
    decreases p.len(),
{
    if p.len() == 1 {
    } else {
        let q = p.drop_last();
        assert(q[0] == p[0]);
        assert(forall|i: int|
            1 <= i < q.len() ==> q[i - 1] == p[i - 1] && #[trigger] q[i] == p[i]);
        assert(beam_path(g, start, q));
        lemma_beam_complete(g, start, vis, q);
        assert(q.last() == p[p.len() - 2]);
        assert(spec_beam_next(g, p[p.len() - 2]).contains(p.last()));
    }
}

/// A beam state is a cell of the grid with a heading.
pub open spec fn state_in_bounds(g: &Grid, s: (Point, Dir)) -> bool {
    0 <= s.0.x < g.width && 0 <= s.0.y < g.height
}

/// Packed key of a beam state.
pub open spec fn state_enc(g: &Grid, s: (Point, Dir)) -> int {
    (s.0.y * (g.width as int) + s.0.x) * 4 + match s.1 {
        Dir::Up => 0int,
        Dir::Down => 1int,
        Dir::Left => 2int,
        Dir::Right => 3int,
    }
}

proof fn lemma_state_enc(g: &Grid, a: (Point, Dir), b: (Point, Dir))
    requires
        g.wf(),
        state_in_bounds(g, a),
        state_in_bounds(g, b),
        state_enc(g, a) == state_enc(g, b),
    ensures
        a == b,
        0 <= state_enc(g, a) < g.width * g.height * 4,
{
    let w = g.width as int;
    let h = g.height as int;
    crate::crucible_search::lemma_cell_index_bound(w, h, a.0.x as int, a.0.y as int);
    crate::crucible_search::lemma_cell_index_bound(w, h, b.0.x as int, b.0.y as int);
    let ca = a.0.y * w + a.0.x;
    let cb = b.0.y * w + b.0.x;
    assert(ca == cb);
    assert(a.0.y == b.0.y && a.0.x == b.0.x) by (nonlinear_arith)
        requires
            ca == cb,
            ca == a.0.y * w + a.0.x,
            cb == b.0.y * w + b.0.x,
            0 <= a.0.x < w,
            0 <= b.0.x < w,
            0 <= a.0.y,
            0 <= b.0.y,
    ;
    assert(ca * 4 <= (w * h - 1) * 4) by (nonlinear_arith)
        requires
            ca <= w * h - 1,
    ;
    assert(ca * 4 >= 0) by (nonlinear_arith)
        requires
            ca >= 0,
    ;
}

/// The beam states one step onward, executably.
fn beam_step_states(g: &Grid, s: (Point, Dir)) -> (r: Vec<(Point, Dir)>)
    requires
        g.wf(),
        state_in_bounds(g, s),
    ensures
        r@ == spec_beam_next(g, s),
        r@.len() <= 2,
        forall|i: int| 0 <= i < r@.len() ==> state_in_bounds(g, #[trigger] r@[i]),
{
    let next_position = s.0.move_along(s.1);
    let tile = g.at(next_position);
    let mut new_states: Vec<(Point, Dir)> = Vec::new();
    match (tile, s.1) {
        (Some(Tile::Empty), d) => {
            new_states.push((next_position, d));
        },
        (Some(Tile::MirrorForwards), Dir::Up) => {
            new_states.push((next_position, Dir::Right));
        },
        (Some(Tile::MirrorForwards), Dir::Down) => {
            new_states.push((next_position, Dir::Left));
        },
        (Some(Tile::MirrorForwards), Dir::Left) => {
            new_states.push((next_position, Dir::Down));
        },
        (Some(Tile::MirrorForwards), Dir::Right) => {
            new_states.push((next_position, Dir::Up));
        },
        (Some(Tile::MirrorBackwards), Dir::Up) => {
            new_states.push((next_position, Dir::Left));
        },
        (Some(Tile::MirrorBackwards), Dir::Down) => {
            new_states.push((next_position, Dir::Right));
        },
        (Some(Tile::MirrorBackwards), Dir::Left) => {
            new_states.push((next_position, Dir::Up));
        },
        (Some(Tile::MirrorBackwards), Dir::Right) => {
            new_states.push((next_position, Dir::Down));
        },
        (Some(Tile::SplitUpDown), Dir::Up) => {
            new_states.push((next_position, Dir::Up));
        },
        (Some(Tile::SplitUpDown), Dir::Down) => {
            new_states.push((next_position, Dir::Down));
        },
        (Some(Tile::SplitUpDown), _) => {
            new_states.push((next_position, Dir::Up));
            new_states.push((next_position, Dir::Down));
        },
        (Some(Tile::SplitLeftRight), Dir::Left) => {
            new_states.push((next_position, Dir::Left));
        },
        (Some(Tile::SplitLeftRight), Dir::Right) => {
            new_states.push((next_position, Dir::Right));
        },
        (Some(Tile::SplitLeftRight), _) => {
            new_states.push((next_position, Dir::Left));
            new_states.push((next_position, Dir::Right));
        },
        (None, _) => {},
    }
    proof {
        reveal(spec_beam_next);
        assert(new_states@ =~= spec_beam_next(g, s));
    }
    new_states
}

/// Assembles the characterization of the energized cells from the
/// search's closing state: sound, complete, distinct.
#[verifier::rlimit(100)]
#[verifier::spinoff_prover]
proof fn lemma_energized_final(
    g: &Grid,
    start: (Point, Dir),
    vis: Seq<(Point, Dir)>,
    out: Seq<Point>,
)
    requires
        vis.contains(start),
        forall|v: (Point, Dir), t: (Point, Dir)|
            #[trigger] vis.contains(v) && #[trigger] spec_beam_next(g, v).contains(t)
                ==> vis.contains(t),
        forall|i: int| 0 <= i < vis.len() ==> beam_reach(g, start, #[trigger] vis[i]),
        forall|t: int| 0 <= t < vis.len() ==> out.contains((#[trigger] vis[t]).0),
        forall|q: Point|
            #[trigger] out.contains(q) ==> exists|t2: int|
                0 <= t2 < vis.len() && (#[trigger] vis[t2]).0 == q,
        forall|i: int, j: int| 0 <= i < j < out.len() ==> #[trigger] out[i] != #[trigger] out[j],
    ensures
        forall|p: Point| out.contains(p) <==> exists|d: Dir| #[trigger] beam_reach(g, start, (p, d)),
        out.len() == energized_set(g, start).len(),
        out.contains(start.0),
{
    let t = choose|t: int| 0 <= t < vis.len() && vis[t] == start;
    assert(out.contains(vis[t].0));
    assert forall|p: Point| out.contains(p) implies exists|d: Dir| #[trigger] beam_reach(
        g,
        start,
        (p, d),
    ) by {
        let t2 = choose|t2: int| 0 <= t2 < vis.len() && (#[trigger] vis[t2]).0 == p;
        assert(beam_reach(g, start, vis[t2]));
        assert(vis[t2] == (p, vis[t2].1));
    }
    assert forall|p: Point| (exists|d: Dir| #[trigger] beam_reach(g, start, (p, d)))
        implies out.contains(p) by {
        let d = choose|d: Dir| beam_reach(g, start, (p, d));
        let path = choose|path: Seq<(Point, Dir)>|
            #[trigger] beam_path(g, start, path) && path.last() == (p, d);
        lemma_beam_complete(g, start, vis, path);
        let t2 = choose|t2: int| 0 <= t2 < vis.len() && vis[t2] == (p, d);
        assert(out.contains(vis[t2].0));
    }
    assert(out.no_duplicates());
    assert(out.to_set() =~= energized_set(g, start));
    out.unique_seq_to_set();
}

/// Follow a beam from `start` and collect every energized tile: the beam
/// continues through empty space, bends at mirrors and splits at the flat
/// side of splitters, and dies when it leaves the grid.  Returns the
/// distinct energized cells; the starting cell is always among them.
#[verifier::rlimit(100)]
#[verifier::spinoff_prover]
pub fn energized(g: &Grid, start: (Point, Dir)) -> (r: Vec<Point>)
    requires
        g.wf(),
        state_in_bounds(g, start),
    ensures
        r@.len() >= 1,
        forall|i: int| 0 <= i < r@.len() ==> 0 <= (#[trigger] r@[i]).x < g.width && 0 <= r@[i].y
            < g.height,
        forall|i: int, j: int| 0 <= i < j < r@.len() ==> #[trigger] r@[i] != #[trigger] r@[j],
        r@.contains(start.0),
        forall|p: Point| r@.contains(p) <==> exists|d: Dir| #[trigger] beam_reach(g, start, (p, d)),
        r@.len() == energized_set(g, start).len(),
{
    let mut visited: Vec<(Point, Dir)> = Vec::new();
    let ghost mut vkeys: Set<u64> = Set::empty();
    let mut paths: Vec<(Point, Dir)> = Vec::new();
    paths.push(start);
    proof {
        assert(paths@[0] == start);
        assert(paths@.contains(start));
        lemma_beam_reach_start(g, start);
    }
    while paths.len() > 0
        invariant
            g.wf(),
            state_in_bounds(g, start),
            forall|i: int| 0 <= i < visited@.len() ==> state_in_bounds(g, #[trigger] visited@[i]),
            forall|i: int| 0 <= i < paths@.len() ==> state_in_bounds(g, #[trigger] paths@[i]),
            forall|i: int, j: int|
                0 <= i < j < visited@.len() ==> #[trigger] visited@[i] != #[trigger] visited@[j],
            forall|i: int, j: int|
                0 <= i < j < paths@.len() ==> #[trigger] paths@[i] != #[trigger] paths@[j],
            forall|i: int, j: int|
                0 <= i < visited@.len() && 0 <= j < paths@.len() ==> #[trigger] visited@[i]
                    != #[trigger] paths@[j],
            vkeys =~= Set::new(
                |k: u64|
                    exists|i: int|
                        0 <= i < visited@.len() && k == state_enc(g, #[trigger] visited@[i]),
            ),
            vkeys.finite(),
            vkeys.len() == visited@.len(),
            visited@.len() <= g.width * g.height * 4,
            visited@.contains(start) || paths@.contains(start),
            forall|i: int| 0 <= i < visited@.len() ==> beam_reach(g, start, #[trigger] visited@[i]),
            forall|i: int| 0 <= i < paths@.len() ==> beam_reach(g, start, #[trigger] paths@[i]),
            forall|v: (Point, Dir), t: (Point, Dir)|
                #[trigger] visited@.contains(v) && #[trigger] spec_beam_next(g, v).contains(t)
                    ==> visited@.contains(t) || paths@.contains(t),
        decreases (g.width * g.height * 4) * 3 - 3 * visited@.len() + paths@.len(),
    {
        let ghost old_paths = paths@;
        let s = match paths.pop() {
            Some(s) => s,
            None => {
                proof {
                    assert(false);
                }
                (Point { x: 0, y: 0 }, Dir::Down)
            },
        };
        // record the state as visited
        let ghost old_visited = visited@;
        visited.push(s);
        proof {
            lemma_state_enc(g, s, s);
            assert(0 <= state_enc(g, s) < 0x1_0000_0000) by (nonlinear_arith)
                requires
                    0 <= state_enc(g, s) < g.width * g.height * 4,
                    g.width < 32768,
                    g.height < 32768,
            ;
            // the popped state moves from the worklist into the visited
            // set, so closure obligations that pointed at it still hold
            assert(visited@[visited@.len() - 1] == s);
            assert(visited@.contains(s));
            assert forall|e: (Point, Dir)| old_visited.contains(e) implies visited@.contains(
                e,
            ) by {
                let i2 = choose|i2: int| 0 <= i2 < old_visited.len() && old_visited[i2] == e;
                assert(visited@[i2] == e);
            }
            assert forall|e: (Point, Dir)| old_paths.contains(e) implies visited@.contains(e)
                || paths@.contains(e) by {
                let i2 = choose|i2: int| 0 <= i2 < old_paths.len() && old_paths[i2] == e;
                if i2 < old_paths.len() - 1 {
                    assert(paths@[i2] == e);
                }
            }
            if old_visited.contains(start) {
                let i2 = choose|i2: int|
                    0 <= i2 < old_visited.len() && old_visited[i2] == start;
                assert(visited@[i2] == start);
                assert(visited@.contains(start));
            } else if old_paths.contains(start) {
                let idx = choose|idx: int| 0 <= idx < old_paths.len() && old_paths[idx] == start;
                if idx == old_paths.len() - 1 {
                    assert(visited@.last() == start);
                    assert(visited@.contains(start));
                } else {
                    assert(paths@[idx] == start);
                    assert(paths@.contains(start));
                }
            }
            assert forall|i: int, j: int|
                0 <= i < j < visited@.len() implies #[trigger] visited@[i]
                != #[trigger] visited@[j] by {
                if j == visited@.len() - 1 {
                    assert(old_visited[i] != s);
                }
            }
            let k = state_enc(g, s) as u64;
            assert(k as int == state_enc(g, s));
            assert(!vkeys.contains(k)) by {
                if vkeys.contains(k) {
                    let i = choose|i: int|
                        0 <= i < old_visited.len() && k == state_enc(g, old_visited[i]);
                    assert(state_enc(g, old_visited[i]) == state_enc(g, s));
                    lemma_state_enc(g, old_visited[i], s);
                }
            }
            vkeys = vkeys.insert(k);
            assert(vkeys =~= Set::new(
                |k2: u64|
                    exists|i: int|
                        0 <= i < visited@.len() && k2 == state_enc(g, #[trigger] visited@[i]),
            )) by {
                assert forall|k2: u64| vkeys.contains(k2) implies exists|i: int|
                    0 <= i < visited@.len() && k2 == state_enc(g, #[trigger] visited@[i]) by {
                    if k2 == k {
                        assert(visited@[visited@.len() - 1] == s);
                    } else {
                        let i = choose|i: int|
                            0 <= i < old_visited.len() && k2 == state_enc(g, old_visited[i]);
                        assert(visited@[i] == old_visited[i]);
                    }
                }
            }
            assert(g.width * g.height * 4 < 0x4_0000_0000) by (nonlinear_arith)
                requires
                    g.width < 32768,
                    g.height < 32768,
            ;
            assert forall|k2: u64| vkeys.contains(k2) implies k2 < (g.width * g.height
                * 4) as u64 by {
                let i2 = choose|i2: int|
                    0 <= i2 < visited@.len() && k2 == state_enc(g, visited@[i2]);
                lemma_state_enc(g, visited@[i2], visited@[i2]);
            }
            lemma_u64_set_card(vkeys, (g.width * g.height * 4) as u64);
        }
        // expand the beam
        let new_states = beam_step_states(g, s);
        let mut t: usize = 0;
        while t < new_states.len()
            invariant
                g.wf(),
                state_in_bounds(g, start),
                beam_reach(g, start, s),
                new_states@ == spec_beam_next(g, s),
                0 <= t <= new_states@.len(),
                new_states@.len() <= 2,
                forall|i: int|
                    0 <= i < new_states@.len() ==> state_in_bounds(g, #[trigger] new_states@[i]),
                forall|i: int| 0 <= i < paths@.len() ==> state_in_bounds(g, #[trigger] paths@[i]),
                forall|i: int, j: int|
                    0 <= i < j < paths@.len() ==> #[trigger] paths@[i] != #[trigger] paths@[j],
                forall|i: int, j: int|
                    0 <= i < visited@.len() && 0 <= j < paths@.len() ==> #[trigger] visited@[i]
                        != #[trigger] paths@[j],
                visited@.contains(start) || paths@.contains(start),
                paths@.len() <= old_paths.len() - 1 + t,
                forall|i: int| 0 <= i < paths@.len() ==> beam_reach(g, start, #[trigger] paths@[i]),
                forall|j: int|
                    0 <= j < t ==> visited@.contains(#[trigger] new_states@[j])
                        || paths@.contains(new_states@[j]),
                forall|v: (Point, Dir), tt: (Point, Dir)|
                    #[trigger] visited@.contains(v) && v != s && #[trigger] spec_beam_next(
                        g,
                        v,
                    ).contains(tt) ==> visited@.contains(tt) || paths@.contains(tt),
            decreases new_states@.len() - t,
        {
            let cand = new_states[t];
            let ghost pp = paths@;
            let in_visited = contains_state(&visited, cand);
            let in_paths = contains_state(&paths, cand);
            if !in_visited && !in_paths {
                paths.push(cand);
                proof {
                    assert(paths@[paths@.len() - 1] == cand);
                    assert(paths@.contains(cand));
                    assert forall|e: (Point, Dir)| pp.contains(e) implies paths@.contains(e) by {
                        let idx = choose|idx: int| 0 <= idx < pp.len() && pp[idx] == e;
                        assert(paths@[idx] == e);
                    }
                    if pp.contains(start) {
                        assert(paths@.contains(start));
                    }
                    assert(beam_reach(g, start, s));
                    assert(spec_beam_next(g, s).contains(cand)) by {
                        assert(new_states@[t as int] == cand);
                    }
                    lemma_beam_reach_step(g, start, s, cand);
                }
            }
            t += 1;
        }
        proof {
            assert(visited@.len() == vkeys.len());
            assert(visited@.len() <= g.width * g.height * 4);
            // the popped state's successors are all accounted for now
            assert forall|v: (Point, Dir), tt: (Point, Dir)|
                #[trigger] visited@.contains(v) && #[trigger] spec_beam_next(g, v).contains(tt)
                implies visited@.contains(tt) || paths@.contains(tt) by {
                if v == s {
                    let j = choose|j: int|
                        0 <= j < new_states@.len() && new_states@[j] == tt;
                    assert(visited@.contains(new_states@[j]) || paths@.contains(
                        new_states@[j],
                    ));
                }
            }
        }
    }
    // project the visited states to their distinct cells
    let mut out: Vec<Point> = Vec::new();
    let mut i: usize = 0;
    while i < visited.len()
        invariant
            g.wf(),
            forall|t: int| 0 <= t < visited@.len() ==> state_in_bounds(g, #[trigger] visited@[t]),
            0 <= i <= visited@.len(),
            forall|t: int| 0 <= t < out@.len() ==> 0 <= (#[trigger] out@[t]).x < g.width && 0
                <= out@[t].y < g.height,
            forall|t: int, u: int| 0 <= t < u < out@.len() ==> #[trigger] out@[t] != #[trigger] out@[u],
            forall|t: int|
                0 <= t < i ==> out@.contains((#[trigger] visited@[t]).0),
            forall|q: Point|
                #[trigger] out@.contains(q) ==> exists|t2: int|
                    0 <= t2 < visited@.len() && (#[trigger] visited@[t2]).0 == q,
        decreases visited@.len() - i,
    {
        let p = visited[i].0;
        let ghost old_out = out@;
        if !contains_point(&out, p) {
            out.push(p);
            proof {
                assert(out@.last() == p);
                assert(out@.contains(p));
                assert forall|t: int| 0 <= t < i implies out@.contains(
                    (#[trigger] visited@[t]).0,
                ) by {
                    let idx = choose|idx: int|
                        0 <= idx < old_out.len() && old_out[idx] == visited@[t].0;
                    assert(out@[idx] == visited@[t].0);
                }
                assert forall|q: Point| #[trigger] out@.contains(q) implies exists|t2: int|
                    0 <= t2 < visited@.len() && (#[trigger] visited@[t2]).0 == q by {
                    let idx = choose|idx: int| 0 <= idx < out@.len() && out@[idx] == q;
                    if idx < old_out.len() {
                        assert(old_out.contains(q));
                    } else {
                        assert(visited@[i as int].0 == q);
                    }
                }
            }
        }
        i += 1;
    }
    proof {
        assert(visited@.contains(start));
        // with the worklist empty the closure obligation falls entirely on
        // the visited states
        assert forall|v: (Point, Dir), t: (Point, Dir)|
            #[trigger] visited@.contains(v) && #[trigger] spec_beam_next(g, v).contains(t)
            implies visited@.contains(t) by {
            assert(!paths@.contains(t)) by {
                if paths@.contains(t) {
                    let j = choose|j: int| 0 <= j < paths@.len() && paths@[j] == t;
                }
            }
        }
        lemma_energized_final(g, start, visited@, out@);
    }
    out
}

/// Linear membership scan over beam states.
fn contains_state(v: &Vec<(Point, Dir)>, s: (Point, Dir)) -> (r: bool)
    ensures
        r == v@.contains(s),
{
    let mut i: usize = 0;
    #[verifier::loop_isolation(false)]
    while i < v.len()
        invariant
            0 <= i <= v@.len(),
            forall|t: int| 0 <= t < i ==> #[trigger] v@[t] != s,
        decreases v@.len() - i,
    {
        if v[i].0.x == s.0.x && v[i].0.y == s.0.y && dir_eq(v[i].1, s.1) {
            proof {
                assert(v@[i as int] == s);
            }
            return true;
        }
        i += 1;
    }
    false
}

/// Linear membership scan over points.
fn contains_point(v: &Vec<Point>, p: Point) -> (r: bool)
    ensures
        r == v@.contains(p),
{
    let mut i: usize = 0;
    #[verifier::loop_isolation(false)]
    while i < v.len()
        invariant
            0 <= i <= v@.len(),
            forall|t: int| 0 <= t < i ==> #[trigger] v@[t] != p,
        decreases v@.len() - i,
    {
        if v[i].x == p.x && v[i].y == p.y {
            proof {
                assert(v@[i as int] == p);
            }
            return true;
        }
        i += 1;
    }
    false
}

/// Heading equality.
fn dir_eq(a: Dir, b: Dir) -> (r: bool)
    ensures
        r == (a == b),
{
    match (a, b) {
        (Dir::Up, Dir::Up) => true,
        (Dir::Down, Dir::Down) => true,
        (Dir::Left, Dir::Left) => true,
        (Dir::Right, Dir::Right) => true,
        _ => false,
    }
}

/// A beam entering from the border: somewhere on the top edge heading
/// down, the bottom edge heading up, the left edge heading right, or the
/// right edge heading left.
pub open spec fn is_edge_start(g: &Grid, s: (Point, Dir)) -> bool {
    ||| (s.1 == Dir::Down && s.0.y == 0 && 0 <= s.0.x < g.width)
    ||| (s.1 == Dir::Up && s.0.y == g.height - 1 && 0 <= s.0.x < g.width)
    ||| (s.1 == Dir::Right && s.0.x == 0 && 0 <= s.0.y < g.height)
    ||| (s.1 == Dir::Left && s.0.x == g.width - 1 && 0 <= s.0.y < g.height)
}

/// The greatest number of tiles any border-entering beam energizes: the
/// maximum over every edge start of the number of cells its beam reaches.
#[verifier::spinoff_prover]
pub fn max_energy(g: &Grid) -> (r: usize)
    requires
        g.wf(),
    ensures
        exists|s: (Point, Dir)| #[trigger] is_edge_start(g, s) && r == energized_set(g, s).len(),
        forall|s: (Point, Dir)|
            #[trigger] is_edge_start(g, s) ==> energized_set(g, s).len() <= r,
{
    let mut best: usize = 0;
    let ghost mut witness: (Point, Dir) = (Point { x: 0, y: 0 }, Dir::Down);
    let mut x: usize = 0;
    #[verifier::loop_isolation(false)]
    while x < g.width
        invariant
            0 <= x <= g.width,
            x > 0 ==> is_edge_start(g, witness) && best == energized_set(g, witness).len(),
            x == 0 ==> best == 0,
            forall|s: (Point, Dir)|
                #[trigger] is_edge_start(g, s) && (s.1 == Dir::Down || s.1 == Dir::Up) && s.0.x
                    < x ==> energized_set(g, s).len() <= best,
        decreases g.width - x,
    {
        let sd = (Point { x: x as i32, y: 0 }, Dir::Down);
        let down = energized(g, sd);
        if down.len() > best || x == 0 {
            best = down.len();
            proof {
                witness = sd;
            }
        }
        let su = (Point { x: x as i32, y: (g.height - 1) as i32 }, Dir::Up);
        let up = energized(g, su);
        if up.len() > best {
            best = up.len();
            proof {
                witness = su;
            }
        }
        x += 1;
    }
    let mut y: usize = 0;
    #[verifier::loop_isolation(false)]
    while y < g.height
        invariant
            0 <= y <= g.height,
            is_edge_start(g, witness) && best == energized_set(g, witness).len(),
            forall|s: (Point, Dir)|
                #[trigger] is_edge_start(g, s) && (s.1 == Dir::Down || s.1 == Dir::Up)
                    ==> energized_set(g, s).len() <= best,
            forall|s: (Point, Dir)|
                #[trigger] is_edge_start(g, s) && (s.1 == Dir::Right || s.1 == Dir::Left) && s.0.y
                    < y ==> energized_set(g, s).len() <= best,
        decreases g.height - y,
    {
        let sr = (Point { x: 0, y: y as i32 }, Dir::Right);
        let right = energized(g, sr);
        if right.len() > best {
            best = right.len();
            proof {
                witness = sr;
            }
        }
        let sl = (Point { x: (g.width - 1) as i32, y: y as i32 }, Dir::Left);
        let left = energized(g, sl);
        if left.len() > best {
            best = left.len();
            proof {
                witness = sl;
            }
        }
        y += 1;
    }
    proof {
        assert forall|s: (Point, Dir)| #[trigger] is_edge_start(g, s) implies energized_set(
            g,
            s,
        ).len() <= best by {
        }
    }
    best
}

} // verus!
