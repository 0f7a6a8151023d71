//! A field of pipes: parse the sketch, follow the loop of pipe containing
//! the start position, and measure how far the loop reaches from it.

use vstd::prelude::*;

use crate::crucible_search::lemma_u64_set_card;
use crate::scan::split_bytes;

verus! {

/// One sketch tile.
#[derive(Clone, Copy, Debug, PartialEq, Eq, Structural)]
pub enum Tile {
    /// `|` connects north and south.
    NorthSouth,
    /// `-` connects east and west.
    EastWest,
    /// `L` connects north and east.
    NorthEast,
    /// `J` connects north and west.
    NorthWest,
    /// `7` connects south and west.
    SouthWest,
    /// `F` connects south and east.
    SouthEast,
    /// `.` is ground.
    Ground,
    /// `S` is the start; its pipe shape is not drawn.
    Start,
}

/// What a sketch character denotes.
pub open spec fn spec_tile(c: char) -> Option<Tile> {
    match c {
        '|' => Some(Tile::NorthSouth),
        '-' => Some(Tile::EastWest),
        'L' => Some(Tile::NorthEast),
        'J' => Some(Tile::NorthWest),
        '7' => Some(Tile::SouthWest),
        'F' => Some(Tile::SouthEast),
        '.' => Some(Tile::Ground),
        'S' => Some(Tile::Start),
        _ => None,
    }
}

impl Tile {
    /// Parse one sketch character.
    pub fn parse(c: char) -> (r: Option<Tile>)
        ensures
            r == spec_tile(c),
    {
        match c {
            '|' => Some(Tile::NorthSouth),
            '-' => Some(Tile::EastWest),
            'L' => Some(Tile::NorthEast),
            'J' => Some(Tile::NorthWest),
            '7' => Some(Tile::SouthWest),
            'F' => Some(Tile::SouthEast),
            '.' => Some(Tile::Ground),
            'S' => Some(Tile::Start),
            _ => None,
        }
    }
}

/// A cell of the sketch.
#[derive(Clone, Copy, Debug, Hash, PartialEq, Eq, Structural)]
pub struct Point {
    pub x: usize,
    pub y: usize,
}

impl Point {
    /// The cell to the west.
    pub fn west(&self) -> (r: Point)
        requires
            self.x >= 1,
        ensures
            r.x == self.x - 1 && r.y == self.y,
    {
        Point { x: self.x - 1, y: self.y }
    }

    /// The cell to the east.
    pub fn east(&self) -> (r: Point)
        requires
            self.x < usize::MAX,
        ensures
            r.x == self.x + 1 && r.y == self.y,
    {
        Point { x: self.x + 1, y: self.y }
    }

    /// The cell to the north.
    pub fn north(&self) -> (r: Point)
        requires
            self.y >= 1,
        ensures
            r.x == self.x && r.y == self.y - 1,
    {
        Point { x: self.x, y: self.y - 1 }
    }

    /// The cell to the south.
    pub fn south(&self) -> (r: Point)
        requires
            self.y < usize::MAX,
        ensures
            r.x == self.x && r.y == self.y + 1,
    {
        Point { x: self.x, y: self.y + 1 }
    }
}

/// The sketch.
#[derive(Clone, Debug)]
pub struct Grid(pub Vec<Vec<Tile>>);

/// Width of a sketch (all rows share the length of row 0).
pub open spec fn gwidth(g: &Grid) -> int {
    g.0@[0]@.len() as int
}

/// Height of a sketch.
pub open spec fn gheight(g: &Grid) -> int {
    g.0@.len() as int
}

/// A rectangular, non-empty sketch of moderate size.
pub open spec fn grid_wf(g: &Grid) -> bool {
    &&& 1 <= gheight(g) < 32768
    &&& 1 <= gwidth(g) < 32768
    &&& forall|y: int| 0 <= y < gheight(g) ==> (#[trigger] g.0@[y])@.len() == gwidth(g)
}

/// The tile at `p`, or `None` off the sketch.
pub open spec fn tile_at(g: &Grid, p: Point) -> Option<Tile> {
    if p.x < gwidth(g) && p.y < gheight(g) {
        Some(g.0@[p.y as int]@[p.x as int])
    } else {
        None
    }
}

/// The two cells a pipe at `p` connects to; ground connects nowhere.
#[verifier::opaque]
pub open spec fn spec_neighbours(g: &Grid, p: Point) -> Seq<Point> {
    match tile_at(g, p) {
        Some(Tile::NorthSouth) => seq![
            Point { x: p.x, y: (p.y - 1) as usize },
            Point { x: p.x, y: (p.y + 1) as usize },
        ],
        Some(Tile::EastWest) => seq![
            Point { x: (p.x + 1) as usize, y: p.y },
            Point { x: (p.x - 1) as usize, y: p.y },
        ],
        Some(Tile::NorthEast) => seq![
            Point { x: p.x, y: (p.y - 1) as usize },
            Point { x: (p.x + 1) as usize, y: p.y },
        ],
        Some(Tile::NorthWest) => seq![
            Point { x: p.x, y: (p.y - 1) as usize },
            Point { x: (p.x - 1) as usize, y: p.y },
        ],
        Some(Tile::SouthWest) => seq![
            Point { x: p.x, y: (p.y + 1) as usize },
            Point { x: (p.x - 1) as usize, y: p.y },
        ],
        Some(Tile::SouthEast) => seq![
            Point { x: p.x, y: (p.y + 1) as usize },
            Point { x: (p.x + 1) as usize, y: p.y },
        ],
        _ => Seq::empty(),
    }
}

/// Every pipe's connections stay on the sketch, and the start tile has
/// been replaced by its real shape.
pub open spec fn conn_ok(g: &Grid) -> bool {
    forall|y: int, x: int|
        0 <= y < gheight(g) && 0 <= x < gwidth(g) ==> match #[trigger] g.0@[y]@[x] {
            Tile::NorthSouth => y >= 1 && y + 1 < gheight(g),
            Tile::EastWest => x >= 1 && x + 1 < gwidth(g),
            Tile::NorthEast => y >= 1 && x + 1 < gwidth(g),
            Tile::NorthWest => y >= 1 && x >= 1,
            Tile::SouthWest => y + 1 < gheight(g) && x >= 1,
            Tile::SouthEast => y + 1 < gheight(g) && x + 1 < gwidth(g),
            Tile::Ground => true,
            Tile::Start => false,
        }
}

/// A walk along connected pipes from `start`.
pub open spec fn pipe_path(g: &Grid, start: Point, p: Seq<Point>) -> bool {
    &&& p.len() >= 1
    &&& p[0] == start
    &&& forall|i: int|
        1 <= i < p.len() ==> spec_neighbours(g, p[i - 1]).contains(#[trigger] p[i])
}

/// Some walk along connected pipes reaches `q` from `start`.
pub open spec fn pipe_reach(g: &Grid, start: Point, q: Point) -> bool {
    exists|p: Seq<Point>| #[trigger] pipe_path(g, start, p) && p.last() == q
}

proof fn lemma_pipe_reach_start(g: &Grid, start: Point)
    ensures
        pipe_reach(g, start, start),
{
    let p = seq![start];
    assert(pipe_path(g, start, p));
}

proof fn lemma_pipe_reach_step(g: &Grid, start: Point, q: Point, t: Point)
    requires
        pipe_reach(g, start, q),
        spec_neighbours(g, q).contains(t),
    ensures
        pipe_reach(g, start, t),
{
    let p = choose|p: Seq<Point>| #[trigger] pipe_path(g, start, p) && p.last() == q;
    let p2 = p.push(t);
    assert(p2[0] == p[0]);
    assert(forall|i: int|
        1 <= i < p2.len() - 1 ==> p2[i - 1] == p[i - 1] && #[trigger] p2[i] == p[i]);
    assert(p2[p2.len() - 2] == q);
    assert(pipe_path(g, start, p2));
}

/// Once the walk set is closed under the connections, it holds every
/// reachable cell.
proof fn lemma_pipe_complete(g: &Grid, start: Point, vis: Seq<Point>, p: Seq<Point>)
    requires
        vis.contains(start),
        forall|v: Point, t: Point|
            #[trigger] vis.contains(v) && #[trigger] spec_neighbours(g, v).contains(t)
                ==> vis.contains(t),
        pipe_path(g, start, p),
    ensures
        vis.contains(p.last()),
    decreases p.len(),
{
    if p.len() > 1 {
        let q = p.drop_last();
        assert(q[0] == p[0]);
        assert(forall|i: int|
            1 <= i < q.len() ==> q[i - 1] == p[i - 1] && #[trigger] q[i] == p[i]);
        assert(pipe_path(g, start, q));
        lemma_pipe_complete(g, start, vis, q);
        assert(q.last() == p[p.len() - 2]);
        assert(spec_neighbours(g, p[p.len() - 2]).contains(p.last()));
    }
}

impl Grid {
    /// The tile at `p`, or `None` off the sketch.
    pub fn at(&self, p: Point) -> (r: Option<Tile>)
        requires
            grid_wf(self),
        ensures
            r == tile_at(self, p),
    {
        if p.y < self.0.len() && p.x < self.0[p.y].len() {
            Some(self.0[p.y][p.x])
        } else {
            None
        }
    }

    /// The cells the pipe at `p` connects to.
    pub fn neighbours_of(&self, p: Point) -> (r: Vec<Point>)
        requires
            grid_wf(self),
            conn_ok(self),
        ensures
            r@ == spec_neighbours(self, p),
            forall|i: int|
                0 <= i < r@.len() ==> (#[trigger] r@[i]).x < gwidth(self) && r@[i].y < gheight(
                    self,
                ),
    {
        let tile = match self.at(p) {
            Some(t) => t,
            None => {
                proof {
                    reveal(spec_neighbours);
                }
                return Vec::new();
            },
        };
        let mut r: Vec<Point> = Vec::new();
        match tile {
            Tile::NorthSouth => {
                r.push(p.north());
                r.push(p.south());
            },
            Tile::EastWest => {
                r.push(p.east());
                r.push(p.west());
            },
            Tile::NorthEast => {
                r.push(p.north());
                r.push(p.east());
            },
            Tile::NorthWest => {
                r.push(p.north());
                r.push(p.west());
            },
            Tile::SouthWest => {
                r.push(p.south());
                r.push(p.west());
            },
            Tile::SouthEast => {
                r.push(p.south());
                r.push(p.east());
            },
            Tile::Ground => {},
            Tile::Start => {},
        }
        proof {
            reveal(spec_neighbours);
            assert(r@ =~= spec_neighbours(self, p));
        }
        r
    }

    /// Parse a sketch and replace the start tile with `start_is`.  Returns
    /// the sketch and the start position; fails on ragged or unknown input
    /// or when no start is drawn.
    pub fn parse(s: &str, start_is: Tile) -> (r: Option<(Grid, Point)>)
        ensures
            match r {
                Some(gp) => grid_wf(&gp.0) && gp.1.x < gwidth(&gp.0) && gp.1.y < gheight(&gp.0)
                    && tile_at(&gp.0, gp.1) == Some(start_is),
                None => true,
            },
    {
        let pieces = split_bytes(s.as_bytes(), 10);
        let mut rows = pieces;
        if rows.len() > 1 && rows[rows.len() - 1].len() == 0 {
            rows.pop();
        }
        if rows.len() == 0 || rows.len() >= 32768 {
            return None;
        }
        let width = rows[0].len();
        if width == 0 || width >= 32768 {
            return None;
        }
        let mut tiles: Vec<Vec<Tile>> = Vec::new();
        let mut start: Option<Point> = None;
        let mut y: usize = 0;
        #[verifier::loop_isolation(false)]
        while y < rows.len()
            invariant
                0 <= y <= rows@.len(),
                tiles@.len() == y,
                forall|t: int| 0 <= t < y ==> (#[trigger] tiles@[t])@.len() == width,
                match start {
                    Some(p) => p.y < y && p.x < width,
                    None => true,
                },
            decreases rows@.len() - y,
        {
            let line = &rows[y];
            if line.len() != width {
                return None;
            }
            let mut row: Vec<Tile> = Vec::new();
            let mut x: usize = 0;
            #[verifier::loop_isolation(false)]
            while x < width
                invariant
                    0 <= x <= width,
                    row@.len() == x,
                    line@.len() == width,
                    match start {
                        Some(p) => (p.y < y && p.x < width) || (p.y == y && p.x < x),
                        None => true,
                    },
                decreases width - x,
            {
                let b = line[x];
                let t = match Tile::parse(b as char) {
                    Some(t) => t,
                    None => {
                        return None;
                    },
                };
                if match t {
                    Tile::Start => true,
                    _ => false,
                } {
                    if match start {
                        Some(_) => false,
                        None => true,
                    } {
                        start = Some(Point { x, y });
                    }
                }
                row.push(t);
                x += 1;
            }
            tiles.push(row);
            y += 1;
        }
        let sp = match start {
            Some(p) => p,
            None => {
                return None;
            },
        };
        // replace the start tile with its real shape
        let mut row = tiles.remove(sp.y);
        row[sp.x] = start_is;
        tiles.insert(sp.y, row);
        let g = Grid(tiles);
        proof {
            assert(g.0@[sp.y as int]@[sp.x as int] == start_is);
            assert(grid_wf(&g));
        }
        Some((g, sp))
    }

    /// Walk the loop of pipe containing `start` by breadth-first layers.
    /// Returns the number of layers walked past the first (the greatest
    /// breadth-first distance of any reached cell) and the reached cells
    /// with their tiles: exactly the cells connected to `start` through
    /// the pipes, distinct, each carrying its sketch tile, the start among
    /// them.  The contract pins the cell set down completely; the distance
    /// is only bounded by it.
    pub fn loop_containing(&self, start: Point) -> (r: (u64, Vec<(Point, Tile)>))
        requires
            grid_wf(self),
            conn_ok(self),
            start.x < gwidth(self),
            start.y < gheight(self),
        ensures
            forall|i: int|
                0 <= i < r.1@.len() ==> (#[trigger] r.1@[i]).0.x < gwidth(self) && r.1@[i].0.y
                    < gheight(self) && Some(r.1@[i].1) == tile_at(self, r.1@[i].0),
            forall|i: int, j: int|
                0 <= i < j < r.1@.len() ==> (#[trigger] r.1@[i]).0 != (#[trigger] r.1@[j]).0,
            exists|i: int| 0 <= i < r.1@.len() && (#[trigger] r.1@[i]).0 == start,
            forall|q: Point|
                (exists|i: int| 0 <= i < r.1@.len() && (#[trigger] r.1@[i]).0 == q)
                    <==> #[trigger] pipe_reach(self, start, q),
            r.0 <= r.1@.len(),
    {
        let ghost w = gwidth(self);
        let ghost h = gheight(self);
        let mut seen: Vec<(Point, Tile)> = Vec::new();
        let ghost mut skeys: Set<u64> = Set::empty();
        let mut frontier: Vec<Point> = Vec::new();
        frontier.push(start);
        let mut dist: u64 = 0;
        proof {
            assert(frontier@[0] == start);
            lemma_pipe_reach_start(self, start);
        }
        #[verifier::loop_isolation(false)]
        while frontier.len() > 0
            invariant
                forall|i: int|
                    0 <= i < seen@.len() ==> (#[trigger] seen@[i]).0.x < w && seen@[i].0.y < h
                        && Some(seen@[i].1) == tile_at(self, seen@[i].0),
                forall|i: int|
                    0 <= i < frontier@.len() ==> (#[trigger] frontier@[i]).x < w
                        && frontier@[i].y < h,
                forall|i: int, j: int|
                    0 <= i < j < seen@.len() ==> (#[trigger] seen@[i]).0 != (#[trigger] seen@[j]).0,
                forall|i: int, j: int|
                    0 <= i < j < frontier@.len() ==> #[trigger] frontier@[i]
                        != #[trigger] frontier@[j],
                forall|i: int, j: int|
                    0 <= i < seen@.len() && 0 <= j < frontier@.len() ==> (#[trigger] seen@[i]).0
                        != #[trigger] frontier@[j],
                skeys =~= Set::new(
                    |k: u64|
                        exists|i: int|
                            0 <= i < seen@.len() && k == (#[trigger] seen@[i]).0.y * w
                                + seen@[i].0.x,
                ),
                skeys.finite(),
                skeys.len() == seen@.len(),
                seen@.len() <= w * h,
                dist <= seen@.len() + 1,
                forall|i: int|
                    0 <= i < seen@.len() ==> pipe_reach(self, start, (#[trigger] seen@[i]).0),
                forall|i: int|
                    0 <= i < frontier@.len() ==> pipe_reach(self, start, #[trigger] frontier@[i]),
                forall|i: int, t: Point|
                    0 <= i < seen@.len() && #[trigger] spec_neighbours(
                        self,
                        (#[trigger] seen@[i]).0,
                    ).contains(t) ==> (exists|j: int|
                        0 <= j < seen@.len() && (#[trigger] seen@[j]).0 == t)
                        || frontier@.contains(t),
                (exists|i: int| 0 <= i < seen@.len() && (#[trigger] seen@[i]).0 == start) || (
                exists|i: int| 0 <= i < frontier@.len() && #[trigger] frontier@[i] == start),
            decreases w * h - seen@.len(),
        {
            let mut next: Vec<Point> = Vec::new();
            let mut fi: usize = 0;
            let ghost seen0 = seen@;
            let ghost front0 = frontier@;
            #[verifier::loop_isolation(false)]
            while fi < frontier.len()
                invariant
                    0 <= fi <= frontier@.len(),
                    seen@.len() == seen0.len() + fi,
                    forall|i: int|
                        0 <= i < seen@.len() ==> (#[trigger] seen@[i]).0.x < w && seen@[i].0.y < h
                            && Some(seen@[i].1) == tile_at(self, seen@[i].0),
                    forall|i: int, j: int|
                        0 <= i < j < seen@.len() ==> (#[trigger] seen@[i]).0 != (
                        #[trigger] seen@[j]).0,
                    forall|i: int|
                        0 <= i < seen0.len() ==> #[trigger] seen@[i] == seen0[i],
                    forall|i: int|
                        0 <= i < fi ==> (#[trigger] seen@[seen0.len() + i]).0 == frontier@[i],
                    forall|i: int, j: int|
                        0 <= i < j < frontier@.len() ==> #[trigger] frontier@[i]
                            != #[trigger] frontier@[j],
                    forall|i: int, j: int|
                        fi <= j < frontier@.len() && 0 <= i < seen@.len() ==> (
                        #[trigger] seen@[i]).0 != #[trigger] frontier@[j],
                    forall|i: int|
                        0 <= i < next@.len() ==> (#[trigger] next@[i]).x < w && next@[i].y < h,
                    forall|i: int, j: int|
                        0 <= i < j < next@.len() ==> #[trigger] next@[i] != #[trigger] next@[j],
                    forall|i: int, j: int|
                        0 <= i < seen@.len() && 0 <= j < next@.len() ==> (#[trigger] seen@[i]).0
                            != #[trigger] next@[j],
                    forall|i: int, j: int|
                        fi <= i < frontier@.len() && 0 <= j < next@.len() ==> #[trigger] frontier@[i]
                            != #[trigger] next@[j],
                    skeys =~= Set::new(
                        |k: u64|
                            exists|i: int|
                                0 <= i < seen@.len() && k == (#[trigger] seen@[i]).0.y * w
                                    + seen@[i].0.x,
                    ),
                    skeys.finite(),
                    skeys.len() == seen@.len(),
                    seen@.len() <= w * h,
                    forall|i: int|
                        0 <= i < seen@.len() ==> pipe_reach(self, start, (#[trigger] seen@[i]).0),
                    forall|i: int|
                        0 <= i < next@.len() ==> pipe_reach(self, start, #[trigger] next@[i]),
                    forall|i: int, t: Point|
                        0 <= i < seen@.len() && #[trigger] spec_neighbours(
                            self,
                            (#[trigger] seen@[i]).0,
                        ).contains(t) ==> (exists|j: int|
                            0 <= j < seen@.len() && (#[trigger] seen@[j]).0 == t) || (exists|
                            j: int,
                        |
                            fi <= j < frontier@.len() && #[trigger] frontier@[j] == t)
                            || next@.contains(t),
                decreases frontier@.len() - fi,
            {
                let p = frontier[fi];
                let tile = match self.at(p) {
                    Some(t) => t,
                    None => {
                        proof {
                            assert(false);
                        }
                        return (0, seen);
                    },
                };
                let ghost old_seen = seen@;
                seen.push((p, tile));
                proof {
                    assert(seen@[seen@.len() - 1].0 == p);
                    assert(pipe_reach(self, start, p));
                    crate::crucible_search::lemma_cell_index_bound(w, h, p.x as int, p.y as int);
                    assert(w * h < 0x4_0000_0000) by (nonlinear_arith)
                        requires
                            0 < w < 32768,
                            0 < h < 32768,
                    ;
                    let k = (p.y * w + p.x) as u64;
                    assert(k as int == p.y * w + p.x);
                    assert(!skeys.contains(k)) by {
                        if skeys.contains(k) {
                            let i = choose|i: int|
                                0 <= i < old_seen.len() && k == (#[trigger] old_seen[i]).0.y * w
                                    + old_seen[i].0.x;
                            crate::crucible_search::lemma_cell_index_bound(
                                w,
                                h,
                                old_seen[i].0.x as int,
                                old_seen[i].0.y as int,
                            );
                            assert(old_seen[i].0.y * w + old_seen[i].0.x == p.y * w + p.x);
                            assert(old_seen[i].0.y == p.y && old_seen[i].0.x == p.x)
                                by (nonlinear_arith)
                                requires
                                    old_seen[i].0.y * w + old_seen[i].0.x == p.y * w + p.x,
                                    0 <= old_seen[i].0.x < w,
                                    0 <= p.x < w,
                                    0 <= old_seen[i].0.y,
                                    0 <= p.y,
                            ;
                            assert((old_seen[i]).0 == p);
                            assert(seen@[i] == old_seen[i]);
                        }
                    }
                    skeys = skeys.insert(k);
                    assert(skeys =~= Set::new(
                        |k2: u64|
                            exists|i: int|
                                0 <= i < seen@.len() && k2 == (#[trigger] seen@[i]).0.y * w
                                    + seen@[i].0.x,
                    )) by {
                        assert forall|k2: u64| skeys.contains(k2) implies exists|i: int|
                            0 <= i < seen@.len() && k2 == (#[trigger] seen@[i]).0.y * w
                                + seen@[i].0.x by {
                            if k2 == k {
                                assert(seen@[seen@.len() - 1] == (p, tile));
                            } else {
                                let i = choose|i: int|
                                    0 <= i < old_seen.len() && k2 == (#[trigger] old_seen[i]).0.y
                                        * w + old_seen[i].0.x;
                                assert(seen@[i] == old_seen[i]);
                            }
                        }
                    }
                    assert forall|k2: u64| skeys.contains(k2) implies k2 < (w * h) as u64 by {
                        let i = choose|i: int|
                            0 <= i < seen@.len() && k2 == (#[trigger] seen@[i]).0.y * w
                                + seen@[i].0.x;
                        crate::crucible_search::lemma_cell_index_bound(
                            w,
                            h,
                            seen@[i].0.x as int,
                            seen@[i].0.y as int,
                        );
                        assert(w * h < 0x4_0000_0000) by (nonlinear_arith)
                            requires
                                0 < w < 32768,
                                0 < h < 32768,
                        ;
                    }
                    lemma_u64_set_card(skeys, (w * h) as u64);
                    // the cell just moved into the reached set satisfies
                    // the closure obligations that pointed at it
                    assert forall|i: int, t: Point|
                        0 <= i < seen@.len() - 1 && #[trigger] spec_neighbours(
                            self,
                            (#[trigger] seen@[i]).0,
                        ).contains(t) implies (exists|j: int|
                        0 <= j < seen@.len() && (#[trigger] seen@[j]).0 == t) || (exists|j: int|
                        fi + 1 <= j < frontier@.len() && #[trigger] frontier@[j] == t)
                        || next@.contains(t) by {
                        assert(old_seen[i] == seen@[i]);
                        assert((exists|j: int|
                            0 <= j < old_seen.len() && (#[trigger] old_seen[j]).0 == t) || (
                        exists|j: int|
                            fi <= j < frontier@.len() && #[trigger] frontier@[j] == t)
                            || next@.contains(t));
                        if exists|j: int|
                            0 <= j < old_seen.len() && (#[trigger] old_seen[j]).0 == t {
                            let j = choose|j: int|
                                0 <= j < old_seen.len() && (#[trigger] old_seen[j]).0 == t;
                            assert(seen@[j].0 == t);
                        } else if exists|j: int|
                            fi <= j < frontier@.len() && #[trigger] frontier@[j] == t {
                            let j = choose|j: int|
                                fi <= j < frontier@.len() && #[trigger] frontier@[j] == t;
                            if j == fi {
                                assert(seen@[seen@.len() - 1].0 == t);
                            }
                        }
                    }
                }
                let neigh = self.neighbours_of(p);
                let mut ni: usize = 0;
                #[verifier::loop_isolation(false)]
                while ni < neigh.len()
                    invariant
                        0 <= ni <= neigh@.len(),
                        neigh@ == spec_neighbours(self, p),
                        pipe_reach(self, start, p),
                        seen@.len() >= 1 && seen@[seen@.len() - 1].0 == p,
                        forall|i: int|
                            0 <= i < neigh@.len() ==> (#[trigger] neigh@[i]).x < w && neigh@[i].y
                                < h,
                        forall|i: int|
                            0 <= i < next@.len() ==> (#[trigger] next@[i]).x < w && next@[i].y < h,
                        forall|i: int, j: int|
                            0 <= i < j < next@.len() ==> #[trigger] next@[i] != #[trigger] next@[j],
                        forall|i: int, j: int|
                            0 <= i < seen@.len() && 0 <= j < next@.len() ==> (
                            #[trigger] seen@[i]).0 != #[trigger] next@[j],
                        forall|i: int, j: int|
                            fi < i < frontier@.len() && 0 <= j < next@.len()
                                ==> #[trigger] frontier@[i] != #[trigger] next@[j],
                        forall|i: int|
                            0 <= i < next@.len() ==> pipe_reach(self, start, #[trigger] next@[i]),
                        forall|kk: int|
                            0 <= kk < ni ==> (exists|j: int|
                                0 <= j < seen@.len() && (#[trigger] seen@[j]).0
                                    == #[trigger] neigh@[kk]) || (exists|j: int|
                                fi + 1 <= j < frontier@.len() && #[trigger] frontier@[j]
                                    == neigh@[kk]) || next@.contains(neigh@[kk]),
                        forall|i: int, t: Point|
                            0 <= i < seen@.len() - 1 && #[trigger] spec_neighbours(
                                self,
                                (#[trigger] seen@[i]).0,
                            ).contains(t) ==> (exists|j: int|
                                0 <= j < seen@.len() && (#[trigger] seen@[j]).0 == t) || (exists|
                                j: int,
                            |
                                fi + 1 <= j < frontier@.len() && #[trigger] frontier@[j] == t)
                                || next@.contains(t),
                    decreases neigh@.len() - ni,
                {
                    let cand = neigh[ni];
                    let in_seen = contains_seen(&seen, cand);
                    let in_frontier = contains_point_from(&frontier, cand, fi + 1);
                    let in_next = contains_point_from(&next, cand, 0);
                    let ghost next0 = next@;
                    if !in_seen && !in_frontier && !in_next {
                        proof {
                            assert(spec_neighbours(self, p).contains(cand)) by {
                                assert(neigh@[ni as int] == cand);
                            }
                            lemma_pipe_reach_step(self, start, p, cand);
                        }
                        next.push(cand);
                        proof {
                            assert(next@[next@.len() - 1] == cand);
                            assert forall|e: Point| next0.contains(e) implies next@.contains(
                                e,
                            ) by {
                                let j = choose|j: int| 0 <= j < next0.len() && next0[j] == e;
                                assert(next@[j] == e);
                            }
                        }
                    }
                    ni += 1;
                }
                proof {
                    // the moved cell's connections are all accounted for
                    assert forall|i: int, t: Point|
                        0 <= i < seen@.len() && #[trigger] spec_neighbours(
                            self,
                            (#[trigger] seen@[i]).0,
                        ).contains(t) implies (exists|j: int|
                        0 <= j < seen@.len() && (#[trigger] seen@[j]).0 == t) || (exists|j: int|
                        fi + 1 <= j < frontier@.len() && #[trigger] frontier@[j] == t)
                        || next@.contains(t) by {
                        if i == seen@.len() - 1 {
                            let kk = choose|kk: int|
                                0 <= kk < neigh@.len() && #[trigger] neigh@[kk] == t;
                            assert((exists|j: int|
                                0 <= j < seen@.len() && (#[trigger] seen@[j]).0 == neigh@[kk])
                                || (exists|j: int|
                                fi + 1 <= j < frontier@.len() && #[trigger] frontier@[j]
                                    == neigh@[kk]) || next@.contains(neigh@[kk]));
                        }
                    }
                }
                fi += 1;
            }
            proof {
                if exists|i: int| 0 <= i < seen0.len() && (#[trigger] seen0[i]).0 == start {
                    let i = choose|i: int|
                        0 <= i < seen0.len() && (#[trigger] seen0[i]).0 == start;
                    assert(seen@[i].0 == start);
                } else {
                    let i = choose|i: int|
                        0 <= i < front0.len() && #[trigger] front0[i] == start;
                    assert(seen@[seen0.len() + i].0 == frontier@[i]);
                    assert(seen@[seen0.len() + i].0 == start);
                }
            }
            frontier = next;
            if dist < u64::MAX {
                dist = dist + 1;
            }
        }
        proof {
            // the walk is exhausted: the reached cells are closed under
            // the connections and hold exactly the reachable cells
            let vp = Seq::new(seen@.len() as nat, |i: int| seen@[i].0);
            assert(vp.contains(start)) by {
                let i = choose|i: int| 0 <= i < seen@.len() && (#[trigger] seen@[i]).0 == start;
                assert(vp[i] == start);
            }
            assert forall|v: Point, t: Point|
                #[trigger] vp.contains(v) && #[trigger] spec_neighbours(self, v).contains(t)
                implies vp.contains(t) by {
                let i = choose|i: int| 0 <= i < vp.len() && vp[i] == v;
                assert(seen@[i].0 == v);
                assert((exists|j: int| 0 <= j < seen@.len() && (#[trigger] seen@[j]).0 == t)
                    || frontier@.contains(t));
                let j = choose|j: int| 0 <= j < seen@.len() && (#[trigger] seen@[j]).0 == t;
                assert(vp[j] == t);
            }
            assert forall|q: Point| #[trigger] pipe_reach(self, start, q) implies exists|i: int|
                0 <= i < seen@.len() && (#[trigger] seen@[i]).0 == q by {
                let path = choose|path: Seq<Point>|
                    #[trigger] pipe_path(self, start, path) && path.last() == q;
                lemma_pipe_complete(self, start, vp, path);
                let i = choose|i: int| 0 <= i < vp.len() && vp[i] == q;
                assert(seen@[i].0 == q);
            }
        }
        let d = if dist > 0 {
            dist - 1
        } else {
            0
        };
        (d, seen)
    }
}

/// Linear membership scan over reached cells.
fn contains_seen(v: &Vec<(Point, Tile)>, p: Point) -> (r: bool)
    ensures
        r == exists|i: int| 0 <= i < v@.len() && (#[trigger] v@[i]).0 == p,
{
    let mut i: usize = 0;
    #[verifier::loop_isolation(false)]
    while i < v.len()
        invariant
            0 <= i <= v@.len(),
            forall|t: int| 0 <= t < i ==> (#[trigger] v@[t]).0 != p,
        decreases v@.len() - i,
    {
        if v[i].0.x == p.x && v[i].0.y == p.y {
            proof {
                assert(v@[i as int].0 == p);
            }
            return true;
        }
        i += 1;
    }
    false
}

/// Linear membership scan over points, from a starting index.
fn contains_point_from(v: &Vec<Point>, p: Point, from: usize) -> (r: bool)
    ensures
        r == exists|i: int| from <= i < v@.len() && #[trigger] v@[i] == p,
{
    let mut i: usize = from;
    #[verifier::loop_isolation(false)]
    while i < v.len()
        invariant
            from <= i <= v@.len() || (from > v@.len() && i == from),
            forall|t: int| from <= t < i ==> #[trigger] v@[t] != p,
        decreases v@.len() - i,
    {
        if v[i].x == p.x && v[i].y == p.y {
            proof {
                assert(v@[i as int] == p);
            }
            return true;
        }
        i += 1;
    }
    false
}

/// The start position: the first `S` of the sketch in reading order.
pub fn find_start(g: &Grid) -> (r: Option<Point>)
    requires
        grid_wf(g),
    ensures
        match r {
            Some(p) => p.x < gwidth(g) && p.y < gheight(g) && tile_at(g, p) == Some(Tile::Start),
            None => forall|y: int, x: int|
                0 <= y < gheight(g) && 0 <= x < gwidth(g) ==> #[trigger] g.0@[y]@[x] != Tile::Start,
        },
{
    let mut y: usize = 0;
    #[verifier::loop_isolation(false)]
    while y < g.0.len()
        invariant
            0 <= y <= gheight(g),
            forall|t: int, x: int|
                0 <= t < y && 0 <= x < gwidth(g) ==> #[trigger] g.0@[t]@[x] != Tile::Start,
        decreases gheight(g) - y,
    {
        let mut x: usize = 0;
        #[verifier::loop_isolation(false)]
        while x < g.0[y].len()
            invariant
                0 <= x <= gwidth(g),
                y < gheight(g),
                forall|t: int| 0 <= t < x ==> #[trigger] g.0@[y as int]@[t] != Tile::Start,
            decreases gwidth(g) - x,
        {
            let is_start = match g.0[y][x] {
                Tile::Start => true,
                _ => false,
            };
            if is_start {
                return Some(Point { x, y });
            }
            x += 1;
        }
        y += 1;
    }
    None
}

} // verus!
