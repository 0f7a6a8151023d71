//! Expanded-universe distance sums: galaxies on a sparse grid, where empty
//! rows and columns stretch by an expansion factor, and the answer is the sum
//! of Manhattan distances over all unordered pairs of galaxies.

use vstd::prelude::*;
use vstd::string::StringSliceAdditionalSpecFns;

use crate::crucible::text_rows;
use crate::scan::split_bytes;

verus! {

/// A galaxy position after expansion.
#[derive(Clone, Copy, Debug, PartialEq, Eq, Structural)]
pub struct Point {
    pub x: usize,
    pub y: usize,
}

/// Manhattan distance between two points.
pub open spec fn spec_distance(a: Point, b: Point) -> int {
    let dx = if a.x >= b.x {
        a.x - b.x
    } else {
        b.x - a.x
    };
    let dy = if a.y >= b.y {
        a.y - b.y
    } else {
        b.y - a.y
    };
    dx + dy
}

impl Point {
    /// Manhattan distance from `self` to `other`.
    pub fn distance_to(&self, other: Point) -> (d: usize)
        requires
            spec_distance(*self, other) <= usize::MAX,
        ensures
            d == spec_distance(*self, other),
    {
        let dx = if self.x >= other.x {
            self.x - other.x
        } else {
            other.x - self.x
        };
        let dy = if self.y >= other.y {
            self.y - other.y
        } else {
            other.y - self.y
        };
        dx + dy
    }
}


/// The observed universe: every galaxy's position after expansion.
#[derive(Clone, Debug)]
pub struct Universe {
    pub galaxies: Vec<Point>,
}

/// Row `y` of the sketch holds no galaxy.
pub open spec fn empty_row(rows: Seq<Seq<u8>>, y: int) -> bool {
    forall|x: int| 0 <= x < rows[y].len() ==> rows[y][x] != 35
}

/// Column `x` of the sketch holds no galaxy.
pub open spec fn empty_col(rows: Seq<Seq<u8>>, x: int) -> bool {
    forall|y: int| 0 <= y < rows.len() ==> rows[y][x] != 35
}

/// How many of the first `y` rows are empty.
pub open spec fn empty_rows_before(rows: Seq<Seq<u8>>, y: int) -> int
    decreases y,
{
    if y <= 0 {
        0
    } else {
        empty_rows_before(rows, y - 1) + if empty_row(rows, y - 1) {
            1int
        } else {
            0int
        }
    }
}

/// How many of the first `x` columns are empty.
pub open spec fn empty_cols_before(rows: Seq<Seq<u8>>, x: int) -> int
    decreases x,
{
    if x <= 0 {
        0
    } else {
        empty_cols_before(rows, x - 1) + if empty_col(rows, x - 1) {
            1int
        } else {
            0int
        }
    }
}

/// Where the galaxy drawn at `(x, y)` sits after expansion by `f`.
pub open spec fn expanded(rows: Seq<Seq<u8>>, f: int, x: int, y: int) -> Point {
    Point {
        x: (x + (f - 1) * empty_cols_before(rows, x)) as usize,
        y: (y + (f - 1) * empty_rows_before(rows, y)) as usize,
    }
}

/// The expanded galaxies of row `y`, left of column `x`.
pub open spec fn gal_row(rows: Seq<Seq<u8>>, f: int, y: int, x: int) -> Seq<Point>
    decreases x,
{
    if x <= 0 {
        Seq::empty()
    } else {
        gal_row(rows, f, y, x - 1) + if rows[y][x - 1] == 35 {
            seq![expanded(rows, f, x - 1, y)]
        } else {
            Seq::empty()
        }
    }
}

/// The expanded galaxies of the first `y` rows, in reading order.
pub open spec fn gal_upto(rows: Seq<Seq<u8>>, f: int, y: int) -> Seq<Point>
    decreases y,
{
    if y <= 0 {
        Seq::empty()
    } else {
        gal_upto(rows, f, y - 1) + gal_row(rows, f, y - 1, rows[y - 1].len() as int)
    }
}

proof fn lemma_empty_before_bound(rows: Seq<Seq<u8>>, y: int, rowwise: bool)
    requires
        y >= 0,
    ensures
        rowwise ==> 0 <= empty_rows_before(rows, y) <= y,
        !rowwise ==> 0 <= empty_cols_before(rows, y) <= y,
    decreases y,
{
    if y > 0 {
        lemma_empty_before_bound(rows, y - 1, rowwise);
    }
}

/// A sketch the parser accepts: a workable expansion factor and equal,
/// non-empty lines of `.` and `#` within the size caps.
pub open spec fn sketch_ok(bs: Seq<u8>, f: int) -> bool {
    let rows = text_rows(bs);
    &&& 1 <= f <= 65536
    &&& 1 <= rows.len() < 16384
    &&& 1 <= rows[0].len() < 16384
    &&& forall|y: int| 0 <= y < rows.len() ==> (#[trigger] rows[y]).len() == rows[0].len()
    &&& forall|y: int, x: int|
        0 <= y < rows.len() && 0 <= x < rows[0].len() ==> #[trigger] rows[y][x] == 35
            || rows[y][x] == 46
}

impl Universe {
    /// Parse a sketch of galaxies: `#` marks a galaxy; rows and columns
    /// with no galaxy stretch to `expansion_factor` rows or columns.  The
    /// galaxies come back in reading order, at their expanded positions.
    /// Fails exactly on ragged lines, characters other than `.` and `#`,
    /// an expansion factor of zero, or an oversized sketch.
    pub fn parse(s: &str, expansion_factor: usize) -> (r: Option<Universe>)
        ensures
            match r {
                Some(u) => {
                    let rows = text_rows(s.spec_bytes());
                    sketch_ok(s.spec_bytes(), expansion_factor as int) && u.galaxies@ == gal_upto(
                        rows,
                        expansion_factor as int,
                        rows.len() as int,
                    )
                },
                None => !sketch_ok(s.spec_bytes(), expansion_factor as int),
            },
    {
        if expansion_factor == 0 || expansion_factor > 65536 {
            return None;
        }
        let f = expansion_factor;
        let pieces = split_bytes(s.as_bytes(), 10);
        proof {
            crate::crucible::lemma_grid_deep_view(&pieces);
        }
        let mut rows = pieces;
        if rows.len() > 1 && rows[rows.len() - 1].len() == 0 {
            rows.pop();
        }
        let ghost rs = text_rows(s.spec_bytes());
        proof {
            crate::crucible::lemma_grid_deep_view(&rows);
            assert(rows.deep_view() =~~= rs);
        }
        if rows.len() == 0 || rows.len() >= 16384 {
            return None;
        }
        let width = rows[0].len();
        if width == 0 || width >= 16384 {
            return None;
        }
        // validate the sketch
        let mut y: usize = 0;
        #[verifier::loop_isolation(false)]
        while y < rows.len()
            invariant
                0 <= y <= rows@.len(),
                forall|t: int| 0 <= t < y ==> (#[trigger] rs[t]).len() == width,
                forall|t: int, x: int|
                    0 <= t < y && 0 <= x < width ==> #[trigger] rs[t][x] == 35 || rs[t][x] == 46,
            decreases rows@.len() - y,
        {
            let line = &rows[y];
            if line.len() != width {
                proof {
                    assert(line@ == rs[y as int]);
                    assert(rs[0].len() == width);
                }
                return None;
            }
            let mut x: usize = 0;
            #[verifier::loop_isolation(false)]
            while x < width
                invariant
                    0 <= x <= width,
                    line@ == rs[y as int],
                    line@.len() == width,
                    y < rs.len(),
                    forall|t: int| 0 <= t < x ==> #[trigger] rs[y as int][t] == 35 || rs[y
                        as int][t] == 46,
                decreases width - x,
            {
                let b = line[x];
                if b != 35 && b != 46 {
                    return None;
                }
                x += 1;
            }
            y += 1;
        }
        // expanded coordinate of each row
        let mut exp_y: Vec<usize> = Vec::new();
        let mut empties: usize = 0;
        let mut y2: usize = 0;
        #[verifier::loop_isolation(false)]
        while y2 < rows.len()
            invariant
                0 <= y2 <= rows@.len(),
                forall|t: int| 0 <= t < rs.len() ==> (#[trigger] rs[t]).len() == width,
                exp_y@.len() == y2,
                empties as int == empty_rows_before(rs, y2 as int),
                0 <= empties <= y2,
                forall|t: int|
                    0 <= t < y2 ==> #[trigger] exp_y@[t] == t + (f - 1) * empty_rows_before(
                        rs,
                        t,
                    ),
            decreases rows@.len() - y2,
        {
            proof {
                lemma_empty_before_bound(rs, y2 as int, true);
                assert((f - 1) * empty_rows_before(rs, y2 as int) <= (f - 1) * y2 as int)
                    by (nonlinear_arith)
                    requires
                        f >= 1,
                        0 <= empty_rows_before(rs, y2 as int) <= y2 as int,
                ;
                assert(0 <= (f - 1) * empties as int <= 65536 * 16384) by (nonlinear_arith)
                    requires
                        1 <= f <= 65536,
                        0 <= empties <= 16384,
                ;
            }
            exp_y.push(y2 + (f - 1) * empties);
            let line = &rows[y2];
            proof {
                assert(line@ == rs[y2 as int]);
            }
            let mut found_galaxy = false;
            let mut x: usize = 0;
            #[verifier::loop_isolation(false)]
            while x < width
                invariant
                    0 <= x <= width,
                    line@ == rs[y2 as int],
                    line@.len() == width,
                    y2 < rs.len(),
                    found_galaxy == exists|t: int| 0 <= t < x && #[trigger] rs[y2 as int][t] == 35,
                decreases width - x,
            {
                if line[x] == 35 {
                    found_galaxy = true;
                    proof {
                        assert(rs[y2 as int][x as int] == 35);
                    }
                }
                x += 1;
            }
            proof {
                assert(found_galaxy == !empty_row(rs, y2 as int)) by {
                    if found_galaxy {
                        let t = choose|t: int| 0 <= t < width && #[trigger] rs[y2 as int][t] == 35;
                        assert(!empty_row(rs, y2 as int));
                    }
                }
            }
            if !found_galaxy {
                empties += 1;
            }
            y2 += 1;
        }
        // expanded coordinate of each column
        let mut exp_x: Vec<usize> = Vec::new();
        let mut cempties: usize = 0;
        let mut x2: usize = 0;
        #[verifier::loop_isolation(false)]
        while x2 < width
            invariant
                0 <= x2 <= width,
                forall|t: int| 0 <= t < rs.len() ==> (#[trigger] rs[t]).len() == width,
                exp_x@.len() == x2,
                cempties as int == empty_cols_before(rs, x2 as int),
                0 <= cempties <= x2,
                forall|t: int|
                    0 <= t < x2 ==> #[trigger] exp_x@[t] == t + (f - 1) * empty_cols_before(
                        rs,
                        t,
                    ),
            decreases width - x2,
        {
            proof {
                lemma_empty_before_bound(rs, x2 as int, false);
                assert((f - 1) * empty_cols_before(rs, x2 as int) <= (f - 1) * x2 as int)
                    by (nonlinear_arith)
                    requires
                        f >= 1,
                        0 <= empty_cols_before(rs, x2 as int) <= x2 as int,
                ;
                assert(0 <= (f - 1) * cempties as int <= 65536 * 16384) by (nonlinear_arith)
                    requires
                        1 <= f <= 65536,
                        0 <= cempties <= 16384,
                ;
            }
            exp_x.push(x2 + (f - 1) * cempties);
            let mut found_galaxy = false;
            let mut yy: usize = 0;
            #[verifier::loop_isolation(false)]
            while yy < rows.len()
                invariant
                    0 <= yy <= rows@.len(),
                    forall|t: int| 0 <= t < rs.len() ==> (#[trigger] rs[t]).len() == width,
                    x2 < width,
                    found_galaxy == exists|t: int| 0 <= t < yy && #[trigger] rs[t][x2 as int] == 35,
                decreases rows@.len() - yy,
            {
                proof {
                    assert(rows@[yy as int]@ == rs[yy as int]);
                }
                if rows[yy][x2] == 35 {
                    found_galaxy = true;
                    proof {
                        assert(rs[yy as int][x2 as int] == 35);
                    }
                }
                yy += 1;
            }
            proof {
                assert(found_galaxy == !empty_col(rs, x2 as int)) by {
                    if found_galaxy {
                        let t = choose|t: int| 0 <= t < rs.len() && #[trigger] rs[t][x2 as int]
                            == 35;
                        assert(!empty_col(rs, x2 as int));
                    }
                }
            }
            if !found_galaxy {
                cempties += 1;
            }
            x2 += 1;
        }
        // collect the galaxies at their expanded positions
        let mut galaxies: Vec<Point> = Vec::new();
        let mut gy: usize = 0;
        #[verifier::loop_isolation(false)]
        while gy < rows.len()
            invariant
                0 <= gy <= rows@.len(),
                forall|t: int| 0 <= t < rs.len() ==> (#[trigger] rs[t]).len() == width,
                galaxies@ =~= gal_upto(rs, f as int, gy as int),
            decreases rows@.len() - gy,
        {
            let line = &rows[gy];
            proof {
                assert(line@ == rs[gy as int]);
            }
            let mut gx: usize = 0;
            #[verifier::loop_isolation(false)]
            while gx < width
                invariant
                    0 <= gx <= width,
                    line@ == rs[gy as int],
                    line@.len() == width,
                    gy < rs.len(),
                    galaxies@ =~= gal_upto(rs, f as int, gy as int) + gal_row(
                        rs,
                        f as int,
                        gy as int,
                        gx as int,
                    ),
                decreases width - gx,
            {
                if line[gx] == 35 {
                    galaxies.push(Point { x: exp_x[gx], y: exp_y[gy] });
                    proof {
                        assert(exp_x@[gx as int] == gx + (f - 1) * empty_cols_before(
                            rs,
                            gx as int,
                        ));
                        assert(exp_y@[gy as int] == gy + (f - 1) * empty_rows_before(
                            rs,
                            gy as int,
                        ));
                        assert(galaxies@.last() == expanded(rs, f as int, gx as int, gy as int));
                    }
                }
                gx += 1;
            }
            gy += 1;
        }
        proof {
            assert(galaxies@ =~= gal_upto(rs, f as int, rs.len() as int));
        }
        Some(Universe { galaxies })
    }

    /// Sum of the Manhattan distances over all unordered pairs of
    /// galaxies.
    pub fn q1(&self) -> (r: u64)
        requires
            forall|i: int|
                0 <= i < self.galaxies@.len() ==> (#[trigger] self.galaxies@[i]).x
                    <= 0x7fff_ffff && self.galaxies@[i].y <= 0x7fff_ffff,
            pair_sum(self.galaxies@, self.galaxies@.len() as int) <= u64::MAX,
        ensures
            r == pair_sum(self.galaxies@, self.galaxies@.len() as int),
    {
        let gs = &self.galaxies;
        let mut total: u64 = 0;
        let mut j: usize = 0;
        #[verifier::loop_isolation(false)]
        while j < gs.len()
            invariant
                0 <= j <= gs@.len(),
                total == pair_sum(gs@, j as int),
            decreases gs@.len() - j,
        {
            let mut i: usize = 0;
            #[verifier::loop_isolation(false)]
            while i < j
                invariant
                    0 <= i <= j < gs@.len(),
                    total == pair_sum(gs@, j as int) + link_sum(gs@, j as int, i as int),
                decreases j - i,
            {
                proof {
                    lemma_pair_sum_bound(gs@, j as int, i as int);
                }
                let d = gs[i].distance_to(gs[j]);
                total = total + (d as u64);
                i += 1;
            }
            proof {
                assert(pair_sum(gs@, j + 1) == pair_sum(gs@, j as int) + link_sum(
                    gs@,
                    j as int,
                    j as int,
                ));
            }
            j += 1;
        }
        total
    }
}

/// Distances from the first `t` galaxies to galaxy `k`.
pub open spec fn link_sum(gs: Seq<Point>, k: int, t: int) -> int
    decreases t,
{
    if t <= 0 {
        0
    } else {
        link_sum(gs, k, t - 1) + spec_distance(gs[t - 1], gs[k])
    }
}

/// Sum of pairwise distances within the first `k` galaxies.
pub open spec fn pair_sum(gs: Seq<Point>, k: int) -> int
    decreases k,
{
    if k <= 0 {
        0
    } else {
        pair_sum(gs, k - 1) + link_sum(gs, k - 1, k - 1)
    }
}

proof fn lemma_link_sum_nonneg(gs: Seq<Point>, k: int, t: int)
    ensures
        link_sum(gs, k, t) >= 0,
    decreases t,
{
    if t > 0 {
        lemma_link_sum_nonneg(gs, k, t - 1);
    }
}

proof fn lemma_pair_sum_nonneg(gs: Seq<Point>, k: int)
    ensures
        pair_sum(gs, k) >= 0,
    decreases k,
{
    if k > 0 {
        lemma_pair_sum_nonneg(gs, k - 1);
        lemma_link_sum_nonneg(gs, k - 1, k - 1);
    }
}

proof fn lemma_pair_sum_mono(gs: Seq<Point>, k: int)
    requires
        0 <= k < gs.len(),
    ensures
        pair_sum(gs, k + 1) <= pair_sum(gs, gs.len() as int),
    decreases gs.len() - k,
{
    if k + 1 < gs.len() {
        lemma_pair_sum_mono(gs, k + 1);
        lemma_link_sum_nonneg(gs, k + 1, k + 1);
    }
}

proof fn lemma_link_sum_mono(gs: Seq<Point>, k: int, t: int)
    requires
        0 <= t <= k,
    ensures
        link_sum(gs, k, t) <= link_sum(gs, k, k),
    decreases k - t,
{
    if t < k {
        lemma_link_sum_mono(gs, k, t + 1);
    }
}

/// The running total never exceeds the full pairwise sum.
proof fn lemma_pair_sum_bound(gs: Seq<Point>, j: int, i: int)
    requires
        0 <= i < j < gs.len(),
    ensures
        pair_sum(gs, j) + link_sum(gs, j, i) + spec_distance(gs[i], gs[j]) <= pair_sum(
            gs,
            gs.len() as int,
        ),
        spec_distance(gs[i], gs[j]) >= 0,
        pair_sum(gs, j) + link_sum(gs, j, i) >= 0,
{
    lemma_pair_sum_mono(gs, j);
    lemma_link_sum_mono(gs, j, i + 1);
    lemma_pair_sum_nonneg(gs, j);
    lemma_link_sum_nonneg(gs, j, i);
}

} // verus!
