//! Mirrored ash patterns: find the horizontal or vertical line across
//! which a pattern reflects perfectly, and the alternative line revealed by
//! repairing a single smudge.

use vstd::prelude::*;
use vstd::string::StringSliceAdditionalSpecFns;

use crate::crucible::lemma_grid_deep_view;
use crate::scan::{split_bytes, split_on};

verus! {

/// A rectangular pattern of bytes.
#[derive(Clone, Debug)]
pub struct Grid(pub Vec<Vec<u8>>);

/// A line of reflection: after this many columns, or this many rows.
#[derive(Clone, Copy, Debug, PartialEq, Eq, Structural)]
pub enum Reflection {
    Col(usize),
    Row(usize),
}

impl Grid {
    /// The pattern as a sequence of rows.
    pub open spec fn view_of(&self) -> Seq<Seq<u8>> {
        self.0.deep_view()
    }
}

/// A rectangular, non-empty pattern.
pub open spec fn grid_wf(g: Seq<Seq<u8>>) -> bool {
    &&& g.len() >= 1
    &&& g[0].len() >= 1
    &&& forall|i: int| 0 <= i < g.len() ==> (#[trigger] g[i]).len() == g[0].len()
}

/// Every cell is ash or rock.
pub open spec fn ash_rock(g: Seq<Seq<u8>>) -> bool {
    forall|y: int, x: int|
        0 <= y < g.len() && 0 <= x < g[y].len() ==> (#[trigger] g[y][x]) == 46 || g[y][x] == 35
}

/// The pattern reflects across the horizontal line below row `y`.
pub open spec fn row_mirror(g: Seq<Seq<u8>>, y: int) -> bool {
    forall|d: int|
        0 <= d && y - d >= 0 && y + 1 + d < g.len() ==> (#[trigger] g[y - d]) == g[y + 1 + d]
}

/// The pattern reflects across the vertical line right of column `x`.
pub open spec fn col_mirror(g: Seq<Seq<u8>>, x: int) -> bool {
    forall|d: int, r: int|
        0 <= d && x - d >= 0 && 0 <= r < g.len() && x + 1 + d < g[0].len() ==> (#[trigger] g[r][x
            - d]) == g[r][x + 1 + d]
}

/// The answer of the first question: the first reflecting row line (rows
/// are tried before columns), else the first reflecting column line.
pub open spec fn q1_post(g: Seq<Seq<u8>>, r: Option<Reflection>) -> bool {
    match r {
        Some(Reflection::Row(v)) => 1 <= v < g.len() && row_mirror(g, v - 1) && (forall|y: int|
            0 <= y < v - 1 ==> !row_mirror(g, y)),
        Some(Reflection::Col(v)) => (forall|y: int| 0 <= y < g.len() - 1 ==> !row_mirror(g, y))
            && 1 <= v < g[0].len() && col_mirror(g, v - 1) && (forall|x: int|
            0 <= x < v - 1 ==> !col_mirror(g, x)),
        None => (forall|y: int| 0 <= y < g.len() - 1 ==> !row_mirror(g, y)) && (forall|x: int|
            0 <= x < g[0].len() - 1 ==> !col_mirror(g, x)),
    }
}

/// A pattern text the parser accepts: lines of equal, positive length
/// (one trailing newline tolerated).
pub open spec fn pattern_ok(bs: Seq<u8>) -> bool {
    let ls = split_on(bs, 10);
    let rows = if ls.len() > 1 && ls.last().len() == 0 {
        ls.drop_last()
    } else {
        ls
    };
    grid_wf(rows)
}

impl Grid {
    /// Parse a pattern: succeeds exactly on lines of equal, positive
    /// length (one trailing newline tolerated), and returns them verbatim.
    pub fn parse(s: &str) -> (r: Option<Grid>)
        ensures
            match r {
                Some(g) => pattern_ok(s.spec_bytes()) && {
                    let ls = split_on(s.spec_bytes(), 10);
                    let rows = if ls.len() > 1 && ls.last().len() == 0 {
                        ls.drop_last()
                    } else {
                        ls
                    };
                    g.view_of() == rows
                },
                None => !pattern_ok(s.spec_bytes()),
            },
    {
        let pieces = split_bytes(s.as_bytes(), 10);
        proof {
            lemma_grid_deep_view(&pieces);
        }
        let ghost ls = split_on(s.spec_bytes(), 10);
        let mut rows = pieces;
        if rows.len() > 1 && rows[rows.len() - 1].len() == 0 {
            rows.pop();
        }
        let ghost spec_rows = if ls.len() > 1 && ls.last().len() == 0 {
            ls.drop_last()
        } else {
            ls
        };
        proof {
            lemma_grid_deep_view(&rows);
            assert(rows.deep_view() =~~= spec_rows);
        }
        if rows.len() == 0 {
            return None;
        }
        let width = rows[0].len();
        if width == 0 {
            proof {
                assert(spec_rows[0].len() == 0);
            }
            return None;
        }
        let mut i: usize = 0;
        #[verifier::loop_isolation(false)]
        while i < rows.len()
            invariant
                0 <= i <= rows@.len(),
                forall|t: int| 0 <= t < i ==> (#[trigger] rows@[t])@.len() == width,
            decreases rows@.len() - i,
        {
            if rows[i].len() != width {
                proof {
                    assert(rows@[i as int]@ == spec_rows[i as int]);
                    assert(spec_rows[0].len() == width);
                }
                return None;
            }
            i += 1;
        }
        let g = Grid(rows);
        proof {
            lemma_grid_deep_view(&g.0);
            assert(grid_wf(g.view_of()));
        }
        Some(g)
    }

    /// One row of the pattern, copied.
    pub fn row(&self, i: usize) -> (r: Vec<u8>)
        requires
            i < self.view_of().len(),
        ensures
            r@ == self.view_of()[i as int],
    {
        proof {
            lemma_grid_deep_view(&self.0);
        }
        crate::scan::prefix_bytes(self.0[i].as_slice(), self.0[i].len())
    }

    /// One column of the pattern, top to bottom.
    pub fn col(&self, i: usize) -> (r: Vec<u8>)
        requires
            grid_wf(self.view_of()),
            i < self.view_of()[0].len(),
        ensures
            r@.len() == self.view_of().len(),
            forall|y: int|
                0 <= y < self.view_of().len() ==> #[trigger] r@[y] == self.view_of()[y][i as int],
    {
        proof {
            lemma_grid_deep_view(&self.0);
        }
        let mut r: Vec<u8> = Vec::new();
        let mut y: usize = 0;
        #[verifier::loop_isolation(false)]
        while y < self.0.len()
            invariant
                0 <= y <= self.0@.len(),
                r@.len() == y,
                forall|t: int| 0 <= t < y ==> #[trigger] r@[t] == self.view_of()[t][i as int],
            decreases self.0@.len() - y,
        {
            proof {
                assert(self.view_of()[y as int] == self.0@[y as int]@);
                assert(self.view_of()[y as int].len() == self.view_of()[0].len());
            }
            r.push(self.0[y][i]);
            y += 1;
        }
        r
    }

    /// Number of columns.
    pub fn width(&self) -> (w: usize)
        requires
            grid_wf(self.view_of()),
        ensures
            w == self.view_of()[0].len(),
    {
        proof {
            lemma_grid_deep_view(&self.0);
        }
        self.0[0].len()
    }

    /// Number of rows.
    pub fn height(&self) -> (h: usize)
        ensures
            h == self.view_of().len(),
    {
        proof {
            lemma_grid_deep_view(&self.0);
        }
        self.0.len()
    }

    /// Flip one cell between ash and rock.
    pub fn smudge(&mut self, x: usize, y: usize)
        requires
            grid_wf(old(self).view_of()),
            y < old(self).view_of().len(),
            x < old(self).view_of()[0].len(),
        ensures
            final(self).view_of() == old(self).view_of().update(
                y as int,
                old(self).view_of()[y as int].update(
                    x as int,
                    if old(self).view_of()[y as int][x as int] == 46 {
                        35u8
                    } else {
                        46u8
                    },
                ),
            ),
    {
        proof {
            lemma_grid_deep_view(&self.0);
            assert(self.view_of()[y as int] == self.0@[y as int]@);
            assert(self.view_of()[y as int].len() == self.view_of()[0].len());
        }
        let cur = self.0[y][x];
        let nv: u8 = if cur == 46 {
            35
        } else {
            46
        };
        let mut row = self.0.remove(y);
        proof {
            assert(row@.len() == old(self).view_of()[y as int].len());
        }
        row[x] = nv;
        self.0.insert(y, row);
        proof {
            lemma_grid_deep_view(&self.0);
            assert(final(self).view_of() =~~= old(self).view_of().update(
                y as int,
                old(self).view_of()[y as int].update(x as int, nv),
            ));
        }
    }
}

/// Whether two rows are equal.
fn rows_equal(g: &Grid, a: usize, b: usize) -> (r: bool)
    requires
        grid_wf(g.view_of()),
        a < g.view_of().len(),
        b < g.view_of().len(),
    ensures
        r == (g.view_of()[a as int] == g.view_of()[b as int]),
{
    proof {
        lemma_grid_deep_view(&g.0);
    }
    let ra = &g.0[a];
    let rb = &g.0[b];
    proof {
        assert(ra@ == g.view_of()[a as int]);
        assert(rb@ == g.view_of()[b as int]);
        assert(g.view_of()[a as int].len() == g.view_of()[0].len());
        assert(g.view_of()[b as int].len() == g.view_of()[0].len());
    }
    let mut i: usize = 0;
    #[verifier::loop_isolation(false)]
    while i < ra.len()
        invariant
            0 <= i <= ra@.len(),
            ra@.len() == rb@.len(),
            ra@ == g.view_of()[a as int],
            rb@ == g.view_of()[b as int],
            forall|t: int| 0 <= t < i ==> ra@[t] == rb@[t],
        decreases ra@.len() - i,
    {
        if ra[i] != rb[i] {
            proof {
                assert(g.view_of()[a as int][i as int] != g.view_of()[b as int][i as int]);
            }
            return false;
        }
        i += 1;
    }
    proof {
        assert(ra@ =~= rb@);
    }
    true
}

/// Whether the pattern reflects across the horizontal line below row `y`.
fn check_row_mirror(g: &Grid, y: usize) -> (r: bool)
    requires
        grid_wf(g.view_of()),
        y + 1 < g.view_of().len(),
    ensures
        r == row_mirror(g.view_of(), y as int),
{
    proof {
        lemma_grid_deep_view(&g.0);
    }
    let height = g.0.len();
    let mut d: usize = 0;
    #[verifier::loop_isolation(false)]
    while d <= y && d < height - y - 1
        invariant
            0 <= d,
            forall|t: int|
                0 <= t < d && y - t >= 0 && y + 1 + t < g.view_of().len() ==> (
                #[trigger] g.view_of()[y as int - t]) == g.view_of()[y as int + 1 + t],
        decreases g.view_of().len() - d,
    {
        if !rows_equal(g, y - d, y + 1 + d) {
            return false;
        }
        d += 1;
    }
    proof {
        assert forall|t: int|
            0 <= t && y - t >= 0 && y + 1 + t < g.view_of().len() implies (
        #[trigger] g.view_of()[y as int - t]) == g.view_of()[y as int + 1 + t] by {
            assert(t < d);
        }
    }
    true
}

/// Whether the pattern reflects across the vertical line right of column
/// `x`.
fn check_col_mirror(g: &Grid, x: usize) -> (r: bool)
    requires
        grid_wf(g.view_of()),
        x + 1 < g.view_of()[0].len(),
    ensures
        r == col_mirror(g.view_of(), x as int),
{
    proof {
        lemma_grid_deep_view(&g.0);
    }
    let width = g.0[0].len();
    let mut d: usize = 0;
    #[verifier::loop_isolation(false)]
    while d <= x && d < width - x - 1
        invariant
            0 <= d,
            forall|t: int, rr: int|
                0 <= t < d && x - t >= 0 && 0 <= rr < g.view_of().len() && x + 1 + t
                    < g.view_of()[0].len() ==> (#[trigger] g.view_of()[rr][x as int - t])
                    == g.view_of()[rr][x as int + 1 + t],
        decreases g.view_of()[0].len() - d,
    {
        let mut rr: usize = 0;
        #[verifier::loop_isolation(false)]
        while rr < g.0.len()
            invariant
                0 <= rr <= g.view_of().len(),
                0 <= d <= x,
                x + 1 + d < g.view_of()[0].len(),
                forall|t: int|
                    0 <= t < rr ==> (#[trigger] g.view_of()[t][x as int - d]) == g.view_of()[t][x
                        as int + 1 + d],
            decreases g.view_of().len() - rr,
        {
            proof {
                assert(g.view_of()[rr as int] == g.0@[rr as int]@);
                assert(g.view_of()[rr as int].len() == g.view_of()[0].len());
            }
            if g.0[rr][x - d] != g.0[rr][x + 1 + d] {
                proof {
                    assert(g.view_of()[rr as int][x as int - d] != g.view_of()[rr as int][x as int
                        + 1 + d]);
                }
                return false;
            }
            rr += 1;
        }
        d += 1;
    }
    proof {
        assert forall|t: int, rr: int|
            0 <= t && x - t >= 0 && 0 <= rr < g.view_of().len() && x + 1 + t < g.view_of()[0].len()
            implies (#[trigger] g.view_of()[rr][x as int - t]) == g.view_of()[rr][x as int + 1
            + t] by {
            assert(t < d);
        }
    }
    true
}

impl Reflection {
    /// The first reflecting line of the pattern: every horizontal line is
    /// tried top to bottom, then every vertical line left to right.
    pub fn of_q1(grid: &Grid) -> (r: Option<Reflection>)
        requires
            grid_wf(grid.view_of()),
        ensures
            q1_post(grid.view_of(), r),
    {
        let height = grid.height();
        let mut y: usize = 0;
        #[verifier::loop_isolation(false)]
        while y + 1 < height
            invariant
                0 <= y < height,
                forall|t: int| 0 <= t < y ==> !row_mirror(grid.view_of(), t),
            decreases height - y,
        {
            if check_row_mirror(grid, y) {
                return Some(Reflection::Row(y + 1));
            }
            y += 1;
        }
        let width = grid.width();
        let mut x: usize = 0;
        #[verifier::loop_isolation(false)]
        while x + 1 < width
            invariant
                0 <= x < width,
                forall|t: int| 0 <= t < y ==> !row_mirror(grid.view_of(), t),
                y + 1 >= height,
                forall|t: int| 0 <= t < x ==> !col_mirror(grid.view_of(), t),
            decreases width - x,
        {
            if check_col_mirror(grid, x) {
                return Some(Reflection::Col(x + 1));
            }
            x += 1;
        }
        None
    }

    /// Search for a single smudge whose repair yields a different line of
    /// reflection; returns that line with the one-based smudge position.
    /// The returned line genuinely reflects the repaired pattern and
    /// differs from every line of the unsmudged pattern.
    pub fn of_q2(grid: &mut Grid) -> (r: Option<(Reflection, usize, usize)>)
        requires
            grid_wf(old(grid).view_of()),
            ash_rock(old(grid).view_of()),
        ensures
            match r {
                Some(rxy) => 1 <= rxy.1 && 1 <= rxy.2 && grid_wf(final(grid).view_of())
                    && q1_post(final(grid).view_of(), Some(rxy.0)) && !(q1_post(
                    old(grid).view_of(),
                    Some(rxy.0),
                )),
                None => final(grid).view_of() == old(grid).view_of(),
            },
    {
        let answer_q1 = Reflection::of_q1(grid);
        let width = grid.width();
        let height = grid.height();
        let mut x: usize = 0;
        #[verifier::loop_isolation(false)]
        while x < width
            invariant
                grid.view_of() == old(grid).view_of(),
                grid_wf(grid.view_of()),
                ash_rock(grid.view_of()),
                width == grid.view_of()[0].len(),
                height == grid.view_of().len(),
                q1_post(grid.view_of(), answer_q1),
            decreases width - x,
        {
            let mut y: usize = 0;
            #[verifier::loop_isolation(false)]
            while y < height
                invariant
                    grid.view_of() == old(grid).view_of(),
                    grid_wf(grid.view_of()),
                    ash_rock(grid.view_of()),
                    width == grid.view_of()[0].len(),
                    height == grid.view_of().len(),
                    x < width,
                    q1_post(grid.view_of(), answer_q1),
                decreases height - y,
            {
                let ghost before = grid.view_of();
                grid.smudge(x, y);
                proof {
                    assert(grid.view_of().len() == before.len());
                    assert(grid.view_of()[0].len() == before[0].len());
                    assert(grid_wf(grid.view_of()));
                }
                let candidate = Reflection::of_q1(grid);
                let different = match (candidate, answer_q1) {
                    (Some(a), Some(b)) => a != b,
                    (Some(_), None) => true,
                    _ => false,
                };
                if different {
                    let a = match candidate {
                        Some(a) => a,
                        None => {
                            proof {
                                assert(false);
                            }
                            return None;
                        },
                    };
                    proof {
                        if q1_post(before, Some(a)) {
                            lemma_q1_unique(before, answer_q1, Some(a));
                        }
                    }
                    return Some((a, x + 1, y + 1));
                }
                grid.smudge(x, y);
                proof {
                    assert(grid.view_of() =~~= before);
                }
                y += 1;
            }
            x += 1;
        }
        None
    }
}

/// A pattern has at most one first line of reflection.
pub proof fn lemma_q1_unique(g: Seq<Seq<u8>>, r1: Option<Reflection>, r2: Option<Reflection>)
    requires
        q1_post(g, r1),
        q1_post(g, r2),
    ensures
        r1 == r2,
{
    match (r1, r2) {
        (Some(Reflection::Row(v1)), Some(Reflection::Row(v2))) => {
            if v1 < v2 {
                assert(!row_mirror(g, v1 - 1));
            } else if v2 < v1 {
                assert(!row_mirror(g, v2 - 1));
            }
        },
        (Some(Reflection::Row(v1)), Some(Reflection::Col(v2))) => {
            assert(!row_mirror(g, v1 - 1));
        },
        (Some(Reflection::Col(v1)), Some(Reflection::Row(v2))) => {
            assert(!row_mirror(g, v2 - 1));
        },
        (Some(Reflection::Col(v1)), Some(Reflection::Col(v2))) => {
            if v1 < v2 {
                assert(!col_mirror(g, v1 - 1));
            } else if v2 < v1 {
                assert(!col_mirror(g, v2 - 1));
            }
        },
        (Some(Reflection::Row(v1)), None) => {
            assert(!row_mirror(g, v1 - 1));
        },
        (Some(Reflection::Col(v1)), None) => {
            assert(!col_mirror(g, v1 - 1));
        },
        (None, Some(Reflection::Row(v2))) => {
            assert(!row_mirror(g, v2 - 1));
        },
        (None, Some(Reflection::Col(v2))) => {
            assert(!col_mirror(g, v2 - 1));
        },
        (None, None) => {},
    }
}

/// Split an input into its blank-line-separated patterns.  Every returned
/// pattern is rectangular and non-empty; inputs with a malformed pattern
/// yield `None`.
/// Within each blank-line-separated block, every line shares one length:
/// equivalently, any two adjacent non-empty lines are equally long.
pub open spec fn blocks_ok(lines: Seq<Seq<u8>>) -> bool {
    forall|y: int|
        #![trigger lines[y]]
        1 <= y < lines.len() && lines[y - 1].len() >= 1 && lines[y].len() >= 1 ==> lines[y
            - 1].len() == lines[y].len()
}

/// Split an input into its blank-line-separated patterns.  Succeeds
/// exactly when the lines of each block share one length; every returned
/// pattern is then rectangular and non-empty.
pub fn parse_grids(s: &str) -> (r: Option<Vec<Grid>>)
    ensures
        match r {
            Some(gs) => blocks_ok(split_on(s.spec_bytes(), 10)) && (forall|i: int|
                0 <= i < gs@.len() ==> grid_wf((#[trigger] gs@[i]).view_of())),
            None => !blocks_ok(split_on(s.spec_bytes(), 10)),
        },
{
    let lines = split_bytes(s.as_bytes(), 10);
    proof {
        lemma_grid_deep_view(&lines);
    }
    let ghost lv = split_on(s.spec_bytes(), 10);
    let mut grids: Vec<Grid> = Vec::new();
    let mut current: Vec<Vec<u8>> = Vec::new();
    let mut i: usize = 0;
    while i < lines.len()
        invariant
            0 <= i <= lines@.len(),
            lv == split_on(s.spec_bytes(), 10),
            lines@.len() == lv.len(),
            forall|t: int| 0 <= t < lv.len() ==> (#[trigger] lines@[t])@ == lv[t],
            forall|t: int| 0 <= t < grids@.len() ==> grid_wf((#[trigger] grids@[t]).view_of()),
            forall|t: int|
                0 <= t < current@.len() ==> (#[trigger] current@[t])@.len() == current@[0]@.len()
                    && current@[0]@.len() >= 1,
            current@.len() > 0 ==> i >= 1 && lv[i - 1].len() == current@[0]@.len() && lv[i
                - 1].len() >= 1,
            current@.len() == 0 ==> i == 0 || lv[i - 1].len() == 0,
            forall|y: int|
                #![trigger lv[y]]
                1 <= y < i && lv[y - 1].len() >= 1 && lv[y].len() >= 1 ==> lv[y - 1].len()
                    == lv[y].len(),
        decreases lines@.len() - i,
    {
        let line = &lines[i];
        proof {
            assert(line@ == lv[i as int]);
        }
        if line.len() == 0 {
            if current.len() > 0 {
                let g = Grid(current);
                proof {
                    lemma_grid_deep_view(&g.0);
                }
                grids.push(g);
                current = Vec::new();
            }
        } else {
            if current.len() > 0 && line.len() != current[0].len() {
                proof {
                    // two adjacent non-empty lines of unequal length
                    assert(lv[i - 1].len() != lv[i as int].len());
                    assert(!blocks_ok(lv));
                }
                return None;
            }
            current.push(crate::scan::prefix_bytes(line.as_slice(), line.len()));
        }
        i += 1;
    }
    if current.len() > 0 {
        let g = Grid(current);
        proof {
            lemma_grid_deep_view(&g.0);
        }
        grids.push(g);
    }
    proof {
        assert(blocks_ok(lv));
    }
    Some(grids)
}

} // verus!
