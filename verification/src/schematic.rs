//! An engine schematic: numbers and symbols scattered on a grid.  A part
//! number is a digit run adjacent to a symbol; a gear is a `*` adjacent to
//! exactly two part numbers.

use vstd::prelude::*;
use vstd::string::StringSliceAdditionalSpecFns;

use crate::scan::{all_digits, digits_val, parse_u64, split_bytes, split_on};

verus! {

/// A cell of the schematic.
#[derive(Clone, Copy, Debug, PartialEq, Eq, Structural)]
pub struct Point {
    pub x: usize,
    pub y: usize,
}

/// Two cells are adjacent when they differ by at most one in each
/// coordinate (diagonals included).
pub open spec fn spec_adjacent(a: Point, b: Point) -> bool {
    &&& -1 <= a.x - b.x <= 1
    &&& -1 <= a.y - b.y <= 1
}

impl Point {
    /// Whether `other` touches `self`, diagonals included.
    pub fn is_adjacent(self, other: Point) -> (r: bool)
        ensures
            r == spec_adjacent(self, other),
    {
        let dx_ok = if self.x >= other.x {
            self.x - other.x <= 1
        } else {
            other.x - self.x <= 1
        };
        let dy_ok = if self.y >= other.y {
            self.y - other.y <= 1
        } else {
            other.y - self.y <= 1
        };
        dx_ok && dy_ok
    }
}

/// A symbol cell.
#[derive(Clone, Copy, Debug, PartialEq, Eq, Structural)]
pub struct Symbol {
    pub point: Point,
    pub symbol: u8,
}

/// A number together with the cells its digits span.
#[derive(Clone, Debug)]
pub struct PartNumber {
    pub points: Vec<Point>,
    pub value: u64,
}

/// The parsed schematic.
#[derive(Clone, Debug)]
pub struct Diagram {
    pub symbols: Vec<Symbol>,
    pub part_numbers: Vec<PartNumber>,
}

/// The lines of the input, with one trailing newline tolerated.
pub open spec fn text_rows(bs: Seq<u8>) -> Seq<Seq<u8>> {
    let ls = split_on(bs, 10);
    if ls.len() > 1 && ls.last().len() == 0 {
        ls.drop_last()
    } else {
        ls
    }
}

/// A byte that is neither a digit nor a dot.
pub open spec fn is_symbol_byte(b: u8) -> bool {
    b != 46 && !(48 <= b <= 57)
}

/// A decimal digit byte.
pub open spec fn is_digit(b: u8) -> bool {
    48 <= b <= 57
}

/// The end of the digit run starting at `x0`: the first position at or
/// after `x0` holding no digit.
pub open spec fn run_end(row: Seq<u8>, x0: int) -> int
    decreases row.len() - x0,
{
    if x0 < 0 || x0 >= row.len() || !is_digit(row[x0]) {
        x0
    } else {
        run_end(row, x0 + 1)
    }
}

/// A maximal digit run starts at `(x0, y)`.
pub open spec fn is_run_start(rows: Seq<Seq<u8>>, y: int, x0: int) -> bool {
    &&& 0 <= y < rows.len()
    &&& 0 <= x0 < rows[y].len()
    &&& is_digit(rows[y][x0])
    &&& (x0 == 0 || !is_digit(rows[y][x0 - 1]))
}

/// The cells of the run `[x0, x1)` of row `y`.
pub open spec fn run_points(y: int, x0: int, x1: int) -> Seq<Point> {
    Seq::new(
        if x1 >= x0 {
            (x1 - x0) as nat
        } else {
            0
        },
        |j: int| Point { x: (x0 + j) as usize, y: y as usize },
    )
}

/// Some cell of the maximal run at `(x0, y)` touches a recorded symbol.
pub open spec fn run_touches(
    rows: Seq<Seq<u8>>,
    y: int,
    x0: int,
    symbols: Seq<Symbol>,
) -> bool {
    exists|k: int|
        0 <= k < symbols.len() && touches(
            run_points(y, x0, run_end(rows[y], x0)),
            (#[trigger] symbols[k]).point,
        )
}

/// Every symbol byte of the text is recorded.
pub open spec fn symbols_complete(rows: Seq<Seq<u8>>, symbols: Seq<Symbol>) -> bool {
    forall|y: int, x: int|
        0 <= y < rows.len() && 0 <= x < rows[y].len() && is_symbol_byte(#[trigger] rows[y][x])
            ==> symbols.contains(
            Symbol { point: Point { x: x as usize, y: y as usize }, symbol: rows[y][x] },
        )
}

/// Every maximal digit run that touches a recorded symbol is recorded.
pub open spec fn parts_complete(
    rows: Seq<Seq<u8>>,
    symbols: Seq<Symbol>,
    parts: Seq<PartNumber>,
) -> bool {
    forall|y: int, x0: int|
        is_run_start(rows, y, x0) && #[trigger] run_touches(rows, y, x0, symbols) ==> exists|
            i: int,
        |
            0 <= i < parts.len() && (#[trigger] parts[i]).points@.len() == run_end(rows[y], x0)
                - x0 && parts[i].points@[0] == (Point { x: x0 as usize, y: y as usize })
}

/// No digit run's value exceeds the result type.
pub open spec fn runs_fit(rows: Seq<Seq<u8>>) -> bool {
    forall|y: int, x0: int|
        #[trigger] is_run_start(rows, y, x0) ==> digits_val(
            rows[y].subrange(x0, run_end(rows[y], x0)),
        ) <= u64::MAX
}

/// The run from `x0` to `x1` is exactly the maximal run: all digits, ended
/// by the row's edge or a non-digit.
proof fn lemma_run_end_at(row: Seq<u8>, x0: int, x1: int)
    requires
        0 <= x0 <= x1 <= row.len(),
        forall|t: int| x0 <= t < x1 ==> is_digit(#[trigger] row[t]),
        x1 < row.len() ==> !is_digit(row[x1]),
    ensures
        run_end(row, x0) == x1,
    decreases x1 - x0,
{
    if x0 < x1 {
        lemma_run_end_at(row, x0 + 1, x1);
    }
}

/// What `run_end` guarantees: digits throughout, a boundary at the end.
proof fn lemma_run_end_props(row: Seq<u8>, x0: int)
    requires
        0 <= x0 <= row.len(),
    ensures
        x0 <= run_end(row, x0) <= row.len(),
        forall|t: int| x0 <= t < run_end(row, x0) ==> is_digit(#[trigger] row[t]),
        run_end(row, x0) < row.len() ==> !is_digit(row[run_end(row, x0)]),
    decreases row.len() - x0,
{
    if x0 < row.len() && is_digit(row[x0]) {
        lemma_run_end_props(row, x0 + 1);
    }
}

/// Every digit cell lies inside some maximal run.
proof fn lemma_run_start_exists(rows: Seq<Seq<u8>>, y: int, p: int)
    requires
        0 <= y < rows.len(),
        0 <= p < rows[y].len(),
        is_digit(rows[y][p]),
    ensures
        exists|x0: int|
            #[trigger] is_run_start(rows, y, x0) && x0 <= p < run_end(rows[y], x0),
    decreases p,
{
    if p == 0 || !is_digit(rows[y][p - 1]) {
        lemma_run_end_props(rows[y], p);
        assert(run_end(rows[y], p) > p);
        assert(is_run_start(rows, y, p) && p <= p < run_end(rows[y], p));
    } else {
        lemma_run_start_exists(rows, y, p - 1);
        let x0 = choose|x0: int|
            #[trigger] is_run_start(rows, y, x0) && x0 <= p - 1 < run_end(rows[y], x0);
        lemma_run_end_props(rows[y], x0);
        // the run reaches past p - 1 and p is a digit, so it covers p
        assert(run_end(rows[y], x0) != p);
        assert(is_run_start(rows, y, x0) && x0 <= p < run_end(rows[y], x0));
    }
}

/// Some cell of the run touches the symbol.
pub open spec fn touches(points: Seq<Point>, sym: Point) -> bool {
    exists|i: int| 0 <= i < points.len() && spec_adjacent(#[trigger] points[i], sym)
}

/// The recorded symbols sit on symbol bytes of the text.
pub open spec fn symbols_ok(rows: Seq<Seq<u8>>, symbols: Seq<Symbol>) -> bool {
    forall|i: int|
        0 <= i < symbols.len() ==> {
            let s = #[trigger] symbols[i];
            &&& s.point.y < rows.len()
            &&& s.point.x < rows[s.point.y as int].len()
            &&& rows[s.point.y as int][s.point.x as int] == s.symbol
            &&& is_symbol_byte(s.symbol)
        }
}

/// One part number is a maximal horizontal digit run whose value reads
/// off the text and which touches some recorded symbol.
pub open spec fn part_ok(rows: Seq<Seq<u8>>, symbols: Seq<Symbol>, p: PartNumber) -> bool {
    &&& p.points@.len() >= 1
    &&& p.points@[0].y < rows.len()
    &&& is_run_start(rows, p.points@[0].y as int, p.points@[0].x as int)
    &&& p.points@.len() == run_end(rows[p.points@[0].y as int], p.points@[0].x as int)
        - p.points@[0].x
    &&& forall|j: int|
        0 <= j < p.points@.len() ==> (#[trigger] p.points@[j]).y == p.points@[0].y
            && p.points@[j].x == p.points@[0].x + j && p.points@[j].x < rows[p.points@[0].y
            as int].len()
    &&& p.value as int == digits_val(
        rows[p.points@[0].y as int].subrange(
            p.points@[0].x as int,
            p.points@[0].x + p.points@.len(),
        ),
    )
    &&& exists|k: int|
        0 <= k < symbols.len() && touches(p.points@, (#[trigger] symbols[k]).point)
}

/// Every recorded symbol and part number is faithful to the text, and no
/// run is recorded twice.
pub open spec fn diagram_wf(rows: Seq<Seq<u8>>, d: &Diagram) -> bool {
    &&& symbols_ok(rows, d.symbols@)
    &&& forall|i: int|
        0 <= i < d.part_numbers@.len() ==> part_ok(rows, d.symbols@, #[trigger] d.part_numbers@[i])
    &&& forall|i: int, j: int|
        0 <= i < j < d.part_numbers@.len() ==> (#[trigger] d.part_numbers@[i]).points@[0] != (
        #[trigger] d.part_numbers@[j]).points@[0]
}

/// Sum of the part number values.
pub open spec fn spec_q1(parts: Seq<PartNumber>) -> int
    decreases parts.len(),
{
    if parts.len() == 0 {
        0
    } else {
        spec_q1(parts.drop_last()) + parts.last().value
    }
}

/// The values of the part numbers touching `sym`, in order.
pub open spec fn adj_values(parts: Seq<PartNumber>, sym: Point) -> Seq<int>
    decreases parts.len(),
{
    if parts.len() == 0 {
        Seq::empty()
    } else {
        adj_values(parts.drop_last(), sym) + if touches(parts.last().points@, sym) {
            seq![parts.last().value as int]
        } else {
            Seq::empty()
        }
    }
}

/// The gear contribution of one symbol: the product of the two touching
/// part values, when the symbol is a `*` touching exactly two.
pub open spec fn gear_ratio(parts: Seq<PartNumber>, s: Symbol) -> int {
    let adj = adj_values(parts, s.point);
    if s.symbol == 42 && adj.len() == 2 {
        adj[0] * adj[1]
    } else {
        0
    }
}

/// Sum of the gear ratios over the symbols.
pub open spec fn spec_q2(syms: Seq<Symbol>, parts: Seq<PartNumber>) -> int
    decreases syms.len(),
{
    if syms.len() == 0 {
        0
    } else {
        spec_q2(syms.drop_last(), parts) + gear_ratio(parts, syms.last())
    }
}

impl Diagram {
    /// Sum of all part numbers of the schematic.
    pub fn q1(&self) -> (r: u64)
        requires
            spec_q1(self.part_numbers@) <= u64::MAX,
        ensures
            r == spec_q1(self.part_numbers@),
    {
        let mut r: u64 = 0;
        let mut i: usize = 0;
        #[verifier::loop_isolation(false)]
        while i < self.part_numbers.len()
            invariant
                0 <= i <= self.part_numbers@.len(),
                r == spec_q1(self.part_numbers@.take(i as int)),
            decreases self.part_numbers@.len() - i,
        {
            proof {
                assert(self.part_numbers@.take(i + 1).drop_last() =~= self.part_numbers@.take(
                    i as int,
                ));
                assert(self.part_numbers@.take(i + 1).last() == self.part_numbers@[i as int]);
                lemma_q1_prefix(self.part_numbers@, i + 1);
                lemma_q1_nonneg(self.part_numbers@.take(i as int));
                lemma_q1_nonneg(self.part_numbers@.take(i + 1));
            }
            r = r + self.part_numbers[i].value;
            i += 1;
        }
        proof {
            assert(self.part_numbers@.take(self.part_numbers@.len() as int)
                =~= self.part_numbers@);
        }
        r
    }

    /// Sum of all gear ratios of the schematic.
    pub fn q2(&self) -> (r: u64)
        requires
            spec_q2(self.symbols@, self.part_numbers@) <= u64::MAX,
        ensures
            r == spec_q2(self.symbols@, self.part_numbers@),
    {
        let parts = &self.part_numbers;
        let mut r: u64 = 0;
        let mut i: usize = 0;
        #[verifier::loop_isolation(false)]
        while i < self.symbols.len()
            invariant
                0 <= i <= self.symbols@.len(),
                r == spec_q2(self.symbols@.take(i as int), parts@),
            decreases self.symbols@.len() - i,
        {
            let s = self.symbols[i];
            // collect the values of the part numbers touching this symbol
            let mut adj: Vec<u64> = Vec::new();
            let mut j: usize = 0;
            #[verifier::loop_isolation(false)]
            while j < parts.len()
                invariant
                    0 <= j <= parts@.len(),
                    adj@.map_values(|v: u64| v as int) =~= adj_values(
                        parts@.take(j as int),
                        s.point,
                    ),
                decreases parts@.len() - j,
            {
                proof {
                    assert(parts@.take(j + 1).drop_last() =~= parts@.take(j as int));
                    assert(parts@.take(j + 1).last() == parts@[j as int]);
                }
                let p = &parts[j];
                let mut hit = false;
                let mut k: usize = 0;
                #[verifier::loop_isolation(false)]
                while k < p.points.len()
                    invariant
                        0 <= k <= p.points@.len(),
                        hit == exists|t: int|
                            0 <= t < k && spec_adjacent(#[trigger] p.points@[t], s.point),
                    decreases p.points@.len() - k,
                {
                    if p.points[k].is_adjacent(s.point) {
                        hit = true;
                        proof {
                            assert(spec_adjacent(p.points@[k as int], s.point));
                        }
                    }
                    k += 1;
                }
                proof {
                    assert(hit == touches(p.points@, s.point));
                }
                if hit {
                    adj.push(p.value);
                    proof {
                        assert(adj@.map_values(|v: u64| v as int) =~= adj@.drop_last().map_values(
                            |v: u64| v as int,
                        ).push(p.value as int));
                    }
                }
                j += 1;
            }
            proof {
                assert(parts@.take(parts@.len() as int) =~= parts@);
                assert(self.symbols@.take(i + 1).drop_last() =~= self.symbols@.take(i as int));
                assert(self.symbols@.take(i + 1).last() == self.symbols@[i as int]);
                lemma_q2_prefix(self.symbols@, parts@, i + 1);
                lemma_q2_nonneg(self.symbols@.take(i as int), parts@);
                lemma_q2_nonneg(self.symbols@.take(i + 1), parts@);
            }
            let is_gear = s.symbol == 42 && adj.len() == 2;
            if is_gear {
                let a = adj[0];
                let b = adj[1];
                let term: u64 = if a == 0 || b == 0 {
                    proof {
                        assert(a as int * b as int == 0) by (nonlinear_arith)
                            requires
                                a == 0 || b == 0,
                        ;
                    }
                    0
                } else {
                    proof {
                        let g = gear_ratio(parts@, s);
                        assert(g == a as int * b as int);
                        assert(a as int <= a as int * b as int) by (nonlinear_arith)
                            requires
                                a >= 1,
                                b >= 1,
                        ;
                    }
                    a * b
                };
                r = r + term;
            }
            i += 1;
        }
        proof {
            assert(self.symbols@.take(self.symbols@.len() as int) =~= self.symbols@);
        }
        r
    }

    /// Parse a schematic: record every symbol cell and every digit run
    /// that touches a symbol.  Succeeds exactly when every digit run's
    /// value fits the result type; the recorded symbols and runs are then
    /// both faithful to the text and complete.
    #[verifier::rlimit(100)]
    #[verifier::spinoff_prover]
    pub fn parse(input: &str) -> (r: Option<Diagram>)
        ensures
            match r {
                Some(d) => {
                    let rows = text_rows(input.spec_bytes());
                    &&& diagram_wf(rows, &d)
                    &&& symbols_complete(rows, d.symbols@)
                    &&& parts_complete(rows, d.symbols@, d.part_numbers@)
                    &&& runs_fit(rows)
                },
                None => !runs_fit(text_rows(input.spec_bytes())),
            },
    {
        let pieces = split_bytes(input.as_bytes(), 10);
        proof {
            crate::crucible::lemma_grid_deep_view(&pieces);
        }
        let mut rows = pieces;
        if rows.len() > 1 && rows[rows.len() - 1].len() == 0 {
            rows.pop();
        }
        let ghost rs = text_rows(input.spec_bytes());
        proof {
            crate::crucible::lemma_grid_deep_view(&rows);
            assert(rows.deep_view() =~~= rs);
        }
        // first pass: the symbols
        let mut symbols: Vec<Symbol> = Vec::new();
        let mut y: usize = 0;
        #[verifier::loop_isolation(false)]
        while y < rows.len()
            invariant
                0 <= y <= rows@.len(),
                symbols_ok(rs, symbols@),
                forall|yy: int, xx: int|
                    0 <= yy < y && 0 <= xx < rs[yy].len() && is_symbol_byte(#[trigger] rs[yy][xx])
                        ==> symbols@.contains(
                        Symbol {
                            point: Point { x: xx as usize, y: yy as usize },
                            symbol: rs[yy][xx],
                        },
                    ),
            decreases rows@.len() - y,
        {
            let line = &rows[y];
            let mut x: usize = 0;
            #[verifier::loop_isolation(false)]
            while x < line.len()
                invariant
                    0 <= x <= line@.len(),
                    line@ == rs[y as int],
                    y < rs.len(),
                    symbols_ok(rs, symbols@),
                    forall|yy: int, xx: int|
                        0 <= yy < y && 0 <= xx < rs[yy].len() && is_symbol_byte(
                            #[trigger] rs[yy][xx],
                        ) ==> symbols@.contains(
                            Symbol {
                                point: Point { x: xx as usize, y: yy as usize },
                                symbol: rs[yy][xx],
                            },
                        ),
                    forall|xx: int|
                        0 <= xx < x && is_symbol_byte(#[trigger] rs[y as int][xx])
                            ==> symbols@.contains(
                            Symbol {
                                point: Point { x: xx as usize, y: y as usize },
                                symbol: rs[y as int][xx],
                            },
                        ),
                decreases line@.len() - x,
            {
                let b = line[x];
                if b != 46 && !(48 <= b && b <= 57) {
                    let ghost old_symbols = symbols@;
                    symbols.push(Symbol { point: Point { x, y }, symbol: b });
                    proof {
                        assert(symbols@.last() == Symbol {
                            point: Point { x, y },
                            symbol: rs[y as int][x as int],
                        });
                        assert forall|e: Symbol| old_symbols.contains(e) implies symbols@.contains(
                            e,
                        ) by {
                            let i = choose|i: int|
                                0 <= i < old_symbols.len() && old_symbols[i] == e;
                            assert(symbols@[i] == e);
                        }
                    }
                }
                x += 1;
            }
            y += 1;
        }
        // second pass: the digit runs
        let mut part_numbers: Vec<PartNumber> = Vec::new();
        let mut y2: usize = 0;
        #[verifier::loop_isolation(false)]
        while y2 < rows.len()
            invariant
                0 <= y2 <= rows@.len(),
                symbols_ok(rs, symbols@),
                forall|i: int|
                    0 <= i < part_numbers@.len() ==> part_ok(
                        rs,
                        symbols@,
                        #[trigger] part_numbers@[i],
                    ),
                forall|yy: int, x0: int|
                    yy < y2 && is_run_start(rs, yy, x0) && #[trigger] run_touches(
                        rs,
                        yy,
                        x0,
                        symbols@,
                    ) ==> exists|i: int|
                        0 <= i < part_numbers@.len() && (#[trigger] part_numbers@[i]).points@.len()
                            == run_end(rs[yy], x0) - x0 && part_numbers@[i].points@[0] == (Point {
                            x: x0 as usize,
                            y: yy as usize,
                        }),
                forall|yy: int, x0: int|
                    yy < y2 && #[trigger] is_run_start(rs, yy, x0) ==> digits_val(
                        rs[yy].subrange(x0, run_end(rs[yy], x0)),
                    ) <= u64::MAX,
                forall|i: int|
                    0 <= i < part_numbers@.len() ==> (#[trigger] part_numbers@[i]).points@[0].y
                        < y2,
                forall|i: int, j: int|
                    0 <= i < j < part_numbers@.len() ==> (#[trigger] part_numbers@[i]).points@[0]
                        != (#[trigger] part_numbers@[j]).points@[0],
            decreases rows@.len() - y2,
        {
            let line = &rows[y2];
            let mut x: usize = 0;
            #[verifier::loop_isolation(false)]
            while x < line.len()
                invariant
                    0 <= x <= line@.len(),
                    line@ == rs[y2 as int],
                    y2 < rs.len(),
                    symbols_ok(rs, symbols@),
                    forall|i: int|
                        0 <= i < part_numbers@.len() ==> part_ok(
                            rs,
                            symbols@,
                            #[trigger] part_numbers@[i],
                        ),
                    forall|yy: int, x0: int|
                        yy < y2 && is_run_start(rs, yy, x0) && #[trigger] run_touches(
                            rs,
                            yy,
                            x0,
                            symbols@,
                        ) ==> exists|i: int|
                            0 <= i < part_numbers@.len() && (
                            #[trigger] part_numbers@[i]).points@.len() == run_end(rs[yy], x0) - x0
                                && part_numbers@[i].points@[0] == (Point {
                                x: x0 as usize,
                                y: yy as usize,
                            }),
                    forall|yy: int, x0: int|
                        yy < y2 && #[trigger] is_run_start(rs, yy, x0) ==> digits_val(
                            rs[yy].subrange(x0, run_end(rs[yy], x0)),
                        ) <= u64::MAX,
                    // every run of this row that starts before the scan
                    // position has already ended and been handled
                    forall|x0: int|
                        0 <= x0 < x && #[trigger] is_run_start(rs, y2 as int, x0) ==> run_end(
                            rs[y2 as int],
                            x0,
                        ) <= x,
                    forall|x0: int|
                        0 <= x0 < x && is_run_start(rs, y2 as int, x0) && #[trigger] run_touches(
                            rs,
                            y2 as int,
                            x0,
                            symbols@,
                        ) ==> exists|i: int|
                            0 <= i < part_numbers@.len() && (
                            #[trigger] part_numbers@[i]).points@.len() == run_end(
                                rs[y2 as int],
                                x0,
                            ) - x0 && part_numbers@[i].points@[0] == (Point {
                                x: x0 as usize,
                                y: y2 as usize,
                            }),
                    forall|x0: int|
                        0 <= x0 < x && #[trigger] is_run_start(rs, y2 as int, x0) ==> digits_val(
                            rs[y2 as int].subrange(x0, run_end(rs[y2 as int], x0)),
                        ) <= u64::MAX,
                    forall|i: int|
                        0 <= i < part_numbers@.len() ==> (#[trigger] part_numbers@[i]).points@[0].y
                            < y2 || (part_numbers@[i].points@[0].y == y2
                            && part_numbers@[i].points@[0].x < x),
                    forall|i: int, j: int|
                        0 <= i < j < part_numbers@.len() ==> (
                        #[trigger] part_numbers@[i]).points@[0] != (
                        #[trigger] part_numbers@[j]).points@[0],
                decreases line@.len() - x,
            {
                let b = line[x];
                if 48 <= b && b <= 57 {
                    proof {
                        // the scan position opens a maximal run: a digit
                        // just before it would put it inside a run that
                        // the scan has already passed
                        if x > 0 && is_digit(rs[y2 as int][x - 1]) {
                            lemma_run_start_exists(rs, y2 as int, x - 1);
                            let x0 = choose|x0: int|
                                #[trigger] is_run_start(rs, y2 as int, x0) && x0 <= x - 1
                                    < run_end(rs[y2 as int], x0);
                            lemma_run_end_props(rs[y2 as int], x0);
                        }
                        assert(is_run_start(rs, y2 as int, x as int));
                    }
                    // scan the digit run
                    let start = x;
                    let mut run: Vec<u8> = Vec::new();
                    let mut points: Vec<Point> = Vec::new();
                    run.push(b);
                    points.push(Point { x, y: y2 });
                    proof {
                        assert(run@ =~= rs[y2 as int].subrange(start as int, start + 1));
                    }
                    x += 1;
                    #[verifier::loop_isolation(false)]
                    while x < line.len() && 48 <= line[x] && line[x] <= 57
                        invariant
                            start <= x <= line@.len(),
                            line@ == rs[y2 as int],
                            y2 < rs.len(),
                            run@ =~= rs[y2 as int].subrange(start as int, x as int),
                            all_digits(run@) || run@.len() == 0,
                            points@.len() == x - start,
                            forall|j: int|
                                0 <= j < points@.len() ==> (#[trigger] points@[j]).y == y2
                                    && points@[j].x == start + j && points@[j].x < rs[y2
                                    as int].len(),
                            x > start,
                        decreases line@.len() - x,
                    {
                        run.push(line[x]);
                        points.push(Point { x, y: y2 });
                        proof {
                            assert(run@ =~= rs[y2 as int].subrange(start as int, x + 1));
                        }
                        x += 1;
                    }
                    proof {
                        assert forall|t: int| start <= t < x implies is_digit(
                            #[trigger] rs[y2 as int][t],
                        ) by {
                            assert(run@[t - start] == rs[y2 as int][t]);
                        }
                        lemma_run_end_at(rs[y2 as int], start as int, x as int);
                        assert(run_end(rs[y2 as int], start as int) == x as int);
                    }
                    let value = match parse_u64(run.as_slice()) {
                        Some(v) => v,
                        None => {
                            proof {
                                crate::scan::lemma_digits_val_nonneg(run@);
                                assert(digits_val(
                                    rs[y2 as int].subrange(
                                        start as int,
                                        run_end(rs[y2 as int], start as int),
                                    ),
                                ) > u64::MAX);
                                assert(!runs_fit(rs));
                            }
                            return None;
                        },
                    };
                    // is the run adjacent to a recorded symbol?
                    let mut hit = false;
                    let mut si: usize = 0;
                    let mut wit: usize = 0;
                    #[verifier::loop_isolation(false)]
                    while si < symbols.len()
                        invariant
                            0 <= si <= symbols@.len(),
                            hit ==> wit < symbols@.len() && touches(
                                points@,
                                symbols@[wit as int].point,
                            ),
                            !hit ==> forall|k: int|
                                0 <= k < si ==> !touches(points@, (#[trigger] symbols@[k]).point),
                        decreases symbols@.len() - si,
                    {
                        let mut k: usize = 0;
                        #[verifier::loop_isolation(false)]
                        while k < points.len()
                            invariant
                                0 <= k <= points@.len(),
                                si < symbols@.len(),
                                hit ==> wit < symbols@.len() && touches(
                                    points@,
                                    symbols@[wit as int].point,
                                ),
                                !hit ==> forall|kk: int|
                                    0 <= kk < si ==> !touches(
                                        points@,
                                        (#[trigger] symbols@[kk]).point,
                                    ),
                                !hit ==> forall|t: int|
                                    0 <= t < k ==> !spec_adjacent(
                                        #[trigger] points@[t],
                                        symbols@[si as int].point,
                                    ),
                            decreases points@.len() - k,
                        {
                            if points[k].is_adjacent(symbols[si].point) {
                                hit = true;
                                wit = si;
                                proof {
                                    assert(spec_adjacent(points@[k as int], symbols@[si as int].point));
                                }
                            }
                            k += 1;
                        }
                        si += 1;
                    }
                    proof {
                        // the scanned cells are exactly the run's cells
                        assert(points@ =~= run_points(
                            y2 as int,
                            start as int,
                            run_end(rs[y2 as int], start as int),
                        ));
                        if !hit {
                            assert(!run_touches(rs, y2 as int, start as int, symbols@)) by {
                                if run_touches(rs, y2 as int, start as int, symbols@) {
                                    let kk = choose|kk: int|
                                        0 <= kk < symbols@.len() && touches(
                                            run_points(
                                                y2 as int,
                                                start as int,
                                                run_end(rs[y2 as int], start as int),
                                            ),
                                            (#[trigger] symbols@[kk]).point,
                                        );
                                    assert(touches(points@, symbols@[kk].point));
                                }
                            }
                        }
                    }
                    if hit {
                        let ghost old_parts = part_numbers@;
                        let ghost wpoints = points@;
                        let pn = PartNumber { points, value };
                        proof {
                            assert(pn.points@ == wpoints);
                            assert(run@ =~= rs[y2 as int].subrange(
                                start as int,
                                start + wpoints.len(),
                            ));
                            assert(0 <= wit < symbols@.len());
                            assert(touches(pn.points@, symbols@[wit as int].point));
                            assert(part_ok(rs, symbols@, pn));
                        }
                        part_numbers.push(pn);
                        proof {
                            assert forall|i: int|
                                0 <= i < part_numbers@.len() implies part_ok(
                                rs,
                                symbols@,
                                #[trigger] part_numbers@[i],
                            ) by {
                                if i < old_parts.len() {
                                    assert(part_numbers@[i] == old_parts[i]);
                                }
                            }
                            // a fresh start position: older records sit on
                            // earlier rows or earlier columns
                            assert forall|i: int, j: int|
                                0 <= i < j < part_numbers@.len() implies (
                            #[trigger] part_numbers@[i]).points@[0] != (
                            #[trigger] part_numbers@[j]).points@[0] by {
                                if j == part_numbers@.len() - 1 {
                                    assert(part_numbers@[i] == old_parts[i]);
                                    assert(part_numbers@[j].points@[0] == (Point {
                                        x: start as usize,
                                        y: y2 as usize,
                                    }));
                                } else {
                                    assert(part_numbers@[i] == old_parts[i]);
                                    assert(part_numbers@[j] == old_parts[j]);
                                }
                            }
                            // the new run is recorded; older records survive
                            assert(part_numbers@.last().points@.len() == run_end(
                                rs[y2 as int],
                                start as int,
                            ) - start);
                            assert(part_numbers@.last().points@[0] == (Point {
                                x: start as usize,
                                y: y2 as usize,
                            }));
                            assert forall|yy: int, x0: int|
                                yy < y2 && is_run_start(rs, yy, x0) && #[trigger] run_touches(
                                rs,
                                yy,
                                x0,
                                symbols@,
                            ) implies exists|i: int|
                                0 <= i < part_numbers@.len() && (
                                #[trigger] part_numbers@[i]).points@.len() == run_end(rs[yy], x0)
                                    - x0 && part_numbers@[i].points@[0] == (Point {
                                    x: x0 as usize,
                                    y: yy as usize,
                                }) by {
                                let i = choose|i: int|
                                    0 <= i < old_parts.len() && (#[trigger] old_parts[i]).points@.len()
                                        == run_end(rs[yy], x0) - x0 && old_parts[i].points@[0]
                                        == (Point { x: x0 as usize, y: yy as usize });
                                assert(part_numbers@[i] == old_parts[i]);
                            }
                            assert forall|x0: int|
                                0 <= x0 < x && is_run_start(rs, y2 as int, x0)
                                    && #[trigger] run_touches(rs, y2 as int, x0, symbols@)
                                implies exists|i: int|
                                0 <= i < part_numbers@.len() && (
                                #[trigger] part_numbers@[i]).points@.len() == run_end(
                                    rs[y2 as int],
                                    x0,
                                ) - x0 && part_numbers@[i].points@[0] == (Point {
                                    x: x0 as usize,
                                    y: y2 as usize,
                                }) by {
                                if x0 == start {
                                    assert(part_numbers@.last().points@.len() == run_end(
                                        rs[y2 as int],
                                        x0,
                                    ) - x0);
                                } else if x0 < start {
                                    let i = choose|i: int|
                                        0 <= i < old_parts.len() && (
                                        #[trigger] old_parts[i]).points@.len() == run_end(
                                            rs[y2 as int],
                                            x0,
                                        ) - x0 && old_parts[i].points@[0] == (Point {
                                            x: x0 as usize,
                                            y: y2 as usize,
                                        });
                                    assert(part_numbers@[i] == old_parts[i]);
                                } else {
                                    // no run starts inside the scanned run
                                    lemma_run_end_props(rs[y2 as int], start as int);
                                    assert(!is_run_start(rs, y2 as int, x0));
                                }
                            }
                        }
                    } else {
                        proof {
                            assert forall|x0: int|
                                0 <= x0 < x && is_run_start(rs, y2 as int, x0)
                                    && #[trigger] run_touches(rs, y2 as int, x0, symbols@)
                                implies exists|i: int|
                                0 <= i < part_numbers@.len() && (
                                #[trigger] part_numbers@[i]).points@.len() == run_end(
                                    rs[y2 as int],
                                    x0,
                                ) - x0 && part_numbers@[i].points@[0] == (Point {
                                    x: x0 as usize,
                                    y: y2 as usize,
                                }) by {
                                if x0 == start {
                                    assert(false);
                                } else if x0 > start {
                                    lemma_run_end_props(rs[y2 as int], start as int);
                                    assert(!is_run_start(rs, y2 as int, x0));
                                }
                            }
                        }
                    }
                    proof {
                        // value bounds and endings for every run now behind
                        // the scan position
                        assert forall|x0: int|
                            0 <= x0 < x && #[trigger] is_run_start(rs, y2 as int, x0)
                            implies run_end(rs[y2 as int], x0) <= x && digits_val(
                            rs[y2 as int].subrange(x0, run_end(rs[y2 as int], x0)),
                        ) <= u64::MAX by {
                            if x0 > start {
                                lemma_run_end_props(rs[y2 as int], start as int);
                                assert(!is_run_start(rs, y2 as int, x0));
                            } else if x0 == start {
                                assert(run@ =~= rs[y2 as int].subrange(
                                    x0,
                                    run_end(rs[y2 as int], x0),
                                ));
                            }
                        }
                    }
                } else {
                    proof {
                        assert(!is_run_start(rs, y2 as int, x as int));
                    }
                    x += 1;
                }
            }
            y2 += 1;
        }
        proof {
            assert(symbols_complete(rs, symbols@));
            assert(parts_complete(rs, symbols@, part_numbers@));
            assert(runs_fit(rs)) by {
                assert forall|yy: int, x0: int|
                    #[trigger] is_run_start(rs, yy, x0) implies digits_val(
                    rs[yy].subrange(x0, run_end(rs[yy], x0)),
                ) <= u64::MAX by {
                    assert(0 <= yy < rs.len());
                }
            }
        }
        Some(Diagram { symbols, part_numbers })
    }
}

proof fn lemma_q1_nonneg(parts: Seq<PartNumber>)
    ensures
        spec_q1(parts) >= 0,
    decreases parts.len(),
{
    if parts.len() > 0 {
        lemma_q1_nonneg(parts.drop_last());
    }
}

proof fn lemma_q1_prefix(parts: Seq<PartNumber>, i: int)
    requires
        0 <= i <= parts.len(),
    ensures
        spec_q1(parts.take(i)) <= spec_q1(parts),
    decreases parts.len() - i,
{
    if i < parts.len() {
        lemma_q1_prefix(parts, i + 1);
        assert(parts.take(i + 1).drop_last() =~= parts.take(i));
    } else {
        assert(parts.take(i) =~= parts);
    }
}

proof fn lemma_gear_nonneg(parts: Seq<PartNumber>, s: Symbol)
    ensures
        gear_ratio(parts, s) >= 0,
{
    let adj = adj_values(parts, s.point);
    if s.symbol == 42 && adj.len() == 2 {
        lemma_adj_nonneg(parts, s.point);
        assert(adj[0] * adj[1] >= 0) by (nonlinear_arith)
            requires
                adj[0] >= 0,
                adj[1] >= 0,
        ;
    }
}

proof fn lemma_adj_nonneg(parts: Seq<PartNumber>, sym: Point)
    ensures
        forall|i: int|
            0 <= i < adj_values(parts, sym).len() ==> #[trigger] adj_values(parts, sym)[i] >= 0,
    decreases parts.len(),
{
    if parts.len() > 0 {
        lemma_adj_nonneg(parts.drop_last(), sym);
        let pre = adj_values(parts.drop_last(), sym);
        assert forall|i: int|
            0 <= i < adj_values(parts, sym).len() implies #[trigger] adj_values(parts, sym)[i]
            >= 0 by {
            if i < pre.len() {
                assert(adj_values(parts, sym)[i] == pre[i]);
            }
        }
    }
}

proof fn lemma_q2_nonneg(syms: Seq<Symbol>, parts: Seq<PartNumber>)
    ensures
        spec_q2(syms, parts) >= 0,
    decreases syms.len(),
{
    if syms.len() > 0 {
        lemma_q2_nonneg(syms.drop_last(), parts);
        lemma_gear_nonneg(parts, syms.last());
    }
}

proof fn lemma_q2_prefix(syms: Seq<Symbol>, parts: Seq<PartNumber>, i: int)
    requires
        0 <= i <= syms.len(),
    ensures
        spec_q2(syms.take(i), parts) <= spec_q2(syms, parts),
    decreases syms.len() - i,
{
    if i < syms.len() {
        lemma_q2_prefix(syms, parts, i + 1);
        assert(syms.take(i + 1).drop_last() =~= syms.take(i));
        lemma_gear_nonneg(parts, syms[i]);
    } else {
        assert(syms.take(i) =~= syms);
    }
}

} // verus!
