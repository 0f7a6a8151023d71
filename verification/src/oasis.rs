//! Sequence extrapolation: repeatedly take pairwise differences until the
//! row of differences is all zeroes, then extrapolate the next and the
//! previous value of the history itself.

use vstd::prelude::*;
use vstd::string::StringSliceAdditionalSpecFns;

use crate::scan::{all_digits, digits_val, parse_u64, split_bytes, split_on};

verus! {

/// Two to the `n`th power.
pub open spec fn pot(n: nat) -> int
    decreases n,
{
    if n == 0 {
        1
    } else {
        2 * pot((n - 1) as nat)
    }
}

/// The row of pairwise differences.
pub open spec fn spec_delta(s: Seq<i64>) -> Seq<int> {
    Seq::new((s.len() - 1) as nat, |i: int| s[i + 1] - s[i])
}

/// All entries are zero.
pub open spec fn all_zero(s: Seq<int>) -> bool {
    forall|i: int| 0 <= i < s.len() ==> #[trigger] s[i] == 0
}

/// The row of pairwise differences, at the mathematical level.
pub open spec fn int_delta(s: Seq<int>) -> Seq<int> {
    Seq::new((s.len() - 1) as nat, |i: int| s[i + 1] - s[i])
}

/// The `k`th difference row of a history, at the mathematical level.
pub open spec fn delta_level(h: Seq<int>, k: nat) -> Seq<int>
    decreases k,
{
    if k == 0 {
        h
    } else {
        int_delta(delta_level(h, (k - 1) as nat))
    }
}

/// Every difference row the computation could reach stays inside `i64`:
/// the exact condition under which the differencing cannot overflow.
pub open spec fn levels_fit(h: Seq<int>) -> bool {
    forall|k: nat, j: int|
        k <= h.len() && 0 <= j < delta_level(h, k).len() ==> i64::MIN <= #[trigger] delta_level(
            h,
            k,
        )[j] <= i64::MAX
}

/// One history and all its difference rows, down to the first row whose
/// differences vanish: each later row is the differences of the one before
/// it, no intermediate row is entirely zero, and the differences of the
/// final row vanish.  Together these pin the row list down uniquely.
pub open spec fn deltas_wf(h: Seq<i64>, rows: Seq<Vec<i64>>) -> bool {
    &&& rows.len() >= 1
    &&& rows[0]@ == h
    &&& forall|k: int|
        1 <= k < rows.len() ==> (#[trigger] rows[k]@).map_values(|v: i64| v as int) == spec_delta(
            rows[k - 1]@,
        )
    &&& forall|k: int|
        1 <= k < rows.len() ==> !all_zero((#[trigger] rows[k]@).map_values(|v: i64| v as int))
    &&& all_zero(spec_delta(rows.last()@))
}

/// Compute every difference row of a history, stopping once the next row
/// of differences is entirely zero.  The result begins with the history
/// itself, each later row is the differences of the one before it, and the
/// differences of the final row vanish.
pub fn all_deltas(h: Vec<i64>) -> (rows: Vec<Vec<i64>>)
    requires
        1 <= h@.len(),
        levels_fit(h@.map_values(|v: i64| v as int)),
    ensures
        deltas_wf(h@, rows@),
{
    let ghost orig = h@;
    let ghost orig_ints = h@.map_values(|v: i64| v as int);
    let mut rows: Vec<Vec<i64>> = Vec::new();
    let mut next_row = h;
    let mut done = false;
    proof {
        assert(next_row@.map_values(|v: i64| v as int) == delta_level(orig_ints, 0));
    }
    #[verifier::loop_isolation(false)]
    while !done
        invariant
            rows@.len() + next_row@.len() == orig.len() || (rows@.len() == 0 && next_row@ == orig),
            rows@.len() == 0 ==> next_row@ == orig,
            rows@.len() >= 1 ==> rows@[0]@ == orig,
            rows@.len() >= 1 ==> next_row@.map_values(|v: i64| v as int) == spec_delta(
                rows@.last()@,
            ),
            next_row@.map_values(|v: i64| v as int) == delta_level(
                orig_ints,
                rows@.len() as nat,
            ),
            forall|k: int|
                1 <= k < rows@.len() ==> (#[trigger] rows@[k]@).map_values(|v: i64| v as int)
                    == spec_delta(rows@[k - 1]@),
            forall|k: int|
                1 <= k < rows@.len() ==> !all_zero(
                    (#[trigger] rows@[k]@).map_values(|v: i64| v as int),
                ),
            !done && rows@.len() >= 1 ==> !all_zero(next_row@.map_values(|v: i64| v as int)),
            rows@.len() <= orig.len(),
            1 <= orig.len(),
            !done && rows@.len() >= 1 ==> next_row@.len() >= 1,
            done ==> rows@.len() >= 1 && all_zero(spec_delta(rows@.last()@)),
        decreases (if done { 0int } else { 1int }) + next_row@.len(),
    {
        let ghost level = rows@.len();
        rows.push(next_row);
        // build the next difference row
        let curr = &rows[rows.len() - 1];
        let mut nr: Vec<i64> = Vec::new();
        let mut i: usize = 1;
        proof {
            assert(curr@.map_values(|v: i64| v as int) == delta_level(orig_ints, level as nat));
            assert(delta_level(orig_ints, (level + 1) as nat) == int_delta(
                delta_level(orig_ints, level as nat),
            ));
        }
        #[verifier::loop_isolation(false)]
        while i < curr.len()
            invariant
                1 <= i <= curr@.len() || (curr@.len() == 0 && i == 1),
                nr@.len() == i - 1 || (curr@.len() == 0 && nr@.len() == 0),
                forall|t: int|
                    0 <= t < nr@.len() ==> #[trigger] nr@[t] as int == curr@[t + 1] - curr@[t],
            decreases curr@.len() - i,
        {
            proof {
                // the difference to be taken is an entry of the next
                // mathematical difference row, which the precondition
                // keeps inside the type
                assert(level + 1 <= orig_ints.len());
                assert(delta_level(orig_ints, (level + 1) as nat)[i - 1] == curr@[i as int]
                    - curr@[i - 1]);
                assert(i64::MIN <= delta_level(orig_ints, (level + 1) as nat)[i - 1]
                    <= i64::MAX);
            }
            let d = curr[i] - curr[i - 1];
            nr.push(d);
            i += 1;
        }
        let mut zeroes = true;
        let mut j: usize = 0;
        #[verifier::loop_isolation(false)]
        while j < nr.len()
            invariant
                0 <= j <= nr@.len(),
                zeroes == forall|t: int| 0 <= t < j ==> #[trigger] nr@[t] == 0i64,
            decreases nr@.len() - j,
        {
            if nr[j] != 0 {
                zeroes = false;
            }
            j += 1;
        }
        proof {
            assert(nr@.map_values(|v: i64| v as int) =~= spec_delta(rows@.last()@));
            assert(nr@.map_values(|v: i64| v as int) =~= delta_level(
                orig_ints,
                (level + 1) as nat,
            ));
            if zeroes {
                assert(all_zero(spec_delta(rows@.last()@)));
            } else {
                assert(!all_zero(spec_delta(rows@.last()@))) by {
                    let t = choose|t: int| 0 <= t < nr@.len() && nr@[t] != 0i64;
                    assert(spec_delta(rows@.last()@)[t] != 0);
                }
            }
        }
        next_row = nr;
        done = zeroes;
    }
    rows
}

/// Sum of the final entries of the rows: the extrapolated next value.
pub open spec fn spec_next(rows: Seq<Vec<i64>>) -> int
    decreases rows.len(),
{
    if rows.len() == 0 {
        0
    } else {
        spec_next(rows.drop_last()) + rows.last()@.last()
    }
}

/// Alternating combination of the first entries of the rows: the
/// extrapolated previous value.
pub open spec fn spec_prev(rows: Seq<Vec<i64>>) -> int
    decreases rows.len(),
{
    if rows.len() == 0 {
        0
    } else {
        rows[0]@[0] - spec_prev(rows.drop_first())
    }
}

/// Extrapolate the value after the history: the sum of each row's final
/// entry.
pub fn extrapolate_next_step(rows: &Vec<Vec<i64>>) -> (r: i64)
    requires
        forall|k: int| 0 <= k < rows@.len() ==> (#[trigger] rows@[k])@.len() >= 1,
        rows@.len() <= 64,
        forall|k: int, t: int|
            0 <= k < rows@.len() && 0 <= t < rows@[k]@.len() ==> -0x0100_0000_0000_0000
                <= #[trigger] rows@[k]@[t] <= 0x0100_0000_0000_0000,
    ensures
        r as int == spec_next(rows@),
{
    let mut acc: i64 = 0;
    let mut k: usize = 0;
    #[verifier::loop_isolation(false)]
    while k < rows.len()
        invariant
            0 <= k <= rows@.len(),
            acc as int == spec_next(rows@.take(k as int)),
            -(k as int) * 0x0100_0000_0000_0000 <= acc as int <= (k as int)
                * 0x0100_0000_0000_0000,
        decreases rows@.len() - k,
    {
        proof {
            assert(rows@.take(k + 1).drop_last() =~= rows@.take(k as int));
            assert(rows@.take(k + 1).last() == rows@[k as int]);
        }
        let row = &rows[k];
        acc = acc + row[row.len() - 1];
        k += 1;
    }
    proof {
        assert(rows@.take(rows@.len() as int) =~= rows@);
    }
    acc
}

/// Extrapolate the value before the history: each row's first entry minus
/// the extrapolation below it, taken from the bottom row up.
pub fn extrapolate_prev_step(rows: &Vec<Vec<i64>>) -> (r: i64)
    requires
        forall|k: int| 0 <= k < rows@.len() ==> (#[trigger] rows@[k])@.len() >= 1,
        rows@.len() <= 64,
        forall|k: int, t: int|
            0 <= k < rows@.len() && 0 <= t < rows@[k]@.len() ==> -0x0100_0000_0000_0000
                <= #[trigger] rows@[k]@[t] <= 0x0100_0000_0000_0000,
    ensures
        r as int == spec_prev(rows@),
{
    let mut acc: i64 = 0;
    let mut k: usize = rows.len();
    #[verifier::loop_isolation(false)]
    while k > 0
        invariant
            0 <= k <= rows@.len(),
            acc as int == spec_prev(rows@.skip(k as int)),
            -((rows@.len() - k) as int) * 0x0100_0000_0000_0000 <= acc as int <= ((rows@.len()
                - k) as int) * 0x0100_0000_0000_0000,
        decreases k,
    {
        k -= 1;
        proof {
            assert(rows@.skip(k as int)[0] == rows@[k as int]);
            assert(rows@.skip(k as int).drop_first() =~= rows@.skip(k + 1));
        }
        let row = &rows[k];
        acc = row[0] - acc;
    }
    proof {
        assert(rows@.skip(0) =~= rows@);
    }
    acc
}

/// What one signed decimal token denotes.
pub open spec fn spec_parse_int(p: Seq<u8>) -> Option<int> {
    if p.len() >= 2 && p[0] == 45 {
        let d = p.drop_first();
        if all_digits(d) && digits_val(d) <= 0x7fff_ffff_ffff_ffff {
            Some(-digits_val(d))
        } else {
            None
        }
    } else if p.len() >= 1 && all_digits(p) && digits_val(p) <= 0x7fff_ffff_ffff_ffff {
        Some(digits_val(p))
    } else {
        None
    }
}

/// What one line of space-separated numbers denotes.
pub open spec fn spec_parse_line(pieces: Seq<Seq<u8>>) -> Option<Seq<int>>
    decreases pieces.len(),
{
    if pieces.len() == 0 {
        Some(Seq::empty())
    } else {
        match (spec_parse_line(pieces.drop_last()), spec_parse_int(pieces.last())) {
            (Some(acc), Some(v)) => Some(acc.push(v)),
            _ => None,
        }
    }
}

proof fn lemma_parse_line_none(pieces: Seq<Seq<u8>>, i: int)
    requires
        0 <= i <= pieces.len(),
        spec_parse_line(pieces.take(i)) is None,
    ensures
        spec_parse_line(pieces) is None,
    decreases pieces.len() - i,
{
    if i < pieces.len() {
        assert(pieces.take(i + 1).drop_last() =~= pieces.take(i));
        lemma_parse_line_none(pieces, i + 1);
    } else {
        assert(pieces.take(i) =~= pieces);
    }
}

/// Parse one signed decimal token.
fn parse_int(p: &Vec<u8>) -> (r: Option<i64>)
    ensures
        match r {
            Some(v) => spec_parse_int(p@) == Some(v as int),
            None => spec_parse_int(p@) is None,
        },
{
    if p.len() >= 2 && p[0] == 45 {
        let d = crate::scan::suffix_bytes(p.as_slice(), 1);
        proof {
            assert(d@ =~= p@.drop_first());
        }
        match parse_u64(d.as_slice()) {
            Some(v) => {
                if v <= 0x7fff_ffff_ffff_ffff {
                    Some(-(v as i64))
                } else {
                    proof {
                        crate::scan::lemma_digits_val_nonneg(d@);
                    }
                    None
                }
            },
            None => {
                proof {
                    if all_digits(d@) && digits_val(d@) <= 0x7fff_ffff_ffff_ffff {
                        crate::scan::lemma_digits_val_nonneg(d@);
                    }
                }
                None
            },
        }
    } else {
        match parse_u64(p.as_slice()) {
            Some(v) => {
                if v <= 0x7fff_ffff_ffff_ffff {
                    Some(v as i64)
                } else {
                    proof {
                        crate::scan::lemma_digits_val_nonneg(p@);
                    }
                    None
                }
            },
            None => {
                proof {
                    if p@.len() >= 1 && all_digits(p@) && digits_val(p@)
                        <= 0x7fff_ffff_ffff_ffff {
                        crate::scan::lemma_digits_val_nonneg(p@);
                    }
                }
                None
            },
        }
    }
}

/// Parse one line of space-separated numbers.
pub fn parse_line(line: &str) -> (r: Option<Vec<i64>>)
    ensures
        match r {
            Some(vs) => spec_parse_line(split_on(line.spec_bytes(), 32)) matches Some(ws)
                && vs@.map_values(|v: i64| v as int) == ws,
            None => spec_parse_line(split_on(line.spec_bytes(), 32)) is None,
        },
{
    let pieces = split_bytes(line.as_bytes(), 32);
    proof {
        crate::crucible::lemma_grid_deep_view(&pieces);
    }
    let mut vs: Vec<i64> = Vec::new();
    let mut i: usize = 0;
    #[verifier::loop_isolation(false)]
    while i < pieces.len()
        invariant
            0 <= i <= pieces@.len(),
            spec_parse_line(pieces.deep_view().take(i as int)) matches Some(ws) && ws
                =~= vs@.map_values(|v: i64| v as int),
        decreases pieces@.len() - i,
    {
        proof {
            assert(pieces.deep_view().take(i + 1).drop_last() =~= pieces.deep_view().take(
                i as int,
            ));
            assert(pieces.deep_view().take(i + 1).last() == pieces.deep_view()[i as int]);
        }
        match parse_int(&pieces[i]) {
            Some(v) => {
                vs.push(v);
                proof {
                    assert(vs@.map_values(|v2: i64| v2 as int) =~= vs@.drop_last().map_values(
                        |v2: i64| v2 as int,
                    ).push(v as int));
                }
            },
            None => {
                proof {
                    lemma_parse_line_none(pieces.deep_view(), i + 1);
                }
                return None;
            },
        }
        i += 1;
    }
    proof {
        assert(pieces.deep_view().take(pieces.deep_view().len() as int) =~= pieces.deep_view());
    }
    Some(vs)
}

/// What a whole report denotes: one history per line.
pub open spec fn spec_parse(lines: Seq<Seq<u8>>) -> Option<Seq<Seq<int>>>
    decreases lines.len(),
{
    if lines.len() == 0 {
        Some(Seq::empty())
    } else {
        match (spec_parse(lines.drop_last()), spec_parse_line(split_on(lines.last(), 32))) {
            (Some(acc), Some(l)) => Some(acc.push(l)),
            _ => None,
        }
    }
}

proof fn lemma_parse_none(lines: Seq<Seq<u8>>, i: int)
    requires
        0 <= i <= lines.len(),
        spec_parse(lines.take(i)) is None,
    ensures
        spec_parse(lines) is None,
    decreases lines.len() - i,
{
    if i < lines.len() {
        assert(lines.take(i + 1).drop_last() =~= lines.take(i));
        lemma_parse_none(lines, i + 1);
    } else {
        assert(lines.take(i) =~= lines);
    }
}

/// Parse a whole report, one space-separated history per line.
pub fn parse(s: &str) -> (r: Option<Vec<Vec<i64>>>)
    ensures
        match r {
            Some(hs) => spec_parse(split_on(s.spec_bytes(), 10)) matches Some(ws) && hs@.len()
                == ws.len() && (forall|k: int|
                0 <= k < hs@.len() ==> (#[trigger] hs@[k])@.map_values(|v: i64| v as int)
                    == ws[k]),
            None => spec_parse(split_on(s.spec_bytes(), 10)) is None,
        },
{
    let lines = split_bytes(s.as_bytes(), 10);
    proof {
        crate::crucible::lemma_grid_deep_view(&lines);
    }
    let mut hs: Vec<Vec<i64>> = Vec::new();
    let mut i: usize = 0;
    #[verifier::loop_isolation(false)]
    while i < lines.len()
        invariant
            0 <= i <= lines@.len(),
            spec_parse(lines.deep_view().take(i as int)) matches Some(ws) && hs@.len() == ws.len()
                && (forall|k: int|
                0 <= k < hs@.len() ==> (#[trigger] hs@[k])@.map_values(|v: i64| v as int)
                    == ws[k]),
        decreases lines@.len() - i,
    {
        proof {
            assert(lines.deep_view().take(i + 1).drop_last() =~= lines.deep_view().take(i as int));
            assert(lines.deep_view().take(i + 1).last() == lines.deep_view()[i as int]);
        }
        let line_vec = &lines[i];
        let mut hline: Vec<i64> = Vec::new();
        let pieces = split_bytes(line_vec.as_slice(), 32);
        proof {
            crate::crucible::lemma_grid_deep_view(&pieces);
        }
        let mut j: usize = 0;
        #[verifier::loop_isolation(false)]
        while j < pieces.len()
            invariant
                0 <= j <= pieces@.len(),
                spec_parse_line(pieces.deep_view().take(j as int)) matches Some(ws) && ws
                    =~= hline@.map_values(|v: i64| v as int),
            decreases pieces@.len() - j,
        {
            proof {
                assert(pieces.deep_view().take(j + 1).drop_last() =~= pieces.deep_view().take(
                    j as int,
                ));
                assert(pieces.deep_view().take(j + 1).last() == pieces.deep_view()[j as int]);
            }
            match parse_int(&pieces[j]) {
                Some(v) => {
                    hline.push(v);
                    proof {
                        assert(hline@.map_values(|v2: i64| v2 as int)
                            =~= hline@.drop_last().map_values(|v2: i64| v2 as int).push(v as int));
                    }
                },
                None => {
                    proof {
                        lemma_parse_line_none(pieces.deep_view(), j + 1);
                        lemma_parse_none(lines.deep_view(), i + 1);
                    }
                    return None;
                },
            }
            j += 1;
        }
        proof {
            assert(pieces.deep_view().take(pieces.deep_view().len() as int)
                =~= pieces.deep_view());
        }
        hs.push(hline);
        i += 1;
    }
    proof {
        assert(lines.deep_view().take(lines.deep_view().len() as int) =~= lines.deep_view());
    }
    Some(hs)
}

} // verus!
