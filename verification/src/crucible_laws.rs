//! Laws of the bounded-run search engine, proved against the contract
//! [`crate::crucible::solve_post`] alone: determinism, monotonicity in the
//! run bound, the reachability floor of the minimum-run constraint, and the
//! boundary behaviour of single-cell and single-row grids.

use vstd::prelude::*;

use crate::crucible::{
    accept_path, accepting, gh, grid_wf, gw, is_min_accept_cost, is_start, opposite,
    path_cost, solvable, solve_post, spec_move_along, spec_step, start_node, valid_path,
    valid_step, Constraints, Dir, Node, SearchError,
};
use crate::crucible_search::{lemma_path_node_valid, lemma_valid_path_drop_last, valid_node};

verus! {

/// Two results both meeting the search contract on the same grid and
/// configuration are the same result: the engine is deterministic, because
/// the contract pins the outcome down uniquely.
pub proof fn lemma_solve_deterministic(
    g: Seq<Seq<u8>>,
    c: Constraints,
    r1: Result<u64, SearchError>,
    r2: Result<u64, SearchError>,
)
    requires
        solve_post(g, c, r1),
        solve_post(g, c, r2),
    ensures
        r1 == r2,
{
    if r1 is Ok && r2 is Ok {
        let m1 = r1->Ok_0;
        let m2 = r2->Ok_0;
        let p1 = choose|p: Seq<Node>| #[trigger] accept_path(g, c, p) && path_cost(g, p) == m1;
        let p2 = choose|p: Seq<Node>| #[trigger] accept_path(g, c, p) && path_cost(g, p) == m2;
        assert(m1 <= path_cost(g, p2));
        assert(m2 <= path_cost(g, p1));
    }
}

/// Loosening the transition rule keeps every legal step legal: any step
/// allowed under a smaller run bound is allowed under a larger one with the
/// same minimum run.
pub proof fn lemma_step_loosen(w: int, h: int, c1: Constraints, c2: Constraints, a: Node, b: Node)
    requires
        c1.min_run_before_turn == c2.min_run_before_turn,
        c1.max_run >= c2.max_run,
        valid_step(w, h, c2, a, b),
    ensures
        valid_step(w, h, c1, a, b),
{
}

/// Any valid path under the tighter configuration is valid under the looser
/// one, with the same cost and the same endpoint.
pub proof fn lemma_path_loosen(
    w: int,
    h: int,
    c1: Constraints,
    c2: Constraints,
    p: Seq<Node>,
)
    requires
        c1.min_run_before_turn == c2.min_run_before_turn,
        c1.max_run >= c2.max_run,
        valid_path(w, h, c2, p),
    ensures
        valid_path(w, h, c1, p),
{
    assert forall|i: int| 1 <= i < p.len() implies valid_step(w, h, c1, p[i - 1], #[trigger] p[i]) by {
        lemma_step_loosen(w, h, c1, c2, p[i - 1], p[i]);
    }
}

/// Monotonicity: raising `max_run` (with the same minimum run) cannot lose
/// solvability and cannot increase the minimum cost.
pub proof fn lemma_max_run_monotone(
    g: Seq<Seq<u8>>,
    c1: Constraints,
    c2: Constraints,
    r1: Result<u64, SearchError>,
    r2: Result<u64, SearchError>,
)
    requires
        c1.valid(),
        c2.valid(),
        c1.min_run_before_turn == c2.min_run_before_turn,
        c1.max_run >= c2.max_run,
        solve_post(g, c1, r1),
        solve_post(g, c2, r2),
        r2 is Ok,
    ensures
        r1 is Ok,
        r1->Ok_0 <= r2->Ok_0,
{
    let w = gw(g);
    let h = gh(g);
    // transfer the two class witnesses
    let pd = choose|p: Seq<Node>|
        #[trigger] accept_path(g, c2, p) && p.last().current_direction == Dir::Down;
    let pr = choose|p: Seq<Node>|
        #[trigger] accept_path(g, c2, p) && p.last().current_direction == Dir::Right;
    lemma_path_loosen(w, h, c1, c2, pd);
    lemma_path_loosen(w, h, c1, c2, pr);
    assert(accept_path(g, c1, pd));
    assert(accept_path(g, c1, pr));
    assert(solvable(g, c1));
    // transfer the optimum witness
    let m2 = r2->Ok_0;
    let p2 = choose|p: Seq<Node>| #[trigger] accept_path(g, c2, p) && path_cost(g, p) == m2;
    lemma_path_loosen(w, h, c1, c2, p2);
    assert(accept_path(g, c1, p2));
    assert(r1->Ok_0 <= path_cost(g, p2));
}

/// One step preserves the displacement bound on the run length.
proof fn lemma_step_displacement(w: int, h: int, c: Constraints, a: Node, b: Node)
    requires
        w <= usize::MAX,
        h <= usize::MAX,
        valid_step(w, h, c, a, b),
        valid_node(w, h, c, a),
        a.current_direction == Dir::Right ==> a.moves_in_straight_line <= a.point.x,
        a.current_direction == Dir::Left ==> a.moves_in_straight_line + a.point.x <= w - 1,
        a.current_direction == Dir::Down ==> a.moves_in_straight_line <= a.point.y,
        a.current_direction == Dir::Up ==> a.moves_in_straight_line + a.point.y <= h - 1,
    ensures
        b.current_direction == Dir::Right ==> b.moves_in_straight_line <= b.point.x,
        b.current_direction == Dir::Left ==> b.moves_in_straight_line + b.point.x <= w - 1,
        b.current_direction == Dir::Down ==> b.moves_in_straight_line <= b.point.y,
        b.current_direction == Dir::Up ==> b.moves_in_straight_line + b.point.y <= h - 1,
{
    let d = b.current_direction;
    assert(spec_step(w, h, c, a, d) == Some(b));
    if d == opposite(a.current_direction) {
        assert(false);
    } else if d == a.current_direction {
        assert(spec_move_along(w, h, a.point, d, (a.moves_in_straight_line + 1) as u8) == Some(b));
        assert(b.moves_in_straight_line == a.moves_in_straight_line + 1);
    } else {
        assert(spec_move_along(w, h, a.point, d, 1u8) == Some(b));
        assert(b.moves_in_straight_line == 1);
    }
    match d {
        Dir::Right => assert(b.point.x == a.point.x + 1 && b.point.y == a.point.y),
        Dir::Left => assert(b.point.x == a.point.x - 1 && b.point.y == a.point.y),
        Dir::Down => assert(b.point.y == a.point.y + 1 && b.point.x == a.point.x),
        Dir::Up => assert(b.point.y == a.point.y - 1 && b.point.x == a.point.x),
    }
}

/// In a valid path, the final run was taken entirely in the final heading,
/// so its length is bounded by the displacement available in that heading.
#[verifier::rlimit(100)]
#[verifier::spinoff_prover]
pub proof fn lemma_run_displacement(w: int, h: int, c: Constraints, p: Seq<Node>)
    requires
        1 <= w <= usize::MAX,
        1 <= h <= usize::MAX,
        c.valid(),
        valid_path(w, h, c, p),
    ensures
        p.last().current_direction == Dir::Right ==> p.last().moves_in_straight_line
            <= p.last().point.x,
        p.last().current_direction == Dir::Left ==> p.last().moves_in_straight_line + p.last().point.x
            <= w - 1,
        p.last().current_direction == Dir::Down ==> p.last().moves_in_straight_line
            <= p.last().point.y,
        p.last().current_direction == Dir::Up ==> p.last().moves_in_straight_line + p.last().point.y
            <= h - 1,
    decreases p.len(),
{
    if p.len() == 1 {
        assert(is_start(p[0]));
    } else {
        lemma_valid_path_drop_last(w, h, c, p);
        lemma_run_displacement(w, h, c, p.drop_last());
        lemma_path_node_valid(w, h, c, p, p.len() - 2);
        assert(p.drop_last().last() == p[p.len() - 2]);
        lemma_step_displacement(w, h, c, p.drop_last().last(), p.last());
    }
}

/// Reachability floor: when the straight-line Manhattan path length is less
/// than the minimum run, no accepting state exists at all, and the search
/// reports `NoPathFound`.
pub proof fn lemma_reachability_floor(
    g: Seq<Seq<u8>>,
    c: Constraints,
    r: Result<u64, SearchError>,
)
    requires
        grid_wf(g),
        gw(g) <= usize::MAX,
        gh(g) <= usize::MAX,
        c.valid(),
        (gw(g) - 1) + (gh(g) - 1) < c.min_run_before_turn,
        solve_post(g, c, r),
    ensures
        r == Err::<u64, SearchError>(SearchError::NoPathFound),
{
    let w = gw(g);
    let h = gh(g);
    assert forall|p: Seq<Node>| !(#[trigger] accept_path(g, c, p)) by {
        if accept_path(g, c, p) {
            lemma_run_displacement(w, h, c, p);
            let n = p.last();
            assert(n.point.x == w - 1 && n.point.y == h - 1);
            assert(n.moves_in_straight_line >= c.min_run_before_turn);
        }
    }
    if solvable(g, c) {
        let p = choose|p: Seq<Node>|
            #[trigger] accept_path(g, c, p) && p.last().current_direction == Dir::Down;
        assert(false);
    }
    if r is Ok {
        let m = r->Ok_0;
        assert(is_min_accept_cost(g, c, m as int));
        let p = choose|p: Seq<Node>| #[trigger] accept_path(g, c, p) && path_cost(g, p) == m as int;
        assert(false);
    }
}

/// On a single-cell grid no step is legal, so the only valid paths are the
/// two start states themselves.
#[verifier::rlimit(100)]
#[verifier::spinoff_prover]
pub proof fn lemma_single_cell_paths(g: Seq<Seq<u8>>, c: Constraints, p: Seq<Node>)
    requires
        gw(g) == 1,
        gh(g) == 1,
        valid_path(gw(g), gh(g), c, p),
    ensures
        p.len() == 1,
        is_start(p[0]),
        path_cost(g, p) == 0,
    decreases p.len(),
{
    if p.len() >= 2 {
        lemma_valid_path_drop_last(gw(g), gh(g), c, p);
        lemma_single_cell_paths(g, c, p.drop_last());
        let a = p.drop_last().last();
        let b = p.last();
        assert(a.point.x == 0 && a.point.y == 0);
        assert(spec_step(1, 1, c, a, b.current_direction) == Some(b));
        match b.current_direction {
            Dir::Up => assert(a.point.y >= 1),
            Dir::Down => assert(a.point.y + 1 < 1),
            Dir::Left => assert(a.point.x >= 1),
            Dir::Right => assert(a.point.x + 1 < 1),
        }
    }
}

/// Single-cell boundary: a one-by-one grid accepts immediately at cost zero
/// when a zero-length path satisfies the minimum-run constraint, and
/// rejects otherwise.
pub proof fn lemma_single_cell(g: Seq<Seq<u8>>, c: Constraints, r: Result<u64, SearchError>)
    requires
        grid_wf(g),
        c.valid(),
        gw(g) == 1,
        gh(g) == 1,
        solve_post(g, c, r),
    ensures
        c.min_run_before_turn == 0 ==> r == Ok::<u64, SearchError>(0),
        c.min_run_before_turn >= 1 ==> r == Err::<u64, SearchError>(SearchError::NoPathFound),
{
    if c.min_run_before_turn == 0 {
        let pd = seq![start_node(Dir::Down)];
        let pr = seq![start_node(Dir::Right)];
        assert(valid_path(1, 1, c, pd));
        assert(valid_path(1, 1, c, pr));
        assert(accepting(g, c, pd.last()));
        assert(accepting(g, c, pr.last()));
        assert(accept_path(g, c, pd) && pd.last().current_direction == Dir::Down);
        assert(accept_path(g, c, pr) && pr.last().current_direction == Dir::Right);
        assert(solvable(g, c));
        assert(r is Ok);
        let m = r->Ok_0;
        let pm = choose|p: Seq<Node>| #[trigger] accept_path(g, c, p) && path_cost(g, p) == m as int;
        lemma_single_cell_paths(g, c, pm);
        assert(m as int <= path_cost(g, pd));
        assert(m == 0);
    } else {
        assert forall|p: Seq<Node>| !(#[trigger] accept_path(g, c, p)) by {
            if accept_path(g, c, p) {
                lemma_single_cell_paths(g, c, p);
                assert(p.last().moves_in_straight_line == 0);
            }
        }
        if solvable(g, c) {
            let p = choose|p: Seq<Node>|
                #[trigger] accept_path(g, c, p) && p.last().current_direction == Dir::Down;
            assert(false);
        }
        if r is Ok {
            let m = r->Ok_0;
            let p = choose|p: Seq<Node>|
                #[trigger] accept_path(g, c, p) && path_cost(g, p) == m as int;
            assert(false);
        }
    }
}

/// Degenerate corridor: on a single-row strip with a positive minimum run,
/// the target cannot be entered from above, so the entry-heading classes
/// can never both be satisfied and the search rejects.
pub proof fn lemma_strip_rejects(g: Seq<Seq<u8>>, c: Constraints, r: Result<u64, SearchError>)
    requires
        grid_wf(g),
        gw(g) <= usize::MAX,
        c.valid(),
        gh(g) == 1,
        c.min_run_before_turn >= 1,
        solve_post(g, c, r),
    ensures
        r == Err::<u64, SearchError>(SearchError::NoPathFound),
{
    let w = gw(g);
    let h = gh(g);
    assert forall|p: Seq<Node>|
        !(#[trigger] accept_path(g, c, p) && p.last().current_direction == Dir::Down) by {
        if accept_path(g, c, p) && p.last().current_direction == Dir::Down {
            lemma_run_displacement(w, h, c, p);
            let n = p.last();
            assert(n.point.y == h - 1);
            assert(n.moves_in_straight_line == 0);
            assert(n.moves_in_straight_line >= c.min_run_before_turn);
        }
    }
    assert(!solvable(g, c));
    if r is Ok {
        assert(solvable(g, c));
    }
}

} // verus!
