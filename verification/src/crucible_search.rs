//! The search engine: Dijkstra-style relaxation over the augmented state
//! space of [`crate::crucible`], with the frontier of [`crate::frontier`].
//!
//! The proof follows the classical argument.  Finalized states carry their
//! true minimal cost; the frontier always holds, for every valid path that
//! leaves the finalized region, a state of that path at no greater cost
//! (the cut lemma); popping a minimal entry therefore finalizes a state at
//! its exact distance.  The search stops once both entry-heading classes of
//! the target have produced a finalized accepting state, and the first
//! accepting state popped already carries the global minimum.

use vstd::prelude::*;

use crate::crucible::{
    accept_path, accepting, cost_of, fits, gh, grid_wf, gw, is_min_accept_cost, is_start,
    path_cost, solvable, solve_post, start_node, valid_path, valid_step, Constraints, Dir, Grid,
    Node, Point, SearchError,
};
use crate::frontier::{
    frontier_entries, frontier_get, frontier_new, frontier_pop, frontier_push, Frontier, StateKey,
};
use std::collections::HashMap;

verus! {

/// A node whose coordinates lie on the grid and whose run respects the
/// configured maximum.
pub open spec fn valid_node(w: int, h: int, c: Constraints, n: Node) -> bool {
    &&& n.point.x < w
    &&& n.point.y < h
    &&& n.moves_in_straight_line <= c.max_run
}

/// Index of a heading, used by the two state encodings.
pub open spec fn dir_index(d: Dir) -> int {
    match d {
        Dir::Up => 0,
        Dir::Down => 1,
        Dir::Left => 2,
        Dir::Right => 3,
    }
}

/// The frontier key of a node: its fields as plain integers.
pub open spec fn spec_key(n: Node) -> StateKey {
    (
        n.point.x as u64,
        n.point.y as u64,
        dir_index(n.current_direction) as u64,
        n.moves_in_straight_line as u64,
    )
}

/// The visited-table key of a node: its fields packed into one integer.
/// Injective over nodes with `x < w`.
#[verifier::opaque]
pub open spec fn enc(w: int, n: Node) -> int {
    ((n.point.y * w + n.point.x) * 4 + dir_index(n.current_direction)) * 256
        + n.moves_in_straight_line
}

/// Upper bound of the packed encoding over an entire `w` by `h` grid.
#[verifier::opaque]
pub open spec fn enc_bound(w: int, h: int) -> int {
    w * h * 1024
}

/// Some valid path ends at `n` with total cost `cost`.
pub open spec fn reaches(g: Seq<Seq<u8>>, c: Constraints, n: Node, cost: int) -> bool {
    exists|p: Seq<Node>|
        #[trigger] valid_path(gw(g), gh(g), c, p) && p.last() == n && path_cost(g, p) == cost
}

pub proof fn lemma_key_injective(a: Node, b: Node)
    requires
        spec_key(a) == spec_key(b),
    ensures
        a == b,
{
    assert(dir_index(a.current_direction) == dir_index(b.current_direction));
    assert(a.current_direction == b.current_direction);
}

pub proof fn lemma_cell_index_bound(w: int, h: int, x: int, y: int)
    requires
        0 <= x < w,
        0 <= y < h,
    ensures
        0 <= y * w + x < w * h,
{
    assert(y * w + x < w * h) by (nonlinear_arith)
        requires
            0 <= x < w,
            0 <= y < h,
    ;
    assert(y * w + x >= 0) by (nonlinear_arith)
        requires
            0 <= x,
            0 <= y,
            0 <= w,
    ;
}

pub proof fn lemma_enc_bounds(w: int, h: int, c: Constraints, n: Node)
    requires
        n.point.x < w,
        n.point.y < h,
    ensures
        0 <= enc(w, n) < enc_bound(w, h),
{
    reveal(enc);
    reveal(enc_bound);
    lemma_cell_index_bound(w, h, n.point.x as int, n.point.y as int);
    let cell = n.point.y * w + n.point.x;
    let d = dir_index(n.current_direction);
    assert(cell * 1024 <= (w * h - 1) * 1024) by (nonlinear_arith)
        requires
            cell <= w * h - 1,
    ;
    assert((cell * 4 + d) * 256 == cell * 1024 + d * 256) by (nonlinear_arith);
    assert(enc(w, n) == cell * 1024 + d * 256 + n.moves_in_straight_line);
    assert(0 <= d <= 3);
    assert(cell * 1024 >= 0) by (nonlinear_arith)
        requires
            cell >= 0,
    ;
}

pub proof fn lemma_enc_injective(w: int, a: Node, b: Node)
    requires
        0 <= a.point.x < w,
        0 <= b.point.x < w,
        enc(w, a) == enc(w, b),
    ensures
        a == b,
{
    reveal(enc);
    let ca = a.point.y * w + a.point.x;
    let cb = b.point.y * w + b.point.x;
    let da = dir_index(a.current_direction);
    let db = dir_index(b.current_direction);
    assert((ca * 4 + da) * 256 + a.moves_in_straight_line == (cb * 4 + db) * 256
        + b.moves_in_straight_line);
    assert(ca * 4 + da == cb * 4 + db && a.moves_in_straight_line == b.moves_in_straight_line) by {
        assert(0 <= a.moves_in_straight_line < 256);
        assert(0 <= b.moves_in_straight_line < 256);
    }
    assert(ca == cb && da == db);
    assert(a.point.y == b.point.y && a.point.x == b.point.x) by (nonlinear_arith)
        requires
            ca == cb,
            ca == a.point.y * w + a.point.x,
            cb == b.point.y * w + b.point.x,
            0 <= a.point.x < w,
            0 <= b.point.x < w,
            0 <= a.point.y,
            0 <= b.point.y,
    ;
    assert(a.current_direction == b.current_direction);
}

/// Under the `fits` size bound the packed encoding stays inside `u64`,
/// so casting it to `u64` and back is the identity.
pub proof fn lemma_enc_u64(w: int, h: int, c: Constraints, n: Node)
    requires
        fits(w, h),
        n.point.x < w,
        n.point.y < h,
    ensures
        0 <= enc(w, n) < enc_bound(w, h),
        enc_bound(w, h) <= 0x1000_0000_0000_0000,
        (enc(w, n) as u64) as int == enc(w, n),
{
    lemma_enc_bounds(w, h, c, n);
    reveal(enc_bound);
    assert(w * h * 1024 <= 0x4_0000_0000_0000 * 1024) by (nonlinear_arith)
        requires
            w * h <= 0x4_0000_0000_0000,
    ;
}

/// A finite set of integers below `bound` has at most `bound` elements.
pub proof fn lemma_u64_set_card(s: Set<u64>, bound: u64)
    requires
        s.finite(),
        forall|k: u64| s.contains(k) ==> k < bound,
    ensures
        s.len() <= bound,
    decreases bound,
{
    if bound == 0 {
        if s.len() > 0 {
            let k = s.choose();
            assert(s.contains(k));
        }
    } else {
        let top = (bound - 1) as u64;
        let s2 = s.remove(top);
        assert(forall|k: u64| s2.contains(k) ==> k < top);
        lemma_u64_set_card(s2, top);
        if s.contains(top) {
            assert(s =~= s2.insert(top));
        } else {
            assert(s =~= s2);
        }
    }
}

/// One legal step preserves node validity.
pub proof fn lemma_step_valid(w: int, h: int, c: Constraints, a: Node, b: Node)
    requires
        c.valid(),
        valid_node(w, h, c, a),
        valid_step(w, h, c, a, b),
    ensures
        valid_node(w, h, c, b),
{
}

/// Every node of a valid path is valid.
pub proof fn lemma_path_node_valid(w: int, h: int, c: Constraints, p: Seq<Node>, i: int)
    requires
        w >= 1,
        h >= 1,
        c.valid(),
        valid_path(w, h, c, p),
        0 <= i < p.len(),
    ensures
        valid_node(w, h, c, p[i]),
    decreases i,
{
    if i > 0 {
        lemma_path_node_valid(w, h, c, p, i - 1);
        lemma_step_valid(w, h, c, p[i - 1], p[i]);
    }
}

/// Path costs are sums of digit entries, hence non-negative.
pub proof fn lemma_path_cost_nonneg(g: Seq<Seq<u8>>, p: Seq<Node>)
    ensures
        path_cost(g, p) >= 0,
    decreases p.len(),
{
    if p.len() > 1 {
        lemma_path_cost_nonneg(g, p.drop_last());
    }
}

/// Dropping the last node of a longer valid path leaves a valid path.
pub proof fn lemma_valid_path_drop_last(w: int, h: int, c: Constraints, p: Seq<Node>)
    requires
        valid_path(w, h, c, p),
        p.len() >= 2,
    ensures
        valid_path(w, h, c, p.drop_last()),
        valid_step(w, h, c, p.drop_last().last(), p.last()),
{
    let q = p.drop_last();
    assert(q[0] == p[0]);
    assert(forall|i: int| 1 <= i < q.len() ==> q[i - 1] == p[i - 1] && #[trigger] q[i] == p[i]);
    assert(q.last() == p[p.len() - 2]);
}

/// Appending a legal step to a valid path gives a valid path, and its cost
/// grows by the entry cost of the new cell.
pub proof fn lemma_valid_path_push(
    w: int,
    h: int,
    c: Constraints,
    g: Seq<Seq<u8>>,
    p: Seq<Node>,
    m: Node,
)
    requires
        valid_path(w, h, c, p),
        valid_step(w, h, c, p.last(), m),
    ensures
        valid_path(w, h, c, p.push(m)),
        p.push(m).last() == m,
        path_cost(g, p.push(m)) == path_cost(g, p) + cost_of(g, m.point),
{
    let q = p.push(m);
    assert(q[0] == p[0]);
    assert(forall|i: int| 1 <= i < q.len() - 1 ==> q[i - 1] == p[i - 1] && #[trigger] q[i] == p[i]);
    assert(q[q.len() - 2] == p.last());
    assert(q.drop_last() =~= p);
}

/// The single-node path at a start state: cost zero.
pub proof fn lemma_reaches_start(g: Seq<Seq<u8>>, c: Constraints, d: Dir)
    requires
        d == Dir::Down || d == Dir::Right,
    ensures
        reaches(g, c, start_node(d), 0),
{
    let p = seq![start_node(d)];
    assert(valid_path(gw(g), gh(g), c, p));
    assert(path_cost(g, p) == 0);
}

/// Extending a reached node by one legal step reaches the successor.
pub proof fn lemma_reaches_step(
    g: Seq<Seq<u8>>,
    c: Constraints,
    n: Node,
    cost: int,
    m: Node,
)
    requires
        reaches(g, c, n, cost),
        valid_step(gw(g), gh(g), c, n, m),
    ensures
        reaches(g, c, m, cost + cost_of(g, m.point)),
{
    let p = choose|p: Seq<Node>|
        #[trigger] valid_path(gw(g), gh(g), c, p) && p.last() == n && path_cost(g, p) == cost;
    lemma_valid_path_push(gw(g), gh(g), c, g, p, m);
    assert(valid_path(gw(g), gh(g), c, p.push(m)));
}

/// Finalized keys decode to valid nodes via the packed encoding.
pub open spec fn inv_decode(
    g: Seq<Seq<u8>>,
    c: Constraints,
    vm: Map<u64, u64>,
    fin: Map<u64, Node>,
) -> bool {
    &&& fin.dom() == vm.dom()
    &&& forall|k: u64|
        #[trigger] fin.dom().contains(k) ==> valid_node(gw(g), gh(g), c, fin[k]) && enc(
            gw(g),
            fin[k],
        ) == k as int
}

/// Finalized costs are minimal over all valid paths.
pub open spec fn inv_minimal(g: Seq<Seq<u8>>, c: Constraints, vm: Map<u64, u64>) -> bool {
    forall|q: Seq<Node>|
        #[trigger] valid_path(gw(g), gh(g), c, q) && vm.dom().contains(
            enc(gw(g), q.last()) as u64,
        ) ==> vm[enc(gw(g), q.last()) as u64] <= path_cost(g, q)
}

/// Each start state is finalized or queued at cost zero.
pub open spec fn inv_starts(
    g: Seq<Seq<u8>>,
    vm: Map<u64, u64>,
    fm: Map<StateKey, u64>,
) -> bool {
    &&& (vm.dom().contains(enc(gw(g), start_node(Dir::Down)) as u64) || (fm.dom().contains(
        spec_key(start_node(Dir::Down)),
    ) && fm[spec_key(start_node(Dir::Down))] == 0))
    &&& (vm.dom().contains(enc(gw(g), start_node(Dir::Right)) as u64) || (fm.dom().contains(
        spec_key(start_node(Dir::Right)),
    ) && fm[spec_key(start_node(Dir::Right))] == 0))
}

/// The finalized region is closed: every successor of a finalized node is
/// finalized or queued at no more than the step's relaxed cost.
pub open spec fn inv_closed(
    g: Seq<Seq<u8>>,
    c: Constraints,
    vm: Map<u64, u64>,
    fin: Map<u64, Node>,
    fm: Map<StateKey, u64>,
) -> bool {
    forall|k: u64, m: Node|
        #[trigger] fin.dom().contains(k) && #[trigger] valid_step(gw(g), gh(g), c, fin[k], m)
            ==> vm.dom().contains(enc(gw(g), m) as u64) || (fm.dom().contains(spec_key(m))
            && fm[spec_key(m)] <= vm[k] + cost_of(g, m.point))
}

/// Frontier keys decode to valid, unfinalized nodes whose queued cost is
/// achieved by some path.
pub open spec fn inv_frontier(
    g: Seq<Seq<u8>>,
    c: Constraints,
    vm: Map<u64, u64>,
    fm: Map<StateKey, u64>,
    fn_: Map<StateKey, Node>,
) -> bool {
    &&& fn_.dom() == fm.dom()
    &&& forall|k4: StateKey|
        #[trigger] fn_.dom().contains(k4) ==> valid_node(gw(g), gh(g), c, fn_[k4]) && spec_key(
            fn_[k4],
        ) == k4 && !vm.dom().contains(enc(gw(g), fn_[k4]) as u64) && reaches(
            g,
            c,
            fn_[k4],
            fm[k4] as int,
        )
}

/// Every finalized cost is achieved by some path.
pub open spec fn inv_reached(
    g: Seq<Seq<u8>>,
    c: Constraints,
    vm: Map<u64, u64>,
    fin: Map<u64, Node>,
) -> bool {
    forall|k: u64| #[trigger] fin.dom().contains(k) ==> reaches(g, c, fin[k], vm[k] as int)
}

/// Every finalized cost is at most every frontier cost, frontier costs are
/// bounded (so relaxation cannot overflow), and finalized keys lie below
/// the packed bound.
pub open spec fn inv_costs(
    g: Seq<Seq<u8>>,
    vm: Map<u64, u64>,
    fm: Map<StateKey, u64>,
) -> bool {
    &&& forall|k: u64, k4: StateKey|
        #[trigger] vm.dom().contains(k) && #[trigger] fm.dom().contains(k4) ==> vm[k] <= fm[k4]
    &&& forall|k4: StateKey|
        #[trigger] fm.dom().contains(k4) ==> fm[k4] <= 9 * (vm.dom().len() + 1)
    &&& forall|k: u64| #[trigger] vm.dom().contains(k) ==> k < enc_bound(gw(g), gh(g))
    &&& vm.dom().finite()
}

/// The whole loop invariant over the visited table `vm`, its ghost node map
/// `fin`, the frontier map `fm` and its ghost node map `fn_`.
pub open spec fn search_inv(
    g: Seq<Seq<u8>>,
    c: Constraints,
    vm: Map<u64, u64>,
    fin: Map<u64, Node>,
    fm: Map<StateKey, u64>,
    fn_: Map<StateKey, Node>,
) -> bool {
    &&& inv_decode(g, c, vm, fin)
    &&& inv_minimal(g, c, vm)
    &&& inv_starts(g, vm, fm)
    &&& inv_closed(g, c, vm, fin, fm)
    &&& inv_frontier(g, c, vm, fm, fn_)
    &&& inv_reached(g, c, vm, fin)
    &&& inv_costs(g, vm, fm)
}

/// A start state that is not finalized is queued at cost zero.
proof fn lemma_cut_start(
    g: Seq<Seq<u8>>,
    vm: Map<u64, u64>,
    fm: Map<StateKey, u64>,
    n: Node,
)
    requires
        inv_starts(g, vm, fm),
        is_start(n),
        !vm.dom().contains(enc(gw(g), n) as u64),
    ensures
        fm.dom().contains(spec_key(n)) && fm[spec_key(n)] == 0,
{
}

/// One step out of the finalized region lands in the frontier, at no more
/// than the finalized cost plus the step's entry cost.
proof fn lemma_cut_visited_step(
    g: Seq<Seq<u8>>,
    c: Constraints,
    vm: Map<u64, u64>,
    fin: Map<u64, Node>,
    fm: Map<StateKey, u64>,
    a: Node,
    m: Node,
)
    requires
        gw(g) >= 1,
        gh(g) >= 1,
        fits(gw(g), gh(g)),
        c.valid(),
        inv_decode(g, c, vm, fin),
        inv_closed(g, c, vm, fin, fm),
        valid_node(gw(g), gh(g), c, a),
        vm.dom().contains(enc(gw(g), a) as u64),
        valid_step(gw(g), gh(g), c, a, m),
        !vm.dom().contains(enc(gw(g), m) as u64),
    ensures
        fm.dom().contains(spec_key(m)),
        fm[spec_key(m)] <= vm[enc(gw(g), a) as u64] + cost_of(g, m.point),
{
    let w = gw(g);
    let h = gh(g);
    let ka = enc(w, a) as u64;
    lemma_enc_u64(w, h, c, a);
    assert(fin.dom().contains(ka));
    assert(enc(w, fin[ka]) == ka as int);
    lemma_enc_injective(w, fin[ka], a);
    assert(fin[ka] == a);
    assert(valid_step(w, h, c, fin[ka], m));
    assert(vm.dom().contains(enc(w, m) as u64) || (fm.dom().contains(spec_key(m))
        && fm[spec_key(m)] <= vm[ka] + cost_of(g, m.point)));
}

/// The cut lemma: while a valid path's endpoint is unfinalized, the
/// frontier holds some state of that path at no greater cost.
#[verifier::rlimit(100)]
#[verifier::spinoff_prover]
pub proof fn lemma_frontier_cut(
    g: Seq<Seq<u8>>,
    c: Constraints,
    vm: Map<u64, u64>,
    fin: Map<u64, Node>,
    fm: Map<StateKey, u64>,
    p: Seq<Node>,
)
    requires
        gw(g) >= 1,
        gh(g) >= 1,
        fits(gw(g), gh(g)),
        c.valid(),
        inv_decode(g, c, vm, fin),
        inv_minimal(g, c, vm),
        inv_starts(g, vm, fm),
        inv_closed(g, c, vm, fin, fm),
        valid_path(gw(g), gh(g), c, p),
        !vm.dom().contains(enc(gw(g), p.last()) as u64),
    ensures
        exists|k4: StateKey|
            #[trigger] fm.dom().contains(k4) && fm[k4] <= path_cost(g, p),
    decreases p.len(),
{
    let w = gw(g);
    let h = gh(g);
    if p.len() == 1 {
        assert(is_start(p[0]));
        lemma_cut_start(g, vm, fm, p[0]);
        assert(path_cost(g, p) == 0);
        assert(fm.dom().contains(spec_key(p[0])) && fm[spec_key(p[0])] <= path_cost(g, p));
    } else {
        lemma_valid_path_drop_last(w, h, c, p);
        let q = p.drop_last();
        let m = p.last();
        lemma_path_cost_nonneg(g, q);
        assert(path_cost(g, p) == path_cost(g, q) + cost_of(g, m.point));
        let a = q.last();
        let ka = enc(w, a) as u64;
        if vm.dom().contains(ka) {
            lemma_path_node_valid(w, h, c, q, q.len() - 1);
            lemma_cut_visited_step(g, c, vm, fin, fm, a, m);
            // finalized costs are minimal: vm[ka] is at most the cost of q
            assert(vm[ka] <= path_cost(g, q));
            assert(fm.dom().contains(spec_key(m)) && fm[spec_key(m)] <= path_cost(g, p));
        } else {
            lemma_frontier_cut(g, c, vm, fin, fm, q);
            let k4 = choose|k4: StateKey|
                #[trigger] fm.dom().contains(k4) && fm[k4] <= path_cost(g, q);
            assert(fm.dom().contains(k4) && fm[k4] <= path_cost(g, p));
        }
    }
}


/// When a minimal frontier entry is popped, its cost is the true minimum
/// over every valid path to its node.
#[verifier::spinoff_prover]
pub proof fn lemma_pop_minimality(
    g: Seq<Seq<u8>>,
    c: Constraints,
    vm: Map<u64, u64>,
    fin: Map<u64, Node>,
    fm: Map<StateKey, u64>,
    n: Node,
    cost: u64,
)
    requires
        gw(g) >= 1,
        gh(g) >= 1,
        fits(gw(g), gh(g)),
        c.valid(),
        inv_decode(g, c, vm, fin),
        inv_minimal(g, c, vm),
        inv_starts(g, vm, fm),
        inv_closed(g, c, vm, fin, fm),
        !vm.dom().contains(enc(gw(g), n) as u64),
        forall|k2: StateKey| #[trigger] fm.dom().contains(k2) ==> cost <= fm[k2],
    ensures
        forall|q: Seq<Node>|
            #[trigger] valid_path(gw(g), gh(g), c, q) && q.last() == n ==> cost <= path_cost(g, q),
{
    let w = gw(g);
    let h = gh(g);
    assert forall|q: Seq<Node>|
        #[trigger] valid_path(w, h, c, q) && q.last() == n implies cost <= path_cost(g, q) by {
        lemma_frontier_cut(g, c, vm, fin, fm, q);
        let k4 = choose|k4: StateKey|
            #[trigger] fm.dom().contains(k4) && fm[k4] <= path_cost(g, q);
        assert(cost <= fm[k4]);
    }
}

/// When the frontier is exhausted, no valid path leads to an unfinalized
/// node; an entry-heading class with no finalized accepting state therefore
/// has no accepting path at all.
#[verifier::spinoff_prover]
pub proof fn lemma_exhaustion(
    g: Seq<Seq<u8>>,
    c: Constraints,
    vm: Map<u64, u64>,
    fin: Map<u64, Node>,
    fm: Map<StateKey, u64>,
    d: Dir,
)
    requires
        gw(g) >= 1,
        gh(g) >= 1,
        fits(gw(g), gh(g)),
        c.valid(),
        inv_decode(g, c, vm, fin),
        inv_minimal(g, c, vm),
        inv_starts(g, vm, fm),
        inv_closed(g, c, vm, fin, fm),
        fm.dom() =~= Set::empty(),
        forall|k: u64|
            #[trigger] fin.dom().contains(k) ==> !(accepting(g, c, fin[k])
                && fin[k].current_direction == d),
    ensures
        forall|p: Seq<Node>|
            #[trigger] accept_path(g, c, p) ==> p.last().current_direction != d,
{
    let w = gw(g);
    let h = gh(g);
    assert forall|p: Seq<Node>|
        #[trigger] accept_path(g, c, p) implies p.last().current_direction != d by {
        let last = p.last();
        lemma_path_node_valid(w, h, c, p, p.len() - 1);
        lemma_enc_u64(w, h, c, last);
        let k = enc(w, last) as u64;
        if vm.dom().contains(k) {
            assert(fin.dom().contains(k));
            lemma_enc_injective(w, fin[k], last);
            assert(fin[k] == last);
            assert(!(accepting(g, c, last) && last.current_direction == d));
        } else {
            lemma_frontier_cut(g, c, vm, fin, fm, p);
            let k4 = choose|k4: StateKey|
                #[trigger] fm.dom().contains(k4) && fm[k4] <= path_cost(g, p);
            assert(false);
        }
    }
}

/// Once an accepting state is finalized at cost `b`, minimal among all
/// finalized accepting states, `b` is a lower bound on the cost of every
/// accepting path.
#[verifier::spinoff_prover]
pub proof fn lemma_min_over_accepting(
    g: Seq<Seq<u8>>,
    c: Constraints,
    vm: Map<u64, u64>,
    fin: Map<u64, Node>,
    fm: Map<StateKey, u64>,
    b: u64,
)
    requires
        gw(g) >= 1,
        gh(g) >= 1,
        fits(gw(g), gh(g)),
        c.valid(),
        inv_decode(g, c, vm, fin),
        inv_minimal(g, c, vm),
        inv_starts(g, vm, fm),
        inv_closed(g, c, vm, fin, fm),
        inv_costs(g, vm, fm),
        exists|k: u64| #[trigger] vm.dom().contains(k) && vm[k] == b,
        forall|k: u64|
            #[trigger] fin.dom().contains(k) && accepting(g, c, fin[k]) ==> b <= vm[k],
    ensures
        forall|p: Seq<Node>| #[trigger] accept_path(g, c, p) ==> b <= path_cost(g, p),
{
    let w = gw(g);
    let h = gh(g);
    assert forall|p: Seq<Node>| #[trigger] accept_path(g, c, p) implies b <= path_cost(
        g,
        p,
    ) by {
        let last = p.last();
        lemma_path_node_valid(w, h, c, p, p.len() - 1);
        lemma_enc_u64(w, h, c, last);
        let k = enc(w, last) as u64;
        if vm.dom().contains(k) {
            assert(fin.dom().contains(k));
            lemma_enc_injective(w, fin[k], last);
            assert(fin[k] == last);
            assert(b <= vm[k]);
            assert(vm[k] <= path_cost(g, p));
        } else {
            lemma_frontier_cut(g, c, vm, fin, fm, p);
            let k4 = choose|k4: StateKey|
                #[trigger] fm.dom().contains(k4) && fm[k4] <= path_cost(g, p);
            let kw = choose|k: u64| #[trigger] vm.dom().contains(k) && vm[k] == b;
            assert(vm[kw] <= fm[k4]);
        }
    }
}


/// The frontier key of a node, as executable code.
fn state_key(n: &Node) -> (k: StateKey)
    ensures
        k == spec_key(*n),
{
    let d: u64 = match n.current_direction {
        Dir::Up => 0,
        Dir::Down => 1,
        Dir::Left => 2,
        Dir::Right => 3,
    };
    (n.point.x as u64, n.point.y as u64, d, n.moves_in_straight_line as u64)
}

/// The node behind a frontier key.
fn key_to_node(k: StateKey) -> (n: Node)
    requires
        k.0 <= usize::MAX as u64,
        k.1 <= usize::MAX as u64,
        k.2 <= 3,
        k.3 <= 255,
    ensures
        spec_key(n) == k,
{
    let d = match k.2 {
        0 => Dir::Up,
        1 => Dir::Down,
        2 => Dir::Left,
        _ => Dir::Right,
    };
    Node {
        point: Point { x: k.0 as usize, y: k.1 as usize },
        moves_in_straight_line: k.3 as u8,
        current_direction: d,
    }
}

/// The packed visited-table key of a node, as executable code.
fn enc_key(n: &Node, width: usize, height: usize) -> (k: u64)
    requires
        fits(width as int, height as int),
        n.point.x < width,
        n.point.y < height,
    ensures
        k as int == enc(width as int, *n),
        k < enc_bound(width as int, height as int),
{
    proof {
        reveal(enc);
        lemma_enc_u64(
            width as int,
            height as int,
            Constraints { max_run: 255, min_run_before_turn: 0 },
            *n,
        );
        lemma_cell_index_bound(
            width as int,
            height as int,
            n.point.x as int,
            n.point.y as int,
        );
    }
    let d: u64 = match n.current_direction {
        Dir::Up => 0,
        Dir::Down => 1,
        Dir::Left => 2,
        Dir::Right => 3,
    };
    let cell: u64 = (n.point.y as u64) * (width as u64) + (n.point.x as u64);
    (cell * 4 + d) * 256 + (n.moves_in_straight_line as u64)
}


/// The closure invariant during expansion of a newly finalized node: every
/// successor obligation holds, except that successors of the node behind
/// `ek` may instead still be waiting in `ns[j..]`.
pub open spec fn closed_except(
    g: Seq<Seq<u8>>,
    c: Constraints,
    vm: Map<u64, u64>,
    fin: Map<u64, Node>,
    fm: Map<StateKey, u64>,
    ek: u64,
    ns: Seq<Node>,
    j: int,
) -> bool {
    forall|k: u64, m: Node|
        #[trigger] fin.dom().contains(k) && #[trigger] valid_step(gw(g), gh(g), c, fin[k], m)
            ==> vm.dom().contains(enc(gw(g), m) as u64) || (fm.dom().contains(spec_key(m))
            && fm[spec_key(m)] <= vm[k] + cost_of(g, m.point)) || (k == ek && exists|jj: int|
            j <= jj < ns.len() && #[trigger] ns[jj] == m)
}

/// Finalizing a popped minimal entry re-establishes every loop invariant,
/// with the closure obligation deferred to the popped node's neighbour
/// list.
#[verifier::rlimit(100)]
#[verifier::spinoff_prover]
pub proof fn lemma_finalize(
    g: Seq<Seq<u8>>,
    c: Constraints,
    vm0: Map<u64, u64>,
    fin0: Map<u64, Node>,
    fm0: Map<StateKey, u64>,
    fnodes0: Map<StateKey, Node>,
    k4: StateKey,
    cost: u64,
    n: Node,
    ek: u64,
    ns: Seq<Node>,
)
    requires
        grid_wf(g),
        fits(gw(g), gh(g)),
        c.valid(),
        search_inv(g, c, vm0, fin0, fm0, fnodes0),
        fm0.contains_pair(k4, cost),
        forall|k2: StateKey| #[trigger] fm0.dom().contains(k2) ==> cost <= fm0[k2],
        fnodes0.dom().contains(k4),
        n == fnodes0[k4],
        ek as int == enc(gw(g), n),
        forall|q: Seq<Node>|
            #[trigger] valid_path(gw(g), gh(g), c, q) && q.last() == n ==> cost <= path_cost(g, q),
        forall|m: Node| ns.contains(m) <==> valid_step(gw(g), gh(g), c, n, m),
    ensures
        inv_decode(g, c, vm0.insert(ek, cost), fin0.insert(ek, n)),
        inv_minimal(g, c, vm0.insert(ek, cost)),
        inv_starts(g, vm0.insert(ek, cost), fm0.remove(k4)),
        inv_frontier(g, c, vm0.insert(ek, cost), fm0.remove(k4), fnodes0.remove(k4)),
        inv_reached(g, c, vm0.insert(ek, cost), fin0.insert(ek, n)),
        inv_costs(g, vm0.insert(ek, cost), fm0.remove(k4)),
        closed_except(g, c, vm0.insert(ek, cost), fin0.insert(ek, n), fm0.remove(k4), ek, ns, 0),
        vm0.insert(ek, cost).dom().len() == vm0.dom().len() + 1,
        forall|k: u64|
            #[trigger] vm0.insert(ek, cost).dom().contains(k) ==> vm0.insert(ek, cost)[k] <= cost,
        cost <= 9 * vm0.insert(ek, cost).dom().len(),
        valid_node(gw(g), gh(g), c, n),
{
    let w = gw(g);
    let h = gh(g);
    let vm1 = vm0.insert(ek, cost);
    let fin1 = fin0.insert(ek, n);
    let fm1 = fm0.remove(k4);
    let fnodes1 = fnodes0.remove(k4);
    assert(valid_node(w, h, c, n) && spec_key(n) == k4 && !vm0.dom().contains(enc(w, n) as u64));
    lemma_enc_u64(w, h, c, n);
    assert(enc(w, n) as u64 == ek);
    assert(!vm0.dom().contains(ek));
    assert(vm1.dom() =~= vm0.dom().insert(ek));
    assert(vm1.dom().len() == vm0.dom().len() + 1);
    // decode
    assert(fin1.dom() =~= vm1.dom());
    // minimality
    assert forall|q: Seq<Node>|
        #[trigger] valid_path(w, h, c, q) && vm1.dom().contains(enc(w, q.last()) as u64) implies vm1[enc(
        w,
        q.last(),
    ) as u64] <= path_cost(g, q) by {
        lemma_path_node_valid(w, h, c, q, q.len() - 1);
        lemma_enc_u64(w, h, c, q.last());
        let kq = enc(w, q.last()) as u64;
        if kq == ek {
            lemma_enc_injective(w, q.last(), n);
            assert(q.last() == n);
        } else {
            assert(vm0.dom().contains(kq));
        }
    }
    // starts
    assert forall|d: Dir| d == Dir::Down || d == Dir::Right implies vm1.dom().contains(
        enc(w, start_node(d)) as u64,
    ) || (fm1.dom().contains(spec_key(start_node(d))) && fm1[spec_key(start_node(d))] == 0) by {
        let sn = start_node(d);
        if !vm0.dom().contains(enc(w, sn) as u64) {
            assert(fm0.dom().contains(spec_key(sn)) && fm0[spec_key(sn)] == 0);
            if spec_key(sn) == k4 {
                lemma_key_injective(sn, n);
                assert(vm1.dom().contains(enc(w, sn) as u64));
            }
        }
    }
    assert(inv_starts(g, vm1, fm1));
    // frontier
    assert forall|k4b: StateKey| #[trigger] fnodes1.dom().contains(k4b) implies valid_node(
        w,
        h,
        c,
        fnodes1[k4b],
    ) && spec_key(fnodes1[k4b]) == k4b && !vm1.dom().contains(enc(w, fnodes1[k4b]) as u64)
        && reaches(g, c, fnodes1[k4b], fm1[k4b] as int) by {
        assert(fnodes0.dom().contains(k4b));
        let nb = fnodes0[k4b];
        lemma_enc_u64(w, h, c, nb);
        if enc(w, nb) as u64 == ek {
            lemma_enc_injective(w, nb, n);
            assert(k4b == k4);
            assert(false);
        }
    }
    assert(inv_frontier(g, c, vm1, fm1, fnodes1));
    // reached
    assert(reaches(g, c, n, cost as int));
    // costs
    assert forall|k: u64, k4b: StateKey|
        #[trigger] vm1.dom().contains(k) && #[trigger] fm1.dom().contains(k4b) implies vm1[k]
        <= fm1[k4b] by {
        if k != ek {
            assert(vm0[k] <= fm0[k4b]);
        }
    }
    lemma_enc_u64(w, h, c, n);
    assert(inv_costs(g, vm1, fm1));
    // closure, deferred for ek
    assert forall|k: u64, m: Node|
        #[trigger] fin1.dom().contains(k) && #[trigger] valid_step(w, h, c, fin1[k], m)
            implies vm1.dom().contains(enc(w, m) as u64) || (fm1.dom().contains(spec_key(m))
        && fm1[spec_key(m)] <= vm1[k] + cost_of(g, m.point)) || (k == ek && exists|jj: int|
        0 <= jj < ns.len() && #[trigger] ns[jj] == m) by {
        if k == ek {
            assert(fin1[k] == n);
            assert(ns.contains(m));
            let jj = choose|jj: int| 0 <= jj < ns.len() && ns[jj] == m;
            assert(0 <= jj < ns.len() && ns[jj] == m);
        } else {
            assert(fin0.dom().contains(k) && fin0[k] == fin1[k]);
            assert(vm0.dom().contains(enc(w, m) as u64) || (fm0.dom().contains(spec_key(m))
                && fm0[spec_key(m)] <= vm0[k] + cost_of(g, m.point)));
            if !vm0.dom().contains(enc(w, m) as u64) && fm0.dom().contains(spec_key(m)) {
                if spec_key(m) == k4 {
                    lemma_key_injective(m, n);
                    assert(m == n);
                    assert(vm1.dom().contains(enc(w, m) as u64));
                }
            }
        }
    }
    // bounds carried out of the pop
    assert forall|k: u64| #[trigger] vm1.dom().contains(k) implies vm1[k] <= cost by {
        if k != ek {
            assert(vm0[k] <= fm0[k4]);
        }
    }
    assert(cost <= 9 * (vm0.dom().len() + 1));
}


/// Skipping an already-finalized neighbour advances the deferred closure
/// obligation by one position.
#[verifier::spinoff_prover]
pub proof fn lemma_skip_neighbour(
    g: Seq<Seq<u8>>,
    c: Constraints,
    vm: Map<u64, u64>,
    fin: Map<u64, Node>,
    fm: Map<StateKey, u64>,
    ek: u64,
    ns: Seq<Node>,
    j: int,
)
    requires
        closed_except(g, c, vm, fin, fm, ek, ns, j),
        0 <= j < ns.len(),
        vm.dom().contains(enc(gw(g), ns[j]) as u64),
    ensures
        closed_except(g, c, vm, fin, fm, ek, ns, j + 1),
{
    let w = gw(g);
    let h = gh(g);
    assert forall|k: u64, m: Node|
        #[trigger] fin.dom().contains(k) && #[trigger] valid_step(w, h, c, fin[k], m)
            implies vm.dom().contains(enc(w, m) as u64) || (fm.dom().contains(spec_key(m))
        && fm[spec_key(m)] <= vm[k] + cost_of(g, m.point)) || (k == ek && exists|jj: int|
        j + 1 <= jj < ns.len() && #[trigger] ns[jj] == m) by {
        if !vm.dom().contains(enc(w, m) as u64) && !(fm.dom().contains(spec_key(m))
            && fm[spec_key(m)] <= vm[k] + cost_of(g, m.point)) {
            let jj = choose|jj: int| j <= jj < ns.len() && ns[jj] == m;
            if jj == j {
                assert(m == ns[j]);
                assert(false);
            } else {
                assert(j + 1 <= jj < ns.len() && ns[jj] == m);
            }
        }
    }
}

/// Relaxing an unfinalized neighbour: pushing the improved cost keeps every
/// frontier invariant and advances the deferred closure obligation.
#[verifier::rlimit(100)]
#[verifier::spinoff_prover]
pub proof fn lemma_relax(
    g: Seq<Seq<u8>>,
    c: Constraints,
    vm: Map<u64, u64>,
    fin: Map<u64, Node>,
    fm: Map<StateKey, u64>,
    fnodes: Map<StateKey, Node>,
    ek: u64,
    n: Node,
    ns: Seq<Node>,
    j: int,
    nc: u64,
    newc: u64,
)
    requires
        grid_wf(g),
        fits(gw(g), gh(g)),
        c.valid(),
        inv_frontier(g, c, vm, fm, fnodes),
        inv_starts(g, vm, fm),
        inv_costs(g, vm, fm),
        closed_except(g, c, vm, fin, fm, ek, ns, j),
        0 <= j < ns.len(),
        forall|m2: Node| ns.contains(m2) <==> valid_step(gw(g), gh(g), c, n, m2),
        fin.dom().contains(ek),
        fin[ek] == n,
        vm.dom().contains(ek),
        ek as int == enc(gw(g), n),
        valid_node(gw(g), gh(g), c, n),
        !vm.dom().contains(enc(gw(g), ns[j]) as u64),
        nc == vm[ek] + cost_of(g, ns[j].point),
        reaches(g, c, ns[j], nc as int),
        fm.dom().contains(spec_key(ns[j])) ==> newc == (if fm[spec_key(ns[j])] < nc {
            fm[spec_key(ns[j])]
        } else {
            nc
        }),
        !fm.dom().contains(spec_key(ns[j])) ==> newc == nc,
        forall|k: u64| #[trigger] vm.dom().contains(k) ==> vm[k] <= vm[ek],
        vm[ek] <= 9 * vm.dom().len(),
    ensures
        inv_frontier(g, c, vm, fm.insert(spec_key(ns[j]), newc), fnodes.insert(spec_key(ns[j]), ns[j])),
        inv_starts(g, vm, fm.insert(spec_key(ns[j]), newc)),
        inv_costs(g, vm, fm.insert(spec_key(ns[j]), newc)),
        closed_except(g, c, vm, fin, fm.insert(spec_key(ns[j]), newc), ek, ns, j + 1),
{
    let w = gw(g);
    let h = gh(g);
    let m = ns[j];
    let mk = spec_key(m);
    let fmk = fm.insert(mk, newc);
    let fnk = fnodes.insert(mk, m);
    assert(ns.contains(m));
    assert(valid_step(w, h, c, n, m));
    lemma_step_valid(w, h, c, n, m);
    // the new entry's cost is achieved: either by the relaxing path or by
    // the path already recorded for the queued entry
    if fm.dom().contains(mk) {
        assert(fnodes.dom().contains(mk));
        lemma_key_injective(fnodes[mk], m);
        assert(fnodes[mk] == m);
        assert(reaches(g, c, m, fm[mk] as int));
    }
    assert(reaches(g, c, m, newc as int));
    // frontier invariant
    assert forall|k4: StateKey| #[trigger] fnk.dom().contains(k4) implies valid_node(w, h, c, fnk[k4])
        && spec_key(fnk[k4]) == k4 && !vm.dom().contains(enc(w, fnk[k4]) as u64) && reaches(
        g,
        c,
        fnk[k4],
        fmk[k4] as int,
    ) by {
        if k4 != mk {
            assert(fnodes.dom().contains(k4));
        }
    }
    assert(fnk.dom() =~= fmk.dom());
    assert(inv_frontier(g, c, vm, fmk, fnk));
    // starts: a start entry can only be replaced by itself at cost zero
    assert forall|d: Dir| d == Dir::Down || d == Dir::Right implies vm.dom().contains(
        enc(w, start_node(d)) as u64,
    ) || (fmk.dom().contains(spec_key(start_node(d))) && fmk[spec_key(start_node(d))] == 0) by {
        let sn = start_node(d);
        if !vm.dom().contains(enc(w, sn) as u64) {
            assert(fm.dom().contains(spec_key(sn)) && fm[spec_key(sn)] == 0);
            if spec_key(sn) == mk {
                assert(newc == 0);
            }
        }
    }
    assert(inv_starts(g, vm, fmk));
    // costs
    lemma_path_cost_nonneg(g, seq![m]);
    assert(cost_of(g, m.point) >= 0);
    assert(cost_of(g, m.point) <= 9);
    assert forall|k: u64, k4: StateKey|
        #[trigger] vm.dom().contains(k) && #[trigger] fmk.dom().contains(k4) implies vm[k]
        <= fmk[k4] by {
        if k4 == mk {
            assert(vm[k] <= vm[ek]);
            assert(nc >= vm[ek]);
        } else {
            assert(fm.dom().contains(k4));
        }
    }
    assert forall|k4: StateKey| #[trigger] fmk.dom().contains(k4) implies fmk[k4] <= 9 * (
    vm.dom().len() + 1) by {
        if k4 == mk {
            assert(nc <= 9 * vm.dom().len() + 9);
        } else {
            assert(fm.dom().contains(k4));
        }
    }
    assert(inv_costs(g, vm, fmk));
    // closure obligation advances
    assert forall|k: u64, m2: Node|
        #[trigger] fin.dom().contains(k) && #[trigger] valid_step(w, h, c, fin[k], m2)
            implies vm.dom().contains(enc(w, m2) as u64) || (fmk.dom().contains(spec_key(m2))
        && fmk[spec_key(m2)] <= vm[k] + cost_of(g, m2.point)) || (k == ek && exists|jj: int|
        j + 1 <= jj < ns.len() && #[trigger] ns[jj] == m2) by {
        if !vm.dom().contains(enc(w, m2) as u64) {
            if fm.dom().contains(spec_key(m2)) && fm[spec_key(m2)] <= vm[k] + cost_of(g, m2.point) {
                if spec_key(m2) == mk {
                    // the entry was only ever lowered
                    assert(newc <= fm[mk]);
                    lemma_key_injective(m2, m);
                    assert(fmk[spec_key(m2)] <= vm[k] + cost_of(g, m2.point));
                } else {
                    assert(fmk[spec_key(m2)] == fm[spec_key(m2)]);
                }
            } else {
                let jj = choose|jj: int| j <= jj < ns.len() && ns[jj] == m2;
                if jj == j {
                    assert(m2 == m);
                    assert(fmk[spec_key(m2)] == newc);
                    assert(newc <= nc);
                    assert(k == ek);
                    assert(fin[k] == n);
                    assert(nc == vm[ek] + cost_of(g, m.point));
                } else {
                    assert(j + 1 <= jj < ns.len() && ns[jj] == m2);
                }
            }
        }
    }
}


/// The class flags record exactly whether some finalized state is accepting
/// with the given entry heading.
pub open spec fn flags_inv(
    g: Seq<Seq<u8>>,
    c: Constraints,
    fin: Map<u64, Node>,
    have_down: bool,
    have_right: bool,
) -> bool {
    &&& (have_down <==> exists|k: u64|
        #[trigger] fin.dom().contains(k) && accepting(g, c, fin[k]) && fin[k].current_direction
            == Dir::Down)
    &&& (have_right <==> exists|k: u64|
        #[trigger] fin.dom().contains(k) && accepting(g, c, fin[k]) && fin[k].current_direction
            == Dir::Right)
}

/// `best` is the minimum finalized cost over accepting states, when any.
pub open spec fn best_inv(
    g: Seq<Seq<u8>>,
    c: Constraints,
    vm: Map<u64, u64>,
    fin: Map<u64, Node>,
    best: Option<u64>,
) -> bool {
    match best {
        None => forall|k: u64| #[trigger] fin.dom().contains(k) ==> !accepting(g, c, fin[k]),
        Some(b) => {
            &&& exists|k: u64|
                #[trigger] fin.dom().contains(k) && accepting(g, c, fin[k]) && vm[k] == b
            &&& forall|k: u64|
                #[trigger] fin.dom().contains(k) && accepting(g, c, fin[k]) ==> b <= vm[k]
        },
    }
}

impl Grid {
    /// Minimum-cost bounded-run path search from the top-left to the
    /// bottom-right cell.
    ///
    /// Rejects a self-contradictory configuration up front.  Otherwise runs
    /// Dijkstra-style relaxation over (cell, heading, run) states and
    /// returns the minimal total entry cost over all accepting paths, once
    /// both entry-heading classes of the target have produced an accepting
    /// state; if the frontier is exhausted first, the target is not
    /// reachable in both classes and the search reports `NoPathFound`.
    #[verifier::rlimit(100)]
    pub fn solve(&self, cons: Constraints) -> (r: Result<u64, SearchError>)
        requires
            self.wf(),
            fits(gw(self@), gh(self@)),
        ensures
            solve_post(self@, cons, r),
    {
        broadcast use vstd::std_specs::hash::group_hash_axioms;

        if cons.max_run == 0 || cons.min_run_before_turn > cons.max_run {
            return Err(SearchError::InvalidConstraints);
        }
        let width = self.width;
        let height = self.height;
        let ghost g = self@;
        let ghost w = gw(g);
        let ghost h = gh(g);
        let mut queue: Frontier = frontier_new();
        let mut visited: HashMap<u64, u64> = HashMap::new();
        let ghost mut fin: Map<u64, Node> = Map::empty();
        let ghost mut fnodes: Map<StateKey, Node> = Map::empty();
        let start_down = Node {
            point: Point { x: 0, y: 0 },
            moves_in_straight_line: 0,
            current_direction: Dir::Down,
        };
        let start_right = Node {
            point: Point { x: 0, y: 0 },
            moves_in_straight_line: 0,
            current_direction: Dir::Right,
        };
        let kd = state_key(&start_down);
        let kr = state_key(&start_right);
        frontier_push(&mut queue, kd, 0);
        frontier_push(&mut queue, kr, 0);
        proof {
            fnodes = fnodes.insert(spec_key(start_down), start_down);
            fnodes = fnodes.insert(spec_key(start_right), start_right);
            lemma_reaches_start(g, cons, Dir::Down);
            lemma_reaches_start(g, cons, Dir::Right);
            lemma_enc_u64(w, h, cons, start_down);
            assert(fnodes.dom() =~= frontier_entries(queue).dom());
            assert(fin.dom() =~= visited@.dom());
            assert(search_inv(g, cons, visited@, fin, frontier_entries(queue), fnodes));
        }
        let mut have_down = false;
        let mut have_right = false;
        let mut best: Option<u64> = None;
        loop
            invariant_except_break
                self.wf(),
                cons.valid(),
                fits(w, h),
                g == self@,
                w == gw(g),
                h == gh(g),
                width as int == w,
                height as int == h,
                search_inv(g, cons, visited@, fin, frontier_entries(queue), fnodes),
                flags_inv(g, cons, fin, have_down, have_right),
                best_inv(g, cons, visited@, fin, best),
                !(have_down && have_right),
                visited@.dom().len() <= enc_bound(w, h),
            ensures
                !solvable(g, cons),
            decreases enc_bound(w, h) - visited@.dom().len(),
        {
            let ghost fm0 = frontier_entries(queue);
            let popped = frontier_pop(&mut queue);
            match popped {
                None => {
                    proof {
                        let vmx = visited@;
                        if !have_down {
                            assert forall|k: u64| #[trigger] fin.dom().contains(k) implies !(
                            accepting(g, cons, fin[k]) && fin[k].current_direction
                                == Dir::Down) by {
                                if accepting(g, cons, fin[k]) && fin[k].current_direction
                                    == Dir::Down {
                                    assert(have_down);
                                }
                            }
                            lemma_exhaustion(g, cons, vmx, fin, fm0, Dir::Down);
                            if solvable(g, cons) {
                                let p = choose|p: Seq<Node>|
                                    #[trigger] accept_path(g, cons, p)
                                        && p.last().current_direction == Dir::Down;
                                assert(false);
                            }
                        } else {
                            assert(!have_right);
                            assert forall|k: u64| #[trigger] fin.dom().contains(k) implies !(
                            accepting(g, cons, fin[k]) && fin[k].current_direction
                                == Dir::Right) by {
                                if accepting(g, cons, fin[k]) && fin[k].current_direction
                                    == Dir::Right {
                                    assert(have_right);
                                }
                            }
                            lemma_exhaustion(g, cons, vmx, fin, fm0, Dir::Right);
                            if solvable(g, cons) {
                                let p = choose|p: Seq<Node>|
                                    #[trigger] accept_path(g, cons, p)
                                        && p.last().current_direction == Dir::Right;
                                assert(false);
                            }
                        }
                    }
                    break;
                },
                Some((k4, cost)) => {
                    let ghost vm0 = visited@;
                    let ghost fin0 = fin;
                    let ghost fnodes0 = fnodes;
                    let ghost n = fnodes0[k4];
                    proof {
                        assert(fnodes0.dom().contains(k4));
                        assert(valid_node(w, h, cons, n) && spec_key(n) == k4);
                        assert(k4.0 <= usize::MAX as u64 && k4.1 <= usize::MAX as u64);
                        assert(k4.2 <= 3 && k4.3 <= 255);
                        lemma_pop_minimality(g, cons, vm0, fin0, fm0, n, cost);
                    }
                    let node = key_to_node(k4);
                    proof {
                        lemma_key_injective(node, n);
                    }
                    let ek = enc_key(&node, width, height);
                    let ns = node.neighbours(cons, width, height);
                    visited.insert(ek, cost);
                    proof {
                        fin = fin0.insert(ek, n);
                        fnodes = fnodes0.remove(k4);
                        lemma_finalize(g, cons, vm0, fin0, fm0, fnodes0, k4, cost, n, ek, ns@);
                        assert(visited@ == vm0.insert(ek, cost));
                        lemma_enc_u64(w, h, cons, n);
                        lemma_u64_set_card(visited@.dom(), enc_bound(w, h) as u64);
                    }
                    let mut j: usize = 0;
                    #[verifier::loop_isolation(false)]
                    while j < ns.len()
                        invariant
                            0 <= j <= ns@.len(),
                            inv_frontier(g, cons, visited@, frontier_entries(queue), fnodes),
                            inv_starts(g, visited@, frontier_entries(queue)),
                            inv_costs(g, visited@, frontier_entries(queue)),
                            closed_except(
                                g,
                                cons,
                                visited@,
                                fin,
                                frontier_entries(queue),
                                ek,
                                ns@,
                                j as int,
                            ),
                        decreases ns@.len() - j,
                    {
                        let m = ns[j];
                        proof {
                            assert(ns@.contains(m));
                            lemma_step_valid(w, h, cons, n, m);
                        }
                        let mek = enc_key(&m, width, height);
                        if !visited.contains_key(&mek) {
                            let wcost = self.cost_at(m.point);
                            proof {
                                assert(cost <= 9 * visited@.dom().len());
                                assert(visited@.dom().len() <= enc_bound(w, h));
                                assert(enc_bound(w, h) <= 0x1000_0000_0000_0000);
                            }
                            let nc = cost + (wcost as u64);
                            let mk4 = state_key(&m);
                            let cur = frontier_get(&queue, mk4);
                            let newc = match cur {
                                Some(c0) => if c0 < nc {
                                    c0
                                } else {
                                    nc
                                },
                                None => nc,
                            };
                            proof {
                                assert(visited@[ek] == cost);
                                lemma_reaches_step(g, cons, n, cost as int, m);
                                lemma_relax(
                                    g,
                                    cons,
                                    visited@,
                                    fin,
                                    frontier_entries(queue),
                                    fnodes,
                                    ek,
                                    n,
                                    ns@,
                                    j as int,
                                    nc,
                                    newc,
                                );
                                fnodes = fnodes.insert(spec_key(m), m);
                            }
                            frontier_push(&mut queue, mk4, newc);
                        } else {
                            proof {
                                lemma_skip_neighbour(
                                    g,
                                    cons,
                                    visited@,
                                    fin,
                                    frontier_entries(queue),
                                    ek,
                                    ns@,
                                    j as int,
                                );
                            }
                        }
                        j += 1;
                    }
                    proof {
                        assert forall|k: u64, m: Node|
                            #[trigger] fin.dom().contains(k) && #[trigger] valid_step(
                                w,
                                h,
                                cons,
                                fin[k],
                                m,
                            ) implies visited@.dom().contains(enc(w, m) as u64) || (
                        frontier_entries(queue).dom().contains(spec_key(m)) && frontier_entries(
                            queue,
                        )[spec_key(m)] <= visited@[k] + cost_of(g, m.point)) by {
                            if !(visited@.dom().contains(enc(w, m) as u64) || (frontier_entries(
                                queue,
                            ).dom().contains(spec_key(m)) && frontier_entries(queue)[spec_key(m)]
                                <= visited@[k] + cost_of(g, m.point))) {
                                let jj = choose|jj: int|
                                    ns@.len() <= jj < ns@.len() && ns@[jj] == m;
                                assert(false);
                            }
                        }
                        assert(inv_closed(g, cons, visited@, fin, frontier_entries(queue)));
                    }
                    // acceptance bookkeeping
                    let is_acc = node.point.x == width - 1 && node.point.y == height - 1
                        && node.moves_in_straight_line >= cons.min_run_before_turn;
                    proof {
                        assert(is_acc == accepting(g, cons, n));
                    }
                    if is_acc {
                        best = match best {
                            None => Some(cost),
                            Some(b) => if cost < b {
                                Some(cost)
                            } else {
                                Some(b)
                            },
                        };
                        match node.current_direction {
                            Dir::Down => {
                                have_down = true;
                            },
                            Dir::Right => {
                                have_right = true;
                            },
                            _ => {},
                        }
                    }
                    proof {
                        let vm1 = visited@;
                        assert(fin.dom().contains(ek) && fin[ek] == n && vm1[ek] == cost);
                        // flags
                        if have_down {
                            assert(exists|k: u64|
                                #[trigger] fin.dom().contains(k) && accepting(g, cons, fin[k])
                                    && fin[k].current_direction == Dir::Down) by {
                                if !(is_acc && n.current_direction == Dir::Down) {
                                    let k0 = choose|k: u64|
                                        #[trigger] fin0.dom().contains(k) && accepting(
                                            g,
                                            cons,
                                            fin0[k],
                                        ) && fin0[k].current_direction == Dir::Down;
                                    assert(fin.dom().contains(k0) && fin[k0] == fin0[k0]);
                                }
                            }
                        } else {
                            assert forall|k: u64|
                                #[trigger] fin.dom().contains(k) implies !(accepting(
                                g,
                                cons,
                                fin[k],
                            ) && fin[k].current_direction == Dir::Down) by {
                                if k != ek {
                                    assert(fin0.dom().contains(k) && fin[k] == fin0[k]);
                                }
                            }
                        }
                        if have_right {
                            assert(exists|k: u64|
                                #[trigger] fin.dom().contains(k) && accepting(g, cons, fin[k])
                                    && fin[k].current_direction == Dir::Right) by {
                                if !(is_acc && n.current_direction == Dir::Right) {
                                    let k0 = choose|k: u64|
                                        #[trigger] fin0.dom().contains(k) && accepting(
                                            g,
                                            cons,
                                            fin0[k],
                                        ) && fin0[k].current_direction == Dir::Right;
                                    assert(fin.dom().contains(k0) && fin[k0] == fin0[k0]);
                                }
                            }
                        } else {
                            assert forall|k: u64|
                                #[trigger] fin.dom().contains(k) implies !(accepting(
                                g,
                                cons,
                                fin[k],
                            ) && fin[k].current_direction == Dir::Right) by {
                                if k != ek {
                                    assert(fin0.dom().contains(k) && fin[k] == fin0[k]);
                                }
                            }
                        }
                        assert(flags_inv(g, cons, fin, have_down, have_right));
                        // best
                        match best {
                            None => {
                                assert forall|k: u64|
                                    #[trigger] fin.dom().contains(k) implies !accepting(
                                    g,
                                    cons,
                                    fin[k],
                                ) by {
                                    if k != ek {
                                        assert(fin0.dom().contains(k) && fin[k] == fin0[k]);
                                    }
                                }
                            },
                            Some(b) => {
                                assert(exists|k: u64|
                                    #[trigger] fin.dom().contains(k) && accepting(g, cons, fin[k])
                                        && vm1[k] == b) by {
                                    if is_acc && b == cost {
                                        assert(fin.dom().contains(ek) && accepting(g, cons, fin[ek])
                                            && vm1[ek] == b);
                                    } else {
                                        let k0 = choose|k: u64|
                                            #[trigger] fin0.dom().contains(k) && accepting(
                                                g,
                                                cons,
                                                fin0[k],
                                            ) && vm0[k] == b;
                                        assert(fin.dom().contains(k0) && fin[k0] == fin0[k0]
                                            && vm1[k0] == vm0[k0]);
                                    }
                                }
                                assert forall|k: u64|
                                    #[trigger] fin.dom().contains(k) && accepting(g, cons, fin[k])
                                        implies b <= vm1[k] by {
                                    if k != ek {
                                        assert(fin0.dom().contains(k) && fin[k] == fin0[k]
                                            && vm1[k] == vm0[k]);
                                    }
                                }
                            },
                        }
                        assert(best_inv(g, cons, vm1, fin, best));
                    }
                    if have_down && have_right {
                        proof {
                            let vmr = visited@;
                            let fmr = frontier_entries(queue);
                            let ka = choose|k: u64|
                                #[trigger] fin.dom().contains(k) && accepting(g, cons, fin[k])
                                    && fin[k].current_direction == Dir::Down;
                            let kb = choose|k: u64|
                                #[trigger] fin.dom().contains(k) && accepting(g, cons, fin[k])
                                    && fin[k].current_direction == Dir::Right;
                            let pa = choose|p: Seq<Node>|
                                #[trigger] valid_path(w, h, cons, p) && p.last() == fin[ka]
                                    && path_cost(g, p) == vmr[ka] as int;
                            let pb = choose|p: Seq<Node>|
                                #[trigger] valid_path(w, h, cons, p) && p.last() == fin[kb]
                                    && path_cost(g, p) == vmr[kb] as int;
                            assert(accept_path(g, cons, pa) && pa.last().current_direction
                                == Dir::Down);
                            assert(accept_path(g, cons, pb) && pb.last().current_direction
                                == Dir::Right);
                            assert(solvable(g, cons));
                        }
                        match best {
                            Some(b) => {
                                proof {
                                    let vmr = visited@;
                                    let fmr = frontier_entries(queue);
                                    let kc = choose|k: u64|
                                        #[trigger] fin.dom().contains(k) && accepting(
                                            g,
                                            cons,
                                            fin[k],
                                        ) && vmr[k] == b;
                                    let pc = choose|p: Seq<Node>|
                                        #[trigger] valid_path(w, h, cons, p) && p.last() == fin[kc]
                                            && path_cost(g, p) == vmr[kc] as int;
                                    assert(accept_path(g, cons, pc) && path_cost(g, pc) == b as int);
                                    lemma_min_over_accepting(g, cons, vmr, fin, fmr, b);
                                    assert(is_min_accept_cost(g, cons, b as int));
                                }
                                return Ok(b);
                            },
                            None => {
                                proof {
                                    let kz = choose|k: u64|
                                        #[trigger] fin.dom().contains(k) && accepting(
                                            g,
                                            cons,
                                            fin[k],
                                        ) && fin[k].current_direction == Dir::Down;
                                    assert(false);
                                }
                                return Err(SearchError::NoPathFound);
                            },
                        }
                    }
                },
            }
        }
        Err(SearchError::NoPathFound)
    }
}


impl Grid {
    /// The unconstrained-minimum search: runs of at most three, no minimum
    /// run before turning.
    pub fn q1(&self) -> (r: Result<u64, SearchError>)
        requires
            self.wf(),
            fits(gw(self@), gh(self@)),
        ensures
            solve_post(self@, Constraints { max_run: 3, min_run_before_turn: 0 }, r),
    {
        self.solve(Constraints { max_run: 3, min_run_before_turn: 0 })
    }

    /// The minimum-run search: runs of at most ten, at least four straight
    /// steps before a turn, also at the goal cell.
    pub fn q2(&self) -> (r: Result<u64, SearchError>)
        requires
            self.wf(),
            fits(gw(self@), gh(self@)),
        ensures
            solve_post(self@, Constraints { max_run: 10, min_run_before_turn: 4 }, r),
    {
        self.solve(Constraints { max_run: 10, min_run_before_turn: 4 })
    }
}

} // verus!
