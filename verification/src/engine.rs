//! The search engine: pops the best pending state, stops at the goal, expands
//! successors, relaxes the frontier, and answers with the accumulated cost or
//! with unreachability. One engine serves both strategies: plain lowest-cost
//! order (Dijkstra) and goal-distance-augmented order, chosen by the
//! `Heuristic` policy parameter.
//!
//! What is proved here: the engine terminates on every input; a returned cost
//! is realized by a legal route (every run within the length window, turning
//! between runs, in bounds, costs summed exactly); unreachability is reported
//! exactly when no legal route exists; and under a consistent ordering — the
//! zero heuristic always, the goal-distance heuristic on grids of positive
//! cells — the returned cost is minimal over all legal routes and the
//! priorities leave the frontier in non-decreasing order. Two runs whose
//! outcomes are pinned this way agree, whatever the tie-breaking
//! (`lemma_pinned_outcomes_agree`).
use vstd::prelude::*;

use vstd::arithmetic::div_mod::lemma_fundamental_div_mod_converse;
use vstd::arithmetic::mul::{lemma_mul_inequality, lemma_mul_nonnegative};

use crate::frontier::{frontier_entries, Frontier};
use crate::grid::{Coordinate, GridError, GridModel};
use crate::state::{
    axis_allowed, dir_dx, dir_dy, move_ok, move_run_ok, run_dest_in_bounds, run_move, run_sum,
    Axis, Move, SearchState,
};
use crate::state::lemma_run_sum_bound;

verus! {

/// The pluggable ordering policy: `Zero` explores in plain accumulated-cost
/// order (Dijkstra); `Manhattan` adds the Manhattan distance to the goal for
/// an A*-style order.
#[derive(Clone, Copy, PartialEq, Eq, Debug, Structural)]
pub enum Heuristic {
    Zero,
    Manhattan,
}

/// One search request: endpoints and the run-length window.
#[derive(Clone, Copy, PartialEq, Eq, Debug, Structural)]
pub struct SearchParameters {
    pub start: Coordinate,
    pub end: Coordinate,
    pub min_run: usize,
    pub max_run: usize,
}

/// Distance between two values on one axis.
pub open spec fn dist1(a: int, b: int) -> int {
    if a >= b {
        a - b
    } else {
        b - a
    }
}

/// Manhattan distance between two cells.
pub open spec fn manhattan(a: Coordinate, b: Coordinate) -> int {
    dist1(a.x as int, b.x as int) + dist1(a.y as int, b.y as int)
}

/// The priority bonus a state gets under the chosen policy.
pub open spec fn spec_h(params: SearchParameters, heuristic: Heuristic, pos: Coordinate) -> int {
    match heuristic {
        Heuristic::Zero => 0,
        Heuristic::Manhattan => manhattan(pos, params.end),
    }
}

/// `b` follows `a` by one legal run of length `d` in the given direction.
pub open spec fn step_run_ok(
    g: GridModel,
    min_run: usize,
    max_run: usize,
    a: SearchState,
    b: SearchState,
    positive: bool,
    d: int,
) -> bool {
    &&& axis_allowed(a.axis, b.axis)
    &&& min_run <= d <= max_run
    &&& b.pos.x == a.pos.x + d * dir_dx(b.axis, positive)
    &&& b.pos.y == a.pos.y + d * dir_dy(b.axis, positive)
    &&& g.spec_in_bounds(b.pos.x as int, b.pos.y as int)
}

/// `b` follows `a` by some legal run.
pub open spec fn step_ok(
    g: GridModel,
    min_run: usize,
    max_run: usize,
    a: SearchState,
    b: SearchState,
) -> bool {
    exists|positive: bool, d: int| step_run_ok(g, min_run, max_run, a, b, positive, d)
}

/// The cost of the run from `a` to `b`: the sum of the cells entered, the
/// origin cell excluded (its cost was counted when `a` was reached).
pub open spec fn step_cost(g: GridModel, a: SearchState, b: SearchState) -> int {
    let ax = a.pos.x as int;
    let ay = a.pos.y as int;
    let bx = b.pos.x as int;
    let by = b.pos.y as int;
    if bx > ax {
        run_sum(g, ax, ay, 1, 0, (bx - ax) as nat)
    } else if bx < ax {
        run_sum(g, ax, ay, -1, 0, (ax - bx) as nat)
    } else if by > ay {
        run_sum(g, ax, ay, 0, 1, (by - ay) as nat)
    } else if by < ay {
        run_sum(g, ax, ay, 0, -1, (ay - by) as nat)
    } else {
        0
    }
}

/// A legal route: it begins on the grid before any run was taken, and every
/// later state follows from its predecessor by one legal run.
pub open spec fn path_ok(g: GridModel, min_run: usize, max_run: usize, p: Seq<SearchState>) -> bool {
    &&& p.len() >= 1
    &&& p[0].axis == Axis::Start
    &&& g.spec_in_bounds(p[0].pos.x as int, p[0].pos.y as int)
    &&& forall|i: int| 0 < i < p.len() ==> step_ok(g, min_run, max_run, p[i - 1], #[trigger] p[i])
}

/// The accumulated cost of a route: the runs' costs summed, the start cell's
/// own cost excluded.
pub open spec fn path_cost(g: GridModel, p: Seq<SearchState>) -> int
    decreases p.len(),
{
    if p.len() <= 1 {
        0
    } else {
        path_cost(g, p.drop_last()) + step_cost(g, p[p.len() - 2], p[p.len() - 1])
    }
}

/// The synthetic initial state of a search request.
pub open spec fn start_state_of(params: SearchParameters) -> SearchState {
    SearchState { pos: params.start, axis: Axis::Start }
}

/// A legal route that begins at the start state, before any run.
pub open spec fn route_from_start(g: GridModel, params: SearchParameters, p: Seq<SearchState>) -> bool {
    &&& path_ok(g, params.min_run, params.max_run, p)
    &&& p[0] == start_state_of(params)
}

/// Some legal route runs from `start` (before any run) to `end` (via either
/// axis) at accumulated cost `c`.
pub open spec fn reachable_with(g: GridModel, params: SearchParameters, c: u32) -> bool {
    exists|p: Seq<SearchState>|
        {
            &&& route_from_start(g, params, p)
            &&& p[p.len() - 1].pos == params.end
            &&& path_cost(g, p) == c
        }
}

/// The outcome a finished search owes: the least reachable cost, or the
/// unreachability signal when no cost is reachable.
pub open spec fn search_outcome_pinned(g: GridModel, params: SearchParameters, o: Option<u32>) -> bool {
    &&& (o matches Some(c) ==> reachable_with(g, params, c) && (forall|c2: u32|
        reachable_with(g, params, c2) ==> c <= c2))
    &&& (o is None ==> forall|c2: u32| !reachable_with(g, params, c2))
}

/// Any two pinned outcomes of one request agree: the answer is a function of
/// the request alone, however the frontier breaks ties and whichever
/// consistent ordering guides the exploration. So two runs on identical
/// input, or one run under each consistent heuristic, report the same
/// minimal cost or both report unreachability.
pub proof fn lemma_pinned_outcomes_agree(
    g: GridModel,
    params: SearchParameters,
    o1: Option<u32>,
    o2: Option<u32>,
)
    requires
        search_outcome_pinned(g, params, o1),
        search_outcome_pinned(g, params, o2),
    ensures
        o1 == o2,
{
    match (o1, o2) {
        (Some(c1), Some(c2)) => {
            assert(c1 <= c2 && c2 <= c1);
        },
        (Some(c1), None) => {
            assert(reachable_with(g, params, c1));
            assert(!reachable_with(g, params, c1));
        },
        (None, Some(c2)) => {
            assert(reachable_with(g, params, c2));
            assert(!reachable_with(g, params, c2));
        },
        (None, None) => {},
    }
}

/// The number of distinct search states: three arrival tags for each cell.
pub open spec fn state_slots(g: GridModel) -> int {
    3 * (g.spec_width() * g.spec_height())
}

/// Machine bounds under which the search provably neither overflows a `u32`
/// cost nor a `usize` index: at most one entry per state is ever finalized,
/// each run adds at most `max_run` times the largest cell, and the heuristic
/// adds less than `width + height`.
pub open spec fn searchable(g: GridModel, max_run: usize) -> bool {
    &&& state_slots(g) + 3 <= usize::MAX
    &&& (state_slots(g) + 2) * (max_run * g.spec_max_cell()) + (g.spec_width()
        + g.spec_height()) <= u32::MAX
}

/// Whether the priorities the engine pops can be proved non-decreasing: the
/// zero heuristic always orders consistently; the Manhattan heuristic does
/// when every cell costs at least one, since a run of `d` cells then costs at
/// least its `d` steps of goal distance.
pub open spec fn ordering_consistent(g: GridModel, heuristic: Heuristic) -> bool {
    heuristic == Heuristic::Zero || (forall|x: int, y: int|
        g.spec_in_bounds(x, y) ==> #[trigger] g.spec_cost(x, y) >= 1)
}

/// `s` never decreases.
pub open spec fn sorted_non_decreasing(s: Seq<u32>) -> bool {
    forall|i: int, j: int| 0 <= i <= j < s.len() ==> s[i] <= s[j]
}

/// Multiplying by a unit displacement.
pub proof fn lemma_mul_unit(d: int)
    ensures
        d * 1int == d,
        d * (-1int) == -d,
        d * 0int == 0,
{
}

/// How many entries of `s` are set.
pub open spec fn count_true(s: Seq<bool>) -> int
    decreases s.len(),
{
    if s.len() == 0 {
        0
    } else {
        count_true(s.drop_last()) + if s[s.len() - 1] {
            1int
        } else {
            0int
        }
    }
}

proof fn lemma_count_true_le_len(s: Seq<bool>)
    ensures
        0 <= count_true(s) <= s.len(),
    decreases s.len(),
{
    if s.len() > 0 {
        lemma_count_true_le_len(s.drop_last());
    }
}

proof fn lemma_count_true_update(s: Seq<bool>, i: int)
    requires
        0 <= i < s.len(),
        !s[i],
    ensures
        count_true(s.update(i, true)) == count_true(s) + 1,
    decreases s.len(),
{
    let t = s.update(i, true);
    if i == s.len() - 1 {
        assert(t.drop_last() =~= s.drop_last());
    } else {
        assert(t.drop_last() =~= s.drop_last().update(i, true));
        lemma_count_true_update(s.drop_last(), i);
    }
}

/// The index tag of an arrival axis.
pub open spec fn spec_axis_tag(a: Axis) -> int {
    match a {
        Axis::Start => 0,
        Axis::Horizontal => 1,
        Axis::Vertical => 2,
    }
}

/// The state's slot in the finalized-state table: three slots per cell, one
/// per arrival axis.
pub open spec fn spec_encode(g: GridModel, s: SearchState) -> int {
    3 * (s.pos.y * g.spec_width() + s.pos.x) + spec_axis_tag(s.axis)
}

/// `s` is a state of this grid's state space.
pub open spec fn valid_state(g: GridModel, s: SearchState) -> bool {
    g.spec_in_bounds(s.pos.x as int, s.pos.y as int)
}

/// The frontier key of a state's slot.
pub open spec fn key_of(g: GridModel, s: SearchState) -> u64 {
    spec_encode(g, s) as u64
}

proof fn lemma_encode_bounds(g: GridModel, s: SearchState)
    requires
        g.wf(),
        valid_state(g, s),
    ensures
        0 <= spec_encode(g, s) < state_slots(g),
{
    let w = g.spec_width();
    let h = g.spec_height();
    assert(s.pos.y * w + s.pos.x < w * h && 0 <= s.pos.y * w) by (nonlinear_arith)
        requires
            0 <= s.pos.x < w,
            0 <= s.pos.y < h,
    ;
    assert(3 * (s.pos.y * w + s.pos.x) + spec_axis_tag(s.axis) < 3 * (w * h)) by (nonlinear_arith)
        requires
            s.pos.y * w + s.pos.x < w * h,
            spec_axis_tag(s.axis) < 3,
    ;
}

/// Distinct states use distinct slots.
proof fn lemma_encode_injective(g: GridModel, a: SearchState, b: SearchState)
    requires
        g.wf(),
        valid_state(g, a),
        valid_state(g, b),
        spec_encode(g, a) == spec_encode(g, b),
    ensures
        a == b,
{
    g.lemma_wf_dims();
    let w = g.spec_width();
    let ca = a.pos.y * w + a.pos.x;
    let cb = b.pos.y * w + b.pos.x;
    assert(0 <= a.pos.y * w + a.pos.x && 0 <= b.pos.y * w + b.pos.x) by (nonlinear_arith)
        requires
            0 <= a.pos.x && 0 <= a.pos.y && 0 <= b.pos.x && 0 <= b.pos.y && w >= 1,
    ;
    lemma_fundamental_div_mod_converse(spec_encode(g, a), 3, ca, spec_axis_tag(a.axis));
    lemma_fundamental_div_mod_converse(spec_encode(g, b), 3, cb, spec_axis_tag(b.axis));
    lemma_fundamental_div_mod_converse(ca, w, a.pos.y as int, a.pos.x as int);
    lemma_fundamental_div_mod_converse(cb, w, b.pos.y as int, b.pos.x as int);
}

fn encode_state(g: &GridModel, s: SearchState) -> (r: usize)
    requires
        g.wf(),
        valid_state(*g, s),
        state_slots(*g) + 3 <= usize::MAX,
    ensures
        r == spec_encode(*g, s),
        r < state_slots(*g),
{
    proof {
        lemma_encode_bounds(*g, s);
    }
    let idx = s.pos.y * g.width() + s.pos.x;
    let tag: usize = match s.axis {
        Axis::Start => 0,
        Axis::Horizontal => 1,
        Axis::Vertical => 2,
    };
    3 * idx + tag
}

fn decode_state(g: &GridModel, k: usize, Ghost(s): Ghost<SearchState>) -> (r: SearchState)
    requires
        g.wf(),
        valid_state(*g, s),
        spec_encode(*g, s) == k,
    ensures
        r == s,
{
    let tag = k % 3;
    let idx = k / 3;
    let x = idx % g.width();
    let y = idx / g.width();
    proof {
        let w = g.spec_width();
        let cell = s.pos.y * w + s.pos.x;
        lemma_fundamental_div_mod_converse(k as int, 3, cell, spec_axis_tag(s.axis));
        lemma_fundamental_div_mod_converse(cell, w, s.pos.y as int, s.pos.x as int);
    }
    let axis = if tag == 0 {
        Axis::Start
    } else if tag == 1 {
        Axis::Horizontal
    } else {
        Axis::Vertical
    };
    SearchState { pos: Coordinate { x, y }, axis }
}

/// A legal run out of `a` lands in a state whose step relation and exact step
/// cost follow from the move's own contract.
proof fn lemma_move_to_step(
    g: GridModel,
    a: SearchState,
    base: u32,
    min_run: usize,
    max_run: usize,
    m: Move,
    positive: bool,
    d: int,
)
    requires
        g.wf(),
        valid_state(g, a),
        min_run >= 1,
        move_run_ok(g, a, base, min_run, max_run, m, positive, d),
    ensures
        step_ok(g, min_run, max_run, a, SearchState { pos: m.to, axis: m.via_axis }),
        step_cost(g, a, SearchState { pos: m.to, axis: m.via_axis }) == m.cost - base,
        0 <= m.cost - base <= max_run * g.spec_max_cell(),
{
    let b = SearchState { pos: m.to, axis: m.via_axis };
    let dx = dir_dx(m.via_axis, positive);
    let dy = dir_dy(m.via_axis, positive);
    assert(step_run_ok(g, min_run, max_run, a, b, positive, d));
    lemma_mul_unit(d);
    lemma_mul_unit(d);
    assert(step_cost(g, a, b) == run_sum(g, a.pos.x as int, a.pos.y as int, dx, dy, d as nat));
    assert forall|j: int| 1 <= j <= d implies g.spec_in_bounds(
        a.pos.x as int + #[trigger] (j * dx),
        a.pos.y as int + j * dy,
    ) by {
        lemma_mul_unit(j);
        lemma_mul_unit(j);
    }
    lemma_run_sum_bound(g, a.pos.x as int, a.pos.y as int, dx, dy, d as nat);
    g.lemma_cost_le_max();
    lemma_mul_inequality(d, max_run as int, g.spec_max_cell());
}

/// Appending a legal step to a legal route keeps it legal and adds exactly
/// the step's cost.
proof fn lemma_path_push(
    g: GridModel,
    min_run: usize,
    max_run: usize,
    p: Seq<SearchState>,
    b: SearchState,
)
    requires
        path_ok(g, min_run, max_run, p),
        step_ok(g, min_run, max_run, p[p.len() - 1], b),
    ensures
        path_ok(g, min_run, max_run, p.push(b)),
        path_cost(g, p.push(b)) == path_cost(g, p) + step_cost(g, p[p.len() - 1], b),
        p.push(b)[0] == p[0],
        p.push(b)[p.push(b).len() - 1] == b,
{
    let q = p.push(b);
    assert(q.drop_last() =~= p);
    assert forall|i: int| 0 < i < q.len() implies step_ok(g, min_run, max_run, q[i - 1], #[trigger] q[i]) by {
        if i < p.len() {
            assert(step_ok(g, min_run, max_run, p[i - 1], p[i]));
        }
    }
}

/// On a grid of positive cells a run of `d` cells costs at least `d`.
proof fn lemma_run_sum_at_least(g: GridModel, x: int, y: int, dx: int, dy: int, d: nat)
    requires
        g.wf(),
        forall|cx: int, cy: int| g.spec_in_bounds(cx, cy) ==> #[trigger] g.spec_cost(cx, cy) >= 1,
        forall|j: int| 1 <= j <= d ==> g.spec_in_bounds(x + #[trigger] (j * dx), y + j * dy),
    ensures
        run_sum(g, x, y, dx, dy, d) >= d,
    decreases d,
{
    if d > 0 {
        lemma_run_sum_at_least(g, x, y, dx, dy, (d - 1) as nat);
    }
}

/// Consistency of the ordering: popping at priority `pr` never inserts a
/// successor below `pr`. Under the zero heuristic this is non-negativity of
/// run costs; under the Manhattan heuristic, on positive-cell grids, a run of
/// `d` cells closes at most `d` of the goal distance while costing at least
/// `d`.
proof fn lemma_step_consistent(
    g: GridModel,
    params: SearchParameters,
    heuristic: Heuristic,
    a: SearchState,
    b: SearchState,
    positive: bool,
    d: int,
)
    requires
        g.wf(),
        valid_state(g, a),
        ordering_consistent(g, heuristic),
        step_run_ok(g, params.min_run, params.max_run, a, b, positive, d),
        step_cost(g, a, b) == run_sum(
            g,
            a.pos.x as int,
            a.pos.y as int,
            dir_dx(b.axis, positive),
            dir_dy(b.axis, positive),
            d as nat,
        ),
    ensures
        step_cost(g, a, b) + spec_h(params, heuristic, b.pos) >= spec_h(params, heuristic, a.pos),
{
    let dx = dir_dx(b.axis, positive);
    let dy = dir_dy(b.axis, positive);
    lemma_mul_unit(d);
    assert forall|j: int| 1 <= j <= d implies g.spec_in_bounds(
        a.pos.x as int + #[trigger] (j * dx),
        a.pos.y as int + j * dy,
    ) by {
        lemma_mul_unit(j);
    }
    if heuristic == Heuristic::Zero {
        lemma_run_sum_bound(g, a.pos.x as int, a.pos.y as int, dx, dy, d as nat);
    } else {
        lemma_run_sum_at_least(g, a.pos.x as int, a.pos.y as int, dx, dy, d as nat);
        lemma_mul_unit(d);
        lemma_mul_unit(d);
    }
}

fn h_value(params: SearchParameters, heuristic: Heuristic, pos: Coordinate) -> (r: u32)
    requires
        spec_h(params, heuristic, pos) <= u32::MAX,
    ensures
        r == spec_h(params, heuristic, pos),
{
    match heuristic {
        Heuristic::Zero => 0,
        Heuristic::Manhattan => {
            let dx = if pos.x >= params.end.x {
                pos.x - params.end.x
            } else {
                params.end.x - pos.x
            };
            let dy = if pos.y >= params.end.y {
                pos.y - params.end.y
            } else {
                params.end.y - pos.y
            };
            proof {
                assert(dx + dy == manhattan(pos, params.end));
            }
            (dx as u64 + dy as u64) as u32
        },
    }
}

/// Whether the machine bounds of `searchable` hold, checked at run time so
/// unverified callers can test before searching.
pub fn fits_search_budget(grid: &GridModel, max_run: usize) -> (r: bool)
    requires
        grid.wf(),
    ensures
        r == searchable(*grid, max_run),
{
    proof {
        grid.lemma_wf_dims();
    }
    let wh = grid.cell_count();
    let slots = match wh.checked_mul(3) {
        Some(v) => v,
        None => {
            return false;
        },
    };
    proof {
        assert(slots == state_slots(*grid)) by (nonlinear_arith)
            requires
                slots == wh * 3,
                wh == grid.spec_width() * grid.spec_height(),
                state_slots(*grid) == 3 * (grid.spec_width() * grid.spec_height()),
        ;
    }
    if slots > usize::MAX - 3 {
        return false;
    }
    let run_cap = match (max_run as u64).checked_mul(grid.max_cell() as u64) {
        Some(v) => v,
        None => {
            proof {
                grid.lemma_cost_le_max();
                lemma_mul_nonnegative(max_run as int, grid.spec_max_cell() as int);
                lemma_mul_inequality(1, state_slots(*grid) + 2, max_run * grid.spec_max_cell());
                assert(1 * (max_run * grid.spec_max_cell()) == max_run * grid.spec_max_cell());
            }
            return false;
        },
    };
    let total = match (slots as u64 + 2).checked_mul(run_cap) {
        Some(v) => v,
        None => {
            proof {
                assert((slots as u64 + 2) as int * run_cap as int == (state_slots(*grid) + 2) * (
                max_run * grid.spec_max_cell()));
            }
            return false;
        },
    };
    if total > 0xffff_ffffu64 {
        return false;
    }
    proof {
        assert(grid.spec_width() + grid.spec_height() <= grid.spec_width() * grid.spec_height()
            + 1) by (nonlinear_arith)
            requires
                grid.spec_width() >= 1,
                grid.spec_height() >= 1,
        ;
    }
    (grid.width() as u64 + grid.height() as u64) <= 0xffff_ffffu64 - total
}


/// The heuristic is bounded by the grid perimeter, which the search budget
/// keeps within `u32`.
proof fn lemma_h_bound(
    g: GridModel,
    params: SearchParameters,
    heuristic: Heuristic,
    pos: Coordinate,
)
    requires
        g.wf(),
        searchable(g, params.max_run),
        g.spec_in_bounds(pos.x as int, pos.y as int),
        g.spec_in_bounds(params.end.x as int, params.end.y as int),
    ensures
        0 <= spec_h(params, heuristic, pos) <= g.spec_width() + g.spec_height(),
        g.spec_width() + g.spec_height() <= u32::MAX,
{
    g.lemma_wf_dims();
    g.lemma_cost_le_max();
    lemma_mul_nonnegative(params.max_run as int, g.spec_max_cell());
    assert(g.spec_width() * g.spec_height() >= 1) by (nonlinear_arith)
        requires
            g.spec_width() >= 1,
            g.spec_height() >= 1,
    ;
    lemma_mul_nonnegative(state_slots(g) + 2, params.max_run * g.spec_max_cell());
}

/// Every state on a legal route lies on the grid.
proof fn lemma_route_states_valid(g: GridModel, params: SearchParameters, p: Seq<SearchState>)
    requires
        path_ok(g, params.min_run, params.max_run, p),
    ensures
        forall|i: int| 0 <= i < p.len() ==> valid_state(g, #[trigger] p[i]),
{
    assert forall|i: int| 0 <= i < p.len() implies valid_state(g, #[trigger] p[i]) by {
        if i > 0 {
            assert(step_ok(g, params.min_run, params.max_run, p[i - 1], p[i]));
            let a = p[i - 1];
            let b = p[i];
            let (positive, d): (bool, int) = choose|positive: bool, d: int|
                step_run_ok(g, params.min_run, params.max_run, a, b, positive, d);
            assert(step_run_ok(g, params.min_run, params.max_run, a, b, positive, d));
        }
    }
}

/// A route's prefix is a route.
proof fn lemma_route_take(g: GridModel, params: SearchParameters, p: Seq<SearchState>, n: int)
    requires
        route_from_start(g, params, p),
        1 <= n <= p.len(),
    ensures
        route_from_start(g, params, p.take(n)),
{
    let q = p.take(n);
    assert forall|i: int| 0 < i < q.len() implies step_ok(
        g,
        params.min_run,
        params.max_run,
        q[i - 1],
        #[trigger] q[i],
    ) by {
        assert(q[i] == p[i] && q[i - 1] == p[i - 1]);
        assert(step_ok(g, params.min_run, params.max_run, p[i - 1], p[i]));
    }
}

/// One more route state costs exactly one more step.
proof fn lemma_path_cost_take_succ(g: GridModel, p: Seq<SearchState>, i: int)
    requires
        0 <= i,
        i + 2 <= p.len(),
    ensures
        path_cost(g, p.take(i + 2)) == path_cost(g, p.take(i + 1)) + step_cost(g, p[i], p[i + 1]),
{
    let q = p.take(i + 2);
    assert(q.drop_last() =~= p.take(i + 1));
    assert(q[q.len() - 2] == p[i] && q[q.len() - 1] == p[i + 1]);
}

/// A legal step never costs less than nothing, and under a consistent
/// ordering it closes at most its own cost of goal distance.
proof fn lemma_step_properties(
    g: GridModel,
    params: SearchParameters,
    heuristic: Heuristic,
    a: SearchState,
    b: SearchState,
)
    requires
        g.wf(),
        valid_state(g, a),
        params.min_run >= 1,
        step_ok(g, params.min_run, params.max_run, a, b),
    ensures
        0 <= step_cost(g, a, b),
        ordering_consistent(g, heuristic) ==> step_cost(g, a, b) + spec_h(params, heuristic, b.pos)
            >= spec_h(params, heuristic, a.pos),
{
    let (positive, d): (bool, int) = choose|positive: bool, d: int|
        step_run_ok(g, params.min_run, params.max_run, a, b, positive, d);
    let dx = dir_dx(b.axis, positive);
    let dy = dir_dy(b.axis, positive);
    lemma_mul_unit(d);
    assert(step_cost(g, a, b) == run_sum(g, a.pos.x as int, a.pos.y as int, dx, dy, d as nat));
    assert forall|j: int| 1 <= j <= d implies g.spec_in_bounds(
        a.pos.x as int + #[trigger] (j * dx),
        a.pos.y as int + j * dy,
    ) by {
        lemma_mul_unit(j);
    }
    lemma_run_sum_bound(g, a.pos.x as int, a.pos.y as int, dx, dy, d as nat);
    if ordering_consistent(g, heuristic) {
        lemma_step_consistent(g, params, heuristic, a, b, positive, d);
    }
}

/// A route's remainder beyond a prefix costs at least the goal distance it
/// closes: the ordering's bonus is 1-Lipschitz along legal steps.
proof fn lemma_route_h_bound(
    g: GridModel,
    params: SearchParameters,
    heuristic: Heuristic,
    p: Seq<SearchState>,
    i: int,
)
    requires
        g.wf(),
        params.min_run >= 1,
        ordering_consistent(g, heuristic),
        path_ok(g, params.min_run, params.max_run, p),
        0 <= i < p.len(),
    ensures
        path_cost(g, p) + spec_h(params, heuristic, p[p.len() - 1].pos) >= path_cost(
            g,
            p.take(i + 1),
        ) + spec_h(params, heuristic, p[i].pos),
    decreases p.len() - i,
{
    lemma_route_states_valid(g, params, p);
    if i == p.len() - 1 {
        assert(p.take(i + 1) =~= p);
    } else {
        lemma_route_h_bound(g, params, heuristic, p, i + 1);
        lemma_path_cost_take_succ(g, p, i);
        assert(step_ok(g, params.min_run, params.max_run, p[i], p[i + 1]));
        lemma_step_properties(g, params, heuristic, p[i], p[i + 1]);
    }
}

/// No finalized state sits on the goal: the search answers before it would
/// finalize one.
pub open spec fn no_goal_finalized(
    g: GridModel,
    params: SearchParameters,
    explored: Seq<bool>,
) -> bool {
    forall|s: SearchState|
        valid_state(g, s) && #[trigger] explored[spec_encode(g, s)] ==> s.pos != params.end
}

/// The start state is pending at its bare bonus until it is finalized.
pub open spec fn start_pending(
    g: GridModel,
    params: SearchParameters,
    heuristic: Heuristic,
    fmap: Map<u64, u32>,
    explored: Seq<bool>,
) -> bool {
    !explored[spec_encode(g, start_state_of(params))] ==> fmap.contains_key(
        key_of(g, start_state_of(params)),
    ) && fmap[key_of(g, start_state_of(params))] == spec_h(params, heuristic, params.start)
}

/// Every legal step out of a finalized state, except those out of the slot
/// `skip`, leads to a finalized or pending state; under a consistent ordering
/// the pending entry's priority is at most the finalized cost plus the step
/// and the bonus.
pub open spec fn expansion_ok_except(
    g: GridModel,
    params: SearchParameters,
    heuristic: Heuristic,
    dmap: Map<u64, u32>,
    fmap: Map<u64, u32>,
    explored: Seq<bool>,
    skip: int,
) -> bool {
    forall|s: SearchState, b: SearchState|
        #![trigger explored[spec_encode(g, s)], step_ok(g, params.min_run, params.max_run, s, b)]
        valid_state(g, s) && explored[spec_encode(g, s)] && spec_encode(g, s) != skip && step_ok(
            g,
            params.min_run,
            params.max_run,
            s,
            b,
        ) ==> {
            ||| explored[spec_encode(g, b)]
            ||| (fmap.contains_key(key_of(g, b)) && (ordering_consistent(g, heuristic)
                ==> dmap.contains_key(key_of(g, s)) && fmap[key_of(g, b)] <= dmap[key_of(g, s)]
                + step_cost(g, s, b) + spec_h(params, heuristic, b.pos)))
        }
}

/// `expansion_ok_except` with no slot skipped.
pub open spec fn expansion_ok(
    g: GridModel,
    params: SearchParameters,
    heuristic: Heuristic,
    dmap: Map<u64, u32>,
    fmap: Map<u64, u32>,
    explored: Seq<bool>,
) -> bool {
    expansion_ok_except(g, params, heuristic, dmap, fmap, explored, -1)
}

/// Under a consistent ordering, a finalized state's recorded cost bounds
/// every route into it from below.
pub open spec fn finalized_minimal(
    g: GridModel,
    params: SearchParameters,
    heuristic: Heuristic,
    dmap: Map<u64, u32>,
    explored: Seq<bool>,
) -> bool {
    ordering_consistent(g, heuristic) ==> forall|p: Seq<SearchState>|
        #[trigger] route_from_start(g, params, p) && explored[spec_encode(g, p[p.len() - 1])]
            ==> dmap.contains_key(key_of(g, p[p.len() - 1])) && path_cost(g, p) >= dmap[key_of(
            g,
            p[p.len() - 1],
        )]
}

/// Where a route crossing the frontier meets it: an unfinalized state of the
/// route that is pending, at a priority (under a consistent ordering) no
/// greater than the route's cost so far plus the state's bonus.
pub open spec fn barrier_hit(
    g: GridModel,
    params: SearchParameters,
    heuristic: Heuristic,
    fmap: Map<u64, u32>,
    explored: Seq<bool>,
    p: Seq<SearchState>,
    j: int,
) -> bool {
    &&& 0 <= j < p.len()
    &&& !explored[spec_encode(g, p[j])]
    &&& fmap.contains_key(key_of(g, p[j]))
    &&& (ordering_consistent(g, heuristic) ==> fmap[key_of(g, p[j])] <= path_cost(g, p.take(j + 1))
        + spec_h(params, heuristic, p[j].pos))
}

/// Every route from the start to an unfinalized state crosses the frontier:
/// the finalized set is closed except through pending entries.
proof fn lemma_barrier(
    g: GridModel,
    params: SearchParameters,
    heuristic: Heuristic,
    dmap: Map<u64, u32>,
    fmap: Map<u64, u32>,
    explored: Seq<bool>,
    p: Seq<SearchState>,
)
    requires
        g.wf(),
        params.min_run >= 1,
        start_pending(g, params, heuristic, fmap, explored),
        expansion_ok(g, params, heuristic, dmap, fmap, explored),
        finalized_minimal(g, params, heuristic, dmap, explored),
        route_from_start(g, params, p),
        !explored[spec_encode(g, p[p.len() - 1])],
    ensures
        exists|j: int| barrier_hit(g, params, heuristic, fmap, explored, p, j),
    decreases p.len(),
{
    lemma_route_states_valid(g, params, p);
    if p.len() == 1 {
        assert(p[p.len() - 1] == p[0]);
        assert(p.take(1) =~= p);
        assert(path_cost(g, p.take(1)) == 0);
        assert(barrier_hit(g, params, heuristic, fmap, explored, p, 0));
    } else {
        let q = p.take(p.len() - 1);
        lemma_route_take(g, params, p, p.len() - 1);
        let lastq = q[q.len() - 1];
        assert(lastq == p[p.len() - 2]);
        if !explored[spec_encode(g, lastq)] {
            lemma_barrier(g, params, heuristic, dmap, fmap, explored, q);
            let j = choose|j: int| barrier_hit(g, params, heuristic, fmap, explored, q, j);
            assert(q[j] == p[j]);
            assert(q.take(j + 1) =~= p.take(j + 1));
            assert(barrier_hit(g, params, heuristic, fmap, explored, p, j));
        } else {
            let jn = p.len() - 1;
            assert(step_ok(g, params.min_run, params.max_run, p[jn - 1], p[jn]));
            assert(valid_state(g, p[jn - 1]));
            // The expansion clause of the finalized predecessor supplies the
            // pending entry; the route cannot end finalized.
            assert(fmap.contains_key(key_of(g, p[jn])));
            if ordering_consistent(g, heuristic) {
                assert(route_from_start(g, params, q) && explored[spec_encode(g, q[q.len() - 1])]);
                assert(path_cost(g, q) >= dmap[key_of(g, lastq)]);
                assert(fmap[key_of(g, p[jn])] <= dmap[key_of(g, p[jn - 1])] + step_cost(
                    g,
                    p[jn - 1],
                    p[jn],
                ) + spec_h(params, heuristic, p[jn].pos));
                assert(p.take(jn + 1) =~= p);
                assert(p.drop_last() =~= q);
                assert(path_cost(g, p) == path_cost(g, q) + step_cost(g, p[jn - 1], p[jn]));
            }
            assert(barrier_hit(g, params, heuristic, fmap, explored, p, jn));
        }
    }
}

/// Under a consistent ordering, while every pending priority is at least
/// `pr`, no route reaches an unfinalized state more cheaply than `pr` less
/// the state's bonus.
proof fn lemma_route_cost_lower(
    g: GridModel,
    params: SearchParameters,
    heuristic: Heuristic,
    dmap: Map<u64, u32>,
    fmap: Map<u64, u32>,
    explored: Seq<bool>,
    pr: u32,
    p: Seq<SearchState>,
)
    requires
        g.wf(),
        params.min_run >= 1,
        ordering_consistent(g, heuristic),
        start_pending(g, params, heuristic, fmap, explored),
        expansion_ok(g, params, heuristic, dmap, fmap, explored),
        finalized_minimal(g, params, heuristic, dmap, explored),
        route_from_start(g, params, p),
        !explored[spec_encode(g, p[p.len() - 1])],
        forall|o: u64| #[trigger] fmap.contains_key(o) ==> pr <= fmap[o],
    ensures
        path_cost(g, p) + spec_h(params, heuristic, p[p.len() - 1].pos) >= pr,
{
    lemma_barrier(g, params, heuristic, dmap, fmap, explored, p);
    let j = choose|j: int| barrier_hit(g, params, heuristic, fmap, explored, p, j);
    assert(pr <= fmap[key_of(g, p[j])]);
    lemma_route_h_bound(g, params, heuristic, p, j);
}

/// A generated move is settled: its destination state is finalized, or
/// pending at a priority (under a consistent ordering) no greater than the
/// move's accumulated cost plus the bonus.
pub open spec fn successor_settled(
    g: GridModel,
    params: SearchParameters,
    heuristic: Heuristic,
    fmap: Map<u64, u32>,
    explored: Seq<bool>,
    m: Move,
) -> bool {
    let b = SearchState { pos: m.to, axis: m.via_axis };
    ||| explored[spec_encode(g, b)]
    ||| (fmap.contains_key(key_of(g, b)) && (ordering_consistent(g, heuristic) ==> fmap[key_of(
        g,
        b,
    )] <= m.cost + spec_h(params, heuristic, m.to)))
}

/// One pending frontier entry is sound: its key is a live unexplored state
/// slot, and a recorded legal route from the start reaches that state at the
/// entry's priority (less the heuristic bonus), within the cost budget.
pub open spec fn entry_ok(
    g: GridModel,
    params: SearchParameters,
    heuristic: Heuristic,
    wmap: Map<u64, Seq<SearchState>>,
    fmap: Map<u64, u32>,
    explored: Seq<bool>,
    k: u64,
) -> bool {
    let p = wmap[k];
    let last = p[p.len() - 1];
    &&& wmap.contains_key(k)
    &&& path_ok(g, params.min_run, params.max_run, p)
    &&& p[0] == (SearchState { pos: params.start, axis: Axis::Start })
    &&& valid_state(g, last)
    &&& spec_encode(g, last) == k
    &&& 0 <= path_cost(g, p)
    &&& fmap[k] == path_cost(g, p) + spec_h(params, heuristic, last.pos)
    &&& path_cost(g, p) <= (count_true(explored) + 1) * (params.max_run * g.spec_max_cell())
    &&& 0 <= k < state_slots(g)
    &&& !explored[k as int]
}

impl GridModel {
    /// The main loop, with its pop trace. Pops the cheapest pending state;
    /// answers its accumulated cost when it sits on `end`; otherwise
    /// finalizes it, expands its successors and relaxes the frontier; answers
    /// unreachability exactly when the pending set runs dry, which happens
    /// only when no legal route exists. Under a consistent ordering the
    /// answered cost is the minimum over all legal routes, and the trace of
    /// popped priorities never decreases.
    #[verifier::loop_isolation(false)]
    #[verifier::rlimit(100)]
    pub fn run_search_traced(
        &self,
        params: SearchParameters,
        heuristic: Heuristic,
    ) -> (res: (Option<u32>, Ghost<Seq<u32>>))
        requires
            self.wf(),
            self.spec_in_bounds(params.start.x as int, params.start.y as int),
            self.spec_in_bounds(params.end.x as int, params.end.y as int),
            params.min_run >= 1,
            params.max_run < usize::MAX,
            searchable(*self, params.max_run),
        ensures
            res.0 matches Some(c) ==> reachable_with(*self, params, c),
            res.0 is None ==> forall|c2: u32| !reachable_with(*self, params, c2),
            ordering_consistent(*self, heuristic) ==> search_outcome_pinned(*self, params, res.0),
            ordering_consistent(*self, heuristic) ==> sorted_non_decreasing(res.1@),
    {
        proof {
            self.lemma_wf_dims();
            self.lemma_cost_le_max();
            lemma_mul_nonnegative(params.max_run as int, self.spec_max_cell());
        }
        let ghost kcap: int = params.max_run * self.spec_max_cell();
        let wh = self.cell_count();
        let slots = 3 * wh;
        let mut explored: Vec<bool> = Vec::new();
        let mut i: usize = 0;
        while i < slots
            invariant
                i <= slots,
                explored@.len() == i,
                count_true(explored@) == 0,
                forall|j: int| 0 <= j < i ==> !explored@[j],
            decreases slots - i,
        {
            let ghost before = explored@;
            explored.push(false);
            proof {
                assert(explored@.drop_last() =~= before);
            }
            i = i + 1;
        }
        let mut n_explored: usize = 0;
        let start_state = SearchState { pos: params.start, axis: Axis::Start };
        let k0 = encode_state(self, start_state);
        proof {
            lemma_h_bound(*self, params, heuristic, params.start);
        }
        let h0 = h_value(params, heuristic, params.start);
        let mut pending = Frontier::new();
        pending.push_improve(k0 as u64, h0);
        let ghost start_path: Seq<SearchState> = seq![start_state];
        let ghost mut wmap: Map<u64, Seq<SearchState>> = Map::empty().insert(
            k0 as u64,
            start_path,
        );
        let ghost mut pops: Seq<u32> = Seq::empty();
        let ghost mut dmap: Map<u64, u32> = Map::empty();
        proof {
            assert(1 * kcap == kcap);
            assert(entry_ok(
                *self,
                params,
                heuristic,
                wmap,
                frontier_entries(pending),
                explored@,
                k0 as u64,
            ));
            assert(no_goal_finalized(*self, params, explored@)) by {
                assert forall|s: SearchState|
                    valid_state(*self, s) && #[trigger] explored@[spec_encode(*self, s)] implies s.pos
                    != params.end by {
                    lemma_encode_bounds(*self, s);
                }
            }
            assert(start_state_of(params) == start_state);
            lemma_encode_bounds(*self, start_state);
            assert(key_of(*self, start_state) == k0 as u64);
            assert(start_pending(*self, params, heuristic, frontier_entries(pending), explored@));
            assert(expansion_ok(*self, params, heuristic, dmap, frontier_entries(pending), explored@))
                by {
                assert forall|s: SearchState, b: SearchState|
                    #![trigger explored@[spec_encode(*self, s)], step_ok(*self, params.min_run, params.max_run, s, b)]
                    valid_state(*self, s) && explored@[spec_encode(*self, s)] && spec_encode(*self, s)
                        != -1 && step_ok(*self, params.min_run, params.max_run, s, b) implies false by {
                    lemma_encode_bounds(*self, s);
                }
            }
            if ordering_consistent(*self, heuristic) {
                assert forall|p2: Seq<SearchState>|
                    #[trigger] route_from_start(*self, params, p2) && explored@[spec_encode(
                        *self,
                        p2[p2.len() - 1],
                    )] implies false by {
                    lemma_route_states_valid(*self, params, p2);
                    lemma_encode_bounds(*self, p2[p2.len() - 1]);
                }
                assert(finalized_minimal(*self, params, heuristic, dmap, explored@));
            }
        }
        loop
            invariant
                explored@.len() == slots,
                n_explored == count_true(explored@),
                n_explored <= slots,
                forall|k: u64|
                    #[trigger] frontier_entries(pending).contains_key(k) ==> entry_ok(
                        *self,
                        params,
                        heuristic,
                        wmap,
                        frontier_entries(pending),
                        explored@,
                        k,
                    ),
                ordering_consistent(*self, heuristic) ==> sorted_non_decreasing(pops),
                ordering_consistent(*self, heuristic) ==> (forall|k: u64|
                    frontier_entries(pending).contains_key(k) && pops.len() > 0 ==> pops[pops.len()
                        - 1] <= #[trigger] frontier_entries(pending)[k]),
                no_goal_finalized(*self, params, explored@),
                start_pending(*self, params, heuristic, frontier_entries(pending), explored@),
                expansion_ok(*self, params, heuristic, dmap, frontier_entries(pending), explored@),
                finalized_minimal(*self, params, heuristic, dmap, explored@),
            decreases slots - n_explored,
        {
            let ghost fmap_old = frontier_entries(pending);
            let popped = pending.pop_min();
            match popped {
                None => {
                    proof {
                        assert forall|c2: u32| !reachable_with(*self, params, c2) by {
                            if reachable_with(*self, params, c2) {
                                let p2 = choose|p2: Seq<SearchState>|
                                    {
                                        &&& route_from_start(*self, params, p2)
                                        &&& p2[p2.len() - 1].pos == params.end
                                        &&& path_cost(*self, p2) == c2
                                    };
                                lemma_route_states_valid(*self, params, p2);
                                let lastp = p2[p2.len() - 1];
                                assert(!explored@[spec_encode(*self, lastp)]) by {
                                    if explored@[spec_encode(*self, lastp)] {
                                        assert(lastp.pos != params.end);
                                    }
                                }
                                lemma_barrier(
                                    *self,
                                    params,
                                    heuristic,
                                    dmap,
                                    fmap_old,
                                    explored@,
                                    p2,
                                );
                                let j = choose|j: int|
                                    barrier_hit(*self, params, heuristic, fmap_old, explored@, p2, j);
                                assert(fmap_old.contains_key(key_of(*self, p2[j])));
                                assert(false);
                            }
                        }
                    }
                    return (None, Ghost(pops));
                },
                Some((k, pr)) => {
                    proof {
                        assert(entry_ok(*self, params, heuristic, wmap, fmap_old, explored@, k));
                    }
                    let ghost p = wmap[k];
                    let ghost last = p[p.len() - 1];
                    let ku = k as usize;
                    let st = decode_state(self, ku, Ghost(last));
                    proof {
                        lemma_h_bound(*self, params, heuristic, st.pos);
                    }
                    let hp = h_value(params, heuristic, st.pos);
                    let c = pr - hp;
                    proof {
                        pops = pops.push(pr);
                        if ordering_consistent(*self, heuristic) {
                            assert forall|a: int, b: int| 0 <= a <= b < pops.len() implies pops[a]
                                <= pops[b] by {
                                if b == pops.len() - 1 && a < b {
                                    assert(pops[a] == pops.drop_last()[a]);
                                }
                            }
                        }
                    }
                    if st.pos.x == params.end.x && st.pos.y == params.end.y {
                        proof {
                            assert(st.pos == params.end);
                            assert(path_cost(*self, p) == c);
                            assert(reachable_with(*self, params, c)) by {
                                assert(route_from_start(*self, params, p) && p[p.len() - 1].pos
                                    == params.end && path_cost(*self, p) == c);
                            }
                            if ordering_consistent(*self, heuristic) {
                                assert forall|c2: u32| reachable_with(*self, params, c2) implies c
                                    <= c2 by {
                                    let p2 = choose|p2: Seq<SearchState>|
                                        {
                                            &&& route_from_start(*self, params, p2)
                                            &&& p2[p2.len() - 1].pos == params.end
                                            &&& path_cost(*self, p2) == c2
                                        };
                                    lemma_route_states_valid(*self, params, p2);
                                    let lastp = p2[p2.len() - 1];
                                    assert(!explored@[spec_encode(*self, lastp)]) by {
                                        if explored@[spec_encode(*self, lastp)] {
                                            assert(lastp.pos != params.end);
                                        }
                                    }
                                    lemma_route_cost_lower(
                                        *self,
                                        params,
                                        heuristic,
                                        dmap,
                                        fmap_old,
                                        explored@,
                                        pr,
                                        p2,
                                    );
                                    assert(spec_h(params, heuristic, lastp.pos) == spec_h(
                                        params,
                                        heuristic,
                                        st.pos,
                                    ));
                                }
                            }
                        }
                        return (Some(c), Ghost(pops));
                    }
                    let ghost explored_old = explored@;
                    let ghost dmap_old = dmap;
                    explored.set(ku, true);
                    n_explored = n_explored + 1;
                    proof {
                        dmap = dmap.insert(k, c);
                        lemma_count_true_update(explored_old, ku as int);
                        lemma_count_true_le_len(explored@);
                        let fmap_now = frontier_entries(pending);
                        assert forall|k2: u64| fmap_now.contains_key(k2) implies entry_ok(
                            *self,
                            params,
                            heuristic,
                            wmap,
                            fmap_now,
                            explored@,
                            k2,
                        ) by {
                            assert(entry_ok(*self, params, heuristic, wmap, fmap_old, explored_old, k2));
                            assert(k2 != k);
                            assert(explored@[k2 as int] == explored_old[k2 as int]);
                            lemma_mul_inequality(
                                count_true(explored_old) + 1,
                                count_true(explored@) + 1,
                                kcap,
                            );
                        }
                    }
                    proof {
                        assert(c <= (count_true(explored_old) + 1) * kcap);
                        lemma_mul_inequality(
                            count_true(explored_old) + 2,
                            state_slots(*self) + 2,
                            kcap,
                        );
                        assert((count_true(explored_old) + 2) * kcap == (count_true(explored_old)
                            + 1) * kcap + kcap) by (nonlinear_arith);
                        assert(c + params.max_run * self.spec_max_cell() <= u32::MAX);
                    }
                    proof {
                        let fmap_now = frontier_entries(pending);
                        assert(ku as u64 == k && ku as int == k as int);
                        assert(st.pos != params.end);
                        assert(no_goal_finalized(*self, params, explored@)) by {
                            assert forall|s: SearchState|
                                valid_state(*self, s) && #[trigger] explored@[spec_encode(*self, s)] implies s.pos
                                != params.end by {
                                lemma_encode_bounds(*self, s);
                                if spec_encode(*self, s) == ku as int {
                                    lemma_encode_injective(*self, s, st);
                                } else {
                                    assert(explored_old[spec_encode(*self, s)]);
                                }
                            }
                        }
                        if ordering_consistent(*self, heuristic) {
                            assert forall|p2: Seq<SearchState>|
                                #[trigger] route_from_start(*self, params, p2) && explored@[spec_encode(
                                    *self,
                                    p2[p2.len() - 1],
                                )] implies dmap.contains_key(key_of(*self, p2[p2.len() - 1]))
                                && path_cost(*self, p2) >= dmap[key_of(*self, p2[p2.len() - 1])] by {
                                lemma_route_states_valid(*self, params, p2);
                                let lastp = p2[p2.len() - 1];
                                lemma_encode_bounds(*self, lastp);
                                if spec_encode(*self, lastp) == ku as int {
                                    lemma_encode_injective(*self, lastp, st);
                                    assert(!explored_old[spec_encode(*self, lastp)]);
                                    lemma_route_cost_lower(
                                        *self,
                                        params,
                                        heuristic,
                                        dmap_old,
                                        fmap_old,
                                        explored_old,
                                        pr,
                                        p2,
                                    );
                                    assert(key_of(*self, lastp) == k);
                                    assert(dmap[k] == c);
                                } else {
                                    assert(explored_old[spec_encode(*self, lastp)]);
                                    assert(key_of(*self, lastp) != k) by {
                                        assert(key_of(*self, lastp) as int == spec_encode(
                                            *self,
                                            lastp,
                                        ));
                                    }
                                    assert(dmap[key_of(*self, lastp)] == dmap_old[key_of(
                                        *self,
                                        lastp,
                                    )]);
                                }
                            }
                            assert(finalized_minimal(*self, params, heuristic, dmap, explored@));
                        }
                        assert(start_pending(*self, params, heuristic, fmap_now, explored@)) by {
                            let ss = start_state_of(params);
                            lemma_encode_bounds(*self, ss);
                            if !explored@[spec_encode(*self, ss)] {
                                assert(spec_encode(*self, ss) != ku as int);
                                assert(!explored_old[spec_encode(*self, ss)]);
                                assert(key_of(*self, ss) != k) by {
                                    assert(key_of(*self, ss) as int == spec_encode(*self, ss));
                                }
                                assert(fmap_now == fmap_old.remove(k));
                            }
                        }
                        assert(expansion_ok_except(
                            *self,
                            params,
                            heuristic,
                            dmap,
                            fmap_now,
                            explored@,
                            ku as int,
                        )) by {
                            assert forall|s2: SearchState, b2: SearchState|
                                #![trigger explored@[spec_encode(*self, s2)], step_ok(*self, params.min_run, params.max_run, s2, b2)]
                                valid_state(*self, s2) && explored@[spec_encode(*self, s2)]
                                    && spec_encode(*self, s2) != ku as int && step_ok(
                                    *self,
                                    params.min_run,
                                    params.max_run,
                                    s2,
                                    b2,
                                ) implies ({
                                ||| explored@[spec_encode(*self, b2)]
                                ||| (fmap_now.contains_key(key_of(*self, b2)) && (
                                ordering_consistent(*self, heuristic) ==> dmap.contains_key(
                                    key_of(*self, s2),
                                ) && fmap_now[key_of(*self, b2)] <= dmap[key_of(*self, s2)]
                                    + step_cost(*self, s2, b2) + spec_h(params, heuristic, b2.pos)))
                            }) by {
                                lemma_encode_bounds(*self, s2);
                                assert(explored_old[spec_encode(*self, s2)]);
                                let (positive, d): (bool, int) = choose|positive: bool, d: int|
                                    step_run_ok(
                                        *self,
                                        params.min_run,
                                        params.max_run,
                                        s2,
                                        b2,
                                        positive,
                                        d,
                                    );
                                assert(step_run_ok(
                                    *self,
                                    params.min_run,
                                    params.max_run,
                                    s2,
                                    b2,
                                    positive,
                                    d,
                                ));
                                assert(valid_state(*self, b2));
                                lemma_encode_bounds(*self, b2);
                                if explored_old[spec_encode(*self, b2)] {
                                    assert(explored@[spec_encode(*self, b2)]);
                                } else {
                                    assert(fmap_old.contains_key(key_of(*self, b2)));
                                    if key_of(*self, b2) == k {
                                        assert(spec_encode(*self, b2) == ku as int) by {
                                            assert(key_of(*self, b2) as int == spec_encode(
                                                *self,
                                                b2,
                                            ));
                                        }
                                        lemma_encode_injective(*self, b2, st);
                                        assert(explored@[spec_encode(*self, b2)]);
                                    } else {
                                        assert(fmap_now.contains_key(key_of(*self, b2)));
                                        if ordering_consistent(*self, heuristic) {
                                            assert(key_of(*self, s2) != k) by {
                                                assert(key_of(*self, s2) as int == spec_encode(
                                                    *self,
                                                    s2,
                                                ));
                                            }
                                            assert(fmap_now[key_of(*self, b2)] == fmap_old[key_of(
                                                *self,
                                                b2,
                                            )]);
                                            assert(dmap[key_of(*self, s2)] == dmap_old[key_of(
                                                *self,
                                                s2,
                                            )]);
                                        }
                                    }
                                }
                            }
                        }
                    }
                    let succ = self.successors(st, c, params.min_run, params.max_run);
                    let mut j: usize = 0;
                    while j < succ.len()
                        invariant
                            j <= succ@.len(),
                            forall|k2: u64|
                                #[trigger] frontier_entries(pending).contains_key(k2) ==> entry_ok(
                                    *self,
                                    params,
                                    heuristic,
                                    wmap,
                                    frontier_entries(pending),
                                    explored@,
                                    k2,
                                ),
                            ordering_consistent(*self, heuristic) ==> (forall|k2: u64|
                                frontier_entries(pending).contains_key(k2) ==> pops[pops.len() - 1]
                                    <= #[trigger] frontier_entries(pending)[k2]),
                            start_pending(
                                *self,
                                params,
                                heuristic,
                                frontier_entries(pending),
                                explored@,
                            ),
                            expansion_ok_except(
                                *self,
                                params,
                                heuristic,
                                dmap,
                                frontier_entries(pending),
                                explored@,
                                ku as int,
                            ),
                            forall|i2: int|
                                0 <= i2 < j ==> successor_settled(
                                    *self,
                                    params,
                                    heuristic,
                                    frontier_entries(pending),
                                    explored@,
                                    #[trigger] succ@[i2],
                                ),
                            dmap.contains_key(k) && dmap[k] == c,
                            k == ku as u64 && spec_encode(*self, st) == ku as int,
                            valid_state(*self, st) && explored@[ku as int],
                        decreases succ@.len() - j,
                    {
                        let m = succ[j];
                        let nst = SearchState { pos: m.to, axis: m.via_axis };
                        proof {
                            assert(move_ok(
                                *self,
                                st,
                                c,
                                params.min_run,
                                params.max_run,
                                succ@[j as int],
                            ));
                            let (positive, dd): (bool, int) = choose|positive: bool, dd: int|
                                move_run_ok(
                                    *self,
                                    st,
                                    c,
                                    params.min_run,
                                    params.max_run,
                                    m,
                                    positive,
                                    dd,
                                );
                            lemma_move_to_step(
                                *self,
                                st,
                                c,
                                params.min_run,
                                params.max_run,
                                m,
                                positive,
                                dd,
                            );
                        }
                        let nk = encode_state(self, nst);
                        if !explored[nk] {
                            proof {
                                lemma_h_bound(*self, params, heuristic, m.to);
                                assert(c + (m.cost - c) <= (count_true(explored@) + 1) * kcap) by {
                                    assert((count_true(explored@) + 1) * kcap == (count_true(
                                        explored@,
                                    )) * kcap + kcap) by (nonlinear_arith);
                                    assert(c <= count_true(explored@) * kcap) by {
                                        assert(count_true(explored_old) + 1 == count_true(
                                            explored@,
                                        ));
                                    }
                                }
                                lemma_mul_inequality(
                                    count_true(explored@) + 1,
                                    state_slots(*self) + 2,
                                    kcap,
                                );
                            }
                            let hn = h_value(params, heuristic, m.to);
                            let npr = m.cost + hn;
                            let ghost fmap_before = frontier_entries(pending);
                            pending.push_improve(nk as u64, npr);
                            proof {
                                let q = p.push(nst);
                                let b = SearchState { pos: m.to, axis: m.via_axis };
                                lemma_path_push(*self, params.min_run, params.max_run, p, b);
                                if !(fmap_before.contains_key(nk as u64) && fmap_before[nk as u64]
                                    <= npr) {
                                    wmap = wmap.insert(nk as u64, q);
                                }
                                let fmap_now = frontier_entries(pending);
                                assert forall|k2: u64| fmap_now.contains_key(k2) implies entry_ok(
                                    *self,
                                    params,
                                    heuristic,
                                    wmap,
                                    fmap_now,
                                    explored@,
                                    k2,
                                ) by {
                                    if k2 != nk as u64 {
                                        assert(entry_ok(
                                            *self,
                                            params,
                                            heuristic,
                                            wmap,
                                            fmap_before,
                                            explored@,
                                            k2,
                                        ));
                                    } else {
                                        if fmap_before.contains_key(nk as u64) && fmap_before[nk
                                            as u64] <= npr {
                                            assert(entry_ok(
                                                *self,
                                                params,
                                                heuristic,
                                                wmap,
                                                fmap_before,
                                                explored@,
                                                k2,
                                            ));
                                        }
                                    }
                                }
                                if ordering_consistent(*self, heuristic) {
                                    let (positive, dd): (bool, int) = choose|
                                        positive: bool,
                                        dd: int,
                                    |
                                        move_run_ok(
                                            *self,
                                            st,
                                            c,
                                            params.min_run,
                                            params.max_run,
                                            m,
                                            positive,
                                            dd,
                                        );
                                    lemma_move_to_step(
                                        *self,
                                        st,
                                        c,
                                        params.min_run,
                                        params.max_run,
                                        m,
                                        positive,
                                        dd,
                                    );
                                    lemma_step_consistent(
                                        *self,
                                        params,
                                        heuristic,
                                        st,
                                        b,
                                        positive,
                                        dd,
                                    );
                                    assert(npr >= pr);
                                }
                                // The fresh entry settles this move, and no
                                // other clause loses its entry or its bound.
                                lemma_encode_bounds(*self, nst);
                                assert(key_of(*self, nst) == nk as u64);
                                assert(fmap_now.contains_key(nk as u64) && fmap_now[nk as u64]
                                    <= npr);
                                assert(successor_settled(
                                    *self,
                                    params,
                                    heuristic,
                                    fmap_now,
                                    explored@,
                                    m,
                                ));
                                assert forall|i2: int| 0 <= i2 < j implies successor_settled(
                                    *self,
                                    params,
                                    heuristic,
                                    fmap_now,
                                    explored@,
                                    #[trigger] succ@[i2],
                                ) by {
                                    assert(successor_settled(
                                        *self,
                                        params,
                                        heuristic,
                                        fmap_before,
                                        explored@,
                                        succ@[i2],
                                    ));
                                    let b2 = SearchState {
                                        pos: succ@[i2].to,
                                        axis: succ@[i2].via_axis,
                                    };
                                    if !explored@[spec_encode(*self, b2)] && fmap_before.contains_key(
                                        key_of(*self, b2),
                                    ) {
                                        if key_of(*self, b2) == nk as u64 {
                                            assert(fmap_now[key_of(*self, b2)] <= fmap_before[key_of(
                                                *self,
                                                b2,
                                            )]);
                                        } else {
                                            assert(fmap_now[key_of(*self, b2)] == fmap_before[key_of(
                                                *self,
                                                b2,
                                            )]);
                                        }
                                    }
                                }
                                assert(start_pending(
                                    *self,
                                    params,
                                    heuristic,
                                    fmap_now,
                                    explored@,
                                )) by {
                                    let ss = start_state_of(params);
                                    if !explored@[spec_encode(*self, ss)] {
                                        lemma_encode_bounds(*self, ss);
                                        assert(key_of(*self, ss) != nk as u64) by {
                                            if key_of(*self, ss) == nk as u64 {
                                                assert(spec_encode(*self, ss) == nk as int) by {
                                                    assert(key_of(*self, ss) as int == spec_encode(
                                                        *self,
                                                        ss,
                                                    ));
                                                }
                                                lemma_encode_injective(*self, ss, nst);
                                                assert(nst.axis != Axis::Start);
                                            }
                                        }
                                    }
                                }
                                assert(expansion_ok_except(
                                    *self,
                                    params,
                                    heuristic,
                                    dmap,
                                    fmap_now,
                                    explored@,
                                    ku as int,
                                )) by {
                                    assert forall|s2: SearchState, b2: SearchState|
                                        #![trigger explored@[spec_encode(*self, s2)], step_ok(*self, params.min_run, params.max_run, s2, b2)]
                                        valid_state(*self, s2) && explored@[spec_encode(*self, s2)]
                                            && spec_encode(*self, s2) != ku as int && step_ok(
                                            *self,
                                            params.min_run,
                                            params.max_run,
                                            s2,
                                            b2,
                                        ) implies ({
                                        ||| explored@[spec_encode(*self, b2)]
                                        ||| (fmap_now.contains_key(key_of(*self, b2)) && (
                                        ordering_consistent(*self, heuristic)
                                            ==> dmap.contains_key(key_of(*self, s2)) && fmap_now[key_of(
                                            *self,
                                            b2,
                                        )] <= dmap[key_of(*self, s2)] + step_cost(*self, s2, b2)
                                            + spec_h(params, heuristic, b2.pos)))
                                    }) by {
                                        if !explored@[spec_encode(*self, b2)] {
                                            assert(fmap_before.contains_key(key_of(*self, b2)));
                                            if key_of(*self, b2) == nk as u64 {
                                                assert(fmap_now[key_of(*self, b2)] <= fmap_before[key_of(
                                                    *self,
                                                    b2,
                                                )]);
                                            } else {
                                                assert(fmap_now[key_of(*self, b2)] == fmap_before[key_of(
                                                    *self,
                                                    b2,
                                                )]);
                                            }
                                        }
                                    }
                                }
                            }
                        } else {
                            proof {
                                assert(spec_encode(*self, nst) == nk as int);
                                assert(successor_settled(
                                    *self,
                                    params,
                                    heuristic,
                                    frontier_entries(pending),
                                    explored@,
                                    m,
                                ));
                            }
                        }
                        j = j + 1;
                    }
                    proof {
                        let fmap_end = frontier_entries(pending);
                        assert(expansion_ok(*self, params, heuristic, dmap, fmap_end, explored@))
                            by {
                            assert forall|s2: SearchState, b2: SearchState|
                                #![trigger explored@[spec_encode(*self, s2)], step_ok(*self, params.min_run, params.max_run, s2, b2)]
                                valid_state(*self, s2) && explored@[spec_encode(*self, s2)]
                                    && spec_encode(*self, s2) != -1 && step_ok(
                                    *self,
                                    params.min_run,
                                    params.max_run,
                                    s2,
                                    b2,
                                ) implies ({
                                ||| explored@[spec_encode(*self, b2)]
                                ||| (fmap_end.contains_key(key_of(*self, b2)) && (
                                ordering_consistent(*self, heuristic) ==> dmap.contains_key(
                                    key_of(*self, s2),
                                ) && fmap_end[key_of(*self, b2)] <= dmap[key_of(*self, s2)]
                                    + step_cost(*self, s2, b2) + spec_h(params, heuristic, b2.pos)))
                            }) by {
                                lemma_encode_bounds(*self, s2);
                                if spec_encode(*self, s2) == ku as int {
                                    lemma_encode_injective(*self, s2, st);
                                    let (positive, d): (bool, int) = choose|positive: bool, d: int|
                                        step_run_ok(
                                            *self,
                                            params.min_run,
                                            params.max_run,
                                            st,
                                            b2,
                                            positive,
                                            d,
                                        );
                                    lemma_mul_unit(d);
                                    let mv = run_move(*self, st, c, b2.axis, positive, d);
                                    assert(run_dest_in_bounds(*self, st, b2.axis, positive, d)) by {
                                        assert(b2.pos.x as int == st.pos.x + d * dir_dx(
                                            b2.axis,
                                            positive,
                                        ));
                                        assert(b2.pos.y as int == st.pos.y + d * dir_dy(
                                            b2.axis,
                                            positive,
                                        ));
                                    }
                                    assert(succ@.contains(mv));
                                    let i2 = choose|i2: int|
                                        0 <= i2 < succ@.len() && succ@[i2] == mv;
                                    assert(successor_settled(
                                        *self,
                                        params,
                                        heuristic,
                                        fmap_end,
                                        explored@,
                                        mv,
                                    ));
                                    assert(mv.to == b2.pos && mv.via_axis == b2.axis);
                                    assert(move_run_ok(
                                        *self,
                                        st,
                                        c,
                                        params.min_run,
                                        params.max_run,
                                        mv,
                                        positive,
                                        d,
                                    )) by {
                                        assert forall|jj: int| 1 <= jj <= d implies self
                                            .spec_in_bounds(
                                            st.pos.x as int + #[trigger] (jj * dir_dx(
                                                b2.axis,
                                                positive,
                                            )),
                                            st.pos.y as int + jj * dir_dy(b2.axis, positive),
                                        ) by {
                                            lemma_mul_unit(jj);
                                        }
                                        lemma_run_sum_bound(
                                            *self,
                                            st.pos.x as int,
                                            st.pos.y as int,
                                            dir_dx(b2.axis, positive),
                                            dir_dy(b2.axis, positive),
                                            d as nat,
                                        );
                                        lemma_mul_inequality(
                                            d,
                                            params.max_run as int,
                                            self.spec_max_cell(),
                                        );
                                    }
                                    lemma_move_to_step(
                                        *self,
                                        st,
                                        c,
                                        params.min_run,
                                        params.max_run,
                                        mv,
                                        positive,
                                        d,
                                    );
                                    assert(SearchState { pos: mv.to, axis: mv.via_axis } == b2);
                                    assert(key_of(*self, s2) == k);
                                }
                            }
                        }
                    }
                },
            }
        }
    }

    /// Runs the constrained-movement least-cost search from `params.start` to
    /// `params.end` under the run-length window, in the order the chosen
    /// heuristic gives. `Err(OutOfBounds)` exactly when an endpoint lies off
    /// the grid. `Ok(None)` exactly when no legal route exists. `Ok(Some(c))`
    /// only when a legal route costs `c` (the start cell's own cost not
    /// counted); under a consistent ordering — always for `Zero`, and for
    /// `Manhattan` on grids of positive cells — `c` is moreover minimal over
    /// all legal routes.
    pub fn run_search(&self, params: SearchParameters, heuristic: Heuristic) -> (r: Result<
        Option<u32>,
        GridError,
    >)
        requires
            self.wf(),
            params.min_run >= 1,
            params.max_run < usize::MAX,
            searchable(*self, params.max_run),
        ensures
            r is Err <==> !(self.spec_in_bounds(params.start.x as int, params.start.y as int)
                && self.spec_in_bounds(params.end.x as int, params.end.y as int)),
            r is Err ==> r->Err_0 == GridError::OutOfBounds,
            r matches Ok(Some(c)) ==> reachable_with(*self, params, c),
            r matches Ok(o) ==> (o is None ==> forall|c2: u32| !reachable_with(*self, params, c2)),
            ordering_consistent(*self, heuristic) ==> (r matches Ok(o) ==> search_outcome_pinned(
                *self,
                params,
                o,
            )),
    {
        if !self.in_bounds(params.start) || !self.in_bounds(params.end) {
            return Err(GridError::OutOfBounds);
        }
        let (outcome, _trace) = self.run_search_traced(params, heuristic);
        Ok(outcome)
    }
}

} // verus!
