//! The search-state space: state identity `(position, arrival axis)` and the
//! generation of every legal successor move. A successor is a whole straight
//! run of `min_run..=max_run` cells along the axis perpendicular to the
//! arrival axis (both axes from the start state), staying in bounds, and its
//! cost is the base cost plus the cost of every cell the run crosses.
use vstd::prelude::*;

use crate::grid::{Coordinate, GridModel};

verus! {

broadcast use vstd::seq_lib::lemma_seq_contains_after_push;

/// The axis of the most recently completed run. `Start` is the sentinel for
/// the initial state, before any run has been taken: both axes are then legal.
#[derive(Clone, Copy, PartialEq, Eq, Hash, Debug, Structural)]
pub enum Axis {
    Start,
    Horizontal,
    Vertical,
}

/// Search-state identity. Two states are equal iff both fields match:
/// reaching one cell via different axes admits different next moves, so the
/// visited and best-cost sets are keyed on the pair, never on position alone.
#[derive(Clone, Copy, PartialEq, Eq, Hash, Debug, Structural)]
pub struct SearchState {
    pub pos: Coordinate,
    pub axis: Axis,
}

/// A candidate transition. `cost` is the total accumulated path cost to reach
/// `to`, not the incremental step cost; `via_axis` is the axis of the run
/// just taken and becomes the new arrival axis.
#[derive(Clone, Copy, PartialEq, Eq, Hash, Debug, Structural)]
pub struct Move {
    pub to: Coordinate,
    pub via_axis: Axis,
    pub cost: u32,
}

/// The turn rule: after arriving via `arrival`, the next run must be along
/// the perpendicular axis; from the start both axes are open. Reversing is
/// continuing along the same axis and is excluded by the same test.
pub open spec fn axis_allowed(arrival: Axis, next: Axis) -> bool {
    &&& (next == Axis::Horizontal || next == Axis::Vertical)
    &&& next != arrival
}

/// Unit displacement of a run along `axis`, in the positive (right/down) or
/// negative (left/up) direction.
pub open spec fn dir_dx(axis: Axis, positive: bool) -> int {
    if axis == Axis::Horizontal {
        if positive {
            1
        } else {
            -1
        }
    } else {
        0
    }
}

pub open spec fn dir_dy(axis: Axis, positive: bool) -> int {
    if axis == Axis::Vertical {
        if positive {
            1
        } else {
            -1
        }
    } else {
        0
    }
}

/// The cost of a straight run of `d` cells from (exclusive) `(x, y)` in
/// direction `(dx, dy)`: the sum of the costs of the cells entered.
pub open spec fn run_sum(g: GridModel, x: int, y: int, dx: int, dy: int, d: nat) -> int
    decreases d,
{
    if d == 0 {
        0
    } else {
        run_sum(g, x, y, dx, dy, (d - 1) as nat) + g.spec_cost(x + d * dx, y + d * dy)
    }
}

/// `m` is the legal run of length `d` from `st` in the given direction, with
/// the exact accumulated cost on top of `base`.
pub open spec fn move_run_ok(
    g: GridModel,
    st: SearchState,
    base: u32,
    min_run: usize,
    max_run: usize,
    m: Move,
    positive: bool,
    d: int,
) -> bool {
    let dx = dir_dx(m.via_axis, positive);
    let dy = dir_dy(m.via_axis, positive);
    &&& axis_allowed(st.axis, m.via_axis)
    &&& min_run <= d <= max_run
    &&& m.to.x == st.pos.x + d * dx
    &&& m.to.y == st.pos.y + d * dy
    &&& g.spec_in_bounds(m.to.x as int, m.to.y as int)
    &&& m.cost == base + run_sum(g, st.pos.x as int, st.pos.y as int, dx, dy, d as nat)
}

/// `m` is some legal run from `st`: it spans between `min_run` and `max_run`
/// cells along one axis, does not continue along the arrival axis, stays in
/// bounds, and carries the exact accumulated cost.
pub open spec fn move_ok(
    g: GridModel,
    st: SearchState,
    base: u32,
    min_run: usize,
    max_run: usize,
    m: Move,
) -> bool {
    exists|positive: bool, d: int| move_run_ok(g, st, base, min_run, max_run, m, positive, d)
}

/// The unique move that the run of length `d` from `st` along `axis` in the
/// given direction produces.
pub open spec fn run_move(
    g: GridModel,
    st: SearchState,
    base: u32,
    axis: Axis,
    positive: bool,
    d: int,
) -> Move {
    Move {
        to: Coordinate {
            x: (st.pos.x + d * dir_dx(axis, positive)) as usize,
            y: (st.pos.y + d * dir_dy(axis, positive)) as usize,
        },
        via_axis: axis,
        cost: (base + run_sum(
            g,
            st.pos.x as int,
            st.pos.y as int,
            dir_dx(axis, positive),
            dir_dy(axis, positive),
            d as nat,
        )) as u32,
    }
}

/// The destination of the run of length `d` from `st` along `axis` lies on
/// the grid.
pub open spec fn run_dest_in_bounds(
    g: GridModel,
    st: SearchState,
    axis: Axis,
    positive: bool,
    d: int,
) -> bool {
    g.spec_in_bounds(
        st.pos.x + d * dir_dx(axis, positive),
        st.pos.y + d * dir_dy(axis, positive),
    )
}

/// The generation rank of a move out of `st`: runs come out by ascending
/// length, and within one length in the direction order right, left, down,
/// up. The rank is injective over legal moves, so together with the
/// soundness and completeness of `successors` a strictly ascending rank pins
/// the whole list, order included.
pub open spec fn move_rank(st: SearchState, m: Move) -> int {
    let dist = if m.to.x >= st.pos.x {
        m.to.x - st.pos.x
    } else {
        st.pos.x - m.to.x
    } + if m.to.y >= st.pos.y {
        m.to.y - st.pos.y
    } else {
        st.pos.y - m.to.y
    };
    let direction = if m.via_axis == Axis::Horizontal {
        if m.to.x >= st.pos.x {
            0int
        } else {
            1int
        }
    } else {
        if m.to.y >= st.pos.y {
            2int
        } else {
            3int
        }
    };
    4 * dist + direction
}

/// Every cell of a run costs at most the grid maximum, so the whole run costs
/// at most `d` times it.
pub proof fn lemma_run_sum_bound(g: GridModel, x: int, y: int, dx: int, dy: int, d: nat)
    requires
        g.wf(),
        forall|j: int| 1 <= j <= d ==> g.spec_in_bounds(x + #[trigger] (j * dx), y + j * dy),
    ensures
        0 <= run_sum(g, x, y, dx, dy, d) <= d * g.spec_max_cell(),
    decreases d,
{
    g.lemma_cost_le_max();
    if d > 0 {
        lemma_run_sum_bound(g, x, y, dx, dy, (d - 1) as nat);
        assert((d - 1) * g.spec_max_cell() + g.spec_max_cell() == d * g.spec_max_cell())
            by (nonlinear_arith);
    }
}

impl GridModel {
    /// Every legal move out of `st`, in run-length order and, within one
    /// length, in the direction order right, left, down, up. This is the
    /// whole successor relation: the result holds exactly the legal runs
    /// (`move_ok` for each entry, and an entry for each in-bounds run length
    /// and direction), with costs accumulated incrementally.
    #[verifier::loop_isolation(false)]
    #[verifier::rlimit(60)]
    pub fn successors(&self, st: SearchState, base: u32, min_run: usize, max_run: usize) -> (r:
        Vec<Move>)
        requires
            self.wf(),
            self.spec_in_bounds(st.pos.x as int, st.pos.y as int),
            1 <= min_run,
            max_run < usize::MAX,
            base + max_run * self.spec_max_cell() <= u32::MAX,
        ensures
            forall|i: int|
                0 <= i < r@.len() ==> move_ok(*self, st, base, min_run, max_run, #[trigger] r@[i]),
            forall|axis: Axis, positive: bool, d: int|
                axis_allowed(st.axis, axis) && min_run <= d <= max_run && run_dest_in_bounds(
                    *self,
                    st,
                    axis,
                    positive,
                    d,
                ) ==> r@.contains(#[trigger] run_move(*self, st, base, axis, positive, d)),
            forall|i: int, t: int|
                0 <= i < t < r@.len() ==> move_rank(st, #[trigger] r@[i]) < move_rank(
                    st,
                    #[trigger] r@[t],
                ),
    {
        proof {
            self.lemma_cost_le_max();
        }
        let horizontal_open = match st.axis {
            Axis::Horizontal => false,
            _ => true,
        };
        let vertical_open = match st.axis {
            Axis::Vertical => false,
            _ => true,
        };
        let x = st.pos.x;
        let y = st.pos.y;
        let east_reach = self.width() - 1 - x;
        let west_reach = x;
        let south_reach = self.height() - 1 - y;
        let north_reach = y;
        let mut cum_east: u32 = 0;
        let mut cum_west: u32 = 0;
        let mut cum_south: u32 = 0;
        let mut cum_north: u32 = 0;
        let mut moves: Vec<Move> = Vec::new();
        let mut d: usize = 1;
        while d <= max_run
            invariant
                1 <= d <= max_run + 1,
                self.wf(),
                self.spec_in_bounds(x as int, y as int),
                st.pos.x == x && st.pos.y == y,
                1 <= min_run,
                base + max_run * self.spec_max_cell() <= u32::MAX,
                east_reach == self.spec_width() - 1 - x,
                west_reach == x,
                south_reach == self.spec_height() - 1 - y,
                north_reach == y,
                horizontal_open == axis_allowed(st.axis, Axis::Horizontal),
                vertical_open == axis_allowed(st.axis, Axis::Vertical),
                cum_east == if d - 1 <= east_reach && horizontal_open {
                    run_sum(*self, x as int, y as int, 1, 0, (d - 1) as nat)
                } else {
                    cum_east as int
                },
                cum_west == if d - 1 <= west_reach && horizontal_open {
                    run_sum(*self, x as int, y as int, -1, 0, (d - 1) as nat)
                } else {
                    cum_west as int
                },
                cum_south == if d - 1 <= south_reach && vertical_open {
                    run_sum(*self, x as int, y as int, 0, 1, (d - 1) as nat)
                } else {
                    cum_south as int
                },
                cum_north == if d - 1 <= north_reach && vertical_open {
                    run_sum(*self, x as int, y as int, 0, -1, (d - 1) as nat)
                } else {
                    cum_north as int
                },
                cum_east <= (d - 1) * self.spec_max_cell(),
                cum_west <= (d - 1) * self.spec_max_cell(),
                cum_south <= (d - 1) * self.spec_max_cell(),
                cum_north <= (d - 1) * self.spec_max_cell(),
                forall|i: int|
                    0 <= i < moves@.len() ==> move_ok(
                        *self,
                        st,
                        base,
                        min_run,
                        max_run,
                        #[trigger] moves@[i],
                    ),
                forall|i: int, t: int|
                    0 <= i < t < moves@.len() ==> move_rank(st, #[trigger] moves@[i]) < move_rank(
                        st,
                        #[trigger] moves@[t],
                    ),
                forall|i: int| 0 <= i < moves@.len() ==> move_rank(st, #[trigger] moves@[i]) < 4 * d,
                forall|axis: Axis, positive: bool, dd: int|
                    axis_allowed(st.axis, axis) && min_run <= dd <= max_run && dd < d
                        && run_dest_in_bounds(*self, st, axis, positive, dd) ==> moves@.contains(
                        #[trigger] run_move(*self, st, base, axis, positive, dd),
                    ),
            decreases max_run + 1 - d,
        {
            let ghost prev_moves = moves@;
            proof {
                self.lemma_cost_le_max();
                assert((d - 1) * self.spec_max_cell() + self.spec_max_cell() == d
                    * self.spec_max_cell()) by (nonlinear_arith);
                assert(d * self.spec_max_cell() <= max_run * self.spec_max_cell())
                    by (nonlinear_arith)
                    requires
                        d <= max_run,
                        self.spec_max_cell() >= 0,
                ;
            }
            if horizontal_open {
                // East (positive x)
                if d <= east_reach {
                    let to = Coordinate { x: x + d, y };
                    let cell = self.cost_at(to);
                    proof {
                        self.lemma_cost_le_max();
                        assert(self.spec_in_bounds(to.x as int, to.y as int));
                        assert(cell <= self.spec_max_cell());
                        assert(cum_east <= (d - 1) * self.spec_max_cell());
                        assert(cum_east + cell <= d * self.spec_max_cell());
                        assert(cum_east + cell <= u32::MAX);
                    }
                    cum_east = cum_east + cell;
                    if d >= min_run {
                        let m = Move { to, via_axis: Axis::Horizontal, cost: base + cum_east };
                        moves.push(m);
                        proof {
                            assert(move_run_ok(*self, st, base, min_run, max_run, m, true, d as int));
                            assert(m == run_move(*self, st, base, Axis::Horizontal, true, d as int));
                            assert(moves@.contains(m));
                            assert(move_rank(st, m) == 4 * d + 0);
                            assert(forall|i: int|
                                0 <= i < moves@.len() - 1 ==> moves@[i] == #[trigger] prev_moves[i]);
                        }
                    }
                }
                // West (negative x)
                if d <= west_reach {
                    let to = Coordinate { x: x - d, y };
                    let cell = self.cost_at(to);
                    proof {
                        self.lemma_cost_le_max();
                        assert(self.spec_in_bounds(to.x as int, to.y as int));
                        assert(cum_west + cell <= d * self.spec_max_cell());
                    }
                    cum_west = cum_west + cell;
                    if d >= min_run {
                        let m = Move { to, via_axis: Axis::Horizontal, cost: base + cum_west };
                        moves.push(m);
                        proof {
                            assert(move_run_ok(
                                *self,
                                st,
                                base,
                                min_run,
                                max_run,
                                m,
                                false,
                                d as int,
                            ));
                            assert(m == run_move(
                                *self,
                                st,
                                base,
                                Axis::Horizontal,
                                false,
                                d as int,
                            ));
                            assert(moves@.contains(m));
                            assert(move_rank(st, m) == 4 * d + 1);
                        }
                    }
                }
            }
            if vertical_open {
                // South (positive y)
                if d <= south_reach {
                    let to = Coordinate { x, y: y + d };
                    let cell = self.cost_at(to);
                    proof {
                        self.lemma_cost_le_max();
                        assert(self.spec_in_bounds(to.x as int, to.y as int));
                        assert(cum_south + cell <= d * self.spec_max_cell());
                    }
                    cum_south = cum_south + cell;
                    if d >= min_run {
                        let m = Move { to, via_axis: Axis::Vertical, cost: base + cum_south };
                        moves.push(m);
                        proof {
                            assert(move_run_ok(*self, st, base, min_run, max_run, m, true, d as int));
                            assert(m == run_move(*self, st, base, Axis::Vertical, true, d as int));
                            assert(moves@.contains(m));
                            assert(move_rank(st, m) == 4 * d + 2);
                        }
                    }
                }
                // North (negative y)
                if d <= north_reach {
                    let to = Coordinate { x, y: y - d };
                    let cell = self.cost_at(to);
                    proof {
                        self.lemma_cost_le_max();
                        assert(self.spec_in_bounds(to.x as int, to.y as int));
                        assert(cum_north + cell <= d * self.spec_max_cell());
                    }
                    cum_north = cum_north + cell;
                    if d >= min_run {
                        let m = Move { to, via_axis: Axis::Vertical, cost: base + cum_north };
                        moves.push(m);
                        proof {
                            assert(move_run_ok(
                                *self,
                                st,
                                base,
                                min_run,
                                max_run,
                                m,
                                false,
                                d as int,
                            ));
                            assert(m == run_move(*self, st, base, Axis::Vertical, false, d as int));
                            assert(moves@.contains(m));
                            assert(move_rank(st, m) == 4 * d + 3);
                        }
                    }
                }
            }
            proof {
                assert(forall|i: int|
                    0 <= i < prev_moves.len() ==> moves@[i] == #[trigger] prev_moves[i]);
                assert forall|axis: Axis, positive: bool, dd: int|
                    axis_allowed(st.axis, axis) && min_run <= dd <= max_run && dd < d + 1
                        && run_dest_in_bounds(*self, st, axis, positive, dd) implies moves@
                    .contains(#[trigger] run_move(*self, st, base, axis, positive, dd)) by {
                    let mv = run_move(*self, st, base, axis, positive, dd);
                    if dd < d {
                        let i = choose|i: int| 0 <= i < prev_moves.len() && prev_moves[i] == mv;
                        assert(moves@[i] == mv);
                        assert(moves@.contains(mv));
                    } else {
                        assert(dd == d);
                    }
                }
            }
            d = d + 1;
        }
        moves
    }
}

} // verus!
