//! The immutable weighted grid that the path search runs over: per-cell
//! traversal costs, dimensions, and bounds-checked lookups.
use vstd::prelude::*;

use crate::text::{digit_value, line_list, spec_digit_value};

verus! {

/// A zero-based cell position: `x` counts columns (rightwards), `y` rows
/// (downwards).
#[derive(Clone, Copy, PartialEq, Eq, Hash, Debug, Structural)]
pub struct Coordinate {
    pub x: usize,
    pub y: usize,
}

/// Construction-time failures: a ragged or undecodable grid, or a coordinate
/// outside it. Unreachability is not an error and is reported separately.
#[derive(Clone, Copy, PartialEq, Eq, Debug, Structural)]
pub enum GridError {
    MalformedGrid,
    OutOfBounds,
}

/// A nonempty rectangle of digit characters: at least one row, every row as
/// long as the first and not empty, every character a decimal digit.
pub open spec fn digit_grid_shape(rows: Seq<Seq<char>>) -> bool {
    &&& rows.len() >= 1
    &&& rows[0].len() >= 1
    &&& forall|y: int| 0 <= y < rows.len() ==> (#[trigger] rows[y]).len() == rows[0].len()
    &&& forall|y: int, x: int|
        0 <= y < rows.len() && 0 <= x < rows[y].len() ==> crate::text::spec_digit_value(
            #[trigger] rows[y][x],
        ) is Some
}

/// A rectangular grid of non-negative traversal costs. Immutable once built;
/// every in-bounds cell has a defined cost.
pub struct GridModel {
    width: usize,
    height: usize,
    cells: Vec<u32>,
}

impl GridModel {
    pub closed spec fn spec_width(self) -> int {
        self.width as int
    }

    pub closed spec fn spec_height(self) -> int {
        self.height as int
    }

    /// Well-formedness: at least one row and one column, and one stored cost
    /// per cell, row by row.
    pub closed spec fn wf(self) -> bool {
        1 <= self.width && 1 <= self.height && self.cells@.len() == self.width * self.height
    }

    pub closed spec fn spec_cost(self, x: int, y: int) -> u32 {
        self.cells@[y * self.spec_width() + x]
    }

    pub open spec fn spec_in_bounds(self, x: int, y: int) -> bool {
        0 <= x < self.spec_width() && 0 <= y < self.spec_height()
    }

    /// The largest cost anywhere on the grid.
    pub open spec fn spec_max_cell(self) -> int {
        self.spec_max_below(self.spec_width() * self.spec_height())
    }

    pub closed spec fn spec_max_below(self, n: int) -> int
        decreases n,
    {
        if n <= 0 {
            0
        } else if self.cells@[n - 1] >= self.spec_max_below(n - 1) {
            self.cells@[n - 1] as int
        } else {
            self.spec_max_below(n - 1)
        }
    }

    pub fn width(&self) -> (r: usize)
        ensures
            r == self.spec_width(),
    {
        self.width
    }

    pub fn height(&self) -> (r: usize)
        ensures
            r == self.spec_height(),
    {
        self.height
    }

    /// Builds a grid from `height` rows of `width` costs, flattened row by
    /// row. Fails with `MalformedGrid` when a dimension is zero or the cell
    /// count does not match.
    pub fn new(width: usize, height: usize, cells: Vec<u32>) -> (r: Result<GridModel, GridError>)
        ensures
            match r {
                Ok(g) => g.wf() && g.spec_width() == width && g.spec_height() == height
                    && (forall|x: int, y: int|
                    g.spec_in_bounds(x, y) ==> g.spec_cost(x, y) == cells@[y * width + x]),
                Err(e) => e == GridError::MalformedGrid && (width == 0 || height == 0 || cells@.len()
                    != width * height),
            },
    {
        if width == 0 || height == 0 {
            return Err(GridError::MalformedGrid);
        }
        let stored = cells.len();
        let expected = match width.checked_mul(height) {
            Some(n) => n,
            None => {
                proof {
                    assert(stored < width * height) by (nonlinear_arith)
                        requires
                            stored <= usize::MAX,
                            width * height > usize::MAX,
                    ;
                }
                return Err(GridError::MalformedGrid);
            },
        };
        if stored != expected {
            return Err(GridError::MalformedGrid);
        }
        Ok(GridModel { width, height, cells })
    }

    /// Decodes one row of digit characters per line, as the puzzle inputs are
    /// written. `Ok` exactly when the lines form a nonempty rectangle of
    /// digits; the grid then has one cost per digit, in reading order.
    /// Anything else — no lines, an empty first line, a ragged row, a
    /// non-digit — is `MalformedGrid`.
    #[verifier::loop_isolation(false)]
    pub fn from_digit_lines(s: &str) -> (r: Result<GridModel, GridError>)
        ensures
            ({
                let rows = crate::text::spec_lines(s@);
                match r {
                    Ok(g) => {
                        &&& digit_grid_shape(rows)
                        &&& g.wf()
                        &&& g.spec_width() == rows[0].len()
                        &&& g.spec_height() == rows.len()
                        &&& forall|x: int, y: int|
                            g.spec_in_bounds(x, y) ==> Some(#[trigger] g.spec_cost(x, y))
                                == spec_digit_value(rows[y][x])
                    },
                    Err(e) => e == GridError::MalformedGrid && !digit_grid_shape(rows),
                }
            }),
    {
        let rows = line_list(s);
        let ghost rowv = crate::text::spec_lines(s@);
        proof {
            assert(rowv =~= rows@.map_values(|p: String| p@));
        }
        if rows.len() == 0 {
            return Err(GridError::MalformedGrid);
        }
        let width = rows[0].as_str().unicode_len();
        if width == 0 {
            return Err(GridError::MalformedGrid);
        }
        let mut cells: Vec<u32> = Vec::new();
        let mut y: usize = 0;
        while y < rows.len()
            invariant
                cells@.len() == y * width,
                y <= rows@.len(),
                width >= 1,
                rowv == rows@.map_values(|p: String| p@),
                width == rowv[0].len(),
                forall|t: int| 0 <= t < y ==> (#[trigger] rowv[t]).len() == width,
                forall|t: int, x: int|
                    0 <= t < y && 0 <= x < width ==> Some(#[trigger] cells@[t * width + x])
                        == spec_digit_value(rowv[t][x]),
            decreases rows@.len() - y,
        {
            let row = rows[y].as_str();
            if row.unicode_len() != width {
                proof {
                    assert(rowv[y as int].len() != width);
                    assert(!digit_grid_shape(rowv)) by {
                        if digit_grid_shape(rowv) {
                            assert(rowv[y as int].len() == rowv[0].len());
                        }
                    }
                }
                return Err(GridError::MalformedGrid);
            }
            let mut x: usize = 0;
            while x < width
                invariant
                    cells@.len() == y * width + x,
                    x <= width,
                    row@.len() == width,
                    row@ == rowv[y as int],
                    y < rows@.len() == rowv.len(),
                    width >= 1,
                    width == rowv[0].len(),
                    rowv == rows@.map_values(|p: String| p@),
                    forall|t: int| 0 <= t < y ==> (#[trigger] rowv[t]).len() == width,
                    forall|t: int, x2: int|
                        0 <= t < y && 0 <= x2 < width ==> Some(#[trigger] cells@[t * width + x2])
                            == spec_digit_value(rowv[t][x2]),
                    forall|x2: int|
                        0 <= x2 < x ==> Some(#[trigger] cells@[y * width + x2]) == spec_digit_value(
                            rowv[y as int][x2],
                        ),
                decreases width - x,
            {
                match digit_value(row.get_char(x)) {
                    Some(d) => {
                        let ghost before = cells@;
                        cells.push(d);
                        proof {
                            assert(forall|i: int|
                                0 <= i < before.len() ==> cells@[i] == before[i]);
                            assert(cells@[y * width + x] == d);
                            assert forall|t: int, x2: int| 0 <= t < y && 0 <= x2 < width implies Some(
                                #[trigger] cells@[t * width + x2],
                            ) == spec_digit_value(rowv[t][x2]) by {
                                assert(t * width + x2 < y * width) by (nonlinear_arith)
                                    requires
                                        0 <= t < y && 0 <= x2 < width,
                                ;
                                assert(cells@[t * width + x2] == before[t * width + x2]);
                            }
                        }
                    },
                    None => {
                        proof {
                            assert(spec_digit_value(rowv[y as int][x as int]) is None);
                            assert(!digit_grid_shape(rowv)) by {
                                if digit_grid_shape(rowv) {
                                    assert(spec_digit_value(rowv[y as int][x as int]) is Some);
                                }
                            }
                        }
                        return Err(GridError::MalformedGrid);
                    },
                }
                x = x + 1;
            }
            proof {
                assert(y * width + width == (y + 1) * width) by (nonlinear_arith);
            }
            y = y + 1;
        }
        let height = rows.len();
        let ghost final_cells = cells@;
        proof {
            assert(height * width == width * height) by (nonlinear_arith);
        }
        let g = match GridModel::new(width, height, cells) {
            Ok(g) => g,
            Err(_) => {
                proof {
                    assert(false);
                }
                return Err(GridError::MalformedGrid);
            },
        };
        proof {
            assert(digit_grid_shape(rowv)) by {
                assert forall|yy: int, xx: int|
                    0 <= yy < rowv.len() && 0 <= xx < rowv[yy].len() implies spec_digit_value(
                    #[trigger] rowv[yy][xx],
                ) is Some by {
                    assert(Some(final_cells[yy * width + xx]) == spec_digit_value(rowv[yy][xx]));
                }
            }
            assert forall|x: int, y2: int| g.spec_in_bounds(x, y2) implies Some(
                #[trigger] g.spec_cost(x, y2),
            ) == spec_digit_value(rowv[y2][x]) by {
                assert(g.spec_cost(x, y2) == final_cells[y2 * width + x]);
                assert(Some(final_cells[y2 * width + x]) == spec_digit_value(rowv[y2][x]));
            }
        }
        Ok(g)
    }

    /// How many cells the grid has.
    pub fn cell_count(&self) -> (r: usize)
        requires
            self.wf(),
        ensures
            r == self.spec_width() * self.spec_height(),
    {
        self.cells.len()
    }

    pub fn in_bounds(&self, c: Coordinate) -> (r: bool)
        ensures
            r == self.spec_in_bounds(c.x as int, c.y as int),
    {
        c.x < self.width && c.y < self.height
    }

    /// The traversal cost of the cell at `c`; `OutOfBounds` when `c` lies
    /// outside `[0, width) x [0, height)`.
    pub fn cost(&self, c: Coordinate) -> (r: Result<u32, GridError>)
        requires
            self.wf(),
        ensures
            self.spec_in_bounds(c.x as int, c.y as int) ==> r == Ok::<u32, GridError>(
                self.spec_cost(c.x as int, c.y as int),
            ),
            !self.spec_in_bounds(c.x as int, c.y as int) ==> r == Err::<u32, GridError>(
                GridError::OutOfBounds,
            ),
    {
        if c.x < self.width && c.y < self.height {
            Ok(self.cost_at(c))
        } else {
            Err(GridError::OutOfBounds)
        }
    }

    /// Unchecked lookup for callers that already know `c` is in bounds.
    pub fn cost_at(&self, c: Coordinate) -> (r: u32)
        requires
            self.wf(),
            self.spec_in_bounds(c.x as int, c.y as int),
        ensures
            r == self.spec_cost(c.x as int, c.y as int),
    {
        let n = self.cells.len();
        proof {
            assert(c.y * self.spec_width() + c.x < self.spec_width() * self.spec_height())
                by (nonlinear_arith)
                requires
                    0 <= c.x < self.spec_width(),
                    0 <= c.y < self.spec_height(),
            ;
            assert(n == self.spec_width() * self.spec_height());
        }
        self.cells[c.y * self.width + c.x]
    }

    /// The largest single-cell cost; used to bound costs met during a search.
    pub fn max_cell(&self) -> (r: u32)
        requires
            self.wf(),
        ensures
            r == self.spec_max_cell(),
            forall|x: int, y: int| self.spec_in_bounds(x, y) ==> self.spec_cost(x, y) <= r,
    {
        let mut m: u32 = 0;
        let mut i: usize = 0;
        let n = self.cells.len();
        while i < n
            invariant
                i <= n == self.cells@.len(),
                m == self.spec_max_below(i as int),
            decreases n - i,
        {
            if self.cells[i] > m {
                m = self.cells[i];
            }
            i = i + 1;
        }
        proof {
            self.lemma_cost_le_max();
        }
        m
    }

    /// A well-formed grid has at least one row and one column.
    pub proof fn lemma_wf_dims(self)
        requires
            self.wf(),
        ensures
            self.spec_width() >= 1,
            self.spec_height() >= 1,
    {
    }

    proof fn lemma_max_below_le(self, n: int, b: int)
        requires
            1 <= n <= self.cells@.len(),
            forall|k: int| 0 <= k < n ==> #[trigger] self.cells@[k] <= b,
        ensures
            self.spec_max_below(n) <= b,
        decreases n,
    {
        if n > 1 {
            self.lemma_max_below_le(n - 1, b);
        } else {
            assert(self.spec_max_below(0) == 0);
        }
    }

    /// A bound on every cell bounds the grid maximum, so callers can
    /// discharge the search and generator budgets from what they know of the
    /// cells.
    pub proof fn lemma_max_cell_bounded(self, b: int)
        requires
            self.wf(),
            forall|x: int, y: int| self.spec_in_bounds(x, y) ==> #[trigger] self.spec_cost(x, y) <= b,
        ensures
            self.spec_max_cell() <= b,
    {
        self.lemma_wf_dims();
        let w = self.spec_width();
        let h = self.spec_height();
        assert forall|k: int| 0 <= k < self.cells@.len() implies #[trigger] self.cells@[k] <= b by {
            vstd::arithmetic::div_mod::lemma_fundamental_div_mod(k, w);
            vstd::arithmetic::div_mod::lemma_mod_bound(k, w);
            let x = k % w;
            let y = k / w;
            assert(0 <= y < h) by (nonlinear_arith)
                requires
                    k == y * w + x,
                    0 <= x < w,
                    0 <= k < w * h,
                    w >= 1,
            ;
            assert(self.spec_in_bounds(x, y));
            assert(self.spec_cost(x, y) == self.cells@[y * w + x]);
        }
        assert(w * h >= 1) by (nonlinear_arith)
            requires
                w >= 1 && h >= 1,
        ;
        self.lemma_max_below_le(w * h, b);
    }

    /// No cell costs more than the grid maximum.
    pub proof fn lemma_cost_le_max(self)
        requires
            self.wf(),
        ensures
            self.spec_max_cell() >= 0,
            forall|x: int, y: int|
                self.spec_in_bounds(x, y) ==> self.spec_cost(x, y) <= self.spec_max_cell(),
    {
        self.lemma_max_below_bounds(self.spec_width() * self.spec_height());
        assert forall|x: int, y: int| self.spec_in_bounds(x, y) implies self.spec_cost(x, y)
            <= self.spec_max_cell() by {
            assert(0 <= y * self.spec_width() + x < self.spec_width() * self.spec_height())
                by (nonlinear_arith)
                requires
                    0 <= x < self.spec_width(),
                    0 <= y < self.spec_height(),
            ;
        }
    }

    proof fn lemma_max_below_bounds(self, n: int)
        requires
            n <= self.cells@.len(),
        ensures
            forall|k: int| 0 <= k < n ==> self.cells@[k] <= self.spec_max_below(n),
            self.spec_max_below(n) >= 0,
        decreases n,
    {
        if n > 0 {
            self.lemma_max_below_bounds(n - 1);
        }
    }
}

} // verus!
