//! Mirror patterns: each pattern's rows and columns are packed into binary
//! numbers, and the reflection axis is the split index at which the bits on
//! both sides mirror each other.
use vstd::prelude::*;

use vstd::arithmetic::div_mod::lemma_fundamental_div_mod_converse;

verus! {

/// A pattern text that does not fit the expected shape, or one without any
/// reflection axis.
#[derive(Debug, PartialEq, Eq, Clone, Copy, Structural)]
pub enum MirrorError {
    BadCell,
    BadShape,
    NoAxis,
}

/// One cell of a pattern.
#[derive(Debug, Clone, Copy, PartialEq, Eq, Structural)]
pub enum CellType {
    Ash,
    Rock,
}

/// The cell one character names.
pub open spec fn spec_cell(c: char) -> Result<CellType, MirrorError> {
    match c {
        '.' => Ok(CellType::Ash),
        '#' => Ok(CellType::Rock),
        _ => Err(MirrorError::BadCell),
    }
}

impl CellType {
    /// `.` is ash and `#` is rock; anything else is an error.
    pub fn try_from(value: char) -> (r: Result<CellType, MirrorError>)
        ensures
            r == spec_cell(value),
    {
        match value {
            '.' => Ok(CellType::Ash),
            '#' => Ok(CellType::Rock),
            _ => Err(MirrorError::BadCell),
        }
    }
}

/// A reflection axis: the split index, counted from the least significant
/// bit of each encoded line (the right or bottom edge of the pattern).
#[derive(Debug, Clone, Copy, PartialEq, Eq, Structural)]
pub enum ReflectionAxis {
    Horizontal(usize),
    Vertical(usize),
}

/// A pattern's summary contribution: full rows above or columns left of its
/// axis.
#[derive(Debug, Clone, Copy, PartialEq, Eq, Structural)]
pub enum Summary {
    Above(usize),
    Left(usize),
}

/// Two to the `n`.
pub open spec fn two_to(n: nat) -> int
    decreases n,
{
    if n == 0 {
        1
    } else {
        2 * two_to((n - 1) as nat)
    }
}

/// Bit `p` of `v`, counted from the least significant end.
pub open spec fn nth_bit(v: int, p: nat) -> bool
    decreases p,
{
    if p == 0 {
        v % 2 == 1
    } else {
        nth_bit(v / 2, (p - 1) as nat)
    }
}

/// The number a bit list encodes, first bit most significant.
pub open spec fn bits_value(bits: Seq<bool>) -> int
    decreases bits.len(),
{
    if bits.len() == 0 {
        0
    } else {
        bits_value(bits.drop_last()) * 2 + if bits[bits.len() - 1] {
            1int
        } else {
            0int
        }
    }
}

/// The bits of a cell line: rock is one, ash is zero.
pub open spec fn cell_bits(cells: Seq<CellType>) -> Seq<bool> {
    cells.map_values(|c: CellType| c == CellType::Rock)
}

proof fn lemma_two_to_pos(n: nat)
    ensures
        two_to(n) >= 1,
    decreases n,
{
    if n > 0 {
        lemma_two_to_pos((n - 1) as nat);
    }
}

proof fn lemma_two_to_monotonic(a: nat, b: nat)
    requires
        a <= b,
    ensures
        0 < two_to(a) <= two_to(b),
    decreases b,
{
    lemma_two_to_pos(a);
    if a < b {
        lemma_two_to_monotonic(a, (b - 1) as nat);
    }
}

proof fn lemma_two_to_le_max(n: nat)
    requires
        n <= 31,
    ensures
        two_to(n) <= usize::MAX,
{
    reveal_with_fuel(two_to, 32);
    assert(two_to(31) == 0x80000000);
    lemma_two_to_monotonic(n, 31);
}

/// Doubling shifts every bit up by one.
proof fn lemma_bit_double(v: int, b: int, p: nat)
    requires
        v >= 0,
        0 <= b < 2,
    ensures
        nth_bit(2 * v + b, 0) == (b == 1),
        p >= 1 ==> nth_bit(2 * v + b, p) == nth_bit(v, (p - 1) as nat),
{
    lemma_fundamental_div_mod_converse(2 * v + b, 2, v, b);
}

/// Numbers below `two_to(m)` with the same lowest `m` bits are the same
/// number.
proof fn lemma_bits_eq(v: int, w: int, m: nat)
    requires
        0 <= v < two_to(m),
        0 <= w < two_to(m),
        forall|p: nat| p < m ==> nth_bit(v, p) == nth_bit(w, p),
    ensures
        v == w,
    decreases m,
{
    if m == 0 {
    } else {
        assert(nth_bit(v, 0) == nth_bit(w, 0));
        assert(v % 2 == w % 2) by {
            vstd::arithmetic::div_mod::lemma_mod_bound(v, 2);
            vstd::arithmetic::div_mod::lemma_mod_bound(w, 2);
        }
        assert forall|p: nat| p < (m - 1) as nat implies #[trigger] nth_bit(v / 2, p) == nth_bit(
            w / 2,
            p,
        ) by {
            assert(nth_bit(v, p + 1) == nth_bit(w, p + 1));
            assert(nth_bit(v, (p + 1) as nat) == nth_bit(v / 2, p));
            assert(nth_bit(w, (p + 1) as nat) == nth_bit(w / 2, p));
        }
        assert(0 <= v / 2 < two_to((m - 1) as nat) && 0 <= w / 2 < two_to((m - 1) as nat)) by {
            vstd::arithmetic::div_mod::lemma_div_nonincreasing(v, 2);
            assert(v / 2 < two_to((m - 1) as nat)) by (nonlinear_arith)
                requires
                    0 <= v < 2 * two_to((m - 1) as nat),
            ;
            assert(w / 2 < two_to((m - 1) as nat)) by (nonlinear_arith)
                requires
                    0 <= w < 2 * two_to((m - 1) as nat),
            ;
            vstd::arithmetic::div_mod::lemma_div_pos_is_pos(v, 2);
            vstd::arithmetic::div_mod::lemma_div_pos_is_pos(w, 2);
        }
        lemma_bits_eq(v / 2, w / 2, (m - 1) as nat);
        vstd::arithmetic::div_mod::lemma_fundamental_div_mod(v, 2);
        vstd::arithmetic::div_mod::lemma_fundamental_div_mod(w, 2);
    }
}

fn bit_of(v: usize, p: usize) -> (r: bool)
    ensures
        r == nth_bit(v as int, p as nat),
    decreases p,
{
    if p == 0 {
        v % 2 == 1
    } else {
        bit_of(v / 2, p - 1)
    }
}

/// The packed value of a bit list, first bit most significant.
pub fn build_binary_number(bits: Vec<bool>) -> (r: usize)
    requires
        bits@.len() <= 31,
    ensures
        r == bits_value(bits@),
{
    proof {
        lemma_two_to_le_max(bits@.len() as nat);
        assert(bits@.subrange(0, 0) =~= Seq::<bool>::empty());
    }
    let mut number: usize = 0;
    let mut i: usize = 0;
    while i < bits.len()
        invariant
            i <= bits@.len() <= 31,
            number == bits_value(bits@.subrange(0, i as int)),
            number < two_to(i as nat),
        decreases bits@.len() - i,
    {
        let ghost prefix = bits@.subrange(0, i as int);
        let ghost prefix2 = bits@.subrange(0, i as int + 1);
        proof {
            assert(prefix2.drop_last() =~= prefix);
            assert(prefix2[prefix2.len() - 1] == bits@[i as int]);
            lemma_two_to_le_max((i + 1) as nat);
            lemma_two_to_monotonic((i + 1) as nat, bits@.len() as nat);
        }
        number = number * 2 + if bits[i] {
            1
        } else {
            0
        };
        i = i + 1;
    }
    proof {
        assert(bits@.subrange(0, bits@.len() as int) =~= bits@);
    }
    number
}

/// The packed value of a cell line, leftmost cell most significant, rock
/// bits set.
pub fn encode_cells(cells: &[CellType]) -> (r: usize)
    requires
        cells@.len() <= 31,
    ensures
        r == bits_value(cell_bits(cells@)),
{
    let mut bits: Vec<bool> = Vec::new();
    let mut i: usize = 0;
    while i < cells.len()
        invariant
            i <= cells@.len() <= 31,
            bits@.len() == i,
            forall|j: int| 0 <= j < i ==> bits@[j] == (cells@[j] == CellType::Rock),
        decreases cells@.len() - i,
    {
        let is_rock = match cells[i] {
            CellType::Rock => true,
            CellType::Ash => false,
        };
        bits.push(is_rock);
        i = i + 1;
    }
    proof {
        assert(bits@ =~= cell_bits(cells@));
    }
    build_binary_number(bits)
}

/// The pattern summary: columns left of vertical axes plus one hundred times
/// the rows above horizontal axes.
pub fn get_pattern_summary(total_columns_to_left: usize, total_rows_above: usize) -> (r: usize)
    requires
        total_columns_to_left + total_rows_above * 100 <= usize::MAX,
    ensures
        r == total_columns_to_left + total_rows_above * 100,
{
    total_columns_to_left + (total_rows_above * 100)
}

/// The bits of `v` mirror around the split `k` positions from the least
/// significant end: as far as both sides reach, equally distant bits agree.
pub open spec fn spec_reflects(v: int, size: int, k: int) -> bool {
    forall|j: int|
        0 <= j && j < k && j < size - k ==> nth_bit(v, (k + j) as nat) == #[trigger] nth_bit(
            v,
            (k - 1 - j) as nat,
        )
}

/// Splits the low `pattern_length` bits of `pattern` at `bit_index` from the
/// least significant end and aligns the two sides for comparison: both
/// results hold, lowest bit nearest the split, as many bits as the shorter
/// side has; the left side comes mirrored.
pub fn split_and_mirror_binary_pattern_at_least_significant_bit_index(
    pattern: usize,
    pattern_length: usize,
    bit_index: usize,
) -> (r: (usize, usize))
    requires
        1 <= bit_index <= pattern_length <= 31,
    ensures
        ({
            let m = if bit_index <= pattern_length - bit_index {
                bit_index as int
            } else {
                pattern_length - bit_index
            };
            &&& r.0 < two_to(m as nat)
            &&& r.1 < two_to(m as nat)
            &&& forall|j: int|
                0 <= j < m ==> #[trigger] nth_bit(r.0 as int, j as nat) == nth_bit(
                    pattern as int,
                    (bit_index + m - 1 - j) as nat,
                )
            &&& forall|j: int|
                0 <= j < m ==> #[trigger] nth_bit(r.1 as int, j as nat) == nth_bit(
                    pattern as int,
                    (bit_index - m + j) as nat,
                )
        }),
{
    let len_right = bit_index;
    let len_left = pattern_length - bit_index;
    let m = if len_right <= len_left {
        len_right
    } else {
        len_left
    };
    proof {
        lemma_two_to_le_max(m as nat);
    }
    let mut left_side: usize = 0;
    let mut t: usize = 0;
    while t < m
        invariant
            t <= m <= 31,
            bit_index + m <= 32,
            left_side < two_to(t as nat),
            forall|j: int|
                0 <= j < t ==> #[trigger] nth_bit(left_side as int, (t - 1 - j) as nat) == nth_bit(
                    pattern as int,
                    (bit_index + j) as nat,
                ),
        decreases m - t,
    {
        let b = bit_of(pattern, bit_index + t);
        proof {
            lemma_two_to_le_max((t + 1) as nat);
            lemma_two_to_monotonic((t + 1) as nat, m as nat);
            let bv: int = if b {
                1int
            } else {
                0int
            };
            assert forall|j: int| 0 <= j < t + 1 implies #[trigger] nth_bit(
                2 * left_side + bv,
                (t - j) as nat,
            ) == nth_bit(pattern as int, (bit_index + j) as nat) by {
                lemma_bit_double(left_side as int, bv, (t - j) as nat);
                if j < t {
                    assert(nth_bit(left_side as int, (t - 1 - j) as nat) == nth_bit(
                        pattern as int,
                        (bit_index + j) as nat,
                    ));
                    assert(nth_bit(2 * left_side + bv, (t - j) as nat) == nth_bit(
                        left_side as int,
                        ((t - j) - 1) as nat,
                    ));
                    assert(((t - j) - 1) as nat == (t - 1 - j) as nat);
                }
            }
        }
        let ghost prev_left = left_side as int;
        let ghost prev_t = t as int;
        left_side = left_side * 2 + if b {
            1
        } else {
            0
        };
        t = t + 1;
        proof {
            let bv: int = if b {
                1int
            } else {
                0int
            };
            assert(left_side as int == 2 * prev_left + bv);
            assert forall|j: int| 0 <= j < t implies #[trigger] nth_bit(
                left_side as int,
                (t - 1 - j) as nat,
            ) == nth_bit(pattern as int, (bit_index + j) as nat) by {
                assert(nth_bit(2 * prev_left + bv, (prev_t - j) as nat) == nth_bit(
                    pattern as int,
                    (bit_index + j) as nat,
                ));
                assert((t - 1 - j) as nat == (prev_t - j) as nat);
            }
        }
    }
    let mut right_side: usize = 0;
    let mut t: usize = 0;
    while t < m
        invariant
            t <= m <= 31,
            m <= bit_index,
            right_side < two_to(t as nat),
            forall|j: int|
                0 <= j < t ==> #[trigger] nth_bit(right_side as int, (t - 1 - j) as nat) == nth_bit(
                    pattern as int,
                    (bit_index - 1 - j) as nat,
                ),
        decreases m - t,
    {
        let b = bit_of(pattern, bit_index - 1 - t);
        proof {
            lemma_two_to_le_max((t + 1) as nat);
            lemma_two_to_monotonic((t + 1) as nat, m as nat);
            let bv: int = if b {
                1int
            } else {
                0int
            };
            assert forall|j: int| 0 <= j < t + 1 implies #[trigger] nth_bit(
                2 * right_side + bv,
                (t - j) as nat,
            ) == nth_bit(pattern as int, (bit_index - 1 - j) as nat) by {
                lemma_bit_double(right_side as int, bv, (t - j) as nat);
                if j < t {
                    assert(nth_bit(right_side as int, (t - 1 - j) as nat) == nth_bit(
                        pattern as int,
                        (bit_index - 1 - j) as nat,
                    ));
                    assert(nth_bit(2 * right_side + bv, (t - j) as nat) == nth_bit(
                        right_side as int,
                        ((t - j) - 1) as nat,
                    ));
                    assert(((t - j) - 1) as nat == (t - 1 - j) as nat);
                }
            }
        }
        let ghost prev_right = right_side as int;
        let ghost prev_t = t as int;
        right_side = right_side * 2 + if b {
            1
        } else {
            0
        };
        t = t + 1;
        proof {
            let bv: int = if b {
                1int
            } else {
                0int
            };
            assert(right_side as int == 2 * prev_right + bv);
            assert forall|j: int| 0 <= j < t implies #[trigger] nth_bit(
                right_side as int,
                (t - 1 - j) as nat,
            ) == nth_bit(pattern as int, (bit_index - 1 - j) as nat) by {
                assert(nth_bit(2 * prev_right + bv, (prev_t - j) as nat) == nth_bit(
                    pattern as int,
                    (bit_index - 1 - j) as nat,
                ));
                assert((t - 1 - j) as nat == (prev_t - j) as nat);
            }
        }
    }
    proof {
        // Reindex: bit `j` of the left side is the pattern bit `m - 1 - j`
        // above the split, and bit `j` of the right side is the pattern bit
        // `m - 1 - j` below it.
        assert forall|j: int| 0 <= j < m implies #[trigger] nth_bit(left_side as int, j as nat)
            == nth_bit(pattern as int, (bit_index + m - 1 - j) as nat) by {
            assert(nth_bit(left_side as int, (m - 1 - (m - 1 - j)) as nat) == nth_bit(
                pattern as int,
                (bit_index + (m - 1 - j)) as nat,
            ));
        }
        assert forall|j: int| 0 <= j < m implies #[trigger] nth_bit(right_side as int, j as nat)
            == nth_bit(pattern as int, (bit_index - m + j) as nat) by {
            assert(nth_bit(right_side as int, (m - 1 - (m - 1 - j)) as nat) == nth_bit(
                pattern as int,
                (bit_index - 1 - (m - 1 - j)) as nat,
            ));
        }
    }
    (left_side, right_side)
}

/// The aligned split sides are equal exactly when the line mirrors at the
/// split.
pub proof fn lemma_split_decides_reflection(
    encoded_line: usize,
    axis_index: usize,
    line_size: usize,
    left: usize,
    right: usize,
)
    requires
        1 <= axis_index <= line_size <= 31,
        ({
            let m = if axis_index <= line_size - axis_index {
                axis_index as int
            } else {
                line_size - axis_index
            };
            &&& left < two_to(m as nat)
            &&& right < two_to(m as nat)
            &&& forall|j: int|
                0 <= j < m ==> #[trigger] nth_bit(left as int, j as nat) == nth_bit(
                    encoded_line as int,
                    (axis_index + m - 1 - j) as nat,
                )
            &&& forall|j: int|
                0 <= j < m ==> #[trigger] nth_bit(right as int, j as nat) == nth_bit(
                    encoded_line as int,
                    (axis_index - m + j) as nat,
                )
        }),
    ensures
        (left == right) == spec_reflects(encoded_line as int, line_size as int, axis_index as int),
{
    let m: int = if axis_index <= line_size - axis_index {
        axis_index as int
    } else {
        line_size - axis_index
    };
    if left == right {
        assert forall|j: int|
            0 <= j && j < axis_index && j < line_size - axis_index implies nth_bit(
            encoded_line as int,
            (axis_index + j) as nat,
        ) == #[trigger] nth_bit(encoded_line as int, (axis_index - 1 - j) as nat) by {
            assert(nth_bit(left as int, (m - 1 - j) as nat) == nth_bit(
                encoded_line as int,
                (axis_index + m - 1 - (m - 1 - j)) as nat,
            ));
            assert(nth_bit(right as int, (m - 1 - j) as nat) == nth_bit(
                encoded_line as int,
                (axis_index - m + (m - 1 - j)) as nat,
            ));
        }
    } else {
        if spec_reflects(encoded_line as int, line_size as int, axis_index as int) {
            assert forall|p: nat| p < m implies nth_bit(left as int, p) == nth_bit(
                right as int,
                p,
            ) by {
                let j = m - 1 - p;
                assert(0 <= j && j < axis_index && j < line_size - axis_index);
                assert(nth_bit(encoded_line as int, (axis_index + j) as nat) == nth_bit(
                    encoded_line as int,
                    (axis_index - 1 - j) as nat,
                ));
                let jj = p as int;
                assert(nth_bit(left as int, jj as nat) == nth_bit(
                    encoded_line as int,
                    (axis_index + m - 1 - jj) as nat,
                ));
                assert(nth_bit(right as int, jj as nat) == nth_bit(
                    encoded_line as int,
                    (axis_index - m + jj) as nat,
                ));
                assert((axis_index + m - 1 - jj) as nat == (axis_index + j) as nat);
                assert((axis_index - m + jj) as nat == (axis_index - 1 - j) as nat);
                assert(jj as nat == p);
            }
            lemma_bits_eq(left as int, right as int, m as nat);
        }
    }
}

/// Whether the encoded line of `line_size` cells mirrors at the split
/// `axis_index` cells from its least significant end.
pub fn is_reflection_axis(encoded_line: usize, axis_index: usize, line_size: usize) -> (r: bool)
    requires
        1 <= axis_index <= line_size <= 31,
    ensures
        r == spec_reflects(encoded_line as int, line_size as int, axis_index as int),
{
    let (left, right) = split_and_mirror_binary_pattern_at_least_significant_bit_index(
        encoded_line,
        line_size,
        axis_index,
    );
    proof {
        lemma_split_decides_reflection(encoded_line, axis_index, line_size, left, right);
    }
    left == right
}

/// Column `x` of the cell grid, top to bottom.
pub open spec fn spec_column(cells: Seq<Vec<CellType>>, x: int) -> Seq<CellType> {
    Seq::new(cells.len(), |y: int| cells[y]@[x])
}

/// One pattern: its cells, its `(width, height)`, and each row and column
/// packed into a binary number.
#[derive(Debug, PartialEq, Eq)]
pub struct Pattern {
    pub cells: Vec<Vec<CellType>>,
    pub dimensions: (usize, usize),
    pub encoded_rows: Vec<usize>,
    pub encoded_cols: Vec<usize>,
}

impl Pattern {
    /// The cell grid is rectangular and fits the packing width.
    pub open spec fn cells_wf(self) -> bool {
        &&& 1 <= self.dimensions.1 <= 31
        &&& 1 <= self.dimensions.0 <= 31
        &&& self.cells@.len() == self.dimensions.1
        &&& forall|y: int|
            0 <= y < self.cells@.len() ==> (#[trigger] self.cells@[y])@.len() == self.dimensions.0
    }

    /// The encodings agree with the cells.
    pub open spec fn wf(self) -> bool {
        &&& self.cells_wf()
        &&& self.encoded_rows@.len() == self.dimensions.1
        &&& forall|y: int|
            0 <= y < self.dimensions.1 ==> #[trigger] self.encoded_rows@[y] == bits_value(
                cell_bits(self.cells@[y]@),
            )
        &&& self.encoded_cols@.len() == self.dimensions.0
        &&& forall|x: int|
            0 <= x < self.dimensions.0 ==> #[trigger] self.encoded_cols@[x] == bits_value(
                cell_bits(spec_column(self.cells@, x)),
            )
    }

    /// Builds a pattern from a rectangular cell grid and packs its rows and
    /// columns.
    pub fn new(cells: Vec<Vec<CellType>>) -> (r: Pattern)
        requires
            1 <= cells@.len() <= 31,
            1 <= cells@[0]@.len() <= 31,
            forall|y: int| 0 <= y < cells@.len() ==> (#[trigger] cells@[y])@.len() == cells@[0]@.len(),
        ensures
            r.wf(),
            r.cells@ == cells@,
            r.dimensions.0 == cells@[0]@.len(),
            r.dimensions.1 == cells@.len(),
    {
        let width = cells[0].len();
        let height = cells.len();
        let dimensions = (width, height);
        let mut pattern = Pattern {
            cells,
            dimensions,
            encoded_rows: Vec::new(),
            encoded_cols: Vec::new(),
        };
        pattern.encode_rows();
        pattern.encode_columns();
        pattern
    }

    /// Packs each row into `encoded_rows`; nothing else changes.
    pub fn encode_rows(&mut self)
        requires
            old(self).cells_wf(),
        ensures
            final(self).cells == old(self).cells,
            final(self).dimensions == old(self).dimensions,
            final(self).encoded_cols == old(self).encoded_cols,
            final(self).encoded_rows@.len() == final(self).dimensions.1,
            forall|y: int|
                0 <= y < final(self).dimensions.1 ==> #[trigger] final(self).encoded_rows@[y]
                    == bits_value(cell_bits(final(self).cells@[y]@)),
    {
        let mut encoded_rows: Vec<usize> = Vec::new();
        let mut y: usize = 0;
        while y < self.cells.len()
            invariant
                old(self).cells_wf(),
                *self == *old(self),
                y <= self.cells@.len(),
                encoded_rows@.len() == y,
                forall|t: int|
                    0 <= t < y ==> #[trigger] encoded_rows@[t] == bits_value(
                        cell_bits(self.cells@[t]@),
                    ),
            decreases self.cells@.len() - y,
        {
            encoded_rows.push(encode_cells(self.cells[y].as_slice()));
            y = y + 1;
        }
        self.encoded_rows = encoded_rows;
    }

    /// Packs each column into `encoded_cols`; nothing else changes.
    pub fn encode_columns(&mut self)
        requires
            old(self).cells_wf(),
        ensures
            final(self).cells == old(self).cells,
            final(self).dimensions == old(self).dimensions,
            final(self).encoded_rows == old(self).encoded_rows,
            final(self).encoded_cols@.len() == final(self).dimensions.0,
            forall|x: int|
                0 <= x < final(self).dimensions.0 ==> #[trigger] final(self).encoded_cols@[x]
                    == bits_value(cell_bits(spec_column(final(self).cells@, x))),
    {
        let mut encoded_cols: Vec<usize> = Vec::new();
        let mut x: usize = 0;
        while x < self.dimensions.0
            invariant
                old(self).cells_wf(),
                *self == *old(self),
                x <= self.dimensions.0,
                encoded_cols@.len() == x,
                forall|t: int|
                    0 <= t < x ==> #[trigger] encoded_cols@[t] == bits_value(
                        cell_bits(spec_column(self.cells@, t)),
                    ),
            decreases self.dimensions.0 - x,
        {
            let mut column: Vec<CellType> = Vec::new();
            let mut y: usize = 0;
            while y < self.cells.len()
                invariant
                    old(self).cells_wf(),
                    *self == *old(self),
                    x < self.dimensions.0,
                    y <= self.cells@.len(),
                    column@.len() == y,
                    forall|t: int| 0 <= t < y ==> #[trigger] column@[t] == self.cells@[t]@[x as int],
                decreases self.cells@.len() - y,
            {
                column.push(self.cells[y][x]);
                y = y + 1;
            }
            proof {
                assert(column@ =~= spec_column(self.cells@, x as int));
            }
            encoded_cols.push(encode_cells(column.as_slice()));
            x = x + 1;
        }
        self.encoded_cols = encoded_cols;
    }

    /// All rows mirror at split `idx` from the right edge.
    pub open spec fn rows_reflect(self, idx: int) -> bool {
        forall|r: int|
            0 <= r < self.dimensions.1 ==> spec_reflects(
                #[trigger] self.encoded_rows@[r] as int,
                self.dimensions.0 as int,
                idx,
            )
    }

    /// All columns mirror at split `idx` from the bottom edge.
    pub open spec fn cols_reflect(self, idx: int) -> bool {
        forall|c: int|
            0 <= c < self.dimensions.0 ==> spec_reflects(
                #[trigger] self.encoded_cols@[c] as int,
                self.dimensions.1 as int,
                idx,
            )
    }

    fn all_rows_reflect(&self, idx: usize) -> (r: bool)
        requires
            self.wf(),
            1 <= idx < self.dimensions.0,
        ensures
            r == self.rows_reflect(idx as int),
    {
        let mut y: usize = 0;
        while y < self.encoded_rows.len()
            invariant
                self.wf(),
                1 <= idx < self.dimensions.0,
                y <= self.encoded_rows@.len(),
                forall|t: int|
                    0 <= t < y ==> spec_reflects(
                        #[trigger] self.encoded_rows@[t] as int,
                        self.dimensions.0 as int,
                        idx as int,
                    ),
            decreases self.encoded_rows@.len() - y,
        {
            if !is_reflection_axis(self.encoded_rows[y], idx, self.dimensions.0) {
                return false;
            }
            y = y + 1;
        }
        true
    }

    fn all_cols_reflect(&self, idx: usize) -> (r: bool)
        requires
            self.wf(),
            1 <= idx < self.dimensions.1,
        ensures
            r == self.cols_reflect(idx as int),
    {
        let mut x: usize = 0;
        while x < self.encoded_cols.len()
            invariant
                self.wf(),
                1 <= idx < self.dimensions.1,
                x <= self.encoded_cols@.len(),
                forall|t: int|
                    0 <= t < x ==> spec_reflects(
                        #[trigger] self.encoded_cols@[t] as int,
                        self.dimensions.1 as int,
                        idx as int,
                    ),
            decreases self.encoded_cols@.len() - x,
        {
            if !is_reflection_axis(self.encoded_cols[x], idx, self.dimensions.1) {
                return false;
            }
            x = x + 1;
        }
        true
    }

    /// Neither orientation mirrors at split `k`.
    pub open spec fn no_axis_at(self, k: int) -> bool {
        &&& !(k < self.dimensions.0 && self.rows_reflect(k))
        &&& !(k < self.dimensions.1 && self.cols_reflect(k))
    }

    /// The larger dimension: no split at it or beyond can mirror.
    pub open spec fn spec_max_dim(self) -> int {
        if self.dimensions.0 >= self.dimensions.1 {
            self.dimensions.0 as int
        } else {
            self.dimensions.1 as int
        }
    }

    /// The first reflection axis at split `i` or beyond, vertical tried
    /// before horizontal at each split; `None` past every split.
    pub open spec fn spec_first_axis_from(self, i: int) -> Option<ReflectionAxis>
        decreases self.spec_max_dim() - i,
    {
        if i < 1 || i >= self.spec_max_dim() {
            None
        } else if i < self.dimensions.0 && self.rows_reflect(i) {
            Some(ReflectionAxis::Vertical(i as usize))
        } else if i < self.dimensions.1 && self.cols_reflect(i) {
            Some(ReflectionAxis::Horizontal(i as usize))
        } else {
            self.spec_first_axis_from(i + 1)
        }
    }

    /// The pattern's reflection axis: the first split that mirrors.
    pub open spec fn spec_first_axis(self) -> Option<ReflectionAxis> {
        self.spec_first_axis_from(1)
    }

    /// Splits that mirror nowhere can be skipped without changing the first
    /// axis.
    pub proof fn lemma_first_axis_skip(self, i: int, j: int)
        requires
            1 <= i <= j,
            forall|k: int| i <= k < j ==> self.no_axis_at(#[trigger] (k * 1)),
        ensures
            self.spec_first_axis_from(i) == self.spec_first_axis_from(j),
        decreases j - i,
    {
        if i < j {
            assert(self.no_axis_at(i * 1));
            self.lemma_first_axis_skip(i + 1, j);
        }
    }

    /// The first reflection axis, scanning the splits outward from one and
    /// trying the vertical orientation before the horizontal at each; `None`
    /// when no split mirrors.
    pub fn get_reflection_axis(&self) -> (r: Option<ReflectionAxis>)
        requires
            self.wf(),
        ensures
            r == self.spec_first_axis(),
            match r {
                Some(ReflectionAxis::Vertical(i)) => 1 <= i < self.dimensions.0
                    && self.rows_reflect(i as int) && (forall|k: int|
                    1 <= k < i ==> self.no_axis_at(#[trigger] (k * 1))),
                Some(ReflectionAxis::Horizontal(i)) => 1 <= i < self.dimensions.1
                    && self.cols_reflect(i as int) && !(i < self.dimensions.0 && self.rows_reflect(
                    i as int,
                )) && (forall|k: int| 1 <= k < i ==> self.no_axis_at(#[trigger] (k * 1))),
                None => forall|k: int| 1 <= k ==> self.no_axis_at(#[trigger] (k * 1)),
            },
    {
        let max_dim = if self.dimensions.0 >= self.dimensions.1 {
            self.dimensions.0
        } else {
            self.dimensions.1
        };
        let mut index: usize = 1;
        while index < max_dim
            invariant
                self.wf(),
                1 <= index <= max_dim,
                max_dim == if self.dimensions.0 >= self.dimensions.1 {
                    self.dimensions.0
                } else {
                    self.dimensions.1
                },
                forall|k: int| 1 <= k < index ==> self.no_axis_at(#[trigger] (k * 1)),
            decreases max_dim - index,
        {
            if index < self.dimensions.0 && self.all_rows_reflect(index) {
                proof {
                    self.lemma_first_axis_skip(1, index as int);
                }
                return Some(ReflectionAxis::Vertical(index));
            }
            if index < self.dimensions.1 && self.all_cols_reflect(index) {
                proof {
                    self.lemma_first_axis_skip(1, index as int);
                }
                return Some(ReflectionAxis::Horizontal(index));
            }
            proof {
                assert(self.no_axis_at(index as int));
            }
            index = index + 1;
        }
        proof {
            assert forall|k: int| 1 <= k implies self.no_axis_at(#[trigger] (k * 1)) by {
                if k >= max_dim {
                    assert(!(k < self.dimensions.0) && !(k < self.dimensions.1));
                }
            }
            self.lemma_first_axis_skip(1, max_dim as int);
        }
        None
    }

    /// How much of the grid lies before the axis: full rows above a
    /// horizontal axis, full columns left of a vertical one. The split is
    /// counted from the right or bottom edge, so the remainder of the
    /// dimension lies before it.
    pub fn get_columns_left_or_above(&self, axis: ReflectionAxis) -> (r: Summary)
        requires
            match axis {
                ReflectionAxis::Horizontal(i) => i <= self.dimensions.1,
                ReflectionAxis::Vertical(i) => i <= self.dimensions.0,
            },
        ensures
            r == match axis {
                ReflectionAxis::Horizontal(i) => Summary::Above((self.dimensions.1 - i) as usize),
                ReflectionAxis::Vertical(i) => Summary::Left((self.dimensions.0 - i) as usize),
            },
    {
        match axis {
            ReflectionAxis::Horizontal(index) => Summary::Above(self.dimensions.1 - index),
            ReflectionAxis::Vertical(index) => Summary::Left(self.dimensions.0 - index),
        }
    }

    /// Parses one pattern from its lines of `.` and `#` characters.
    pub fn from_str(s: &str) -> (r: Result<Pattern, MirrorError>)
        ensures
            r matches Ok(p) ==> p.wf(),
    {
        let lines = crate::text::line_list(s);
        let mut cells: Vec<Vec<CellType>> = Vec::new();
        let mut i: usize = 0;
        while i < lines.len()
            invariant
                cells@.len() == i,
            decreases lines@.len() - i,
        {
            let line = lines[i].as_str();
            let n = line.unicode_len();
            let mut row: Vec<CellType> = Vec::new();
            let mut j: usize = 0;
            while j < n
                invariant
                    j <= n == line@.len(),
                decreases n - j,
            {
                match CellType::try_from(line.get_char(j)) {
                    Ok(c) => row.push(c),
                    Err(e) => {
                        return Err(e);
                    },
                }
                j = j + 1;
            }
            cells.push(row);
            i = i + 1;
        }
        pattern_from_cells(cells)
    }
}

/// Builds a pattern after checking the grid's shape: nonempty, rectangular,
/// and at most 31 cells on a side.
pub fn pattern_from_cells(cells: Vec<Vec<CellType>>) -> (r: Result<Pattern, MirrorError>)
    ensures
        r matches Ok(p) ==> p.wf(),
{
    if cells.len() == 0 || cells.len() > 31 {
        return Err(MirrorError::BadShape);
    }
    let width = cells[0].len();
    if width == 0 || width > 31 {
        return Err(MirrorError::BadShape);
    }
    let mut y: usize = 0;
    while y < cells.len()
        invariant
            y <= cells@.len(),
            width == cells@[0]@.len(),
            forall|t: int| 0 <= t < y ==> (#[trigger] cells@[t])@.len() == cells@[0]@.len(),
        decreases cells@.len() - y,
    {
        if cells[y].len() != width {
            return Err(MirrorError::BadShape);
        }
        y = y + 1;
    }
    Ok(Pattern::new(cells))
}

/// Splits the input into its blank-line-separated patterns and parses each.
pub fn parse_input(input: &str) -> (r: Result<Vec<Pattern>, MirrorError>)
    ensures
        r matches Ok(ps) ==> forall|i: int| 0 <= i < ps@.len() ==> (#[trigger] ps@[i]).wf(),
{
    let lines = crate::text::line_list(input);
    let mut patterns: Vec<Pattern> = Vec::new();
    let mut group: Vec<Vec<CellType>> = Vec::new();
    let mut i: usize = 0;
    while i < lines.len()
        invariant
            forall|t: int| 0 <= t < patterns@.len() ==> (#[trigger] patterns@[t]).wf(),
        decreases lines@.len() - i,
    {
        let line = lines[i].as_str();
        let n = line.unicode_len();
        if n == 0 {
            if group.len() > 0 {
                match pattern_from_cells(group) {
                    Ok(p) => patterns.push(p),
                    Err(e) => {
                        return Err(e);
                    },
                }
                group = Vec::new();
            }
        } else {
            let mut row: Vec<CellType> = Vec::new();
            let mut j: usize = 0;
            while j < n
                invariant
                    j <= n == line@.len(),
                decreases n - j,
            {
                match CellType::try_from(line.get_char(j)) {
                    Ok(c) => row.push(c),
                    Err(e) => {
                        return Err(e);
                    },
                }
                j = j + 1;
            }
            group.push(row);
        }
        i = i + 1;
    }
    if group.len() > 0 {
        match pattern_from_cells(group) {
            Ok(p) => patterns.push(p),
            Err(e) => {
                return Err(e);
            },
        }
    }
    Ok(patterns)
}

/// The axis contributions of the first `n` patterns: columns left of
/// vertical axes and rows above horizontal ones, each sum staying put when a
/// step would not fit; `None` when one of them has no axis.
pub open spec fn spec_summary_totals(ps: Seq<Pattern>, n: int) -> Option<(usize, usize)>
    decreases n,
{
    if n <= 0 {
        Some((0usize, 0usize))
    } else {
        match spec_summary_totals(ps, n - 1) {
            None => None,
            Some(acc) => match ps[n - 1].spec_first_axis() {
                None => None,
                Some(ReflectionAxis::Vertical(i)) => Some(
                    (
                        if acc.0 + ps[n - 1].dimensions.0 - i <= usize::MAX {
                            (acc.0 + ps[n - 1].dimensions.0 - i) as usize
                        } else {
                            acc.0
                        },
                        acc.1,
                    ),
                ),
                Some(ReflectionAxis::Horizontal(i)) => Some(
                    (
                        acc.0,
                        if acc.1 + ps[n - 1].dimensions.1 - i <= usize::MAX {
                            (acc.1 + ps[n - 1].dimensions.1 - i) as usize
                        } else {
                            acc.1
                        },
                    ),
                ),
            },
        }
    }
}

/// A missing axis fails every longer prefix too.
proof fn lemma_totals_none(ps: Seq<Pattern>, m: int, n: int)
    requires
        m <= n,
        spec_summary_totals(ps, m) is None,
    ensures
        spec_summary_totals(ps, n) is None,
    decreases n - m,
{
    if m < n {
        lemma_totals_none(ps, m + 1, n);
    }
}

/// The summed summary of the patterns: columns left plus one hundred times
/// rows above, the largest representable value where that would not fit;
/// `None` when a pattern has no axis.
pub open spec fn spec_summary_value(ps: Seq<Pattern>) -> Option<usize> {
    match spec_summary_totals(ps, ps.len() as int) {
        None => None,
        Some(t) => if t.1 * 100 > usize::MAX || t.0 + t.1 * 100 > usize::MAX {
            Some(usize::MAX)
        } else {
            Some((t.0 + t.1 * 100) as usize)
        },
    }
}

/// Finds each pattern's first reflection axis and sums the summaries;
/// a pattern without an axis is the error.
pub fn sum_pattern_summaries(patterns: &Vec<Pattern>) -> (r: Result<usize, MirrorError>)
    requires
        forall|t: int| 0 <= t < patterns@.len() ==> (#[trigger] patterns@[t]).wf(),
    ensures
        match spec_summary_value(patterns@) {
            None => r == Result::<usize, MirrorError>::Err(MirrorError::NoAxis),
            Some(v) => r == Result::<usize, MirrorError>::Ok(v),
        },
{
    let mut rows_above: usize = 0;
    let mut cols_left: usize = 0;
    let mut i: usize = 0;
    while i < patterns.len()
        invariant
            i <= patterns@.len(),
            forall|t: int| 0 <= t < patterns@.len() ==> (#[trigger] patterns@[t]).wf(),
            spec_summary_totals(patterns@, i as int) == Some((cols_left, rows_above)),
        decreases patterns@.len() - i,
    {
        let pattern = &patterns[i];
        let axis = match pattern.get_reflection_axis() {
            Some(a) => a,
            None => {
                proof {
                    lemma_totals_none(patterns@, i + 1, patterns@.len() as int);
                }
                return Err(MirrorError::NoAxis);
            },
        };
        match pattern.get_columns_left_or_above(axis) {
            Summary::Above(rows) => {
                rows_above = match rows_above.checked_add(rows) {
                    Some(v) => v,
                    None => rows_above,
                };
            },
            Summary::Left(cols) => {
                cols_left = match cols_left.checked_add(cols) {
                    Some(v) => v,
                    None => cols_left,
                };
            },
        }
        i = i + 1;
    }
    let hundred = match rows_above.checked_mul(100) {
        Some(v) => v,
        None => {
            return Ok(usize::MAX);
        },
    };
    if cols_left > usize::MAX - hundred {
        return Ok(usize::MAX);
    }
    Ok(get_pattern_summary(cols_left, rows_above))
}

/// Parses every pattern, finds each one's axis, and sums the summaries:
/// columns left of vertical axes plus one hundred times rows above
/// horizontal ones. A pattern without an axis is the error; a sum that would
/// not fit stops growing.
pub fn calculate_pattern_summary(input: &str) -> (r: Result<usize, MirrorError>) {
    let patterns = match parse_input(input) {
        Ok(ps) => ps,
        Err(e) => {
            return Err(e);
        },
    };
    sum_pattern_summaries(&patterns)
}

} // verus!
