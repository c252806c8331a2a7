//! Mirror patterns, smudged variant: exactly one cell of each pattern is
//! wrong, so the answer is the reflection axis that appears when one cell is
//! flipped, ignoring the unsmudged axis.
use vstd::prelude::*;

use crate::mirrors::{
    nth_bit, spec_reflects, two_to, MirrorError, Pattern, ReflectionAxis, Summary,
};

verus! {

/// Splits the low `pattern_length` bits of `pattern` at `bit_index` and
/// aligns the two sides, the left one mirrored; the same split the unsmudged
/// search uses.
pub fn split_and_mirror_pattern(pattern: usize, pattern_length: usize, bit_index: usize) -> (r: (
    usize,
    usize,
))
    requires
        1 <= bit_index <= pattern_length <= 31,
    ensures
        ({
            let m = if bit_index <= pattern_length - bit_index {
                bit_index as int
            } else {
                pattern_length - bit_index
            };
            &&& r.0 < two_to(m as nat)
            &&& r.1 < two_to(m as nat)
            &&& forall|j: int|
                0 <= j < m ==> #[trigger] nth_bit(r.0 as int, j as nat) == nth_bit(
                    pattern as int,
                    (bit_index + m - 1 - j) as nat,
                )
            &&& forall|j: int|
                0 <= j < m ==> #[trigger] nth_bit(r.1 as int, j as nat) == nth_bit(
                    pattern as int,
                    (bit_index - m + j) as nat,
                )
        }),
{
    crate::mirrors::split_and_mirror_binary_pattern_at_least_significant_bit_index(
        pattern,
        pattern_length,
        bit_index,
    )
}

/// Whether the encoded line of `line_size` cells mirrors at the split
/// `axis_index` cells from its least significant end.
pub fn is_reflection_axis(encoded_line: usize, axis_index: usize, line_size: usize) -> (r: bool)
    requires
        1 <= axis_index <= line_size <= 31,
    ensures
        r == spec_reflects(encoded_line as int, line_size as int, axis_index as int),
{
    let (left, right) = split_and_mirror_pattern(encoded_line, line_size, axis_index);
    let equal = left == right;
    proof {
        crate::mirrors::lemma_split_decides_reflection(
            encoded_line,
            axis_index,
            line_size,
            left,
            right,
        );
    }
    equal
}

/// Every given row line mirrors at split `idx`.
pub open spec fn lines_reflect(lines: Seq<usize>, size: int, idx: int) -> bool {
    forall|t: int|
        0 <= t < lines.len() ==> spec_reflects(#[trigger] lines[t] as int, size, idx)
}

impl Pattern {
    /// The first axis of the given encodings that is not the ignored one,
    /// scanning splits outward and trying vertical before horizontal. An
    /// answered axis always mirrors every line of its orientation and is
    /// never the ignored one.
    pub fn try_get_reflection_axis(
        rows: &Vec<usize>,
        cols: &Vec<usize>,
        dimensions: (usize, usize),
        ignored_axis: Option<ReflectionAxis>,
    ) -> (r: Option<ReflectionAxis>)
        requires
            1 <= dimensions.0 <= 31,
            1 <= dimensions.1 <= 31,
        ensures
            r matches Some(a) ==> a != ignored_axis->Some_0 || ignored_axis is None,
            r matches Some(a) ==> match a {
                ReflectionAxis::Vertical(i) => 1 <= i < dimensions.0 && lines_reflect(
                    rows@,
                    dimensions.0 as int,
                    i as int,
                ),
                ReflectionAxis::Horizontal(i) => 1 <= i < dimensions.1 && lines_reflect(
                    cols@,
                    dimensions.1 as int,
                    i as int,
                ),
            },
    {
        let max_dim = if dimensions.0 >= dimensions.1 {
            dimensions.0
        } else {
            dimensions.1
        };
        let mut index: usize = 1;
        while index < max_dim
            invariant
                1 <= index,
                1 <= dimensions.0 <= 31,
                1 <= dimensions.1 <= 31,
            decreases max_dim - index,
        {
            if index < dimensions.0 {
                let mut all = true;
                let mut y: usize = 0;
                while y < rows.len()
                    invariant
                        1 <= index < dimensions.0 <= 31,
                        y <= rows@.len(),
                        all <==> (forall|t: int|
                            0 <= t < y ==> spec_reflects(
                                #[trigger] rows@[t] as int,
                                dimensions.0 as int,
                                index as int,
                            )),
                    decreases rows@.len() - y,
                {
                    if !is_reflection_axis(rows[y], index, dimensions.0) {
                        all = false;
                    }
                    y = y + 1;
                }
                if all {
                    let potential = Some(ReflectionAxis::Vertical(index));
                    let keep = match ignored_axis {
                        Some(a) => match (a, ReflectionAxis::Vertical(index)) {
                            (ReflectionAxis::Vertical(i), ReflectionAxis::Vertical(j)) => i != j,
                            _ => true,
                        },
                        None => true,
                    };
                    if keep {
                        return potential;
                    }
                }
            }
            if index < dimensions.1 {
                let mut all = true;
                let mut x: usize = 0;
                while x < cols.len()
                    invariant
                        1 <= index < dimensions.1 <= 31,
                        x <= cols@.len(),
                        all <==> (forall|t: int|
                            0 <= t < x ==> spec_reflects(
                                #[trigger] cols@[t] as int,
                                dimensions.1 as int,
                                index as int,
                            )),
                    decreases cols@.len() - x,
                {
                    if !is_reflection_axis(cols[x], index, dimensions.1) {
                        all = false;
                    }
                    x = x + 1;
                }
                if all {
                    let keep = match ignored_axis {
                        Some(a) => match a {
                            ReflectionAxis::Horizontal(i) => i != index,
                            ReflectionAxis::Vertical(_) => true,
                        },
                        None => true,
                    };
                    if keep {
                        return Some(ReflectionAxis::Horizontal(index));
                    }
                }
            }
            index = index + 1;
        }
        None
    }

    /// The row encodings with the cell at `(x, y)` flipped.
    pub open spec fn spec_flipped_rows(self, y: int, x: int) -> Seq<usize> {
        self.encoded_rows@.update(
            y,
            self.encoded_rows@[y] ^ (1usize << ((self.dimensions.0 - 1 - x) as usize)),
        )
    }

    /// The column encodings with the cell at `(x, y)` flipped.
    pub open spec fn spec_flipped_cols(self, y: int, x: int) -> Seq<usize> {
        self.encoded_cols@.update(
            x,
            self.encoded_cols@[x] ^ (1usize << ((self.dimensions.1 - 1 - y) as usize)),
        )
    }

    /// The axis that appears when exactly one cell is flipped: every cell is
    /// tried in reading order, and the first axis differing from the
    /// unsmudged one is the answer. `None` when no flip produces a new axis.
    /// Any answered axis mirrors every line of its orientation once some one
    /// cell is flipped.
    pub fn get_smudged_reflection_axis(&self) -> (r: Option<ReflectionAxis>)
        requires
            self.wf(),
        ensures
            r matches Some(a) ==> exists|y: int, x: int|
                0 <= y < self.dimensions.1 && 0 <= x < self.dimensions.0 && match a {
                    ReflectionAxis::Vertical(i) => 1 <= i < self.dimensions.0 && lines_reflect(
                        #[trigger] self.spec_flipped_rows(y, x),
                        self.dimensions.0 as int,
                        i as int,
                    ),
                    ReflectionAxis::Horizontal(i) => 1 <= i < self.dimensions.1 && lines_reflect(
                        #[trigger] self.spec_flipped_cols(y, x),
                        self.dimensions.1 as int,
                        i as int,
                    ),
                },
    {
        let mut rows = clone_usizes(&self.encoded_rows);
        let mut cols = clone_usizes(&self.encoded_cols);
        let original_axis = Pattern::try_get_reflection_axis(
            &rows,
            &cols,
            self.dimensions,
            None,
        );
        let mut y: usize = 0;
        while y < self.encoded_rows.len()
            invariant
                self.wf(),
                rows@ == self.encoded_rows@,
                cols@ == self.encoded_cols@,
            decreases self.encoded_rows@.len() - y,
        {
            let mut x: usize = 0;
            while x < self.encoded_cols.len()
                invariant
                    self.wf(),
                    y < self.encoded_rows@.len(),
                    rows@ == self.encoded_rows@,
                    cols@ == self.encoded_cols@,
                decreases self.encoded_cols@.len() - x,
            {
                let row_mask: usize = 1 << ((self.dimensions.0 - 1 - x) as u32);
                let col_mask: usize = 1 << ((self.dimensions.1 - 1 - y) as u32);
                let ghost old_row = rows@[y as int];
                let ghost old_col = cols@[x as int];
                let flipped_row = rows[y] ^ row_mask;
                let flipped_col = cols[x] ^ col_mask;
                rows.set(y, flipped_row);
                cols.set(x, flipped_col);
                let result = Pattern::try_get_reflection_axis(
                    &rows,
                    &cols,
                    self.dimensions,
                    original_axis,
                );
                let differs = match (result, original_axis) {
                    (Some(a), Some(b)) => a != b,
                    (Some(_), None) => true,
                    (None, _) => false,
                };
                if differs {
                    proof {
                        assert(rows@ == self.spec_flipped_rows(y as int, x as int));
                        assert(cols@ == self.spec_flipped_cols(y as int, x as int));
                    }
                    return result;
                }
                let unflipped_row = rows[y] ^ row_mask;
                let unflipped_col = cols[x] ^ col_mask;
                rows.set(y, unflipped_row);
                cols.set(x, unflipped_col);
                proof {
                    let m = row_mask;
                    let n = col_mask;
                    assert(((old_row ^ m) ^ m) == old_row) by (bit_vector);
                    assert(((old_col ^ n) ^ n) == old_col) by (bit_vector);
                    assert(rows@ =~= self.encoded_rows@);
                    assert(cols@ =~= self.encoded_cols@);
                }
                x = x + 1;
            }
            y = y + 1;
        }
        None
    }
}

fn clone_usizes(v: &Vec<usize>) -> (r: Vec<usize>)
    ensures
        r@ == v@,
{
    let mut out: Vec<usize> = Vec::new();
    let mut i: usize = 0;
    while i < v.len()
        invariant
            i <= v@.len(),
            out@ == v@.subrange(0, i as int),
        decreases v@.len() - i,
    {
        out.push(v[i]);
        proof {
            assert(out@ =~= v@.subrange(0, i as int + 1));
        }
        i = i + 1;
    }
    proof {
        assert(v@.subrange(0, v@.len() as int) =~= v@);
    }
    out
}

/// Splits the input into its blank-line-separated patterns and parses each;
/// same shape rules as the unsmudged reading.
pub fn parse_input(input: &str) -> (r: Result<Vec<Pattern>, MirrorError>)
    ensures
        r matches Ok(ps) ==> forall|i: int| 0 <= i < ps@.len() ==> (#[trigger] ps@[i]).wf(),
{
    crate::mirrors::parse_input(input)
}

/// The pattern summary: columns left of vertical axes plus one hundred times
/// the rows above horizontal axes.
pub fn get_pattern_summary(total_columns_to_left: usize, total_rows_above: usize) -> (r: usize)
    requires
        total_columns_to_left + total_rows_above * 100 <= usize::MAX,
    ensures
        r == total_columns_to_left + total_rows_above * 100,
{
    crate::mirrors::get_pattern_summary(total_columns_to_left, total_rows_above)
}

/// Parses every pattern, finds each one's smudged axis, and sums the
/// summaries. A pattern without a smudged axis is the error; a sum that
/// would not fit stops growing.
pub fn calculate_pattern_summary(input: &str) -> (r: Result<usize, MirrorError>) {
    let patterns = match parse_input(input) {
        Ok(ps) => ps,
        Err(e) => {
            return Err(e);
        },
    };
    let mut rows_above: usize = 0;
    let mut cols_left: usize = 0;
    let mut i: usize = 0;
    while i < patterns.len()
        invariant
            forall|t: int| 0 <= t < patterns@.len() ==> (#[trigger] patterns@[t]).wf(),
        decreases patterns@.len() - i,
    {
        let pattern = &patterns[i];
        let axis = match pattern.get_smudged_reflection_axis() {
            Some(a) => a,
            None => {
                return Err(MirrorError::NoAxis);
            },
        };
        let in_range = match axis {
            ReflectionAxis::Horizontal(k) => k <= pattern.dimensions.1,
            ReflectionAxis::Vertical(k) => k <= pattern.dimensions.0,
        };
        if !in_range {
            return Err(MirrorError::NoAxis);
        }
        match pattern.get_columns_left_or_above(axis) {
            Summary::Above(rows) => {
                rows_above = match rows_above.checked_add(rows) {
                    Some(v) => v,
                    None => rows_above,
                };
            },
            Summary::Left(cols) => {
                cols_left = match cols_left.checked_add(cols) {
                    Some(v) => v,
                    None => cols_left,
                };
            },
        }
        i = i + 1;
    }
    let hundred = match rows_above.checked_mul(100) {
        Some(v) => v,
        None => {
            return Ok(usize::MAX);
        },
    };
    if cols_left > usize::MAX - hundred {
        return Ok(usize::MAX);
    }
    Ok(get_pattern_summary(cols_left, rows_above))
}

} // verus!
