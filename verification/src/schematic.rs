//! The engine schematic: numbers and symbols laid out on a character grid; a
//! number is a part when a symbol touches any of its digits, and the part
//! numbers are summed.
use vstd::prelude::*;

use crate::text::{spec_digit_value, spec_parse_u32};

verus! {

/// A cell position: column then row.
#[derive(Debug, PartialEq, Eq, Hash, Copy, Clone, Structural)]
pub struct Position(pub usize, pub usize);

/// A neighbour list entry, present only when its coordinates stay on the
/// machine's grid.
pub open spec fn spec_neighbour(x: int, y: int) -> Seq<Position> {
    if 0 <= x <= usize::MAX && 0 <= y <= usize::MAX {
        seq![Position(x as usize, y as usize)]
    } else {
        Seq::empty()
    }
}

/// The eight neighbours of a position in row-major order of offsets, those
/// leaving the machine's coordinate range dropped.
pub open spec fn spec_adjacent(p: Position) -> Seq<Position> {
    let x = p.0 as int;
    let y = p.1 as int;
    spec_neighbour(x - 1, y - 1) + spec_neighbour(x, y - 1) + spec_neighbour(x + 1, y - 1)
        + spec_neighbour(x - 1, y) + spec_neighbour(x + 1, y) + spec_neighbour(x - 1, y + 1)
        + spec_neighbour(x, y + 1) + spec_neighbour(x + 1, y + 1)
}

impl Position {
    /// The at most eight neighbours of this position that stay at
    /// non-negative coordinates, in row-major order of offsets.
    pub fn get_adjacent_positions(&self) -> (r: Vec<Position>)
        ensures
            r@ == spec_adjacent(*self),
            forall|i: int|
                0 <= i < r@.len() ==> {
                    let p = #[trigger] r@[i];
                    &&& p.0 <= self.0 + 1 && self.0 <= p.0 + 1
                    &&& p.1 <= self.1 + 1 && self.1 <= p.1 + 1
                    &&& p != *self
                },
    {
        let Position(x, y) = *self;
        let mut out: Vec<Position> = Vec::new();
        let has_left = x > 0;
        let has_up = y > 0;
        let has_right = x < usize::MAX;
        let has_down = y < usize::MAX;
        if has_left && has_up {
            out.push(Position(x - 1, y - 1));
        }
        if has_up {
            out.push(Position(x, y - 1));
        }
        if has_right && has_up {
            out.push(Position(x + 1, y - 1));
        }
        if has_left {
            out.push(Position(x - 1, y));
        }
        if has_right {
            out.push(Position(x + 1, y));
        }
        if has_left && has_down {
            out.push(Position(x - 1, y + 1));
        }
        if has_down {
            out.push(Position(x, y + 1));
        }
        if has_right && has_down {
            out.push(Position(x + 1, y + 1));
        }
        proof {
            assert(out@ =~= spec_adjacent(*self));
        }
        out
    }
}

/// What one cell holds: the index of a number, or a symbol.
#[derive(Debug, PartialEq, Eq, Copy, Clone, Structural)]
pub enum SchematicElement {
    Number(usize),
    Symbol,
}

/// One number on the schematic: its value, the position of its first digit,
/// and whether a symbol marks it as a part.
#[derive(Debug, PartialEq, Eq, Copy, Clone, Structural)]
pub struct Number {
    pub value: u32,
    pub position: Position,
    pub is_part: bool,
}

/// How many decimal digits `v` prints as.
pub open spec fn spec_digit_count(v: int) -> int
    decreases v,
{
    if v < 10 {
        1
    } else {
        1 + spec_digit_count(v / 10)
    }
}

impl Number {
    /// A freshly read number is not yet known to be a part.
    pub fn new(value: u32, position: Position) -> (r: Number)
        ensures
            r == (Number { value, position, is_part: false }),
    {
        Number { value, position, is_part: false }
    }

    /// The number's width on the grid: its count of decimal digits.
    pub fn len(&self) -> (r: usize)
        ensures
            r == spec_digit_count(self.value as int),
    {
        let mut v = self.value;
        let mut digits: usize = 1;
        while v >= 10
            invariant
                1 <= digits <= u32::MAX,
                digits + spec_digit_count(v as int) == 1 + spec_digit_count(self.value as int),
            decreases v,
        {
            proof {
                lemma_digit_count_le(v as int / 10);
                lemma_digit_count_le(self.value as int);
            }
            v = v / 10;
            digits = digits + 1;
        }
        digits
    }
}

/// The grid position of the flat character index, reading `columns` cells
/// per row.
pub fn get_position(columns: usize, index: usize) -> (r: Position)
    requires
        columns >= 1,
    ensures
        r == Position(index % columns, index / columns),
{
    let x = index % columns;
    let y = index / columns;
    Position(x, y)
}

/// Whether `c` is a symbol that marks adjacent numbers as parts: any ASCII
/// punctuation other than the period.
pub open spec fn spec_is_part_symbol(c: char) -> bool {
    ('!' <= c && c <= '-') || c == '/' || (':' <= c && c <= '@') || ('[' <= c && c <= '`') || ('{'
        <= c && c <= '~')
}

pub fn is_engine_part_symbol(c: char) -> (r: bool)
    ensures
        r == spec_is_part_symbol(c),
{
    let v = c as u32;
    (33 <= v && v <= 45) || v == 47 || (58 <= v && v <= 64) || (91 <= v && v <= 96) || (123 <= v
        && v <= 126)
}

/// Reads every maximal digit run of `s` as one number, positioned at its
/// first character under row width `cols`. A run whose value does not fit in
/// `u32` is passed over.
#[verifier::loop_isolation(false)]
pub fn get_numbers(s: &str, cols: usize) -> (r: Vec<Number>)
    requires
        cols >= 1,
    ensures
        r@ == spec_numbers_from(s@, cols, 0),
{
    let n = s.unicode_len();
    let mut out: Vec<Number> = Vec::new();
    let mut i: usize = 0;
    proof {
        assert(Seq::<Number>::empty() + spec_numbers_from(s@, cols, 0) =~= spec_numbers_from(
            s@,
            cols,
            0,
        ));
    }
    while i < n
        invariant
            i <= n,
            spec_numbers_from(s@, cols, 0) == out@ + spec_numbers_from(s@, cols, i as int),
        decreases n - i,
    {
        match crate::text::digit_value(s.get_char(i)) {
            Some(first) => {
                let start = i;
                let mut value: Option<u32> = Some(first);
                i = i + 1;
                proof {
                    assert(s@.subrange(start as int, i as int) =~= seq![s@[start as int]]);
                }
                while i < n
                    invariant
                        start < i <= n,
                        forall|j: int|
                            start <= j < i ==> spec_digit_value(#[trigger] s@[j]) is Some,
                        value == crate::text::spec_parse_u32(s@.subrange(start as int, i as int)),
                    decreases n - i,
                {
                    let ghost prefix = s@.subrange(start as int, i as int);
                    let ghost prefix2 = s@.subrange(start as int, i as int + 1);
                    proof {
                        assert(prefix2.drop_last() =~= prefix);
                        assert(prefix2[prefix2.len() - 1] == s@[i as int]);
                    }
                    match crate::text::digit_value(s.get_char(i)) {
                        Some(d) => {
                            value = match value {
                                Some(v) => match v.checked_mul(10) {
                                    Some(m) => m.checked_add(d),
                                    None => None,
                                },
                                None => None,
                            };
                            i = i + 1;
                        },
                        None => {
                            break ;
                        },
                    }
                }
                let ghost old_out = out@;
                proof {
                    let rest = s@.skip(start as int);
                    assert forall|j: int| 0 <= j < i - start implies spec_digit_value(
                        #[trigger] rest[j],
                    ) is Some by {
                        assert(rest[j] == s@[start + j]);
                    }
                    if i < n {
                        assert(rest[i - start] == s@[i as int]);
                    }
                    lemma_digit_run_unique(rest, i - start);
                    assert(rest.subrange(0, i - start) =~= s@.subrange(start as int, i as int));
                }
                match value {
                    Some(v) => {
                        out.push(Number::new(v, get_position(cols, start)));
                        proof {
                            assert(out@ =~= old_out + seq![out@[out@.len() - 1]]);
                            assert(spec_numbers_from(s@, cols, start as int) == seq![
                                out@[out@.len() - 1],
                            ] + spec_numbers_from(s@, cols, i as int));
                            assert(old_out + (seq![out@[out@.len() - 1]] + spec_numbers_from(
                                s@,
                                cols,
                                i as int,
                            )) =~= out@ + spec_numbers_from(s@, cols, i as int));
                        }
                    },
                    None => {},
                }
            },
            None => {
                i = i + 1;
            },
        }
    }
    out
}

/// The positions of the part symbols among the first `n` characters, in
/// index order.
pub open spec fn spec_symbol_positions(s: Seq<char>, cols: usize, n: int) -> Seq<Position>
    decreases n,
{
    if n <= 0 {
        Seq::empty()
    } else {
        let prev = spec_symbol_positions(s, cols, n - 1);
        if spec_is_part_symbol(s[n - 1]) {
            prev.push(Position(((n - 1) as usize) % cols, ((n - 1) as usize) / cols))
        } else {
            prev
        }
    }
}

/// The position of every part symbol of `s` under row width `cols`, in
/// reading order.
pub fn get_part_symbols(s: &str, cols: usize) -> (r: Vec<Position>)
    requires
        cols >= 1,
    ensures
        r@ == spec_symbol_positions(s@, cols, s@.len() as int),
{
    let n = s.unicode_len();
    let mut out: Vec<Position> = Vec::new();
    let mut i: usize = 0;
    while i < n
        invariant
            i <= n == s@.len(),
            cols >= 1,
            out@ == spec_symbol_positions(s@, cols, i as int),
        decreases n - i,
    {
        if is_engine_part_symbol(s.get_char(i)) {
            out.push(get_position(cols, i));
        }
        i = i + 1;
    }
    out
}

/// The number of leading digit characters.
pub open spec fn spec_digit_run(s: Seq<char>) -> nat
    decreases s.len(),
{
    if s.len() == 0 {
        0
    } else if spec_digit_value(s[0]) is None {
        0
    } else {
        1 + spec_digit_run(s.drop_first())
    }
}

proof fn lemma_digit_run_unique(t: Seq<char>, k: int)
    requires
        0 <= k <= t.len(),
        forall|j: int| 0 <= j < k ==> spec_digit_value(#[trigger] t[j]) is Some,
        k < t.len() ==> spec_digit_value(t[k]) is None,
    ensures
        spec_digit_run(t) == k,
    decreases k,
{
    if t.len() == 0 {
    } else if k == 0 {
    } else {
        let u = t.drop_first();
        assert forall|j: int| 0 <= j < k - 1 implies spec_digit_value(#[trigger] u[j]) is Some by {
            assert(u[j] == t[j + 1]);
        }
        if k - 1 < u.len() {
            assert(u[k - 1] == t[k]);
        }
        lemma_digit_run_unique(u, k - 1);
    }
}

proof fn lemma_digit_run_bounds(s: Seq<char>)
    ensures
        spec_digit_run(s) <= s.len(),
        s.len() > 0 && spec_digit_value(s[0]) is Some ==> spec_digit_run(s) >= 1,
    decreases s.len(),
{
    if s.len() > 0 && spec_digit_value(s[0]) is Some {
        lemma_digit_run_bounds(s.drop_first());
    }
}

/// The numbers spelt from index `at` on: one per maximal digit run, valued
/// by its digits and positioned at its first digit under row width `cols`; a
/// run whose value leaves `u32` is passed over.
pub open spec fn spec_numbers_from(s: Seq<char>, cols: usize, at: int) -> Seq<Number>
    decreases s.len() - at,
    via spec_numbers_from_decreases
{
    if at < 0 || at >= s.len() {
        Seq::empty()
    } else if spec_digit_value(s[at]) is None {
        spec_numbers_from(s, cols, at + 1)
    } else {
        let k = spec_digit_run(s.skip(at));
        let rest = spec_numbers_from(s, cols, at + k);
        match spec_parse_u32(s.subrange(at, at + k)) {
            Some(v) => seq![
                Number {
                    value: v,
                    position: Position((at as usize) % cols, (at as usize) / cols),
                    is_part: false,
                },
            ] + rest,
            None => rest,
        }
    }
}

#[via_fn]
proof fn spec_numbers_from_decreases(s: Seq<char>, cols: usize, at: int) {
    if 0 <= at < s.len() && spec_digit_value(s[at]) is Some {
        lemma_digit_run_bounds(s.skip(at));
    }
}

/// The grid text flattened: its lines concatenated in order.
pub open spec fn spec_flat(lines: Seq<Seq<char>>, n: int) -> Seq<char>
    decreases n,
{
    if n <= 0 {
        Seq::empty()
    } else {
        spec_flat(lines, n - 1) + lines[n - 1]
    }
}

/// The row width a schematic reads with: the first line's length, one column
/// at least.
pub open spec fn spec_schematic_cols(lines: Seq<Seq<char>>) -> usize {
    if lines.len() > 0 && lines[0].len() >= 1 {
        lines[0].len() as usize
    } else {
        1
    }
}

/// The cells the `index`th number covers with its first `d` digits, one
/// entry per digit, those past the machine's coordinate range dropped.
pub open spec fn spec_number_cells(num: Number, index: int, d: int) -> Seq<
    (Position, SchematicElement),
>
    decreases d,
{
    if d <= 0 {
        Seq::empty()
    } else {
        spec_number_cells(num, index, d - 1) + (if num.position.0 + (d - 1) <= usize::MAX {
            seq![
                (
                    Position((num.position.0 + (d - 1)) as usize, num.position.1),
                    SchematicElement::Number(index as usize),
                ),
            ]
        } else {
            Seq::empty()
        })
    }
}

/// The cells of the first `n` numbers, in number order.
pub open spec fn spec_numbers_cells(numbers: Seq<Number>, n: int) -> Seq<
    (Position, SchematicElement),
>
    decreases n,
{
    if n <= 0 {
        Seq::empty()
    } else {
        spec_numbers_cells(numbers, n - 1) + spec_number_cells(
            numbers[n - 1],
            n - 1,
            spec_digit_count(numbers[n - 1].value as int),
        )
    }
}

/// The first `n` symbol positions as symbol entries.
pub open spec fn spec_symbol_entries(ps: Seq<Position>, n: int) -> Seq<
    (Position, SchematicElement),
>
    decreases n,
{
    if n <= 0 {
        Seq::empty()
    } else {
        spec_symbol_entries(ps, n - 1).push((ps[n - 1], SchematicElement::Symbol))
    }
}

/// Some symbol entry of the cell table has an adjacent cell showing number
/// `i`.
pub open spec fn symbol_adjacent(entries: Seq<(Position, SchematicElement)>, i: int) -> bool {
    exists|e: int, q: int|
        {
            &&& 0 <= e < entries.len()
            &&& (#[trigger] entries[e]).1 == SchematicElement::Symbol
            &&& 0 <= q < spec_adjacent(entries[e].0).len()
            &&& spec_cell_at(entries, #[trigger] spec_adjacent(entries[e].0)[q]) == Some(
                SchematicElement::Number(i as usize),
            )
        }
}

/// Whether some symbol entry of `map` has an adjacent cell showing number
/// `i`.
fn symbol_adjacent_scan(map: &CellTable, i: usize) -> (r: bool)
    ensures
        r == symbol_adjacent(map.entries@, i as int),
{
    let mut e: usize = 0;
    while e < map.entries.len()
        invariant
            e <= map.entries@.len(),
            forall|e2: int, q: int|
                0 <= e2 < e && (#[trigger] map.entries@[e2]).1 == SchematicElement::Symbol && 0 <= q
                    < spec_adjacent(map.entries@[e2].0).len() ==> spec_cell_at(
                    map.entries@,
                    #[trigger] spec_adjacent(map.entries@[e2].0)[q],
                ) != Some(SchematicElement::Number(i as int as usize)),
        decreases map.entries@.len() - e,
    {
        let (position, element) = map.entries[e];
        match element {
            SchematicElement::Symbol => {
                let adjacent = position.get_adjacent_positions();
                let mut q: usize = 0;
                while q < adjacent.len()
                    invariant
                        e < map.entries@.len(),
                        map.entries@[e as int].1 == SchematicElement::Symbol,
                        adjacent@ == spec_adjacent(map.entries@[e as int].0),
                        q <= adjacent@.len(),
                        forall|q2: int|
                            0 <= q2 < q ==> spec_cell_at(
                                map.entries@,
                                #[trigger] adjacent@[q2],
                            ) != Some(SchematicElement::Number(i as int as usize)),
                    decreases adjacent@.len() - q,
                {
                    match map.get(adjacent[q]) {
                        Some(found) => match found {
                            SchematicElement::Number(index) => {
                                if *index == i {
                                    proof {
                                        assert(symbol_adjacent(map.entries@, i as int)) by {
                                            assert(map.entries@[e as int].1
                                                == SchematicElement::Symbol && spec_cell_at(
                                                map.entries@,
                                                spec_adjacent(map.entries@[e as int].0)[q as int],
                                            ) == Some(SchematicElement::Number(i)));
                                        }
                                    }
                                    return true;
                                }
                            },
                            SchematicElement::Symbol => {},
                        },
                        None => {},
                    }
                    q = q + 1;
                }
            },
            SchematicElement::Number(_) => {},
        }
        e = e + 1;
    }
    false
}

/// The parsed schematic: its numbers, and a cell table mapping each occupied
/// position to the number standing there or to a symbol.
#[derive(Debug, PartialEq, Eq)]
pub struct Schematic {
    pub numbers: Vec<Number>,
    pub map: CellTable,
}

/// Occupied cells in insertion order; a lookup takes the last entry for a
/// position, so later insertions overwrite earlier ones.
#[derive(Debug, PartialEq, Eq)]
pub struct CellTable {
    pub entries: Vec<(Position, SchematicElement)>,
}

/// The element the table shows at `p`: the latest entry for that position.
pub open spec fn spec_cell_at(
    entries: Seq<(Position, SchematicElement)>,
    p: Position,
) -> Option<SchematicElement>
    decreases entries.len(),
{
    if entries.len() == 0 {
        None
    } else if entries[entries.len() - 1].0 == p {
        Some(entries[entries.len() - 1].1)
    } else {
        spec_cell_at(entries.drop_last(), p)
    }
}

/// How many distinct positions the first `n` entries cover.
pub open spec fn spec_distinct_positions(
    entries: Seq<(Position, SchematicElement)>,
    n: int,
) -> int
    decreases n,
{
    if n <= 0 {
        0
    } else {
        spec_distinct_positions(entries, n - 1) + if exists|j: int|
            0 <= j < n - 1 && (#[trigger] entries[j]).0 == entries[n - 1].0 {
            0int
        } else {
            1int
        }
    }
}

impl CellTable {
    /// The element at `p`, preferring the latest entry.
    pub fn get(&self, p: Position) -> (r: Option<&SchematicElement>)
        ensures
            match r {
                Some(v) => spec_cell_at(self.entries@, p) == Some(*v),
                None => spec_cell_at(self.entries@, p) is None,
            },
    {
        let mut i: usize = self.entries.len();
        proof {
            assert(self.entries@.take(i as int) =~= self.entries@);
        }
        while i > 0
            invariant
                i <= self.entries@.len(),
                spec_cell_at(self.entries@, p) == spec_cell_at(
                    self.entries@.take(i as int),
                    p,
                ),
            decreases i,
        {
            i = i - 1;
            let ghost prefix = self.entries@.take(i as int + 1);
            proof {
                assert(prefix.drop_last() =~= self.entries@.take(i as int));
                assert(prefix[prefix.len() - 1] == self.entries@[i as int]);
            }
            if self.entries[i].0 == p {
                return Some(&self.entries[i].1);
            }
        }
        proof {
            assert(self.entries@.take(0) =~= Seq::<(Position, SchematicElement)>::empty());
        }
        None
    }

    /// Whether some entry covers `p`.
    pub fn contains_key(&self, p: Position) -> (r: bool)
        ensures
            r == (spec_cell_at(self.entries@, p) is Some),
    {
        match self.get(p) {
            Some(_) => true,
            None => false,
        }
    }

    /// How many distinct positions hold an entry.
    pub fn len(&self) -> (r: usize)
        ensures
            r == spec_distinct_positions(self.entries@, self.entries@.len() as int),
    {
        let mut count: usize = 0;
        let mut i: usize = 0;
        while i < self.entries.len()
            invariant
                count <= i <= self.entries@.len(),
                count == spec_distinct_positions(self.entries@, i as int),
            decreases self.entries@.len() - i,
        {
            let mut fresh = true;
            let mut j: usize = 0;
            while j < i
                invariant
                    j <= i < self.entries@.len(),
                    fresh <==> (forall|t: int|
                        0 <= t < j ==> (#[trigger] self.entries@[t]).0 != self.entries@[i as int].0),
                decreases i - j,
            {
                if self.entries[j].0 == self.entries[i].0 {
                    fresh = false;
                }
                j = j + 1;
            }
            if fresh {
                count = count + 1;
            }
            i = i + 1;
        }
        count
    }
}

impl Schematic {
    /// Parses a schematic: the lines are concatenated, the first line fixes
    /// the row width (one column for an empty first line), the numbers are
    /// read off the flattened text, each number's digit cells point at it,
    /// and each symbol cell overlays a symbol mark.
    #[verifier::loop_isolation(false)]
    pub fn from(s: &str) -> (r: Schematic)
        ensures
            ({
                let lines = crate::text::spec_lines(s@);
                let cols = spec_schematic_cols(lines);
                let flat = spec_flat(lines, lines.len() as int);
                let symbols = spec_symbol_positions(flat, cols, flat.len() as int);
                &&& r.numbers@ == spec_numbers_from(flat, cols, 0)
                &&& r.map.entries@ == spec_numbers_cells(r.numbers@, r.numbers@.len() as int)
                    + spec_symbol_entries(symbols, symbols.len() as int)
            }),
    {
        let lines = crate::text::line_list(s);
        let ghost views = lines@.map_values(|p: String| p@);
        let cols = if lines.len() > 0 {
            let w = lines[0].as_str().unicode_len();
            if w == 0 {
                1
            } else {
                w
            }
        } else {
            1
        };
        proof {
            if views.len() > 0 {
                assert(views[0] == lines@[0]@);
            }
            assert(cols == spec_schematic_cols(views));
        }
        // The input with its line structure flattened away.
        let mut flat = String::new();
        let mut i: usize = 0;
        while i < lines.len()
            invariant
                i <= lines@.len(),
                flat@ == spec_flat(views, i as int),
            decreases lines@.len() - i,
        {
            proof {
                assert(views[i as int] == lines@[i as int]@);
            }
            flat.append(lines[i].as_str());
            i = i + 1;
        }
        let flat_str = flat.as_str();
        let numbers = get_numbers(flat_str, cols);
        let part_symbols = get_part_symbols(flat_str, cols);
        let mut entries: Vec<(Position, SchematicElement)> = Vec::new();
        let mut i: usize = 0;
        while i < numbers.len()
            invariant
                i <= numbers@.len(),
                entries@ == spec_numbers_cells(numbers@, i as int),
            decreases numbers@.len() - i,
        {
            let number = &numbers[i];
            let width = number.len();
            let x = number.position.0;
            let y = number.position.1;
            let ghost row_start = entries@;
            let mut d: usize = 0;
            while d < width
                invariant
                    d <= width == spec_digit_count(numbers@[i as int].value as int),
                    i < numbers@.len(),
                    x == numbers@[i as int].position.0 && y == numbers@[i as int].position.1,
                    entries@ == row_start + spec_number_cells(
                        numbers@[i as int],
                        i as int,
                        d as int,
                    ),
                decreases width - d,
            {
                let ghost before = entries@;
                if x <= usize::MAX - d {
                    entries.push((Position(x + d, y), SchematicElement::Number(i)));
                    proof {
                        assert(entries@ =~= before + seq![entries@[entries@.len() - 1]]);
                        assert(before + seq![entries@[entries@.len() - 1]] =~= row_start + (
                        spec_number_cells(numbers@[i as int], i as int, d as int) + seq![
                            entries@[entries@.len() - 1],
                        ]));
                    }
                } else {
                    proof {
                        assert(entries@ =~= row_start + (spec_number_cells(
                            numbers@[i as int],
                            i as int,
                            d as int,
                        ) + Seq::<(Position, SchematicElement)>::empty()));
                    }
                }
                d = d + 1;
            }
            i = i + 1;
        }
        let ghost all_cells = entries@;
        let mut i: usize = 0;
        while i < part_symbols.len()
            invariant
                i <= part_symbols@.len(),
                entries@ == all_cells + spec_symbol_entries(part_symbols@, i as int),
            decreases part_symbols@.len() - i,
        {
            let ghost before = entries@;
            entries.push((part_symbols[i], SchematicElement::Symbol));
            proof {
                assert(entries@ =~= before.push((part_symbols@[i as int], SchematicElement::Symbol)));
            }
            i = i + 1;
        }
        Schematic { numbers, map: CellTable { entries } }
    }

    /// Marks as a part every number standing next to a symbol; nothing else
    /// about the numbers or the cell table changes. A number is marked
    /// exactly when it already was, or some symbol entry of the table has an
    /// adjacent cell showing that number.
    pub fn calculate_parts(&mut self)
        ensures
            final(self).numbers@.len() == old(self).numbers@.len(),
            final(self).map == old(self).map,
            forall|i: int|
                0 <= i < old(self).numbers@.len() ==> {
                    let before = old(self).numbers@[i];
                    let after = #[trigger] final(self).numbers@[i];
                    &&& after.value == before.value
                    &&& after.position == before.position
                    &&& after.is_part == (before.is_part || symbol_adjacent(
                        old(self).map.entries@,
                        i,
                    ))
                },
    {
        let n = self.numbers.len();
        let mut idx: usize = 0;
        while idx < n
            invariant
                n == self.numbers@.len() == old(self).numbers@.len(),
                self.map == old(self).map,
                idx <= n,
                forall|t: int| idx <= t < n ==> self.numbers@[t] == old(self).numbers@[t],
                forall|t: int|
                    0 <= t < idx ==> {
                        let before = old(self).numbers@[t];
                        let after = #[trigger] self.numbers@[t];
                        &&& after.value == before.value
                        &&& after.position == before.position
                        &&& after.is_part == (before.is_part || symbol_adjacent(
                            old(self).map.entries@,
                            t,
                        ))
                    },
            decreases n - idx,
        {
            let touched = symbol_adjacent_scan(&self.map, idx);
            let ghost before_numbers = self.numbers@;
            let current = self.numbers[idx];
            let updated = Number {
                value: current.value,
                position: current.position,
                is_part: current.is_part || touched,
            };
            self.numbers.set(idx, updated);
            proof {
                assert(forall|t: int|
                    0 <= t < n && t != idx ==> self.numbers@[t] == before_numbers[t]);
            }
            idx = idx + 1;
        }
    }

    /// The values of the part numbers summed.
    pub fn get_part_sum(&self) -> (r: u32)
        requires
            spec_part_sum(self.numbers@, self.numbers@.len() as int) <= u32::MAX,
        ensures
            r == spec_part_sum(self.numbers@, self.numbers@.len() as int),
    {
        let mut total: u32 = 0;
        let mut i: usize = 0;
        while i < self.numbers.len()
            invariant
                i <= self.numbers@.len(),
                total == spec_part_sum(self.numbers@, i as int),
                spec_part_sum(self.numbers@, self.numbers@.len() as int) <= u32::MAX,
            decreases self.numbers@.len() - i,
        {
            proof {
                lemma_part_sum_monotonic(self.numbers@, i as int + 1, self.numbers@.len() as int);
                lemma_part_sum_monotonic(self.numbers@, 0, i as int);
            }
            if self.numbers[i].is_part {
                total = total + self.numbers[i].value;
            }
            i = i + 1;
        }
        total
    }
}

/// The part-number values among the first `n` numbers, summed.
pub open spec fn spec_part_sum(numbers: Seq<Number>, n: int) -> int
    decreases n,
{
    if n <= 0 {
        0
    } else {
        spec_part_sum(numbers, n - 1) + if numbers[n - 1].is_part {
            numbers[n - 1].value as int
        } else {
            0
        }
    }
}

/// Every positive value prints as at least one and at most `v` digits.
proof fn lemma_digit_count_le(v: int)
    requires
        v >= 0,
    ensures
        1 <= spec_digit_count(v),
        v >= 1 ==> spec_digit_count(v) <= v,
    decreases v,
{
    if v >= 10 {
        lemma_digit_count_le(v / 10);
    }
}

proof fn lemma_part_sum_monotonic(numbers: Seq<Number>, a: int, b: int)
    requires
        0 <= a <= b,
    ensures
        spec_part_sum(numbers, a) <= spec_part_sum(numbers, b),
    decreases b - a,
{
    if a < b {
        lemma_part_sum_monotonic(numbers, a, b - 1);
    }
}

} // verus!
