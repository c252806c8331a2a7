//! The desert network walk: a repeating direction list and a table of nodes
//! with left/right edges; the walk starts at `AAA` and counts steps to `ZZZ`.
use vstd::prelude::*;

use crate::text::{line_list, split_once_char, str_eq, trim_spaces};

verus! {

#[derive(Debug, PartialEq, Eq, Clone, Copy, Structural)]
pub enum Direction {
    Right,
    Left,
}

impl Direction {
    /// The direction one character names; only `'R'` and `'L'` name one.
    pub fn from_char(c: char) -> (r: Direction)
        requires
            c == 'R' || c == 'L',
        ensures
            r == (if c == 'R' {
                Direction::Right
            } else {
                Direction::Left
            }),
    {
        if c == 'R' {
            Direction::Right
        } else {
            Direction::Left
        }
    }
}

/// The node table: each node's name with its left and right neighbours, in
/// input order. Lookups take the first entry with the given name.
#[derive(Debug, PartialEq, Eq)]
pub struct NodeTable {
    pub entries: Vec<(String, (String, String))>,
}

/// The first entry at or after `i` whose name is `key`.
pub open spec fn spec_lookup(
    entries: Seq<(String, (String, String))>,
    key: Seq<char>,
    i: int,
) -> Option<(Seq<char>, Seq<char>)>
    decreases entries.len() - i,
{
    if i < 0 || i >= entries.len() {
        None
    } else if entries[i].0@ == key {
        Some((entries[i].1.0@, entries[i].1.1@))
    } else {
        spec_lookup(entries, key, i + 1)
    }
}

impl NodeTable {
    /// The left and right neighbours of the first node named `key`.
    pub fn get(&self, key: &str) -> (r: Option<&(String, String)>)
        ensures
            match r {
                Some(v) => spec_lookup(self.entries@, key@, 0) == Some((v.0@, v.1@)),
                None => spec_lookup(self.entries@, key@, 0) is None,
            },
    {
        let mut i: usize = 0;
        while i < self.entries.len()
            invariant
                i <= self.entries@.len(),
                spec_lookup(self.entries@, key@, 0) == spec_lookup(self.entries@, key@, i as int),
            decreases self.entries@.len() - i,
        {
            if str_eq(self.entries[i].0.as_str(), key) {
                return Some(&self.entries[i].1);
            }
            i = i + 1;
        }
        None
    }
}

/// The position after `n` steps from `AAA`: each step follows the left or
/// right edge of the current node, by the direction list read in rotation; a
/// missing node keeps the walk in place.
pub open spec fn spec_position(
    entries: Seq<(String, (String, String))>,
    dirs: Seq<Direction>,
    n: nat,
) -> Seq<char>
    decreases n,
{
    if n == 0 {
        "AAA"@
    } else {
        let prev = spec_position(entries, dirs, (n - 1) as nat);
        match spec_lookup(entries, prev, 0) {
            None => prev,
            Some(lr) => if dirs[((n - 1) as int) % (dirs.len() as int)] == Direction::Right {
                lr.1
            } else {
                lr.0
            },
        }
    }
}

/// Steps from `AAA` to the first visit of `ZZZ`. `Some(n)` is exact: the
/// walk stands on `ZZZ` after `n` steps and on no earlier step. `None` is
/// owed only when the direction list is empty, the walk reaches a node
/// without an entry before any visit of `ZZZ`, or every step within the
/// machine's budget misses `ZZZ`.
pub fn get_steps_to_destination(directions: &Vec<Direction>, map: &NodeTable) -> (r: Option<usize>)
    ensures
        r matches Some(n) ==> spec_position(map.entries@, directions@, n as nat) == "ZZZ"@
            && (forall|m: int|
            0 <= m < n ==> #[trigger] spec_position(map.entries@, directions@, m as nat)
                != "ZZZ"@),
        r is None ==> directions@.len() == 0 || (exists|m: int|
            0 <= m <= usize::MAX && spec_lookup(
                map.entries@,
                #[trigger] spec_position(map.entries@, directions@, m as nat),
                0,
            ) is None && (forall|t: int|
                0 <= t <= m ==> #[trigger] spec_position(map.entries@, directions@, t as nat)
                    != "ZZZ"@)) || (forall|m: int|
            0 <= m <= usize::MAX ==> #[trigger] spec_position(map.entries@, directions@, m as nat)
                != "ZZZ"@),
{
    if directions.len() == 0 {
        return None;
    }
    let mut current: String = "AAA".to_owned();
    let mut steps: usize = 0;
    loop
        invariant
            directions@.len() > 0,
            current@ == spec_position(map.entries@, directions@, steps as nat),
            forall|m: int|
                0 <= m < steps ==> #[trigger] spec_position(map.entries@, directions@, m as nat)
                    != "ZZZ"@,
        decreases usize::MAX - steps,
    {
        if str_eq(current.as_str(), "ZZZ") {
            return Some(steps);
        }
        if steps == usize::MAX {
            proof {
                assert(forall|m: int|
                    0 <= m <= usize::MAX ==> #[trigger] spec_position(
                        map.entries@,
                        directions@,
                        m as nat,
                    ) != "ZZZ"@);
            }
            return None;
        }
        let lr = match map.get(current.as_str()) {
            Some(lr) => lr,
            None => {
                proof {
                    let w: int = steps as int;
                    assert(0 <= w <= usize::MAX && spec_lookup(
                        map.entries@,
                        spec_position(map.entries@, directions@, w as nat),
                        0,
                    ) is None && (forall|t: int|
                        0 <= t <= w ==> #[trigger] spec_position(
                            map.entries@,
                            directions@,
                            t as nat,
                        ) != "ZZZ"@));
                }
                return None;
            },
        };
        let dir = directions[steps % directions.len()];
        let next = match dir {
            Direction::Right => lr.1.as_str().to_owned(),
            Direction::Left => lr.0.as_str().to_owned(),
        };
        current = next;
        steps = steps + 1;
    }
}

/// The directions named among the first `n` characters of the direction
/// line, in order; other characters are passed over.
pub open spec fn spec_directions(line: Seq<char>, n: int) -> Seq<Direction>
    decreases n,
{
    if n <= 0 {
        Seq::empty()
    } else {
        let prev = spec_directions(line, n - 1);
        if line[n - 1] == 'R' {
            prev.push(Direction::Right)
        } else if line[n - 1] == 'L' {
            prev.push(Direction::Left)
        } else {
            prev
        }
    }
}

/// The input without one leading `(` and one trailing `)`, where present.
pub open spec fn spec_strip_parens(s: Seq<char>) -> Seq<char> {
    let from: int = if s.len() > 0 && s[0] == '(' {
        1
    } else {
        0
    };
    let to: int = if s.len() > from && s[s.len() - 1] == ')' {
        s.len() - 1
    } else {
        s.len() as int
    };
    if from <= to {
        s.subrange(from, to)
    } else {
        s
    }
}

/// The node entry one line spells: `NAME = (LEFT, RIGHT)`, each part
/// trimmed; `None` when the shape does not fit.
pub open spec fn spec_node_line(line: Seq<char>) -> Option<(Seq<char>, (Seq<char>, Seq<char>))> {
    match crate::text::spec_split_once(line, '=') {
        None => None,
        Some(pair) => {
            let key = crate::text::spec_trim(pair.0);
            let inner = spec_strip_parens(crate::text::spec_trim(pair.1));
            match crate::text::spec_split_once(inner, ',') {
                None => None,
                Some(sides) => Some(
                    (key, (crate::text::spec_trim(sides.0), crate::text::spec_trim(sides.1))),
                ),
            }
        },
    }
}

/// The plain view of an owned entry list.
pub open spec fn entry_views(entries: Seq<(String, (String, String))>) -> Seq<
    (Seq<char>, (Seq<char>, Seq<char>)),
> {
    entries.map_values(|e: (String, (String, String))| (e.0@, (e.1.0@, e.1.1@)))
}

/// The node entries of the lines after the first, up to line `n`, in order.
pub open spec fn spec_node_entries(lines: Seq<Seq<char>>, n: int) -> Seq<
    (Seq<char>, (Seq<char>, Seq<char>)),
>
    decreases n,
{
    if n <= 1 {
        Seq::empty()
    } else {
        let prev = spec_node_entries(lines, n - 1);
        match spec_node_line(lines[n - 1]) {
            Some(e) => prev.push(e),
            None => prev,
        }
    }
}

/// Parses the direction line, then one `NAME = (LEFT, RIGHT)` node per line.
/// Characters that name no direction and lines that do not fit the shape are
/// passed over; the contract pins both results.
#[verifier::loop_isolation(false)]
pub fn parse(input: &str) -> (r: (Vec<Direction>, NodeTable))
    ensures
        ({
            let lines = crate::text::spec_lines(input@);
            &&& r.0@ == (if lines.len() > 0 {
                spec_directions(lines[0], lines[0].len() as int)
            } else {
                Seq::<Direction>::empty()
            })
            &&& entry_views(r.1.entries@) == spec_node_entries(lines, lines.len() as int)
        }),
{
    let lines = line_list(input);
    let ghost views = lines@.map_values(|p: String| p@);
    let mut directions: Vec<Direction> = Vec::new();
    if lines.len() > 0 {
        let first = lines[0].as_str();
        proof {
            assert(views[0] == lines@[0]@);
        }
        let n = first.unicode_len();
        let mut i: usize = 0;
        while i < n
            invariant
                i <= n == first@.len(),
                directions@ == spec_directions(first@, i as int),
            decreases n - i,
        {
            let c = first.get_char(i);
            if c == 'R' || c == 'L' {
                directions.push(Direction::from_char(c));
            }
            i = i + 1;
        }
    }
    let mut entries: Vec<(String, (String, String))> = Vec::new();
    let mut i: usize = 1;
    proof {
        assert(entry_views(entries@) =~= Seq::<(Seq<char>, (Seq<char>, Seq<char>))>::empty());
    }
    while i < lines.len()
        invariant
            i >= 1,
            lines@.len() >= 1 ==> i <= lines@.len(),
            lines@.len() < 1 ==> i == 1,
            entry_views(entries@) == spec_node_entries(views, i as int),
        decreases lines@.len() - i,
    {
        let ghost old_map = entry_views(entries@);
        proof {
            assert(views[i as int] == lines@[i as int]@);
        }
        let line = lines[i].as_str();
        match split_once_char(line, '=') {
            Some(pair) => {
                let key = trim_spaces(pair.0.as_str());
                let value = trim_spaces(pair.1.as_str());
                let inner = strip_parens(value.as_str());
                match split_once_char(inner.as_str(), ',') {
                    Some(sides) => {
                        let left = trim_spaces(sides.0.as_str());
                        let right = trim_spaces(sides.1.as_str());
                        entries.push((key, (left, right)));
                        proof {
                            assert(entry_views(entries@) =~= old_map.push(
                                (
                                    entries@[entries@.len() - 1].0@,
                                    (
                                        entries@[entries@.len() - 1].1.0@,
                                        entries@[entries@.len() - 1].1.1@,
                                    ),
                                ),
                            ));
                        }
                    },
                    None => {},
                }
            },
            None => {},
        }
        i = i + 1;
    }
    proof {
        assert(views.len() == lines@.len());
        if views.len() == 0 {
            assert(i == 1);
            assert(spec_node_entries(views, 1) =~= Seq::<(Seq<char>, (Seq<char>, Seq<char>))>::empty());
            assert(spec_node_entries(views, 0) =~= Seq::<(Seq<char>, (Seq<char>, Seq<char>))>::empty());
        } else {
            assert(i as int == views.len());
        }
        assert(entry_views(entries@) == spec_node_entries(views, views.len() as int));
    }
    (directions, NodeTable { entries })
}

/// The input without one leading `(` and one trailing `)`, where present.
fn strip_parens(s: &str) -> (r: String)
    ensures
        r@ == spec_strip_parens(s@),
{
    let n = s.unicode_len();
    let from: usize = if n > 0 && s.get_char(0) == '(' {
        1
    } else {
        0
    };
    let to: usize = if n > from && s.get_char(n - 1) == ')' {
        n - 1
    } else {
        n
    };
    if from <= to {
        s.substring_char(from, to).to_owned()
    } else {
        s.to_owned()
    }
}

} // verus!
