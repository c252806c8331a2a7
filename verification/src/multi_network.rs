//! The ghost variant of the network walk: every node ending in `A` walks at
//! once, each reaches its own node ending in `Z`, and the answer is the least
//! common multiple of the individual step counts.
use vstd::prelude::*;

use crate::text::{line_list, split_once_char, str_eq, trim_spaces};

verus! {

#[derive(Debug, PartialEq, Eq, Clone, Copy, Structural)]
pub enum Direction {
    Right,
    Left,
}

impl Direction {
    /// The direction one character names; only `'R'` and `'L'` name one.
    pub fn from_char(c: char) -> (r: Direction)
        requires
            c == 'R' || c == 'L',
        ensures
            r == (if c == 'R' {
                Direction::Right
            } else {
                Direction::Left
            }),
    {
        if c == 'R' {
            Direction::Right
        } else {
            Direction::Left
        }
    }
}

/// Whether a node is a start or an end; other nodes carry no mark.
#[derive(Debug, PartialEq, Eq, Clone, Copy, Structural)]
pub enum Terminal {
    Start,
    End,
}

/// A node: its name and whether its last character marks it terminal.
#[derive(Debug, PartialEq, Eq)]
pub struct Node {
    pub id: String,
    pub is_terminal: Option<Terminal>,
}

/// The terminal mark a name's last character gives: `A` starts, `Z` ends.
pub open spec fn spec_terminal_of(id: Seq<char>) -> Option<Terminal> {
    if id.len() == 0 {
        None
    } else if id[id.len() - 1] == 'A' {
        Some(Terminal::Start)
    } else if id[id.len() - 1] == 'Z' {
        Some(Terminal::End)
    } else {
        None
    }
}

impl Node {
    /// Classifies a node by its name's last character: `A` starts, `Z` ends.
    pub fn from_str(input: &str) -> (r: Node)
        ensures
            r.id@ == input@,
            r.is_terminal == spec_terminal_of(input@),
    {
        let id = input.to_owned();
        let n = input.unicode_len();
        let is_terminal = if n == 0 {
            None
        } else {
            let c = input.get_char(n - 1);
            if c == 'A' {
                Some(Terminal::Start)
            } else if c == 'Z' {
                Some(Terminal::End)
            } else {
                None
            }
        };
        Node { id, is_terminal }
    }
}

/// The parsed network: the direction list, the nodes, and each node's two
/// edges, in input order.
#[derive(Debug, PartialEq, Eq)]
pub struct NetworkMap {
    pub directions: Vec<Direction>,
    pub nodes: Vec<(String, Node)>,
    pub edges: Vec<(String, (String, String))>,
}

/// The first node entry at or after `i` whose name is `key`.
pub open spec fn spec_node_lookup(entries: Seq<(String, Node)>, key: Seq<char>, i: int) -> Option<
    Node,
>
    decreases entries.len() - i,
{
    if i < 0 || i >= entries.len() {
        None
    } else if entries[i].0@ == key {
        Some(entries[i].1)
    } else {
        spec_node_lookup(entries, key, i + 1)
    }
}

/// The first edge entry at or after `i` whose name is `key`.
pub open spec fn spec_edge_lookup(
    entries: Seq<(String, (String, String))>,
    key: Seq<char>,
    i: int,
) -> Option<(Seq<char>, Seq<char>)>
    decreases entries.len() - i,
{
    if i < 0 || i >= entries.len() {
        None
    } else if entries[i].0@ == key {
        Some((entries[i].1.0@, entries[i].1.1@))
    } else {
        spec_edge_lookup(entries, key, i + 1)
    }
}

impl NetworkMap {
    /// The first node entry named `key`.
    pub fn get_node(&self, key: &str) -> (r: Option<&Node>)
        ensures
            match r {
                Some(v) => spec_node_lookup(self.nodes@, key@, 0) == Some(*v),
                None => spec_node_lookup(self.nodes@, key@, 0) is None,
            },
    {
        let mut i: usize = 0;
        while i < self.nodes.len()
            invariant
                i <= self.nodes@.len(),
                spec_node_lookup(self.nodes@, key@, 0) == spec_node_lookup(
                    self.nodes@,
                    key@,
                    i as int,
                ),
            decreases self.nodes@.len() - i,
        {
            if str_eq(self.nodes[i].0.as_str(), key) {
                return Some(&self.nodes[i].1);
            }
            i = i + 1;
        }
        None
    }

    /// The left and right edges of the first node named `key`.
    pub fn get_edges(&self, key: &str) -> (r: Option<&(String, String)>)
        ensures
            match r {
                Some(v) => spec_edge_lookup(self.edges@, key@, 0) == Some((v.0@, v.1@)),
                None => spec_edge_lookup(self.edges@, key@, 0) is None,
            },
    {
        let mut i: usize = 0;
        while i < self.edges.len()
            invariant
                i <= self.edges@.len(),
                spec_edge_lookup(self.edges@, key@, 0) == spec_edge_lookup(
                    self.edges@,
                    key@,
                    i as int,
                ),
            decreases self.edges@.len() - i,
        {
            if str_eq(self.edges[i].0.as_str(), key) {
                return Some(&self.edges[i].1);
            }
            i = i + 1;
        }
        None
    }

    /// The edge out of `id` in the given direction, or `None` when `id` has
    /// no entry.
    pub fn get_edge(&self, id: &str, direction: &Direction) -> (r: Option<&String>)
        ensures
            match spec_edge_lookup(self.edges@, id@, 0) {
                None => r is None,
                Some(lr) => r matches Some(v) && v@ == (if *direction == Direction::Right {
                    lr.1
                } else {
                    lr.0
                }),
            },
    {
        match self.get_edges(id) {
            Some(lr) => match direction {
                Direction::Right => Some(&lr.1),
                Direction::Left => Some(&lr.0),
            },
            None => None,
        }
    }

    /// The names of the start nodes, in input order.
    pub fn get_starting_nodes(&self) -> (r: Vec<&String>)
        ensures
            r@.map_values(|p: &String| p@) == spec_starting_names(
                self.nodes@,
                self.nodes@.len() as int,
            ),
    {
        let mut out: Vec<&String> = Vec::new();
        let mut i: usize = 0;
        proof {
            assert(out@.map_values(|p: &String| p@) =~= Seq::<Seq<char>>::empty());
        }
        while i < self.nodes.len()
            invariant
                i <= self.nodes@.len(),
                out@.map_values(|p: &String| p@) == spec_starting_names(self.nodes@, i as int),
            decreases self.nodes@.len() - i,
        {
            let ghost old_names = out@.map_values(|p: &String| p@);
            match self.nodes[i].1.is_terminal {
                Some(Terminal::Start) => {
                    out.push(&self.nodes[i].0);
                    proof {
                        assert(out@.map_values(|p: &String| p@) =~= old_names.push(
                            out@[out@.len() - 1]@,
                        ));
                    }
                },
                _ => {},
            }
            i = i + 1;
        }
        out
    }
}

/// The names of the start-marked nodes among the first `n`, in order.
pub open spec fn spec_starting_names(nodes: Seq<(String, Node)>, n: int) -> Seq<Seq<char>>
    decreases n,
{
    if n <= 0 {
        Seq::empty()
    } else {
        let prev = spec_starting_names(nodes, n - 1);
        if nodes[n - 1].1.is_terminal == Some(Terminal::Start) {
            prev.push(nodes[n - 1].0@)
        } else {
            prev
        }
    }
}

/// The greatest common divisor, by Euclid's rule.
pub open spec fn spec_gcd(a: nat, b: nat) -> nat
    decreases b,
{
    if b == 0 {
        a
    } else {
        spec_gcd(b, a % b)
    }
}

pub fn gcd(a: usize, b: usize) -> (r: usize)
    ensures
        r == spec_gcd(a as nat, b as nat),
    decreases b,
{
    if b == 0 {
        return a;
    }
    gcd(b, a % b)
}

/// The divisor of two numbers not both zero is positive.
pub proof fn lemma_gcd_pos(a: nat, b: nat)
    requires
        a > 0 || b > 0,
    ensures
        spec_gcd(a, b) > 0,
    decreases b,
{
    if b > 0 {
        if a % b > 0 || b > 0 {
            lemma_gcd_pos(b, a % b);
        }
    }
}

/// The least common multiple, as the product over the greatest common
/// divisor.
pub fn lcm(a: usize, b: usize) -> (r: usize)
    requires
        a > 0 || b > 0,
        a * b <= usize::MAX,
    ensures
        r == (a * b) as int / spec_gcd(a as nat, b as nat) as int,
{
    proof {
        lemma_gcd_pos(a as nat, b as nat);
        vstd::arithmetic::div_mod::lemma_div_nonincreasing((a * b) as int, spec_gcd(
            a as nat,
            b as nat,
        ) as int);
        vstd::arithmetic::div_mod::lemma_div_is_ordered_by_denominator((a * b) as int, 1, spec_gcd(
            a as nat,
            b as nat,
        ) as int);
        assert((a * b) as int / 1 == a * b);
    }
    let g = gcd(a, b);
    (a * b) / g
}

/// The directions this module's walk follows, read the way the single-walk
/// module reads them.
pub open spec fn spec_ghost_directions(line: Seq<char>, n: int) -> Seq<Direction>
    decreases n,
{
    if n <= 0 {
        Seq::empty()
    } else {
        let prev = spec_ghost_directions(line, n - 1);
        if line[n - 1] == 'R' {
            prev.push(Direction::Right)
        } else if line[n - 1] == 'L' {
            prev.push(Direction::Left)
        } else {
            prev
        }
    }
}

/// Parses the direction line, then one `NAME = (LEFT, RIGHT)` line per node,
/// filling the node and edge tables in input order. Characters that name no
/// direction and lines that do not fit the shape are passed over; each node
/// carries its name and its terminal mark.
#[verifier::loop_isolation(false)]
pub fn parse(input: &str) -> (r: NetworkMap)
    ensures
        ({
            let lines = crate::text::spec_lines(input@);
            let entries = crate::network::spec_node_entries(lines, lines.len() as int);
            &&& r.directions@ == (if lines.len() > 0 {
                spec_ghost_directions(lines[0], lines[0].len() as int)
            } else {
                Seq::<Direction>::empty()
            })
            &&& crate::network::entry_views(r.edges@) == entries
            &&& r.nodes@.len() == entries.len()
            &&& forall|i: int|
                0 <= i < entries.len() ==> (#[trigger] r.nodes@[i]).0@ == entries[i].0
                    && r.nodes@[i].1.id@ == entries[i].0 && r.nodes@[i].1.is_terminal
                    == spec_terminal_of(entries[i].0)
        }),
{
    let lines = line_list(input);
    let ghost views = lines@.map_values(|p: String| p@);
    let mut directions: Vec<Direction> = Vec::new();
    if lines.len() > 0 {
        let first = lines[0].as_str();
        proof {
            assert(views[0] == lines@[0]@);
        }
        let n = first.unicode_len();
        let mut i: usize = 0;
        while i < n
            invariant
                i <= n == first@.len(),
                directions@ == spec_ghost_directions(first@, i as int),
            decreases n - i,
        {
            let c = first.get_char(i);
            if c == 'R' || c == 'L' {
                directions.push(Direction::from_char(c));
            }
            i = i + 1;
        }
    }
    let mut nodes: Vec<(String, Node)> = Vec::new();
    let mut edges: Vec<(String, (String, String))> = Vec::new();
    let mut i: usize = 1;
    while i < lines.len()
        invariant
            i >= 1,
            lines@.len() >= 1 ==> i <= lines@.len(),
            lines@.len() < 1 ==> i == 1,
            crate::network::entry_views(edges@) == crate::network::spec_node_entries(
                views,
                i as int,
            ),
            nodes@.len() == crate::network::spec_node_entries(views, i as int).len(),
            forall|t: int|
                0 <= t < nodes@.len() ==> {
                    let e = crate::network::spec_node_entries(views, i as int)[t];
                    (#[trigger] nodes@[t]).0@ == e.0 && nodes@[t].1.id@ == e.0
                        && nodes@[t].1.is_terminal == spec_terminal_of(e.0)
                },
        decreases lines@.len() - i,
    {
        let ghost old_edge_views = crate::network::entry_views(edges@);
        proof {
            assert(views[i as int] == lines@[i as int]@);
        }
        let line = lines[i].as_str();
        match split_once_char(line, '=') {
            Some(pair) => {
                let key = trim_spaces(pair.0.as_str());
                let value = trim_spaces(pair.1.as_str());
                let inner = strip_parens(value.as_str());
                match split_once_char(inner.as_str(), ',') {
                    Some(sides) => {
                        let left = trim_spaces(sides.0.as_str());
                        let right = trim_spaces(sides.1.as_str());
                        let node = Node::from_str(key.as_str());
                        nodes.push((key, node));
                        let key_again = nodes[nodes.len() - 1].0.as_str().to_owned();
                        edges.push((key_again, (left, right)));
                        proof {
                            assert(crate::network::spec_node_line(views[i as int]) == Some(
                                (
                                    edges@[edges@.len() - 1].0@,
                                    (
                                        edges@[edges@.len() - 1].1.0@,
                                        edges@[edges@.len() - 1].1.1@,
                                    ),
                                ),
                            ));
                            assert(crate::network::entry_views(edges@) =~= old_edge_views.push(
                                (
                                    edges@[edges@.len() - 1].0@,
                                    (
                                        edges@[edges@.len() - 1].1.0@,
                                        edges@[edges@.len() - 1].1.1@,
                                    ),
                                ),
                            ));
                            let entries_now = crate::network::spec_node_entries(
                                views,
                                i as int + 1,
                            );
                            assert(entries_now == crate::network::spec_node_entries(
                                views,
                                i as int,
                            ).push(crate::network::spec_node_line(views[i as int])->Some_0));
                            assert(forall|t: int|
                                0 <= t < entries_now.len() - 1 ==> entries_now[t]
                                    == crate::network::spec_node_entries(views, i as int)[t]);
                        }
                    },
                    None => {},
                }
            },
            None => {},
        }
        i = i + 1;
    }
    NetworkMap { directions, nodes, edges }
}

fn strip_parens(s: &str) -> (r: String)
    ensures
        r@ == crate::network::spec_strip_parens(s@),
{
    let n = s.unicode_len();
    let from: usize = if n > 0 && s.get_char(0) == '(' {
        1
    } else {
        0
    };
    let to: usize = if n > from && s.get_char(n - 1) == ')' {
        n - 1
    } else {
        n
    };
    if from <= to {
        s.substring_char(from, to).to_owned()
    } else {
        s.to_owned()
    }
}

fn ends_with_z(s: &str) -> (r: bool)
    ensures
        r == (s@.len() > 0 && s@[s@.len() - 1] == 'Z'),
{
    let n = s.unicode_len();
    n > 0 && s.get_char(n - 1) == 'Z'
}

/// Steps each start node to its first end node, then folds the step counts
/// with the least common multiple. `None` when the direction list is empty,
/// there is no start node, a walk leaves the table or outlasts the machine's
/// step budget, or a fold would overflow.
pub fn search(map: &NetworkMap) -> (r: Option<usize>) {
    if map.directions.len() == 0 {
        return None;
    }
    let starting = map.get_starting_nodes();
    if starting.len() == 0 {
        return None;
    }
    let mut combined: usize = 1;
    let mut i: usize = 0;
    while i < starting.len()
        invariant
            map.directions@.len() > 0,
            combined > 0,
        decreases starting@.len() - i,
    {
        let mut current: String = starting[i].as_str().to_owned();
        let mut steps: usize = 0;
        loop
            invariant
                map.directions@.len() > 0,
            decreases usize::MAX - steps,
        {
            if ends_with_z(current.as_str()) {
                break ;
            }
            if steps == usize::MAX {
                return None;
            }
            let lr = match map.get_edges(current.as_str()) {
                Some(lr) => lr,
                None => {
                    return None;
                },
            };
            let next = match map.directions[steps % map.directions.len()] {
                Direction::Right => lr.1.as_str().to_owned(),
                Direction::Left => lr.0.as_str().to_owned(),
            };
            current = next;
            steps = steps + 1;
        }
        if steps > 0 {
            match combined.checked_mul(steps) {
                Some(_product) => {
                    combined = lcm(combined, steps);
                },
                None => {
                    return None;
                },
            }
            if combined == 0 {
                return None;
            }
        }
        i = i + 1;
    }
    Some(combined)
}

} // verus!
