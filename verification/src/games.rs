//! The cube game: each line names a game and the cubes shown per draw; the
//! game's power is the product of the largest count seen of each colour.
use vstd::prelude::*;

use crate::text::{parse_embedded_digits, parse_u32, split_char, split_once_char, str_eq};

verus! {

/// One parsed game: its identifier and the largest red, green and blue
/// counts shown in any draw.
#[derive(Debug, PartialEq, Eq, Structural)]
pub struct Game {
    pub id: u32,
    pub max_red: u32,
    pub max_green: u32,
    pub max_blue: u32,
}

/// The power of a game: the three maxima multiplied.
pub fn calculate_power(game: Game) -> (r: u32)
    requires
        game.max_red * game.max_green * game.max_blue <= u32::MAX,
    ensures
        r == game.max_red * game.max_green * game.max_blue,
{
    proof {
        assert(game.max_red * game.max_green >= 0 && (game.max_red * game.max_green)
            * game.max_blue == game.max_red * game.max_green * game.max_blue) by (nonlinear_arith);
        assert(game.max_blue >= 1 ==> game.max_red * game.max_green <= game.max_red
            * game.max_green * game.max_blue) by (nonlinear_arith);
        assert(game.max_blue == 0 ==> game.max_red * game.max_green * game.max_blue == 0)
            by (nonlinear_arith);
    }
    if game.max_blue == 0 {
        return 0;
    }
    game.max_red * game.max_green * game.max_blue
}

/// A colour total bumped by one entry's count, kept where the sum would
/// leave `u32`.
pub open spec fn spec_bump(total: u32, v: u32) -> u32 {
    if total + v <= u32::MAX {
        (total + v) as u32
    } else {
        total
    }
}

/// One comma entry's contribution to the (red, green, blue) triple: the
/// trimmed entry reads as `COUNT COLOUR`, and an entry that does not parse or
/// names another colour contributes nothing.
pub open spec fn spec_entry_bump(triple: (u32, u32, u32), entry: Seq<char>) -> (u32, u32, u32) {
    match crate::text::spec_split_once(crate::text::spec_trim(entry), ' ') {
        None => triple,
        Some(pair) => match crate::text::spec_parse_u32(pair.0) {
            None => triple,
            Some(v) => if pair.1 == "red"@ {
                (spec_bump(triple.0, v), triple.1, triple.2)
            } else if pair.1 == "green"@ {
                (triple.0, spec_bump(triple.1, v), triple.2)
            } else if pair.1 == "blue"@ {
                (triple.0, triple.1, spec_bump(triple.2, v))
            } else {
                triple
            },
        },
    }
}

/// The (red, green, blue) totals of the first `n` entries of a draw.
pub open spec fn spec_colors_upto(entries: Seq<Seq<char>>, n: int) -> (u32, u32, u32)
    decreases n,
{
    if n <= 0 {
        (0u32, 0u32, 0u32)
    } else {
        spec_entry_bump(spec_colors_upto(entries, n - 1), entries[n - 1])
    }
}

/// The (red, green, blue) totals of one draw: its comma entries summed per
/// colour.
pub open spec fn spec_colors(draw: Seq<char>) -> (u32, u32, u32) {
    let entries = crate::text::spec_split(draw, ',');
    spec_colors_upto(entries, entries.len() as int)
}

/// The red, green and blue counts of one draw, summed per colour over its
/// comma-separated entries; entries that do not parse, name another colour,
/// or overflow a colour's sum contribute nothing.
pub fn parse_colors(game: &str) -> (r: (u32, u32, u32))
    ensures
        r == spec_colors(game@),
{
    let entries = split_char(game, ',');
    let ghost views = entries@.map_values(|p: String| p@);
    let mut red: u32 = 0;
    let mut green: u32 = 0;
    let mut blue: u32 = 0;
    let mut i: usize = 0;
    while i < entries.len()
        invariant
            i <= entries@.len(),
            views == entries@.map_values(|p: String| p@),
            views == crate::text::spec_split(game@, ','),
            (red, green, blue) == spec_colors_upto(views, i as int),
        decreases entries@.len() - i,
    {
        let entry = crate::text::trim_spaces(entries[i].as_str());
        match split_once_char(entry.as_str(), ' ') {
            Some(pair) => {
                match parse_u32(pair.0.as_str()) {
                    Some(value) => {
                        let color = pair.1.as_str();
                        if str_eq(color, "red") {
                            red = match red.checked_add(value) {
                                Some(v) => v,
                                None => red,
                            };
                        } else if str_eq(color, "green") {
                            green = match green.checked_add(value) {
                                Some(v) => v,
                                None => green,
                            };
                        } else if str_eq(color, "blue") {
                            blue = match blue.checked_add(value) {
                                Some(v) => v,
                                None => blue,
                            };
                        }
                    },
                    None => {},
                }
            },
            None => {},
        }
        i = i + 1;
    }
    (red, green, blue)
}

/// The parsed game a line spells: the identifier from the digits before the
/// colon (zero when missing), and per colour the largest total over the
/// semicolon-separated draws. A line without a colon is the zero game.
pub open spec fn spec_parse_game(input: Seq<char>) -> Game {
    match crate::text::spec_split_once(input, ':') {
        None => Game { id: 0, max_red: 0, max_green: 0, max_blue: 0 },
        Some(pair) => {
            let id = match crate::text::spec_embedded_digits(pair.0) {
                Some(v) => v,
                None => 0u32,
            };
            let draws = crate::text::spec_split(pair.1, ';');
            let maxima = spec_maxima_upto(draws, draws.len() as int);
            Game { id, max_red: maxima.0, max_green: maxima.1, max_blue: maxima.2 }
        },
    }
}

/// The componentwise maxima of the first `n` draws' colour totals.
pub open spec fn spec_maxima_upto(draws: Seq<Seq<char>>, n: int) -> (u32, u32, u32)
    decreases n,
{
    if n <= 0 {
        (0u32, 0u32, 0u32)
    } else {
        let prev = spec_maxima_upto(draws, n - 1);
        let draw = spec_colors(draws[n - 1]);
        (
            if draw.0 > prev.0 {
                draw.0
            } else {
                prev.0
            },
            if draw.1 > prev.1 {
                draw.1
            } else {
                prev.1
            },
            if draw.2 > prev.2 {
                draw.2
            } else {
                prev.2
            },
        )
    }
}

/// Parses one game line: the identifier from the digits before the colon,
/// and per colour the largest count over the semicolon-separated draws.
/// A line without a colon or a readable identifier gets identifier zero.
pub fn parse_game(input: &str) -> (r: Game)
    ensures
        r == spec_parse_game(input@),
{
    let (head, tail) = match split_once_char(input, ':') {
        Some(pair) => pair,
        None => {
            return Game { id: 0, max_red: 0, max_green: 0, max_blue: 0 };
        },
    };
    let id = match parse_embedded_digits(head.as_str()) {
        Some(v) => v,
        None => 0,
    };
    let draws = split_char(tail.as_str(), ';');
    let ghost views = draws@.map_values(|p: String| p@);
    let mut max_red: u32 = 0;
    let mut max_green: u32 = 0;
    let mut max_blue: u32 = 0;
    let mut i: usize = 0;
    while i < draws.len()
        invariant
            i <= draws@.len(),
            views == draws@.map_values(|p: String| p@),
            views == crate::text::spec_split(tail@, ';'),
            (max_red, max_green, max_blue) == spec_maxima_upto(views, i as int),
        decreases draws@.len() - i,
    {
        let (red, green, blue) = parse_colors(draws[i].as_str());
        if red > max_red {
            max_red = red;
        }
        if green > max_green {
            max_green = green;
        }
        if blue > max_blue {
            max_blue = blue;
        }
        i = i + 1;
    }
    Game { id, max_red, max_green, max_blue }
}

/// The power a game contributes: the three maxima multiplied, zero where the
/// product would leave `u32`.
pub open spec fn spec_game_power(game: Game) -> u32 {
    if game.max_red * game.max_green <= u32::MAX && game.max_red * game.max_green * game.max_blue
        <= u32::MAX {
        (game.max_red * game.max_green * game.max_blue) as u32
    } else {
        0u32
    }
}

/// The powers of the first `n` lines' games, summed; a sum that would not
/// fit stops growing.
pub open spec fn spec_power_sum(lines: Seq<Seq<char>>, n: int) -> u32
    decreases n,
{
    if n <= 0 {
        0u32
    } else {
        spec_bump(spec_power_sum(lines, n - 1), spec_game_power(spec_parse_game(lines[n - 1])))
    }
}

/// The powers of all games in the input summed, one game per line; a power
/// whose product or sum would overflow contributes nothing.
pub fn sum_of_game_powers(input: &str) -> (r: u32)
    ensures
        ({
            let lines = crate::text::spec_lines(input@);
            r == spec_power_sum(lines, lines.len() as int)
        }),
{
    let lines = crate::text::line_list(input);
    let ghost views = lines@.map_values(|p: String| p@);
    let mut total: u32 = 0;
    let mut i: usize = 0;
    while i < lines.len()
        invariant
            i <= lines@.len(),
            views == lines@.map_values(|p: String| p@),
            views == crate::text::spec_lines(input@),
            total == spec_power_sum(views, i as int),
        decreases lines@.len() - i,
    {
        let game = parse_game(lines[i].as_str());
        let power = match game.max_red.checked_mul(game.max_green) {
            Some(rg) => match rg.checked_mul(game.max_blue) {
                Some(p) => p,
                None => 0,
            },
            None => 0,
        };
        proof {
            assert((game.max_red * game.max_green) * game.max_blue == game.max_red
                * game.max_green * game.max_blue) by (nonlinear_arith);
        }
        total = match total.checked_add(power) {
            Some(t) => t,
            None => total,
        };
        i = i + 1;
    }
    total
}

} // verus!
