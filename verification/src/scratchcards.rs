//! Scratchcards, counted for the cascading-copies variant: a card's number,
//! the set of numbers it names, and how many of the played numbers match the
//! winning list.
use vstd::prelude::*;

use std::collections::HashSet;

use crate::text::{parse_u32, spec_parse_u32, spec_split_once, spec_tokens, split_once_char, tokens};

verus! {

broadcast use vstd::std_specs::hash::group_hash_axioms, vstd::seq_lib::lemma_seq_contains_after_push;

/// The card number a header names: its second blank token read as a decimal,
/// zero when the token is missing or unreadable.
pub open spec fn spec_card_number(input: Seq<char>) -> u32 {
    let toks = spec_tokens(input);
    if toks.len() < 2 {
        0u32
    } else {
        match spec_parse_u32(toks[1]) {
            Some(v) => v,
            None => 0u32,
        }
    }
}

/// The values of the first `n` tokens that read as decimals, in order.
pub open spec fn spec_token_values(toks: Seq<Seq<char>>, n: int) -> Seq<u32>
    decreases n,
{
    if n <= 0 {
        Seq::empty()
    } else {
        let prev = spec_token_values(toks, n - 1);
        match spec_parse_u32(toks[n - 1]) {
            Some(v) => prev.push(v),
            None => prev,
        }
    }
}

/// How many distinct played values stand among the winners, over the first
/// `n` plays; a count that would not fit stops growing.
pub open spec fn spec_match_count(winners: Seq<u32>, plays: Seq<u32>, n: int) -> u32
    decreases n,
{
    if n <= 0 {
        0u32
    } else {
        let prev = spec_match_count(winners, plays, n - 1);
        if winners.contains(plays[n - 1]) && !(exists|j: int|
            0 <= j < n - 1 && #[trigger] plays[j] == plays[n - 1]) && prev < u32::MAX {
            (prev + 1) as u32
        } else {
            prev
        }
    }
}

/// The card's number: the second blank-separated token, read as a decimal;
/// zero when it is missing or malformed.
pub fn parse_card_number(input: &str) -> (r: usize)
    ensures
        r == spec_card_number(input@) as usize,
{
    let parts = tokens(input);
    if parts.len() < 2 {
        return 0;
    }
    proof {
        assert(parts@.map_values(|p: String| p@)[1] == parts@[1]@);
    }
    match parse_u32(parts[1].as_str()) {
        Some(v) => v as usize,
        None => 0,
    }
}

/// The numbers named in `input`, one per blank-separated token; tokens that
/// do not read as decimals are passed over.
pub fn parse_numbers_list(input: &str) -> (r: HashSet<u32>)
    ensures
        forall|v: u32|
            #[trigger] r@.contains(v) <==> spec_token_values(
                spec_tokens(input@),
                spec_tokens(input@).len() as int,
            ).contains(v),
{
    let parts = tokens(input);
    let ghost toks = parts@.map_values(|p: String| p@);
    let mut out: HashSet<u32> = HashSet::new();
    let mut i: usize = 0;
    while i < parts.len()
        invariant
            i <= parts@.len(),
            toks == parts@.map_values(|p: String| p@),
            toks == spec_tokens(input@),
            forall|v: u32| #[trigger] out@.contains(v) <==> spec_token_values(toks, i as int)
                .contains(v),
        decreases parts@.len() - i,
    {
        proof {
            assert(toks[i as int] == parts@[i as int]@);
        }
        match parse_u32(parts[i].as_str()) {
            Some(v) => {
                out.insert(v);
            },
            None => {},
        }
        i = i + 1;
    }
    out
}

/// Whether `v[..upto]` holds `x`.
fn contains_before(v: &Vec<u32>, upto: usize, x: u32) -> (r: bool)
    requires
        upto <= v@.len(),
    ensures
        r == exists|j: int| 0 <= j < upto && v@[j] == x,
{
    let mut j: usize = 0;
    while j < upto
        invariant
            j <= upto <= v@.len(),
            forall|t: int| 0 <= t < j ==> v@[t] != x,
        decreases upto - j,
    {
        if v[j] == x {
            return true;
        }
        j = j + 1;
    }
    false
}

fn parsed_values(input: &str) -> (r: Vec<u32>)
    ensures
        r@ == spec_token_values(spec_tokens(input@), spec_tokens(input@).len() as int),
{
    let parts = tokens(input);
    let ghost toks = parts@.map_values(|p: String| p@);
    let mut out: Vec<u32> = Vec::new();
    let mut i: usize = 0;
    while i < parts.len()
        invariant
            i <= parts@.len(),
            toks == parts@.map_values(|p: String| p@),
            toks == spec_tokens(input@),
            out@ == spec_token_values(toks, i as int),
        decreases parts@.len() - i,
    {
        proof {
            assert(toks[i as int] == parts@[i as int]@);
        }
        match parse_u32(parts[i].as_str()) {
            Some(v) => out.push(v),
            None => {},
        }
        i = i + 1;
    }
    out
}

/// How many distinct played numbers (after the `|`) also stand among the
/// winning numbers (before it); zero when the line has no `|`.
pub fn parse_game_score(input: &str) -> (r: u32)
    ensures
        match spec_split_once(input@, '|') {
            None => r == 0,
            Some(sides) => {
                let winners = spec_token_values(
                    spec_tokens(sides.0),
                    spec_tokens(sides.0).len() as int,
                );
                let plays = spec_token_values(spec_tokens(sides.1), spec_tokens(sides.1).len() as int);
                r == spec_match_count(winners, plays, plays.len() as int)
            },
        },
{
    let (winners, plays) = match split_once_char(input, '|') {
        Some(pair) => pair,
        None => {
            return 0;
        },
    };
    let wv = parsed_values(winners.as_str());
    let pv = parsed_values(plays.as_str());
    let mut matched: u32 = 0;
    let mut i: usize = 0;
    while i < pv.len()
        invariant
            i <= pv@.len(),
            wv@ == spec_token_values(spec_tokens(winners@), spec_tokens(winners@).len() as int),
            pv@ == spec_token_values(spec_tokens(plays@), spec_tokens(plays@).len() as int),
            matched == spec_match_count(wv@, pv@, i as int),
        decreases pv@.len() - i,
    {
        let x = pv[i];
        if contains_before(&wv, wv.len(), x) && !contains_before(&pv, i, x) {
            matched = match matched.checked_add(1) {
                Some(m) => m,
                None => matched,
            };
        }
        i = i + 1;
    }
    matched
}

} // verus!
