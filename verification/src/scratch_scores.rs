//! Scratchcards, scored for the doubling variant: one point for the first
//! two matches, then the score doubles with each further match.
use vstd::prelude::*;

use std::collections::HashSet;

use vstd::arithmetic::power2::{lemma2_to64, lemma_pow2_strictly_increases, pow2};

use crate::scratchcards::{spec_card_number, spec_token_values};
use crate::text::{parse_u32, spec_split_once, spec_tokens, split_once_char, tokens};

verus! {

broadcast use vstd::std_specs::hash::group_hash_axioms, vstd::seq_lib::lemma_seq_contains_after_push;

/// The card's number: the second blank-separated token, read as a decimal;
/// zero when it is missing or malformed.
pub fn parse_card_number(input: &str) -> (r: u32)
    ensures
        r == spec_card_number(input@),
{
    let parts = tokens(input);
    if parts.len() < 2 {
        return 0;
    }
    proof {
        assert(parts@.map_values(|p: String| p@)[1] == parts@[1]@);
    }
    match parse_u32(parts[1].as_str()) {
        Some(v) => v,
        None => 0,
    }
}

/// The numbers named in `input`, one per blank-separated token; tokens that
/// do not read as decimals are passed over.
pub fn parse_numbers_list(input: &str) -> (r: HashSet<u32>)
    ensures
        forall|v: u32|
            #[trigger] r@.contains(v) <==> spec_token_values(
                spec_tokens(input@),
                spec_tokens(input@).len() as int,
            ).contains(v),
{
    let parts = tokens(input);
    let ghost toks = parts@.map_values(|p: String| p@);
    let mut out: HashSet<u32> = HashSet::new();
    let mut i: usize = 0;
    while i < parts.len()
        invariant
            i <= parts@.len(),
            toks == parts@.map_values(|p: String| p@),
            toks == spec_tokens(input@),
            forall|v: u32| #[trigger] out@.contains(v) <==> spec_token_values(toks, i as int)
                .contains(v),
        decreases parts@.len() - i,
    {
        proof {
            assert(toks[i as int] == parts@[i as int]@);
        }
        match parse_u32(parts[i].as_str()) {
            Some(v) => {
                out.insert(v);
            },
            None => {},
        }
        i = i + 1;
    }
    out
}

/// A card's score from its match count: the count itself up to two matches,
/// and double for every match beyond that.
pub open spec fn spec_card_score(wins: u32) -> int {
    if wins <= 2 {
        wins as int
    } else {
        pow2((wins - 1) as nat) as int
    }
}

pub fn calculate_score(wins: u32) -> (r: u32)
    requires
        wins <= 32,
    ensures
        r == spec_card_score(wins),
{
    if wins <= 2 {
        return wins;
    }
    proof {
        lemma2_to64();
    }
    let mut r: u32 = 1;
    let mut i: u32 = 0;
    while i < wins - 1
        invariant
            i <= wins - 1 <= 31,
            r == pow2(i as nat),
        decreases wins - i,
    {
        proof {
            if (i as nat) + 1 < 32 {
                lemma_pow2_strictly_increases((i + 1) as nat, 32);
            }
            lemma2_to64();
        }
        r = r * 2;
        i = i + 1;
    }
    r
}

fn parsed_values(input: &str) -> (r: Vec<u32>)
    ensures
        r@ == spec_token_values(spec_tokens(input@), spec_tokens(input@).len() as int),
{
    let parts = tokens(input);
    let ghost toks = parts@.map_values(|p: String| p@);
    let mut out: Vec<u32> = Vec::new();
    let mut i: usize = 0;
    while i < parts.len()
        invariant
            i <= parts@.len(),
            toks == parts@.map_values(|p: String| p@),
            toks == spec_tokens(input@),
            out@ == spec_token_values(toks, i as int),
        decreases parts@.len() - i,
    {
        proof {
            assert(toks[i as int] == parts@[i as int]@);
        }
        match parse_u32(parts[i].as_str()) {
            Some(v) => out.push(v),
            None => {},
        }
        i = i + 1;
    }
    out
}

fn contains_before(v: &Vec<u32>, upto: usize, x: u32) -> (r: bool)
    requires
        upto <= v@.len(),
    ensures
        r == exists|j: int| 0 <= j < upto && v@[j] == x,
{
    let mut j: usize = 0;
    while j < upto
        invariant
            j <= upto <= v@.len(),
            forall|t: int| 0 <= t < j ==> v@[t] != x,
        decreases upto - j,
    {
        if v[j] == x {
            return true;
        }
        j = j + 1;
    }
    false
}

/// How many distinct played values stand among the winners, over the first
/// `n` plays, counted no further than the doubling score can follow.
pub open spec fn spec_capped_matches(winners: Seq<u32>, plays: Seq<u32>, n: int) -> u32
    decreases n,
{
    if n <= 0 {
        0u32
    } else {
        let prev = spec_capped_matches(winners, plays, n - 1);
        if prev < 32 && winners.contains(plays[n - 1]) && !(exists|j: int|
            0 <= j < n - 1 && #[trigger] plays[j] == plays[n - 1]) {
            (prev + 1) as u32
        } else {
            prev
        }
    }
}

/// The card's score: the count of distinct played numbers that also stand
/// among the winning numbers, run through `calculate_score`. Zero when the
/// line has no `|`; counts beyond 32 matches stay at the 32-match score.
pub fn parse_game_score(input: &str) -> (r: u32)
    ensures
        match spec_split_once(input@, '|') {
            None => r == 0,
            Some(sides) => {
                let winners = spec_token_values(
                    spec_tokens(sides.0),
                    spec_tokens(sides.0).len() as int,
                );
                let plays = spec_token_values(
                    spec_tokens(sides.1),
                    spec_tokens(sides.1).len() as int,
                );
                r == spec_card_score(spec_capped_matches(winners, plays, plays.len() as int))
            },
        },
{
    let (winners, plays) = match split_once_char(input, '|') {
        Some(pair) => pair,
        None => {
            return 0;
        },
    };
    let wv = parsed_values(winners.as_str());
    let pv = parsed_values(plays.as_str());
    let mut matched: u32 = 0;
    let mut i: usize = 0;
    while i < pv.len()
        invariant
            i <= pv@.len(),
            matched <= 32,
            wv@ == spec_token_values(spec_tokens(winners@), spec_tokens(winners@).len() as int),
            pv@ == spec_token_values(spec_tokens(plays@), spec_tokens(plays@).len() as int),
            matched == spec_capped_matches(wv@, pv@, i as int),
        decreases pv@.len() - i,
    {
        let x = pv[i];
        if matched < 32 && contains_before(&wv, wv.len(), x) && !contains_before(&pv, i, x) {
            matched = matched + 1;
        }
        i = i + 1;
    }
    calculate_score(matched)
}

} // verus!
