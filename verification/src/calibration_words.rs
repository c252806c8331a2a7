//! Calibration values, spelled-out variant: a digit may stand as a character
//! `1`..`9` or as a word `one`..`nine`; the earliest and latest occurrences
//! on the line combine into one two-digit value. Overlapping words both
//! count, since occurrences are read by position.
use vstd::prelude::*;

verus! {

/// Whether `pat` occurs in `s` starting at `i`.
pub open spec fn spec_matches_at(s: Seq<char>, i: int, pat: Seq<char>) -> bool {
    0 <= i && i + pat.len() <= s.len() && s.subrange(i, i + pat.len()) == pat
}

fn matches_at(s: &str, i: usize, pat: &str) -> (r: bool)
    requires
        i <= s@.len(),
    ensures
        r == spec_matches_at(s@, i as int, pat@),
{
    let m = pat.unicode_len();
    let n = s.unicode_len();
    if n - i < m {
        return false;
    }
    let mut j: usize = 0;
    while j < m
        invariant
            j <= m == pat@.len(),
            i + m <= n == s@.len(),
            forall|t: int| 0 <= t < j ==> s@[i + t] == pat@[t],
        decreases m - j,
    {
        if s.get_char(i + j) != pat.get_char(j) {
            proof {
                assert(s@.subrange(i as int, i + pat@.len())[j as int] != pat@[j as int]);
            }
            return false;
        }
        j = j + 1;
    }
    proof {
        assert(s@.subrange(i as int, i + pat@.len()) =~= pat@);
    }
    true
}

/// The digit named at position `i` of `s`, by character or by word; `None`
/// when none starts there.
pub open spec fn spec_token_value(s: Seq<char>, i: int) -> Option<u32> {
    if spec_matches_at(s, i, "one"@) {
        Some(1u32)
    } else if spec_matches_at(s, i, "two"@) {
        Some(2u32)
    } else if spec_matches_at(s, i, "three"@) {
        Some(3u32)
    } else if spec_matches_at(s, i, "four"@) {
        Some(4u32)
    } else if spec_matches_at(s, i, "five"@) {
        Some(5u32)
    } else if spec_matches_at(s, i, "six"@) {
        Some(6u32)
    } else if spec_matches_at(s, i, "seven"@) {
        Some(7u32)
    } else if spec_matches_at(s, i, "eight"@) {
        Some(8u32)
    } else if spec_matches_at(s, i, "nine"@) {
        Some(9u32)
    } else if 0 <= i < s.len() && '1' <= s[i] && s[i] <= '9' {
        Some((s[i] as u32 - '1' as u32 + 1) as u32)
    } else {
        None
    }
}

fn token_value(s: &str, i: usize) -> (r: Option<u32>)
    requires
        i < s@.len(),
    ensures
        r == spec_token_value(s@, i as int),
        r matches Some(d) ==> 1 <= d <= 9,
{
    if matches_at(s, i, "one") {
        Some(1)
    } else if matches_at(s, i, "two") {
        Some(2)
    } else if matches_at(s, i, "three") {
        Some(3)
    } else if matches_at(s, i, "four") {
        Some(4)
    } else if matches_at(s, i, "five") {
        Some(5)
    } else if matches_at(s, i, "six") {
        Some(6)
    } else if matches_at(s, i, "seven") {
        Some(7)
    } else if matches_at(s, i, "eight") {
        Some(8)
    } else if matches_at(s, i, "nine") {
        Some(9)
    } else {
        let c = s.get_char(i);
        let v = c as u32;
        if 49 <= v && v <= 57 {
            proof {
                assert('1' <= s@[i as int] && s@[i as int] <= '9');
            }
            Some(v - 49 + 1)
        } else {
            proof {
                assert(!('1' <= s@[i as int] && s@[i as int] <= '9'));
            }
            None
        }
    }
}

/// The two-digit value of a line: ten times the earliest digit occurrence
/// plus the latest one; zero when the line names no digit.
pub fn parse_line(input_line: &str) -> (r: u32)
    ensures
        (forall|i: int|
            0 <= i < input_line@.len() ==> spec_token_value(input_line@, i) is None) ==> r == 0,
        (exists|i: int| 0 <= i < input_line@.len() && spec_token_value(input_line@, i) is Some)
            ==> {
            let a = choose|a: int|
                0 <= a < input_line@.len() && spec_token_value(input_line@, a) is Some && (forall|
                    t: int,
                |
                    0 <= t < a ==> spec_token_value(input_line@, t) is None);
            let b = choose|b: int|
                0 <= b < input_line@.len() && spec_token_value(input_line@, b) is Some && (forall|
                    t: int,
                |
                    b < t < input_line@.len() ==> spec_token_value(input_line@, t) is None);
            r == spec_token_value(input_line@, a)->Some_0 * 10 + spec_token_value(
                input_line@,
                b,
            )->Some_0
        },
{
    let n = input_line.unicode_len();
    let mut first: Option<u32> = None;
    let ghost mut first_at: int = 0;
    let mut last: u32 = 0;
    let ghost mut last_at: int = 0;
    let mut i: usize = 0;
    while i < n
        invariant
            i <= n == input_line@.len(),
            first is None ==> (forall|j: int|
                0 <= j < i ==> spec_token_value(input_line@, j) is None),
            first matches Some(d) ==> {
                &&& 0 <= first_at < i
                &&& spec_token_value(input_line@, first_at) == Some(d)
                &&& (forall|t: int| 0 <= t < first_at ==> spec_token_value(input_line@, t) is None)
                &&& 0 <= last_at < i
                &&& spec_token_value(input_line@, last_at) == Some(last)
                &&& (forall|t: int| last_at < t < i ==> spec_token_value(input_line@, t) is None)
                &&& d <= 9 && last <= 9
            },
        decreases n - i,
    {
        match token_value(input_line, i) {
            Some(d) => {
                if first.is_none() {
                    first = Some(d);
                    proof {
                        first_at = i as int;
                    }
                }
                last = d;
                proof {
                    last_at = i as int;
                }
            },
            None => {},
        }
        i = i + 1;
    }
    match first {
        Some(d) => {
            proof {
                let a = choose|a: int|
                    0 <= a < input_line@.len() && spec_token_value(input_line@, a) is Some && (
                forall|t: int| 0 <= t < a ==> spec_token_value(input_line@, t) is None);
                assert(spec_token_value(input_line@, first_at) is Some);
                if a != first_at {
                    if a < first_at {
                        assert(spec_token_value(input_line@, a) is None);
                    } else {
                        assert(spec_token_value(input_line@, first_at) is None);
                    }
                }
                let b = choose|b: int|
                    0 <= b < input_line@.len() && spec_token_value(input_line@, b) is Some && (
                forall|t: int| b < t < input_line@.len() ==> spec_token_value(input_line@, t)
                    is None);
                if b != last_at {
                    if b < last_at {
                        assert(spec_token_value(input_line@, last_at) is None);
                    } else {
                        assert(spec_token_value(input_line@, b) is None);
                    }
                }
            }
            d * 10 + last
        },
        None => 0,
    }
}

} // verus!
