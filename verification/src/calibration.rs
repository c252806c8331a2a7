//! Calibration values, digit-character variant: the first and last digit
//! characters of a line combine into one two-digit value.
use vstd::prelude::*;

use crate::text::spec_digit_value;

verus! {

/// One line's calibration value.
#[derive(Debug, PartialEq, Eq, Structural)]
pub struct CalibrationValue(pub i32);

/// `v` pairs the line's first digit (tens) with its last digit (ones); a
/// line without digits has value zero.
pub open spec fn calibration_value_ok(line: Seq<char>, v: int) -> bool {
    if forall|i: int| 0 <= i < line.len() ==> spec_digit_value(#[trigger] line[i]) is None {
        v == 0
    } else {
        exists|a: int, b: int|
            {
                &&& 0 <= a < line.len() && 0 <= b < line.len()
                &&& spec_digit_value(#[trigger] line[a]) is Some
                &&& spec_digit_value(#[trigger] line[b]) is Some
                &&& (forall|t: int| 0 <= t < a ==> spec_digit_value(#[trigger] line[t]) is None)
                &&& (forall|t: int|
                    b < t < line.len() ==> spec_digit_value(#[trigger] line[t]) is None)
                &&& v == spec_digit_value(line[a])->Some_0 * 10 + spec_digit_value(line[b])->Some_0
            }
    }
}

/// The first and last digit characters of the line, the first read as tens
/// and the last as ones; a line with a single digit repeats it, and a line
/// with none has value zero.
pub fn parse_line(input_line: &str) -> (r: CalibrationValue)
    ensures
        0 <= r.0 <= 99,
        calibration_value_ok(input_line@, r.0 as int),
{
    let n = input_line.unicode_len();
    let mut first: Option<u32> = None;
    let ghost mut first_at: int = 0;
    let mut last: u32 = 0;
    let ghost mut last_at: int = 0;
    let mut i: usize = 0;
    while i < n
        invariant
            i <= n == input_line@.len(),
            first is None ==> (forall|j: int|
                0 <= j < i ==> spec_digit_value(#[trigger] input_line@[j]) is None),
            first matches Some(d) ==> {
                &&& d <= 9 && last <= 9
                &&& 0 <= first_at < i && 0 <= last_at < i
                &&& spec_digit_value(input_line@[first_at]) == Some(d)
                &&& spec_digit_value(input_line@[last_at]) == Some(last)
                &&& (forall|t: int|
                    0 <= t < first_at ==> spec_digit_value(#[trigger] input_line@[t]) is None)
                &&& (forall|t: int|
                    last_at < t < i ==> spec_digit_value(#[trigger] input_line@[t]) is None)
            },
        decreases n - i,
    {
        match crate::text::digit_value(input_line.get_char(i)) {
            Some(d) => {
                if first.is_none() {
                    first = Some(d);
                    proof {
                        first_at = i as int;
                    }
                }
                last = d;
                proof {
                    last_at = i as int;
                }
            },
            None => {},
        }
        i = i + 1;
    }
    match first {
        Some(d) => {
            proof {
                assert(calibration_value_ok(input_line@, (d * 10 + last) as int)) by {
                    assert(spec_digit_value(input_line@[first_at]) is Some);
                }
            }
            CalibrationValue((d * 10 + last) as i32)
        },
        None => CalibrationValue(0),
    }
}

/// One calibration value per input line, in order, each pairing that line's
/// first and last digits.
pub fn read_calibration_values(input: Vec<String>) -> (r: Vec<CalibrationValue>)
    ensures
        r@.len() == input@.len(),
        forall|i: int|
            0 <= i < r@.len() ==> calibration_value_ok(input@[i]@, (#[trigger] r@[i]).0 as int),
{
    let mut out: Vec<CalibrationValue> = Vec::new();
    let mut i: usize = 0;
    while i < input.len()
        invariant
            i <= input@.len(),
            out@.len() == i,
            forall|t: int|
                0 <= t < i ==> calibration_value_ok(input@[t]@, (#[trigger] out@[t]).0 as int),
        decreases input@.len() - i,
    {
        out.push(parse_line(input[i].as_str()));
        i = i + 1;
    }
    out
}

/// The first `n` calibration values summed, wrapping on overflow.
pub open spec fn spec_calibration_sum(values: Seq<CalibrationValue>, n: int) -> i32
    decreases n,
{
    if n <= 0 {
        0i32
    } else {
        spec_calibration_sum(values, n - 1).wrapping_add(values[n - 1].0)
    }
}

/// All calibration values summed, wrapping on overflow.
pub fn calculate_calibration_sum(input: Vec<CalibrationValue>) -> (r: i32)
    ensures
        r == spec_calibration_sum(input@, input@.len() as int),
{
    let mut total: i32 = 0;
    let mut i: usize = 0;
    while i < input.len()
        invariant
            i <= input@.len(),
            total == spec_calibration_sum(input@, i as int),
        decreases input@.len() - i,
    {
        total = total.wrapping_add(input[i].0);
        i = i + 1;
    }
    total
}

} // verus!
