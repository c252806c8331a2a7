//! Finite-difference extrapolation: a sequence is extended by one value,
//! found by recursively extending its difference sequence until the
//! differences vanish.
use vstd::prelude::*;

use crate::text::{line_list, parse_i32, tokens};

verus! {

/// A line whose tokens do not all read as signed decimals.
#[derive(Clone, Copy, PartialEq, Eq, Debug, Structural)]
pub enum SequenceError {
    BadNumber,
}

/// The mathematical view of a machine-integer sequence.
pub open spec fn int_view(s: Seq<i32>) -> Seq<int> {
    s.map_values(|x: i32| x as int)
}

/// The first differences of `s`.
pub open spec fn spec_differences(s: Seq<int>) -> Seq<int> {
    Seq::new((s.len() - 1) as nat, |i: int| s[i + 1] - s[i])
}

/// The extension of `s` by one extrapolated value: when the differences all
/// vanish the last value repeats; otherwise the extended difference
/// sequence's last value is added to the last value of `s`. Sequences too
/// short to extrapolate give `None`.
pub open spec fn spec_extended(s: Seq<int>) -> Option<Seq<int>>
    decreases s.len(),
{
    if s.len() == 0 {
        None
    } else {
        let d = spec_differences(s);
        if forall|i: int| 0 <= i < d.len() ==> d[i] == 0 {
            if s.len() == 1 {
                None
            } else {
                Some(s.push(s[s.len() - 1]))
            }
        } else {
            match spec_extended(d) {
                None => None,
                Some(e) => Some(s.push(s[s.len() - 1] + e[e.len() - 1])),
            }
        }
    }
}

/// Whether `v` fits the machine's signed word.
pub open spec fn in_i32(v: int) -> bool {
    i32::MIN <= v <= i32::MAX
}

/// The extension with the machine's checks mirrored: `None` also where a
/// difference or the appended value leaves `i32`.
pub open spec fn spec_extended_checked(s: Seq<int>) -> Option<Seq<int>>
    decreases s.len(),
{
    if s.len() == 0 {
        None
    } else if exists|i: int| 0 <= i < s.len() - 1 && !in_i32(#[trigger] s[i + 1] - s[i]) {
        None
    } else {
        let d = spec_differences(s);
        if forall|i: int| 0 <= i < d.len() ==> d[i] == 0 {
            if s.len() == 1 {
                None
            } else {
                Some(s.push(s[s.len() - 1]))
            }
        } else {
            match spec_extended_checked(d) {
                None => None,
                Some(e) => if in_i32(s[s.len() - 1] + e[e.len() - 1]) {
                    Some(s.push(s[s.len() - 1] + e[e.len() - 1]))
                } else {
                    None
                },
            }
        }
    }
}

/// A successful checked extension is the mathematical one.
proof fn lemma_checked_extension_agrees(s: Seq<int>)
    ensures
        spec_extended_checked(s) is Some ==> spec_extended_checked(s) == spec_extended(s),
    decreases s.len(),
{
    if s.len() > 0 {
        if !(exists|i: int| 0 <= i < s.len() - 1 && !in_i32(#[trigger] s[i + 1] - s[i])) {
            let d = spec_differences(s);
            if !(forall|i: int| 0 <= i < d.len() ==> d[i] == 0) {
                lemma_checked_extension_agrees(d);
            }
        }
    }
}

/// Extends `seq` by its extrapolated next value. `Some` exactly when the
/// checked extension succeeds — the sequence is long enough and no
/// difference or appended value leaves `i32` — and the result then is the
/// mathematical extension.
pub fn finite_differences(seq: Vec<i32>) -> (r: Option<Vec<i32>>)
    ensures
        r matches Some(v) ==> spec_extended(int_view(seq@)) == Some(int_view(v@)),
        r matches Some(v) ==> v@.len() == seq@.len() + 1,
        r is Some <==> spec_extended_checked(int_view(seq@)) is Some,
    decreases seq@.len(),
{
    let n = seq.len();
    if n == 0 {
        return None;
    }
    let mut diffs: Vec<i32> = Vec::new();
    let mut all_zero = true;
    let mut i: usize = 0;
    while i + 1 < n
        invariant
            i <= n - 1,
            n == seq@.len(),
            diffs@.len() == i,
            forall|j: int| 0 <= j < i ==> diffs@[j] == seq@[j + 1] - seq@[j],
            all_zero <==> (forall|j: int| 0 <= j < i ==> diffs@[j] == 0),
        decreases n - i,
    {
        let d = match seq[i + 1].checked_sub(seq[i]) {
            Some(d) => d,
            None => {
                proof {
                    assert(!in_i32(int_view(seq@)[i + 1] - int_view(seq@)[i as int]));
                }
                return None;
            },
        };
        let ghost before = diffs@;
        diffs.push(d);
        proof {
            assert(diffs@[i as int] == d);
            assert(forall|j: int| 0 <= j < i ==> diffs@[j] == before[j]);
        }
        if d != 0 {
            all_zero = false;
        }
        i = i + 1;
    }
    proof {
        assert(int_view(diffs@) =~= spec_differences(int_view(seq@)));
    }
    proof {
        assert forall|t: int| 0 <= t < int_view(seq@).len() - 1 implies in_i32(
            #[trigger] int_view(seq@)[t + 1] - int_view(seq@)[t],
        ) by {
            assert(diffs@[t] == seq@[t + 1] - seq@[t]);
        }
    }
    if all_zero {
        if n == 1 {
            return None;
        }
        let last = seq[n - 1];
        let mut out = seq;
        out.push(last);
        proof {
            assert(int_view(out@) =~= int_view(out@.drop_last()).push(last as int));
            assert(out@.drop_last() =~= out@.subrange(0, out@.len() - 1));
        }
        return Some(out);
    }
    proof {
        let sv = int_view(seq@);
        let dv = spec_differences(sv);
        assert(dv =~= int_view(diffs@));
        assert(!(forall|t: int| 0 <= t < dv.len() ==> dv[t] == 0)) by {
            let w = choose|w: int| 0 <= w < diffs@.len() && diffs@[w] != 0;
            assert(dv[w] != 0);
        }
        assert(!(exists|t: int| 0 <= t < sv.len() - 1 && !in_i32(#[trigger] sv[t + 1] - sv[t])));
    }
    match finite_differences(diffs) {
        None => {
            proof {
                assert(spec_extended_checked(int_view(seq@)) is None);
            }
            None
        },
        Some(e) => {
            let el = e[e.len() - 1];
            let last = seq[n - 1];
            proof {
                assert(int_view(e@)[e@.len() - 1] == el as int);
            }
            match last.checked_add(el) {
                None => {
                    proof {
                        let sv = int_view(seq@);
                        let dv = spec_differences(sv);
                        lemma_checked_extension_agrees(dv);
                        assert(spec_extended_checked(dv) == Some(int_view(e@)));
                        assert(!in_i32(
                            sv[sv.len() - 1] + int_view(e@)[int_view(e@).len() - 1],
                        ));
                        assert(spec_extended_checked(sv) is None);
                    }
                    None
                },
                Some(v) => {
                    let mut out = seq;
                    out.push(v);
                    proof {
                        assert(int_view(out@) =~= int_view(out@.drop_last()).push(v as int));
                        assert(out@.drop_last() =~= seq@);
                        let sv = int_view(seq@);
                        let d = spec_differences(sv);
                        assert(spec_extended_checked(sv) is Some) by {
                            assert(!(exists|t: int|
                                0 <= t < sv.len() - 1 && !in_i32(#[trigger] sv[t + 1] - sv[t])));
                            assert(d =~= int_view(diffs@));
                            assert(!(forall|t: int| 0 <= t < d.len() ==> d[t] == 0)) by {
                                let w = choose|w: int| 0 <= w < diffs@.len() && diffs@[w] != 0;
                                assert(d[w] != 0);
                            }
                            assert(spec_extended_checked(d) is Some);
                            lemma_checked_extension_agrees(d);
                            assert(spec_extended_checked(d) == Some(int_view(e@)));
                            assert(in_i32(sv[sv.len() - 1] + int_view(e@)[int_view(e@).len() - 1]));
                        }
                    }
                    Some(out)
                },
            }
        },
    }
}

/// The extrapolated values of the first `n` rows summed, wrapping on
/// overflow; a row whose checked extension fails contributes nothing.
pub open spec fn spec_extrapolate_total(rows: Seq<Seq<i32>>, n: int) -> i32
    decreases n,
{
    if n <= 0 {
        0i32
    } else {
        let prev = spec_extrapolate_total(rows, n - 1);
        match spec_extended_checked(int_view(rows[n - 1])) {
            Some(e) => prev.wrapping_add(e[e.len() - 1] as i32),
            None => prev,
        }
    }
}

/// The extrapolated values of every sequence summed, wrapping on overflow;
/// a sequence that cannot be extended contributes nothing.
pub fn extrapolate_sequences(sequences: Vec<Vec<i32>>) -> (r: i32)
    ensures
        ({
            let rows = sequences@.map_values(|v: Vec<i32>| v@);
            r == spec_extrapolate_total(rows, rows.len() as int)
        }),
{
    let ghost rows = sequences@.map_values(|v: Vec<i32>| v@);
    let mut total: i32 = 0;
    let mut i: usize = 0;
    while i < sequences.len()
        invariant
            i <= sequences@.len(),
            rows == sequences@.map_values(|v: Vec<i32>| v@),
            total == spec_extrapolate_total(rows, i as int),
        decreases sequences@.len() - i,
    {
        let row = &sequences[i];
        proof {
            assert(rows[i as int] == sequences@[i as int]@);
        }
        let mut copy: Vec<i32> = Vec::new();
        let mut j: usize = 0;
        while j < row.len()
            invariant
                j <= row@.len(),
                copy@ == row@.subrange(0, j as int),
            decreases row@.len() - j,
        {
            copy.push(row[j]);
            proof {
                assert(copy@ =~= row@.subrange(0, j as int + 1));
            }
            j = j + 1;
        }
        proof {
            assert(copy@ =~= row@);
        }
        match finite_differences(copy) {
            Some(v) => {
                proof {
                    lemma_checked_extension_agrees(int_view(rows[i as int]));
                    assert(int_view(v@)[int_view(v@).len() - 1] == v@[v@.len() - 1] as int);
                }
                total = total.wrapping_add(v[v.len() - 1]);
            },
            None => {},
        }
        i = i + 1;
    }
    total
}

/// The signed values of the first `n` tokens; `None` at the first token that
/// does not read.
pub open spec fn spec_row_values(toks: Seq<Seq<char>>, n: int) -> Option<Seq<i32>>
    decreases n,
{
    if n <= 0 {
        Some(Seq::empty())
    } else {
        match (spec_row_values(toks, n - 1), crate::text::spec_parse_i32(toks[n - 1])) {
            (Some(prev), Some(v)) => Some(prev.push(v)),
            _ => None,
        }
    }
}

/// The rows of the first `n` lines; `None` at the first bad token.
pub open spec fn spec_parsed_rows(lines: Seq<Seq<char>>, n: int) -> Option<Seq<Seq<i32>>>
    decreases n,
{
    if n <= 0 {
        Some(Seq::empty())
    } else {
        let toks = crate::text::spec_tokens(lines[n - 1]);
        match (spec_parsed_rows(lines, n - 1), spec_row_values(toks, toks.len() as int)) {
            (Some(prev), Some(row)) => Some(prev.push(row)),
            _ => None,
        }
    }
}

proof fn lemma_row_values_stuck(toks: Seq<Seq<char>>, i: int, n: int)
    requires
        0 <= i < n,
        crate::text::spec_parse_i32(toks[i]) is None,
    ensures
        spec_row_values(toks, n) is None,
    decreases n,
{
    if i < n - 1 {
        lemma_row_values_stuck(toks, i, n - 1);
    }
}

proof fn lemma_parsed_rows_stuck(lines: Seq<Seq<char>>, i: int, n: int)
    requires
        0 <= i < n,
        ({
            let toks = crate::text::spec_tokens(lines[i]);
            spec_row_values(toks, toks.len() as int) is None
        }),
    ensures
        spec_parsed_rows(lines, n) is None,
    decreases n,
{
    if i < n - 1 {
        lemma_parsed_rows_stuck(lines, i, n - 1);
    }
}

/// Parses one sequence of signed decimals per line, exactly when every token
/// of every line reads; `BadNumber` at the first token that does not.
#[verifier::loop_isolation(false)]
pub fn parse(input: &str) -> (r: Result<Vec<Vec<i32>>, SequenceError>)
    ensures
        ({
            let lines = crate::text::spec_lines(input@);
            match spec_parsed_rows(lines, lines.len() as int) {
                Some(rows) => r matches Ok(v) && v@.map_values(|row: Vec<i32>| row@) == rows,
                None => r matches Err(e) && e == SequenceError::BadNumber,
            }
        }),
{
    let lines = line_list(input);
    let ghost views = lines@.map_values(|p: String| p@);
    let mut out: Vec<Vec<i32>> = Vec::new();
    let mut i: usize = 0;
    proof {
        assert(out@.map_values(|row: Vec<i32>| row@) =~= Seq::<Seq<i32>>::empty());
    }
    while i < lines.len()
        invariant
            i <= lines@.len(),
            spec_parsed_rows(views, i as int) == Some(out@.map_values(|row: Vec<i32>| row@)),
        decreases lines@.len() - i,
    {
        proof {
            assert(views[i as int] == lines@[i as int]@);
        }
        let parts = tokens(lines[i].as_str());
        let ghost toks = parts@.map_values(|p: String| p@);
        let mut row: Vec<i32> = Vec::new();
        let mut j: usize = 0;
        while j < parts.len()
            invariant
                j <= parts@.len(),
                toks == parts@.map_values(|p: String| p@),
                spec_row_values(toks, j as int) == Some(row@),
            decreases parts@.len() - j,
        {
            proof {
                assert(toks[j as int] == parts@[j as int]@);
            }
            match parse_i32(parts[j].as_str()) {
                Some(v) => row.push(v),
                None => {
                    proof {
                        lemma_row_values_stuck(toks, j as int, toks.len() as int);
                        lemma_parsed_rows_stuck(views, i as int, views.len() as int);
                    }
                    return Err(SequenceError::BadNumber);
                },
            }
            j = j + 1;
        }
        let ghost old_rows = out@.map_values(|row2: Vec<i32>| row2@);
        out.push(row);
        proof {
            assert(out@.map_values(|row2: Vec<i32>| row2@) =~= old_rows.push(
                out@[out@.len() - 1]@,
            ));
        }
        i = i + 1;
    }
    Ok(out)
}

} // verus!
