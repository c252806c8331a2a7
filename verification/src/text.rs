//! Small verified helpers for walking over strings: line splitting, digit
//! decoding, and integer parsing. They work on the character view of a `str`
//! and are shared by the parsing front ends of the other modules.
use vstd::prelude::*;

verus! {

/// The numeric value of a decimal digit character, or `None` when `c` is not
/// one of `'0'..='9'`.
pub open spec fn spec_digit_value(c: char) -> Option<u32> {
    if '0' <= c && c <= '9' {
        Some((c as u32 - '0' as u32) as u32)
    } else {
        None
    }
}

pub fn digit_value(c: char) -> (r: Option<u32>)
    ensures
        r == spec_digit_value(c),
{
    let v = c as u32;
    if 48 <= v && v <= 57 {
        Some(v - 48)
    } else {
        None
    }
}

/// The value of a sequence of decimal digits, most significant first;
/// `None` when the sequence is empty, holds a non-digit, or does not fit in `u32`.
pub open spec fn spec_parse_u32(s: Seq<char>) -> Option<u32>
    decreases s.len(),
{
    if s.len() == 0 {
        None
    } else if s.len() == 1 {
        spec_digit_value(s[0])
    } else {
        match spec_parse_u32(s.drop_last()) {
            None => None,
            Some(hi) => match spec_digit_value(s.last()) {
                None => None,
                Some(d) => if hi * 10 + d <= u32::MAX {
                    Some((hi * 10 + d) as u32)
                } else {
                    None
                },
            },
        }
    }
}

pub fn parse_u32(s: &str) -> (r: Option<u32>)
    ensures
        r == spec_parse_u32(s@),
{
    let n = s.unicode_len();
    if n == 0 {
        return None;
    }
    let mut acc: u32 = 0;
    let mut i: usize = 0;
    let mut ok = true;
    while i < n
        invariant
            0 < n == s@.len(),
            i <= n,
            i == 0 ==> ok && acc == 0,
            ok && i > 0 ==> spec_parse_u32(s@.subrange(0, i as int)) == Some(acc),
            !ok ==> spec_parse_u32(s@.subrange(0, i as int)) is None,
        decreases n - i,
    {
        let c = s.get_char(i);
        let ghost prefix = s@.subrange(0, i as int);
        let ghost prefix2 = s@.subrange(0, i as int + 1);
        proof {
            assert(prefix2.drop_last() =~= prefix);
            assert(prefix2.last() == s@[i as int]);
        }
        match digit_value(c) {
            None => {
                ok = false;
            },
            Some(d) => {
                if ok {
                    match acc.checked_mul(10) {
                        None => {
                            ok = false;
                        },
                        Some(m) => match m.checked_add(d) {
                            None => {
                                ok = false;
                            },
                            Some(v) => {
                                acc = v;
                            },
                        },
                    }
                }
            },
        }
        i = i + 1;
    }
    proof {
        assert(s@.subrange(0, n as int) =~= s@);
    }
    if ok {
        Some(acc)
    } else {
        None
    }
}

/// The number of characters before the first `sep`, or all of them when
/// `sep` does not occur.
pub open spec fn spec_sep_break(s: Seq<char>, sep: char) -> nat
    decreases s.len(),
{
    if s.len() == 0 {
        0
    } else if s[0] == sep {
        0
    } else {
        1 + spec_sep_break(s.drop_first(), sep)
    }
}

/// The break is where the first `sep` stands.
proof fn lemma_sep_break_unique(t: Seq<char>, sep: char, k: int)
    requires
        0 <= k <= t.len(),
        forall|j: int| 0 <= j < k ==> t[j] != sep,
        k < t.len() ==> t[k] == sep,
    ensures
        spec_sep_break(t, sep) == k,
    decreases k,
{
    if t.len() == 0 {
    } else if k == 0 {
    } else {
        assert(t[0] != sep);
        let u = t.drop_first();
        assert forall|j: int| 0 <= j < k - 1 implies u[j] != sep by {
            assert(u[j] == t[j + 1]);
        }
        if k - 1 < u.len() {
            assert(u[k - 1] == t[k]);
        }
        lemma_sep_break_unique(u, sep, k - 1);
    }
}

/// The pieces of `s` between occurrences of `sep`, in order; adjacent
/// separators give empty pieces and the empty input gives one empty piece.
pub open spec fn spec_split(s: Seq<char>, sep: char) -> Seq<Seq<char>>
    decreases s.len(),
{
    let k = spec_sep_break(s, sep);
    if k < s.len() {
        seq![s.take(k as int)] + spec_split(s.skip(k as int + 1), sep)
    } else {
        seq![s]
    }
}

/// The text before the first `sep` and the text after it; `None` when `sep`
/// does not occur.
pub open spec fn spec_split_once(s: Seq<char>, sep: char) -> Option<(Seq<char>, Seq<char>)> {
    let k = spec_sep_break(s, sep);
    if k < s.len() {
        Some((s.take(k as int), s.skip(k as int + 1)))
    } else {
        None
    }
}

/// The number of leading non-blank characters.
pub open spec fn spec_word_break(s: Seq<char>) -> nat
    decreases s.len(),
{
    if s.len() == 0 {
        0
    } else if spec_is_space(s[0]) {
        0
    } else {
        1 + spec_word_break(s.drop_first())
    }
}

proof fn lemma_word_break_unique(t: Seq<char>, k: int)
    requires
        0 <= k <= t.len(),
        forall|j: int| 0 <= j < k ==> !spec_is_space(#[trigger] t[j]),
        k < t.len() ==> spec_is_space(t[k]),
    ensures
        spec_word_break(t) == k,
    decreases k,
{
    if t.len() == 0 {
    } else if k == 0 {
    } else {
        assert(!spec_is_space(t[0]));
        let u = t.drop_first();
        assert forall|j: int| 0 <= j < k - 1 implies !spec_is_space(#[trigger] u[j]) by {
            assert(u[j] == t[j + 1]);
        }
        if k - 1 < u.len() {
            assert(u[k - 1] == t[k]);
        }
        lemma_word_break_unique(u, k - 1);
    }
}

/// The first word covers at least its first character and never overruns.
proof fn lemma_word_break_bounds(s: Seq<char>)
    ensures
        spec_word_break(s) <= s.len(),
        s.len() > 0 && !spec_is_space(s[0]) ==> spec_word_break(s) >= 1,
    decreases s.len(),
{
    if s.len() > 0 && !spec_is_space(s[0]) {
        lemma_word_break_bounds(s.drop_first());
    }
}

/// The maximal blank-separated words of `s`, in order.
pub open spec fn spec_tokens(s: Seq<char>) -> Seq<Seq<char>>
    decreases s.len(),
    via spec_tokens_decreases
{
    if s.len() == 0 {
        Seq::empty()
    } else if spec_is_space(s[0]) {
        spec_tokens(s.drop_first())
    } else {
        let k = spec_word_break(s);
        seq![s.take(k as int)] + spec_tokens(s.skip(k as int))
    }
}

#[via_fn]
proof fn spec_tokens_decreases(s: Seq<char>) {
    if s.len() > 0 && !spec_is_space(s[0]) {
        lemma_word_break_bounds(s);
    }
}

/// The input with its leading blank run removed.
pub open spec fn spec_trim_front(s: Seq<char>) -> Seq<char>
    decreases s.len(),
{
    if s.len() > 0 && spec_is_space(s[0]) {
        spec_trim_front(s.drop_first())
    } else {
        s
    }
}

/// The input with its trailing blank run removed.
pub open spec fn spec_trim_back(s: Seq<char>) -> Seq<char>
    decreases s.len(),
{
    if s.len() > 0 && spec_is_space(s[s.len() - 1]) {
        spec_trim_back(s.drop_last())
    } else {
        s
    }
}

/// The input with leading and trailing blanks removed.
pub open spec fn spec_trim(s: Seq<char>) -> Seq<char> {
    spec_trim_back(spec_trim_front(s))
}

proof fn lemma_trim_front_at(s: Seq<char>, a: int)
    requires
        0 <= a <= s.len(),
        forall|j: int| 0 <= j < a ==> spec_is_space(#[trigger] s[j]),
        a < s.len() ==> !spec_is_space(s[a]),
    ensures
        spec_trim_front(s) == s.skip(a),
    decreases a,
{
    if a == 0 {
        assert(s.skip(0) =~= s);
    } else {
        let u = s.drop_first();
        assert forall|j: int| 0 <= j < a - 1 implies spec_is_space(#[trigger] u[j]) by {
            assert(u[j] == s[j + 1]);
        }
        if a - 1 < u.len() {
            assert(u[a - 1] == s[a]);
        }
        lemma_trim_front_at(u, a - 1);
        assert(u.skip(a - 1) =~= s.skip(a));
    }
}

proof fn lemma_trim_back_at(s: Seq<char>, b: int)
    requires
        0 <= b <= s.len(),
        forall|j: int| b <= j < s.len() ==> spec_is_space(#[trigger] s[j]),
        b > 0 ==> !spec_is_space(s[b - 1]),
    ensures
        spec_trim_back(s) == s.take(b),
    decreases s.len() - b,
{
    if b == s.len() {
        assert(s.take(b) =~= s);
    } else {
        let u = s.drop_last();
        assert forall|j: int| b <= j < u.len() implies spec_is_space(#[trigger] u[j]) by {
            assert(u[j] == s[j]);
        }
        if b > 0 {
            assert(u[b - 1] == s[b - 1]);
        }
        lemma_trim_back_at(u, b);
        assert(u.take(b) =~= s.take(b));
    }
}

/// The scan state over the digits embedded in `s`: whether a digit was seen,
/// whether no accumulation overflowed, and the accumulated value.
pub open spec fn spec_embedded_scan(s: Seq<char>) -> (bool, bool, u32)
    decreases s.len(),
{
    if s.len() == 0 {
        (false, true, 0u32)
    } else {
        let (seen, ok, acc) = spec_embedded_scan(s.drop_last());
        match spec_digit_value(s[s.len() - 1]) {
            None => (seen, ok, acc),
            Some(d) => if ok && acc * 10 + d <= u32::MAX {
                (true, ok, (acc * 10 + d) as u32)
            } else {
                (true, false, acc)
            },
        }
    }
}

/// The value the digits of `s` spell, every other character skipped; `None`
/// when there is no digit or the value leaves `u32`.
pub open spec fn spec_embedded_digits(s: Seq<char>) -> Option<u32> {
    let (seen, ok, acc) = spec_embedded_scan(s);
    if seen && ok {
        Some(acc)
    } else {
        None
    }
}

/// The number of characters before the first line break, or all of them
/// when no break occurs.
pub open spec fn spec_line_break(s: Seq<char>) -> nat {
    spec_sep_break(s, '\n')
}

/// The first break is where the first line-break character stands.
proof fn lemma_line_break_unique(t: Seq<char>, k: int)
    requires
        0 <= k <= t.len(),
        forall|j: int| 0 <= j < k ==> t[j] != '\n',
        k < t.len() ==> t[k] == '\n',
    ensures
        spec_line_break(t) == k,
{
    lemma_sep_break_unique(t, '\n', k);
}

fn first_index_of(s: &str, from: usize, sep: char) -> (r: Option<usize>)
    requires
        from <= s@.len(),
    ensures
        match r {
            Some(k) => from <= k < s@.len() && s@[k as int] == sep && (forall|j: int|
                from <= j < k ==> s@[j] != sep),
            None => forall|j: int| from <= j < s@.len() ==> s@[j] != sep,
        },
{
    let n = s.unicode_len();
    let mut i = from;
    while i < n
        invariant
            from <= i <= n == s@.len(),
            forall|j: int| from <= j < i ==> s@[j] != sep,
        decreases n - i,
    {
        if s.get_char(i) == sep {
            return Some(i);
        }
        i = i + 1;
    }
    None
}

/// Splits `s` at every occurrence of `sep`; the contract pins the result to
/// `spec_split` of the input.
pub fn split_char(s: &str, sep: char) -> (r: Vec<String>)
    ensures
        r@.map_values(|p: String| p@) == spec_split(s@, sep),
        r@.len() >= 1,
{
    let n = s.unicode_len();
    let mut pieces: Vec<String> = Vec::new();
    let mut start: usize = 0;
    proof {
        assert(s@.skip(0) =~= s@);
        assert(pieces@.map_values(|p: String| p@) =~= Seq::<Seq<char>>::empty());
        assert(Seq::<Seq<char>>::empty() + spec_split(s@, sep) =~= spec_split(s@, sep));
    }
    loop
        invariant
            start <= n == s@.len(),
            spec_split(s@, sep) == pieces@.map_values(|p: String| p@) + spec_split(
                s@.skip(start as int),
                sep,
            ),
        decreases n - start + 1,
    {
        let opt = first_index_of(s, start, sep);
        let stop = match opt {
            Some(k) => k,
            None => n,
        };
        let piece = s.substring_char(start, stop).to_owned();
        let ghost rest = s@.skip(start as int);
        let ghost old_out = pieces@.map_values(|p: String| p@);
        proof {
            assert forall|j: int| 0 <= j < stop - start implies rest[j] != sep by {
                assert(rest[j] == s@[start + j]);
            }
            if stop < n {
                assert(rest[stop - start] == s@[stop as int]);
            }
            lemma_sep_break_unique(rest, sep, stop - start);
            assert(rest.take(stop - start) =~= s@.subrange(start as int, stop as int));
        }
        pieces.push(piece);
        proof {
            let pv = s@.subrange(start as int, stop as int);
            assert(pieces@.map_values(|p: String| p@) =~= old_out.push(pv));
            assert(old_out.push(pv) =~= old_out + seq![pv]);
            if stop < n {
                assert(rest.skip(stop - start + 1) =~= s@.skip(stop + 1));
                assert(spec_split(rest, sep) == seq![pv] + spec_split(s@.skip(stop + 1), sep));
                assert(old_out + (seq![pv] + spec_split(s@.skip(stop + 1), sep)) =~= (old_out
                    + seq![pv]) + spec_split(s@.skip(stop + 1), sep));
            } else {
                assert(rest =~= pv);
                assert(spec_split(rest, sep) == seq![pv]);
            }
        }
        match opt {
            Some(k) => {
                start = k + 1;
            },
            None => {
                return pieces;
            },
        }
    }
}

/// One line with a trailing carriage return stripped.
pub open spec fn spec_strip_cr(l: Seq<char>) -> Seq<char> {
    if l.len() > 0 && l[l.len() - 1] == '\r' {
        l.drop_last()
    } else {
        l
    }
}

/// The input's lines, the way `str::lines` reads them: pieces between line
/// breaks, each with a final carriage return stripped, and nothing emitted
/// after a trailing break.
pub open spec fn spec_lines(s: Seq<char>) -> Seq<Seq<char>>
    decreases s.len(),
{
    if s.len() == 0 {
        Seq::empty()
    } else {
        let k = spec_line_break(s);
        if k < s.len() {
            seq![spec_strip_cr(s.take(k as int))] + spec_lines(s.skip(k as int + 1))
        } else {
            seq![spec_strip_cr(s)]
        }
    }
}

/// Splits into lines the way `str::lines` does; the contract pins the result
/// to `spec_lines` of the input.
pub fn line_list(s: &str) -> (r: Vec<String>)
    ensures
        r@.map_values(|p: String| p@) == spec_lines(s@),
{
    let n = s.unicode_len();
    let mut out: Vec<String> = Vec::new();
    let mut start: usize = 0;
    proof {
        assert(s@.skip(0) =~= s@);
        assert(out@.map_values(|p: String| p@) =~= Seq::<Seq<char>>::empty());
        assert(Seq::<Seq<char>>::empty() + spec_lines(s@) =~= spec_lines(s@));
    }
    while start < n
        invariant
            start <= n == s@.len(),
            spec_lines(s@) == out@.map_values(|p: String| p@) + spec_lines(
                s@.skip(start as int),
            ),
        decreases n - start,
    {
        let opt = first_index_of(s, start, '\n');
        let stop = match opt {
            Some(k) => k,
            None => n,
        };
        let line_end = if stop > start && s.get_char(stop - 1) == '\r' {
            stop - 1
        } else {
            stop
        };
        let piece = s.substring_char(start, line_end).to_owned();
        let ghost rest = s@.skip(start as int);
        let ghost old_out = out@.map_values(|p: String| p@);
        proof {
            assert forall|j: int| 0 <= j < stop - start implies rest[j] != '\n' by {
                assert(rest[j] == s@[start + j]);
            }
            if stop < n {
                assert(rest[stop - start] == s@[stop as int]);
            }
            lemma_line_break_unique(rest, stop - start);
            assert(rest.take(stop - start) =~= s@.subrange(start as int, stop as int));
            assert(spec_strip_cr(s@.subrange(start as int, stop as int)) =~= s@.subrange(
                start as int,
                line_end as int,
            ));
            if stop < n {
                assert(rest.skip(stop - start + 1) =~= s@.skip(stop + 1));
            } else {
                assert(spec_strip_cr(rest) =~= s@.subrange(start as int, line_end as int));
            }
        }
        out.push(piece);
        proof {
            let pv = s@.subrange(start as int, line_end as int);
            assert(out@.map_values(|p: String| p@) =~= old_out.push(pv));
            assert(old_out.push(pv) =~= old_out + seq![pv]);
            if stop < n {
                assert(spec_lines(rest) == seq![pv] + spec_lines(s@.skip(stop + 1)));
                assert(old_out + (seq![pv] + spec_lines(s@.skip(stop + 1))) =~= (old_out + seq![
                    pv,
                ]) + spec_lines(s@.skip(stop + 1)));
            } else {
                assert(spec_lines(rest) == seq![pv]);
                assert(s@.skip(n as int) =~= Seq::<char>::empty());
                assert(old_out + seq![pv] + spec_lines(s@.skip(n as int)) =~= old_out + seq![pv]);
            }
        }
        match opt {
            Some(k) => {
                start = k + 1;
            },
            None => {
                start = n;
            },
        }
    }
    proof {
        assert(s@.skip(start as int) =~= Seq::<char>::empty());
        assert(out@.map_values(|p: String| p@) + Seq::<Seq<char>>::empty() =~= out@.map_values(
            |p: String| p@,
        ));
    }
    out
}

/// Splits at the first occurrence of `sep`: the text before it and the text
/// after it, or `None` when `sep` does not occur.
pub fn split_once_char(s: &str, sep: char) -> (r: Option<(String, String)>)
    ensures
        match r {
            Some(pair) => spec_split_once(s@, sep) == Some((pair.0@, pair.1@)),
            None => spec_split_once(s@, sep) is None,
        },
        r matches Some(pair) ==> exists|k: int|
            {
                &&& 0 <= k < s@.len()
                &&& s@[k] == sep
                &&& (forall|j: int| 0 <= j < k ==> s@[j] != sep)
                &&& pair.0@ == s@.subrange(0, k)
                &&& pair.1@ == s@.subrange(k + 1, s@.len() as int)
            },
{
    let n = s.unicode_len();
    match first_index_of(s, 0, sep) {
        Some(k) => {
            let head = s.substring_char(0, k).to_owned();
            let tail = s.substring_char(k + 1, n).to_owned();
            proof {
                lemma_sep_break_unique(s@, sep, k as int);
                assert(s@.take(k as int) =~= s@.subrange(0, k as int));
                assert(s@.skip(k as int + 1) =~= s@.subrange(k as int + 1, s@.len() as int));
            }
            Some((head, tail))
        },
        None => {
            proof {
                lemma_sep_break_unique(s@, sep, s@.len() as int);
            }
            None
        },
    }
}

/// Whether `c` counts as blank space when tokenizing and trimming.
pub open spec fn spec_is_space(c: char) -> bool {
    c == ' ' || c == '\t' || c == '\r' || c == '\n'
}

fn is_space(c: char) -> (r: bool)
    ensures
        r == spec_is_space(c),
{
    c == ' ' || c == '\t' || c == '\r' || c == '\n'
}

/// The input with leading and trailing blank space removed.
pub fn trim_spaces(s: &str) -> (r: String)
    ensures
        r@ == spec_trim(s@),
{
    let n = s.unicode_len();
    let mut a: usize = 0;
    while a < n && is_space(s.get_char(a))
        invariant
            a <= n == s@.len(),
            forall|j: int| 0 <= j < a ==> spec_is_space(#[trigger] s@[j]),
        decreases n - a,
    {
        a = a + 1;
    }
    let mut b = n;
    while b > a && is_space(s.get_char(b - 1))
        invariant
            a <= b <= n == s@.len(),
            forall|j: int| b <= j < n ==> spec_is_space(#[trigger] s@[j]),
        decreases b,
    {
        b = b - 1;
    }
    proof {
        lemma_trim_front_at(s@, a as int);
        let u = s@.skip(a as int);
        assert forall|j: int| b - a <= j < u.len() implies spec_is_space(#[trigger] u[j]) by {
            assert(u[j] == s@[a + j]);
        }
        if b > a {
            assert(u[b - a - 1] == s@[b - 1]);
        }
        lemma_trim_back_at(u, b - a);
        assert(u.take(b - a) =~= s@.subrange(a as int, b as int));
    }
    s.substring_char(a, b).to_owned()
}

/// The maximal blank-separated words of `s`, in order; the contract pins the
/// result to `spec_tokens` of the input.
pub fn tokens(s: &str) -> (r: Vec<String>)
    ensures
        r@.map_values(|p: String| p@) == spec_tokens(s@),
{
    let n = s.unicode_len();
    let mut out: Vec<String> = Vec::new();
    let mut i: usize = 0;
    proof {
        assert(s@.skip(0) =~= s@);
        assert(out@.map_values(|p: String| p@) =~= Seq::<Seq<char>>::empty());
        assert(Seq::<Seq<char>>::empty() + spec_tokens(s@) =~= spec_tokens(s@));
    }
    while i < n
        invariant
            i <= n == s@.len(),
            spec_tokens(s@) == out@.map_values(|p: String| p@) + spec_tokens(
                s@.skip(i as int),
            ),
        decreases n - i,
    {
        if is_space(s.get_char(i)) {
            proof {
                assert(s@.skip(i as int).drop_first() =~= s@.skip(i as int + 1));
            }
            i = i + 1;
        } else {
            let start = i;
            while i < n && !is_space(s.get_char(i))
                invariant
                    start <= i <= n == s@.len(),
                    forall|j: int| start <= j < i ==> !spec_is_space(#[trigger] s@[j]),
                decreases n - i,
            {
                i = i + 1;
            }
            let ghost rest = s@.skip(start as int);
            let ghost old_out = out@.map_values(|p: String| p@);
            proof {
                assert forall|j: int| 0 <= j < i - start implies !spec_is_space(
                    #[trigger] rest[j],
                ) by {
                    assert(rest[j] == s@[start + j]);
                }
                if i < n {
                    assert(rest[i - start] == s@[i as int]);
                }
                lemma_word_break_unique(rest, i - start);
                assert(rest.take(i - start) =~= s@.subrange(start as int, i as int));
                assert(rest.skip(i - start) =~= s@.skip(i as int));
            }
            out.push(s.substring_char(start, i).to_owned());
            proof {
                let pv = s@.subrange(start as int, i as int);
                assert(out@.map_values(|p: String| p@) =~= old_out.push(pv));
                assert(old_out.push(pv) =~= old_out + seq![pv]);
                assert(spec_tokens(rest) == seq![pv] + spec_tokens(s@.skip(i as int)));
                assert(old_out + (seq![pv] + spec_tokens(s@.skip(i as int))) =~= (old_out + seq![
                    pv,
                ]) + spec_tokens(s@.skip(i as int)));
            }
        }
    }
    proof {
        assert(s@.skip(n as int) =~= Seq::<char>::empty());
        assert(out@.map_values(|p: String| p@) + Seq::<Seq<char>>::empty() =~= out@.map_values(
            |p: String| p@,
        ));
    }
    out
}

/// The value of the decimal digits of `s` read in order, every other
/// character skipped; `None` when `s` holds no digit or an accumulation
/// leaves `u32`.
pub fn parse_embedded_digits(s: &str) -> (r: Option<u32>)
    ensures
        r == spec_embedded_digits(s@),
{
    let n = s.unicode_len();
    let mut acc: u32 = 0;
    let mut seen = false;
    let mut ok = true;
    let mut i: usize = 0;
    proof {
        assert(s@.subrange(0, 0) =~= Seq::<char>::empty());
    }
    while i < n
        invariant
            i <= n == s@.len(),
            (seen, ok, acc) == spec_embedded_scan(s@.subrange(0, i as int)),
        decreases n - i,
    {
        let ghost prefix = s@.subrange(0, i as int);
        let ghost prefix2 = s@.subrange(0, i as int + 1);
        proof {
            assert(prefix2.drop_last() =~= prefix);
            assert(prefix2[prefix2.len() - 1] == s@[i as int]);
        }
        match digit_value(s.get_char(i)) {
            Some(d) => {
                seen = true;
                if ok {
                    match acc.checked_mul(10) {
                        Some(m) => match m.checked_add(d) {
                            Some(v) => {
                                acc = v;
                            },
                            None => {
                                ok = false;
                            },
                        },
                        None => {
                            ok = false;
                        },
                    }
                }
            },
            None => {},
        }
        i = i + 1;
    }
    proof {
        assert(s@.subrange(0, n as int) =~= s@);
    }
    if seen && ok {
        Some(acc)
    } else {
        None
    }
}

/// The value of a decimal integer with an optional leading minus sign;
/// `None` when the digits are missing, malformed, or out of `i32` range.
pub open spec fn spec_parse_i32(s: Seq<char>) -> Option<i32> {
    if s.len() > 0 && s[0] == '-' {
        match spec_parse_u32(s.subrange(1, s.len() as int)) {
            Some(v) => if v <= 0x8000_0000u32 {
                Some((-(v as int)) as i32)
            } else {
                None
            },
            None => None,
        }
    } else {
        match spec_parse_u32(s) {
            Some(v) => if v <= 0x7fff_ffffu32 {
                Some(v as i32)
            } else {
                None
            },
            None => None,
        }
    }
}

pub fn parse_i32(s: &str) -> (r: Option<i32>)
    ensures
        r == spec_parse_i32(s@),
{
    let n = s.unicode_len();
    if n > 0 && s.get_char(0) == '-' {
        let rest = s.substring_char(1, n);
        match parse_u32(rest) {
            Some(v) => {
                if v <= 0x8000_0000u32 {
                    proof {
                        assert(-(v as int) >= i32::MIN);
                    }
                    Some((-(v as i64)) as i32)
                } else {
                    None
                }
            },
            None => None,
        }
    } else {
        match parse_u32(s) {
            Some(v) => {
                if v <= 0x7fff_ffffu32 {
                    Some(v as i32)
                } else {
                    None
                }
            },
            None => None,
        }
    }
}


/// Whether two strings hold the same characters.
pub fn str_eq(a: &str, b: &str) -> (r: bool)
    ensures
        r <==> a@ == b@,
{
    let n = a.unicode_len();
    if n != b.unicode_len() {
        proof {
            assert(a@.len() != b@.len());
        }
        return false;
    }
    let mut i: usize = 0;
    while i < n
        invariant
            i <= n == a@.len() && n == b@.len(),
            forall|j: int| 0 <= j < i ==> a@[j] == b@[j],
        decreases n - i,
    {
        if a.get_char(i) != b.get_char(i) {
            return false;
        }
        i = i + 1;
    }
    proof {
        assert(a@ =~= b@);
    }
    true
}

} // verus!
