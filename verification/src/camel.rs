//! Camel card hands with jokers: hand classification, hex-packed tie-break
//! value, and total winnings of a sorted list of hands.
use vstd::prelude::*;

use crate::text::{line_list, parse_u32, split_once_char};

verus! {

/// Hand classes, weakest first, so the derived order ranks them.
#[derive(Debug, PartialEq, Eq, PartialOrd, Ord)]
pub enum HandType {
    HighCard,
    OnePair,
    TwoPair,
    ThreeOfAKind,
    FullHouse,
    FourOfAKind,
    FiveOfAKind,
}

/// A hand: its class first and its packed card value second, so the derived
/// order ranks by class and breaks ties by the cards in order.
#[derive(Debug, PartialEq, Eq, PartialOrd, Ord)]
pub struct Hand {
    pub hand_type: HandType,
    pub hex_value: usize,
    pub cards: Vec<usize>,
    pub bid: usize,
}

/// How often `x` occurs in `cards`.
pub open spec fn spec_count_of(cards: Seq<usize>, x: usize) -> int
    decreases cards.len(),
{
    if cards.len() == 0 {
        0
    } else {
        spec_count_of(cards.drop_last(), x) + if cards[cards.len() - 1] == x {
            1int
        } else {
            0int
        }
    }
}

fn count_of(cards: &[usize], x: usize) -> (r: usize)
    ensures
        r == spec_count_of(cards@, x),
{
    let mut i: usize = 0;
    let mut n: usize = 0;
    proof {
        assert(cards@.subrange(0, 0) =~= Seq::<usize>::empty());
    }
    while i < cards.len()
        invariant
            i <= cards@.len(),
            n == spec_count_of(cards@.subrange(0, i as int), x),
            n <= i,
        decreases cards@.len() - i,
    {
        let ghost prefix = cards@.subrange(0, i as int);
        let ghost prefix2 = cards@.subrange(0, i as int + 1);
        proof {
            assert(prefix2.drop_last() =~= prefix);
            assert(prefix2[prefix2.len() - 1] == cards@[i as int]);
        }
        if cards[i] == x {
            n = n + 1;
        }
        i = i + 1;
    }
    proof {
        assert(cards@.subrange(0, cards@.len() as int) =~= cards@);
    }
    n
}

/// How many distinct non-joker values stand among the first `n` cards.
pub open spec fn spec_distinct_nonjoker(cards: Seq<usize>, n: int) -> int
    decreases n,
{
    if n <= 0 {
        0
    } else {
        spec_distinct_nonjoker(cards, n - 1) + if cards[n - 1] != 1 && !(exists|j: int|
            0 <= j < n - 1 && #[trigger] cards[j] == cards[n - 1]) {
            1int
        } else {
            0int
        }
    }
}

/// The largest multiplicity of a non-joker value among the first `n` cards,
/// counted over the whole hand.
pub open spec fn spec_largest_count(cards: Seq<usize>, n: int) -> int
    decreases n,
{
    if n <= 0 {
        0
    } else {
        let prev = spec_largest_count(cards, n - 1);
        if cards[n - 1] != 1 && !(exists|j: int|
            0 <= j < n - 1 && #[trigger] cards[j] == cards[n - 1]) && spec_count_of(
            cards,
            cards[n - 1],
        ) > prev {
            spec_count_of(cards, cards[n - 1])
        } else {
            prev
        }
    }
}

/// The class of a hand: jokers count as copies of the most frequent card,
/// and the class depends only on how many distinct non-joker values occur
/// and on the largest multiplicity once the jokers join it.
pub open spec fn spec_hand_type(cards: Seq<usize>) -> HandType {
    let jokers = spec_count_of(cards, 1);
    if jokers >= 5 || jokers == cards.len() {
        HandType::FiveOfAKind
    } else {
        let distinct = spec_distinct_nonjoker(cards, cards.len() as int);
        let largest = spec_largest_count(cards, cards.len() as int);
        let strongest = if largest + jokers <= usize::MAX {
            largest + jokers
        } else {
            largest
        };
        if distinct <= 1 {
            HandType::FiveOfAKind
        } else if distinct == 2 {
            if strongest == 4 {
                HandType::FourOfAKind
            } else {
                HandType::FullHouse
            }
        } else if distinct == 3 {
            if strongest == 3 {
                HandType::ThreeOfAKind
            } else {
                HandType::TwoPair
            }
        } else if distinct == 4 {
            HandType::OnePair
        } else {
            HandType::HighCard
        }
    }
}

impl HandType {
    /// Classifies a hand. Cards of value one are jokers: they count as
    /// copies of the card that already occurs most often. Classification
    /// looks only at how many distinct non-joker values occur and at the
    /// largest multiplicity once the jokers join it.
    pub fn from_hand(cards: &[usize]) -> (r: HandType)
        ensures
            r == spec_hand_type(cards@),
    {
        let jokers = count_of(cards, 1);
        proof {
            lemma_count_le_len(cards@, 1);
        }
        if jokers >= 5 || jokers == cards.len() {
            return HandType::FiveOfAKind;
        }
        // Distinct non-joker values and the largest multiplicity among them.
        let mut distinct: usize = 0;
        let mut largest: usize = 0;
        let mut i: usize = 0;
        while i < cards.len()
            invariant
                i <= cards@.len(),
                distinct <= i,
                largest <= cards@.len(),
                distinct == spec_distinct_nonjoker(cards@, i as int),
                largest == spec_largest_count(cards@, i as int),
            decreases cards@.len() - i,
        {
            let card = cards[i];
            if card != 1 {
                let mut seen = false;
                let mut j: usize = 0;
                while j < i
                    invariant
                        j <= i < cards@.len(),
                        card == cards@[i as int],
                        seen <==> (exists|t: int|
                            0 <= t < j && #[trigger] cards@[t] == cards@[i as int]),
                    decreases i - j,
                {
                    if cards[j] == card {
                        seen = true;
                    }
                    j = j + 1;
                }
                if !seen {
                    distinct = distinct + 1;
                    let occurrences = count_of(cards, card);
                    proof {
                        lemma_count_le_len(cards@, card);
                    }
                    if occurrences > largest {
                        largest = occurrences;
                    }
                }
            }
            i = i + 1;
        }
        proof {
            assert(cards@.take(cards@.len() as int) =~= cards@);
        }
        let strongest = match largest.checked_add(jokers) {
            Some(v) => v,
            None => largest,
        };
        if distinct <= 1 {
            HandType::FiveOfAKind
        } else if distinct == 2 {
            if strongest == 4 {
                HandType::FourOfAKind
            } else {
                HandType::FullHouse
            }
        } else if distinct == 3 {
            if strongest == 3 {
                HandType::ThreeOfAKind
            } else {
                HandType::TwoPair
            }
        } else if distinct == 4 {
            HandType::OnePair
        } else {
            HandType::HighCard
        }
    }
}

/// The packed value of the cards, one hex digit per card, first card most
/// significant.
pub open spec fn spec_hex_value(cards: Seq<usize>) -> int
    decreases cards.len(),
{
    if cards.len() == 0 {
        0
    } else {
        spec_hex_value(cards.drop_last()) * 16 + cards[cards.len() - 1]
    }
}

/// A value occurs at most once per card.
proof fn lemma_count_le_len(cards: Seq<usize>, x: usize)
    ensures
        0 <= spec_count_of(cards, x) <= cards.len(),
    decreases cards.len(),
{
    if cards.len() > 0 {
        lemma_count_le_len(cards.drop_last(), x);
    }
}

impl Hand {
    pub fn get_hex_value(cards: &[usize]) -> (r: usize)
        requires
            spec_hex_value(cards@) <= usize::MAX,
            forall|i: int| 0 <= i < cards@.len() ==> #[trigger] cards@[i] < 16,
        ensures
            r == spec_hex_value(cards@),
    {
        let mut acc: usize = 0;
        let mut i: usize = 0;
        proof {
            assert(cards@.subrange(0, 0) =~= Seq::<usize>::empty());
        }
        while i < cards.len()
            invariant
                i <= cards@.len(),
                acc == spec_hex_value(cards@.subrange(0, i as int)),
                forall|j: int| 0 <= j < cards@.len() ==> #[trigger] cards@[j] < 16,
                spec_hex_value(cards@) <= usize::MAX,
            decreases cards@.len() - i,
        {
            let ghost prefix = cards@.subrange(0, i as int);
            let ghost prefix2 = cards@.subrange(0, i as int + 1);
            proof {
                assert(prefix2.drop_last() =~= prefix);
                lemma_hex_prefix_bound(cards@, i as int + 1);
            }
            acc = acc * 16 + cards[i];
            i = i + 1;
        }
        proof {
            assert(cards@.subrange(0, cards@.len() as int) =~= cards@);
        }
        acc
    }

    /// Builds a hand: the packed value and the classification are computed,
    /// the cards and the bid are kept.
    pub fn new(cards: Vec<usize>, bid: usize) -> (r: Hand)
        requires
            spec_hex_value(cards@) <= usize::MAX,
            forall|i: int| 0 <= i < cards@.len() ==> #[trigger] cards@[i] < 16,
        ensures
            r.cards@ == cards@,
            r.bid == bid,
            r.hex_value == spec_hex_value(cards@),
            r.hand_type == spec_hand_type(cards@),
    {
        let hex_value = Hand::get_hex_value(cards.as_slice());
        let hand_type = HandType::from_hand(cards.as_slice());
        Hand { hand_type, hex_value, cards, bid }
    }
}

/// A nonempty prefix of the packed value never exceeds the whole: each later
/// card multiplies the prefix by sixteen and adds less than sixteen.
proof fn lemma_hex_prefix_bound(cards: Seq<usize>, n: int)
    requires
        0 <= n <= cards.len(),
        forall|i: int| 0 <= i < cards.len() ==> #[trigger] cards[i] < 16,
    ensures
        0 <= spec_hex_value(cards.subrange(0, n)) <= spec_hex_value(cards),
    decreases cards.len() - n,
{
    if n == cards.len() {
        assert(cards.subrange(0, n) =~= cards);
        lemma_hex_nonneg(cards);
    } else {
        lemma_hex_prefix_bound(cards, n + 1);
        let p = cards.subrange(0, n);
        let q = cards.subrange(0, n + 1);
        assert(q.drop_last() =~= p);
        lemma_hex_nonneg(p);
        assert(spec_hex_value(p) <= spec_hex_value(p) * 16 + q[n]) by (nonlinear_arith)
            requires
                spec_hex_value(p) >= 0,
                q[n] >= 0,
        ;
    }
}

proof fn lemma_hex_nonneg(cards: Seq<usize>)
    ensures
        spec_hex_value(cards) >= 0,
    decreases cards.len(),
{
    if cards.len() > 0 {
        lemma_hex_nonneg(cards.drop_last());
    }
}

/// The winnings of the first `n` hands: each hand's bid times its one-based
/// rank in the given order.
pub open spec fn spec_winnings(hands: Seq<Hand>, n: int) -> int
    decreases n,
{
    if n <= 0 {
        0
    } else {
        spec_winnings(hands, n - 1) + n * hands[n - 1].bid
    }
}

proof fn lemma_winnings_monotonic(hands: Seq<Hand>, a: int, b: int)
    requires
        0 <= a <= b <= hands.len(),
    ensures
        spec_winnings(hands, a) <= spec_winnings(hands, b),
    decreases b - a,
{
    if a < b {
        lemma_winnings_monotonic(hands, a, b - 1);
        assert(b * hands[b - 1].bid >= 0) by (nonlinear_arith)
            requires
                b >= 1,
                hands[b - 1].bid >= 0,
        ;
    }
}

/// Total winnings of hands already in rank order: the sum over all hands of
/// bid times one-based position.
pub fn calculate_winnings(hands: &[Hand]) -> (r: usize)
    requires
        spec_winnings(hands@, hands@.len() as int) <= usize::MAX,
    ensures
        r == spec_winnings(hands@, hands@.len() as int),
{
    let mut total: usize = 0;
    let mut i: usize = 0;
    while i < hands.len()
        invariant
            i <= hands@.len(),
            total == spec_winnings(hands@, i as int),
            spec_winnings(hands@, hands@.len() as int) <= usize::MAX,
        decreases hands@.len() - i,
    {
        proof {
            lemma_winnings_monotonic(hands@, i as int + 1, hands@.len() as int);
            lemma_winnings_monotonic(hands@, 0, i as int);
        }
        let rank = i + 1;
        let bid = hands[i].bid;
        let due = match rank.checked_mul(bid) {
            Some(v) => v,
            None => {
                proof {
                    assert(false);
                }
                0
            },
        };
        total = total + due;
        i = i + 1;
    }
    total
}

/// The card a character names: joker, digit, or face card; `None` for
/// anything else.
pub open spec fn spec_card(c: char) -> Option<usize> {
    match c {
        'J' => Some(1usize),
        '2' => Some(2usize),
        '3' => Some(3usize),
        '4' => Some(4usize),
        '5' => Some(5usize),
        '6' => Some(6usize),
        '7' => Some(7usize),
        '8' => Some(8usize),
        '9' => Some(9usize),
        'T' => Some(10usize),
        'Q' => Some(12usize),
        'K' => Some(13usize),
        'A' => Some(14usize),
        _ => None,
    }
}

/// The card named by one character: joker, digit, or face card; `None` for
/// anything else.
pub fn from_char(c: char) -> (r: Option<usize>)
    ensures
        r == spec_card(c),
{
    match c {
        'J' => Some(1),
        '2' => Some(2),
        '3' => Some(3),
        '4' => Some(4),
        '5' => Some(5),
        '6' => Some(6),
        '7' => Some(7),
        '8' => Some(8),
        '9' => Some(9),
        'T' => Some(10),
        'Q' => Some(12),
        'K' => Some(13),
        'A' => Some(14),
        _ => None,
    }
}

/// Every character of the hand text names a card.
pub open spec fn all_cards(s: Seq<char>) -> bool {
    forall|j: int| 0 <= j < s.len() ==> spec_card(#[trigger] s[j]) is Some
}

/// The card values of the first `n` characters, unknown characters as zero.
pub open spec fn spec_card_seq(s: Seq<char>, n: int) -> Seq<usize>
    decreases n,
{
    if n <= 0 {
        Seq::empty()
    } else {
        spec_card_seq(s, n - 1).push(
            match spec_card(s[n - 1]) {
                Some(v) => v,
                None => 0usize,
            },
        )
    }
}

/// The well-formed hands of the first `n` lines, as (cards, bid) pairs: the
/// cards before the space (at most seven, all naming cards) and the bid
/// after it. Lines that do not fit the shape are passed over.
pub open spec fn spec_hands(lines: Seq<Seq<char>>, n: int) -> Seq<(Seq<usize>, usize)>
    decreases n,
{
    if n <= 0 {
        Seq::empty()
    } else {
        let prev = spec_hands(lines, n - 1);
        match crate::text::spec_split_once(lines[n - 1], ' ') {
            None => prev,
            Some(pair) => if pair.0.len() <= 7 && all_cards(pair.0) {
                match crate::text::spec_parse_u32(pair.1) {
                    Some(bid) => prev.push((spec_card_seq(pair.0, pair.0.len() as int), bid as usize)),
                    None => prev,
                }
            } else {
                prev
            },
        }
    }
}

/// Parses one hand per line: the cards before the space, the bid after it.
/// The contract pins each returned hand: one per well-formed line in order,
/// with its cards, bid, packed value and class. Lines without a space, with
/// an unknown card, with an unreadable bid, or with more cards than the
/// packed value can hold are passed over.
#[verifier::loop_isolation(false)]
pub fn parse(input: &str) -> (r: Vec<Hand>)
    ensures
        ({
            let lines = crate::text::spec_lines(input@);
            r@.map_values(|h: Hand| (h.cards@, h.bid)) == spec_hands(lines, lines.len() as int)
        }),
        forall|i: int|
            0 <= i < r@.len() ==> (#[trigger] r@[i]).hex_value == spec_hex_value(r@[i].cards@)
                && r@[i].hand_type == spec_hand_type(r@[i].cards@),
{
    let lines = line_list(input);
    let ghost views = lines@.map_values(|p: String| p@);
    let mut out: Vec<Hand> = Vec::new();
    let mut i: usize = 0;
    while i < lines.len()
        invariant
            i <= lines@.len(),
            out@.map_values(|h: Hand| (h.cards@, h.bid)) == spec_hands(views, i as int),
            forall|t: int|
                0 <= t < out@.len() ==> (#[trigger] out@[t]).hex_value == spec_hex_value(
                    out@[t].cards@,
                ) && out@[t].hand_type == spec_hand_type(out@[t].cards@),
        decreases lines@.len() - i,
    {
        let ghost old_map = out@.map_values(|h: Hand| (h.cards@, h.bid));
        proof {
            assert(views[i as int] == lines@[i as int]@);
        }
        match split_once_char(lines[i].as_str(), ' ') {
            Some(pair) => {
                let card_text = pair.0.as_str();
                let m = card_text.unicode_len();
                let mut cards: Vec<usize> = Vec::new();
                let mut good = m <= 7;
                let mut j: usize = 0;
                while j < m && good
                    invariant
                        j <= m == card_text@.len(),
                        cards@.len() == j,
                        forall|t: int| 0 <= t < cards@.len() ==> #[trigger] cards@[t] < 16,
                        good ==> m <= 7 && (forall|t: int|
                            0 <= t < j ==> spec_card(#[trigger] card_text@[t]) is Some)
                            && cards@ == spec_card_seq(card_text@, j as int),
                        !good ==> m > 7 || (exists|t: int|
                            0 <= t < j && spec_card(#[trigger] card_text@[t]) is None),
                    decreases m - j,
                {
                    match from_char(card_text.get_char(j)) {
                        Some(v) => cards.push(v),
                        None => {
                            good = false;
                            cards.push(0);
                        },
                    }
                    j = j + 1;
                }
                if good && cards.len() <= 7 {
                    proof {
                        lemma_hex_small(cards@);
                    }
                    match parse_u32(pair.1.as_str()) {
                        Some(bid) => {
                            let hand = Hand::new(cards, bid as usize);
                            out.push(hand);
                            proof {
                                assert(out@.map_values(|h: Hand| (h.cards@, h.bid)) =~= old_map.push(
                                    (out@[out@.len() - 1].cards@, out@[out@.len() - 1].bid),
                                ));
                            }
                        },
                        None => {},
                    }
                } else {
                    proof {
                        assert(!(card_text@.len() <= 7 && all_cards(card_text@)));
                    }
                }
            },
            None => {},
        }
        i = i + 1;
    }
    proof {
        assert(views.len() == lines@.len());
    }
    out
}

/// Sixteen to the `n`.
pub open spec fn spec_pow16(n: nat) -> int
    decreases n,
{
    if n == 0 {
        1
    } else {
        16 * spec_pow16((n - 1) as nat)
    }
}

/// Sixteen to a small power fits the machine word, so short hands pack
/// safely.
proof fn lemma_hex_small(cards: Seq<usize>)
    requires
        cards.len() <= 7,
        forall|i: int| 0 <= i < cards.len() ==> #[trigger] cards[i] < 16,
    ensures
        spec_hex_value(cards) < spec_pow16(cards.len()),
        spec_hex_value(cards) <= usize::MAX,
    decreases cards.len(),
{
    lemma_pow16_le_max(cards.len());
    if cards.len() > 0 {
        lemma_hex_small(cards.drop_last());
        let p = cards.drop_last();
        assert(spec_hex_value(p) * 16 + cards[cards.len() - 1] < spec_pow16(p.len()) * 16)
            by (nonlinear_arith)
            requires
                spec_hex_value(p) < spec_pow16(p.len()),
                cards[cards.len() - 1] < 16,
        ;
        assert(spec_pow16(p.len()) * 16 == spec_pow16(cards.len())) by (nonlinear_arith)
            requires
                spec_pow16(cards.len()) == 16 * spec_pow16(p.len()),
        ;
    }
}

proof fn lemma_pow16_pos(n: nat)
    ensures
        0 < spec_pow16(n),
    decreases n,
{
    if n > 0 {
        lemma_pow16_pos((n - 1) as nat);
        assert(0 < 16 * spec_pow16((n - 1) as nat)) by (nonlinear_arith)
            requires
                spec_pow16((n - 1) as nat) > 0,
        ;
    }
}

proof fn lemma_pow16_monotonic(a: nat, b: nat)
    requires
        a <= b,
    ensures
        0 < spec_pow16(a) <= spec_pow16(b),
    decreases b,
{
    lemma_pow16_pos(a);
    if a < b {
        lemma_pow16_monotonic(a, (b - 1) as nat);
        assert(spec_pow16((b - 1) as nat) <= 16 * spec_pow16((b - 1) as nat)) by (nonlinear_arith)
            requires
                spec_pow16((b - 1) as nat) > 0,
        ;
    }
}

proof fn lemma_pow16_le_max(n: nat)
    requires
        n <= 7,
    ensures
        spec_pow16(n) <= usize::MAX,
{
    reveal_with_fuel(spec_pow16, 8);
    assert(spec_pow16(7) == 0x10000000);
    lemma_pow16_monotonic(n, 7);
}

} // verus!
