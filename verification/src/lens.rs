//! The holiday hash: each character folds into a running value that is
//! increased, multiplied by seventeen, and reduced modulo 256; an input's
//! answer is the hashes of its comma-separated pieces summed.
use vstd::prelude::*;

use crate::text::split_char;

verus! {

/// The hash of a character sequence: fold each character's code into the
/// accumulator, times seventeen, modulo 256.
pub open spec fn spec_hash(s: Seq<char>) -> int
    decreases s.len(),
{
    if s.len() == 0 {
        0
    } else {
        ((spec_hash(s.drop_last()) + s[s.len() - 1] as int) * 17) % 256
    }
}

pub fn hash_sequence(input: &str) -> (r: usize)
    ensures
        r == spec_hash(input@),
        r < 256,
{
    let n = input.unicode_len();
    let mut acc: u32 = 0;
    let mut i: usize = 0;
    proof {
        assert(input@.subrange(0, 0) =~= Seq::<char>::empty());
    }
    while i < n
        invariant
            i <= n == input@.len(),
            acc == spec_hash(input@.subrange(0, i as int)),
            acc < 256,
        decreases n - i,
    {
        let ghost prefix = input@.subrange(0, i as int);
        let ghost prefix2 = input@.subrange(0, i as int + 1);
        proof {
            assert(prefix2.drop_last() =~= prefix);
            assert(prefix2[prefix2.len() - 1] == input@[i as int]);
        }
        let c = input.get_char(i) as u32;
        acc = ((acc + c) % 256 * 17) % 256;
        proof {
            vstd::arithmetic::div_mod::lemma_mul_mod_noop_left(
                (acc as int) * 0 + (spec_hash(prefix) + input@[i as int] as int),
                17,
                256,
            );
        }
        i = i + 1;
    }
    proof {
        assert(input@.subrange(0, n as int) =~= input@);
    }
    acc as usize
}

/// The pieces' hashes summed in order, an addition skipped where the sum
/// would leave the machine word.
pub open spec fn spec_hash_total(pieces: Seq<Seq<char>>) -> int
    decreases pieces.len(),
{
    if pieces.len() == 0 {
        0
    } else {
        let rest = spec_hash_total(pieces.drop_last());
        if rest + spec_hash(pieces[pieces.len() - 1]) <= usize::MAX {
            rest + spec_hash(pieces[pieces.len() - 1])
        } else {
            rest
        }
    }
}

/// The hashes of the comma-separated pieces summed: the result is the hash
/// total of the input split at every comma.
pub fn solve_part(input: &str) -> (r: usize)
    ensures
        r == spec_hash_total(crate::text::spec_split(input@, ',')),
{
    let pieces = split_char(input, ',');
    let ghost views = pieces@.map_values(|p: String| p@);
    let mut total: usize = 0;
    let mut i: usize = 0;
    proof {
        assert(views.take(0) =~= Seq::<Seq<char>>::empty());
    }
    while i < pieces.len()
        invariant
            i <= pieces@.len(),
            views == pieces@.map_values(|p: String| p@),
            total == spec_hash_total(views.take(i as int)),
        decreases pieces@.len() - i,
    {
        let h = hash_sequence(pieces[i].as_str());
        let ghost prefix2 = views.take(i as int + 1);
        proof {
            assert(prefix2.drop_last() =~= views.take(i as int));
            assert(prefix2[prefix2.len() - 1] == views[i as int]);
        }
        total = match total.checked_add(h) {
            Some(t) => t,
            None => total,
        };
        i = i + 1;
    }
    proof {
        assert(views.take(views.len() as int) =~= views);
    }
    total
}

} // verus!
