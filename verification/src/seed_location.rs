//! The lowest seed location of an almanac, seeds read one by one.
use vstd::prelude::*;

use crate::almanac::Almanac;

verus! {

/// Parses the almanac and answers the smallest location any listed seed
/// reaches; zero when the text does not spell an almanac.
pub fn calculate(file: &str) -> (r: usize)
    ensures
        match crate::almanac::spec_almanac(file@) {
            None => r == 0,
            Some(m) => r == crate::almanac::spec_lowest_location(m),
        },
{
    let almanac = match Almanac::from_string(file) {
        Ok(a) => a,
        Err(_) => {
            return 0;
        },
    };
    let locations = almanac.calculate_seed_locations();
    let result = lowest(&locations);
    proof {
        let m = crate::almanac::spec_almanac(file@)->Some_0;
        assert(crate::almanac::almanac_matches(almanac, m));
        assert(locations@.len() == m.seeds.len());
        assert forall|i: int| 0 <= i < locations@.len() implies #[trigger] locations@[i]
            == crate::almanac::spec_location_model(m, m.seeds[i]) by {
            crate::almanac::lemma_location_matches(almanac, m, almanac.seeds@[i]);
        }
        crate::almanac::lemma_min_location_bounds(m, m.seeds.len() as int);
        let k = choose|k: int|
            0 <= k < m.seeds.len() && crate::almanac::spec_min_location(
                m,
                m.seeds.len() as int,
            ) == crate::almanac::spec_location_model(m, #[trigger] m.seeds[k]);
        assert(result <= locations@[k]);
        let j = choose|j: int| 0 <= j < locations@.len() && locations@[j] == result;
        assert(crate::almanac::spec_min_location(m, m.seeds.len() as int) <= locations@[j]);
    }
    result
}

/// The least of the listed values, zero when there is none.
pub open spec fn spec_lowest_of(values: Seq<usize>) -> usize
    decreases values.len(),
{
    if values.len() == 0 {
        0
    } else if values.len() == 1 {
        values[0]
    } else {
        let prev = spec_lowest_of(values.drop_last());
        if values[values.len() - 1] < prev {
            values[values.len() - 1]
        } else {
            prev
        }
    }
}

/// The least listed value is one of them and below them all.
pub proof fn lemma_lowest_of_bounds(values: Seq<usize>)
    requires
        values.len() >= 1,
    ensures
        exists|i: int| 0 <= i < values.len() && spec_lowest_of(values) == #[trigger] values[i],
        forall|i: int| 0 <= i < values.len() ==> spec_lowest_of(values) <= #[trigger] values[i],
    decreases values.len(),
{
    if values.len() > 1 {
        lemma_lowest_of_bounds(values.drop_last());
        assert forall|i: int| 0 <= i < values.len() implies spec_lowest_of(values)
            <= #[trigger] values[i] by {
            if i < values.len() - 1 {
                assert(values.drop_last()[i] == values[i]);
            }
        }
        if spec_lowest_of(values) == values[values.len() - 1] {
            assert(spec_lowest_of(values) == values[values.len() - 1]);
        } else {
            let j = choose|j: int|
                0 <= j < values.drop_last().len() && spec_lowest_of(values.drop_last())
                    == #[trigger] values.drop_last()[j];
            assert(values[j] == values.drop_last()[j]);
            assert(spec_lowest_of(values) == values[j]);
        }
    } else {
        assert(spec_lowest_of(values) == values[0]);
    }
}

/// The smallest entry, or zero when there is none.
pub fn lowest(values: &Vec<usize>) -> (r: usize)
    ensures
        values@.len() > 0 ==> (exists|i: int| 0 <= i < values@.len() && values@[i] == r) && (
        forall|i: int| 0 <= i < values@.len() ==> r <= #[trigger] values@[i]),
        values@.len() == 0 ==> r == 0,
{
    if values.len() == 0 {
        return 0;
    }
    let mut best = values[0];
    let mut i: usize = 1;
    while i < values.len()
        invariant
            1 <= i <= values@.len(),
            exists|j: int| 0 <= j < i && values@[j] == best,
            forall|j: int| 0 <= j < i ==> best <= #[trigger] values@[j],
        decreases values@.len() - i,
    {
        if values[i] < best {
            best = values[i];
        }
        i = i + 1;
    }
    best
}

} // verus!
