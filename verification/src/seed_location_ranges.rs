//! The lowest seed location of an almanac, seeds read as ranges.
use vstd::prelude::*;

use crate::almanac::Almanac;
use crate::seed_location::lowest;

verus! {

/// Parses the almanac and answers the smallest location any seed of any
/// `start, length` range reaches; zero when the text does not spell an
/// almanac, the seed list pairs unevenly, or every range is empty.
pub fn calculate(file: &str) -> (r: usize)
    ensures
        match crate::almanac::spec_almanac(file@) {
            None => r == 0,
            Some(m) => if m.seeds.len() % 2 != 0 {
                r == 0
            } else {
                r == crate::seed_location::spec_lowest_of(
                    crate::almanac::spec_model_range_locations(m, 0),
                )
            },
        },
{
    let almanac = match Almanac::from_string(file) {
        Ok(a) => a,
        Err(_) => {
            return 0;
        },
    };
    if almanac.seeds.len() % 2 != 0 {
        return 0;
    }
    let locations = almanac.calculate_seed_locations_with_seed_ranges();
    let result = lowest(&locations);
    proof {
        let m = crate::almanac::spec_almanac(file@)->Some_0;
        crate::almanac::lemma_range_locations_match(almanac, m, 0);
        if locations@.len() == 0 {
        } else {
            crate::seed_location::lemma_lowest_of_bounds(locations@);
            let k = choose|k: int|
                0 <= k < locations@.len() && crate::seed_location::spec_lowest_of(locations@)
                    == #[trigger] locations@[k];
            let j = choose|j: int| 0 <= j < locations@.len() && locations@[j] == result;
        }
    }
    result
}

} // verus!
