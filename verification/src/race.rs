//! The toy boat race: distance travelled for a given hold time, and whether
//! it beats the standing record.
use vstd::prelude::*;

verus! {

/// Speed gained per time unit the button is held.
pub const SPEED: usize = 1;

pub fn beats_record(distance: usize, record: usize) -> (r: bool)
    ensures
        r == (distance > record),
{
    distance > record
}

/// Holding for `time_held` out of `total_time` travels at speed
/// `SPEED * time_held` for the remaining time.
pub fn get_distance_travelled(time_held: usize, total_time: usize) -> (r: usize)
    requires
        time_held <= total_time,
        SPEED * time_held * (total_time - time_held) <= usize::MAX,
    ensures
        r == SPEED * time_held * (total_time - time_held),
{
    let time_remaining = total_time - time_held;
    let velocity = SPEED * time_held;
    velocity * time_remaining
}

} // verus!
