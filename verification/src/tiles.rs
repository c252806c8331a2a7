//! Pipe tiles: each map character names the set of directions a tile opens
//! to, kept as one flag bit per direction.
use vstd::prelude::*;

verus! {

/// A tile's openings, one bit per direction; the start tile carries its own
/// mark.
#[derive(Debug, PartialEq, Eq, Clone, Copy, Structural)]
pub struct TileState {
    pub bits: u8,
}

impl TileState {
    pub fn none() -> (r: TileState)
        ensures
            r.bits == 0,
    {
        TileState { bits: 0 }
    }

    pub fn up() -> (r: TileState)
        ensures
            r.bits == 1,
    {
        TileState { bits: 1 }
    }

    pub fn down() -> (r: TileState)
        ensures
            r.bits == 2,
    {
        TileState { bits: 2 }
    }

    pub fn left() -> (r: TileState)
        ensures
            r.bits == 4,
    {
        TileState { bits: 4 }
    }

    pub fn right() -> (r: TileState)
        ensures
            r.bits == 8,
    {
        TileState { bits: 8 }
    }

    pub fn start() -> (r: TileState)
        ensures
            r.bits == 16,
    {
        TileState { bits: 16 }
    }

    /// Both tiles' openings together.
    pub fn union(self, other: TileState) -> (r: TileState)
        ensures
            r.bits == self.bits | other.bits,
    {
        TileState { bits: self.bits | other.bits }
    }

    /// The openings a map character names: a dot opens nowhere, the start
    /// mark is its own, and the six pipe shapes open to their two ends.
    pub fn try_from(value: char) -> (r: Result<TileState, &'static str>)
        ensures
            r == match value {
                '.' => Ok::<TileState, &'static str>(TileState { bits: 0 }),
                'S' => Ok::<TileState, &'static str>(TileState { bits: 16 }),
                '|' => Ok::<TileState, &'static str>(TileState { bits: 3 }),
                '-' => Ok::<TileState, &'static str>(TileState { bits: 12 }),
                'L' => Ok::<TileState, &'static str>(TileState { bits: 9 }),
                'J' => Ok::<TileState, &'static str>(TileState { bits: 5 }),
                '7' => Ok::<TileState, &'static str>(TileState { bits: 6 }),
                'F' => Ok::<TileState, &'static str>(TileState { bits: 10 }),
                _ => Err::<TileState, &'static str>("Invalid character"),
            },
    {
        match value {
            '.' => Ok(TileState { bits: 0 }),
            'S' => Ok(TileState { bits: 16 }),
            '|' => Ok(TileState { bits: 3 }),
            '-' => Ok(TileState { bits: 12 }),
            'L' => Ok(TileState { bits: 9 }),
            'J' => Ok(TileState { bits: 5 }),
            '7' => Ok(TileState { bits: 6 }),
            'F' => Ok(TileState { bits: 10 }),
            _ => Err("Invalid character"),
        }
    }
}

} // verus!
