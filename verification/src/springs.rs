//! Spring condition rows: each row lists spring states and the sizes of its
//! contiguous damaged groups.
use vstd::prelude::*;

use crate::text::{parse_u32, split_char, split_once_char};

verus! {

/// A malformed spring character or row.
#[derive(Debug, PartialEq, Eq, Clone, Copy, Structural)]
pub enum SpringError {
    BadSpring,
    BadRow,
}

/// One spring's state.
#[derive(Debug, PartialEq, Eq, Clone, Copy, Structural)]
pub enum Spring {
    Operational,
    Damaged,
    Unknown,
}

/// The state one character names.
pub open spec fn spec_spring(c: char) -> Result<Spring, SpringError> {
    match c {
        '?' => Ok(Spring::Unknown),
        '.' => Ok(Spring::Operational),
        '#' => Ok(Spring::Damaged),
        _ => Err(SpringError::BadSpring),
    }
}

impl Spring {
    /// The state one character names: `.` operational, `#` damaged, `?`
    /// unknown; anything else is an error.
    pub fn try_from(value: char) -> (r: Result<Spring, SpringError>)
        ensures
            r == spec_spring(value),
    {
        match value {
            '?' => Ok(Spring::Unknown),
            '.' => Ok(Spring::Operational),
            '#' => Ok(Spring::Damaged),
            _ => Err(SpringError::BadSpring),
        }
    }
}

/// One row: the springs in order and the claimed contiguous damaged-group
/// sizes.
#[derive(Debug, PartialEq, Eq)]
pub struct Row {
    pub springs: Vec<Spring>,
    pub contigious_groups: Vec<usize>,
}

impl Row {
    /// Parses `SPRINGS GROUPS`: the spring states before the space, the
    /// comma-separated group sizes after it. Errors on a missing space, an
    /// unknown state character, or an unreadable size.
    pub fn from_str(s: &str) -> (r: Result<Row, SpringError>)
        ensures
            r matches Ok(row) ==> (exists|k: int|
                0 <= k < s@.len() && s@[k] == ' ' && row.springs@.len() == k) && (forall|i: int|
                0 <= i < row.springs@.len() ==> Ok::<Spring, SpringError>(#[trigger] row.springs@[i])
                    == spec_spring(s@[i])),
    {
        let (head, tail) = match split_once_char(s, ' ') {
            Some(pair) => pair,
            None => {
                return Err(SpringError::BadRow);
            },
        };
        let head_str = head.as_str();
        let m = head_str.unicode_len();
        let mut springs: Vec<Spring> = Vec::new();
        let mut i: usize = 0;
        while i < m
            invariant
                i <= m == head_str@.len(),
                springs@.len() == i,
                forall|j: int|
                    0 <= j < i ==> Ok::<Spring, SpringError>(#[trigger] springs@[j]) == spec_spring(
                        head_str@[j],
                    ),
            decreases m - i,
        {
            match Spring::try_from(head_str.get_char(i)) {
                Ok(sp) => springs.push(sp),
                Err(e) => {
                    return Err(e);
                },
            }
            i = i + 1;
        }
        let pieces = split_char(tail.as_str(), ',');
        let mut groups: Vec<usize> = Vec::new();
        let mut j: usize = 0;
        while j < pieces.len()
            decreases pieces@.len() - j,
        {
            match parse_u32(pieces[j].as_str()) {
                Some(v) => groups.push(v as usize),
                None => {
                    return Err(SpringError::BadRow);
                },
            }
            j = j + 1;
        }
        Ok(Row { springs, contigious_groups: groups })
    }
}

} // verus!
