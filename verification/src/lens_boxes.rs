//! The lens boxes: commands either set a labelled lens's focal length in the
//! box its label hashes to, or remove the lens; a box keeps its lenses in
//! first-insertion order, backed by `indexmap::IndexMap`.
use vstd::prelude::*;

use crate::lens;
use crate::text::{parse_u32, split_char, split_once_char};

verus! {

/// A command that fits no known shape.
#[derive(Debug, PartialEq, Eq, Clone, Copy, Structural)]
pub enum LensError {
    BadCommand,
}

#[derive(Debug, PartialEq, Eq)]
pub enum CommandType {
    Insert(usize),
    Remove,
}

/// One parsed command: the lens label, the box its label hashes to, and what
/// to do there.
#[derive(Debug, PartialEq, Eq)]
pub struct Command {
    pub label: String,
    pub box_id: usize,
    pub command_type: CommandType,
}

/// One box of lenses in first-insertion order.
#[verifier::external_body]
pub struct LensBox {
    lenses: indexmap::IndexMap<String, usize>,
}

/// What a box holds: each lens's label and focal length, in order.
pub uninterp spec fn lens_entries(b: LensBox) -> Seq<(Seq<char>, usize)>;

impl LensBox {
    /// Relies on `IndexMap::new`: the new map holds nothing.
    #[verifier::external_body]
    pub fn new() -> (r: LensBox)
        ensures
            lens_entries(r) == Seq::<(Seq<char>, usize)>::empty(),
    {
        LensBox { lenses: indexmap::IndexMap::new() }
    }

    /// Relies on `IndexMap::insert`: an existing key keeps its place in the
    /// order and takes the new value; a new key goes in last.
    #[verifier::external_body]
    pub fn insert(&mut self, label: &str, value: usize)
        ensures
            ({
                ||| exists|i: int|
                    {
                        &&& 0 <= i < lens_entries(*old(self)).len()
                        &&& (#[trigger] lens_entries(*old(self))[i]).0 == label@
                        &&& lens_entries(*final(self)) == lens_entries(*old(self)).update(
                            i,
                            (label@, value),
                        )
                    }
                ||| {
                    &&& forall|i: int|
                        0 <= i < lens_entries(*old(self)).len() ==> (#[trigger] lens_entries(
                            *old(self),
                        )[i]).0 != label@
                    &&& lens_entries(*final(self)) == lens_entries(*old(self)).push((label@, value))
                }
            }),
    {
        self.lenses.insert(label.to_owned(), value);
    }

    /// Relies on `IndexMap::shift_remove`: the keyed pair leaves and the
    /// pairs after it shift down, keeping their relative order; a missing key
    /// changes nothing.
    #[verifier::external_body]
    pub fn shift_remove(&mut self, label: &str)
        ensures
            ({
                ||| exists|i: int|
                    {
                        &&& 0 <= i < lens_entries(*old(self)).len()
                        &&& (#[trigger] lens_entries(*old(self))[i]).0 == label@
                        &&& lens_entries(*final(self)) == lens_entries(*old(self)).remove(i)
                    }
                ||| {
                    &&& forall|i: int|
                        0 <= i < lens_entries(*old(self)).len() ==> (#[trigger] lens_entries(
                            *old(self),
                        )[i]).0 != label@
                    &&& lens_entries(*final(self)) == lens_entries(*old(self))
                }
            }),
    {
        self.lenses.shift_remove(label);
    }

    /// Relies on `IndexMap::iter`: the pairs come out in order, each mapped
    /// to plain values.
    #[verifier::external_body]
    pub fn entries_list(&self) -> (r: Vec<(String, usize)>)
        ensures
            r@.map_values(|p: (String, usize)| (p.0@, p.1)) == lens_entries(*self),
    {
        self.lenses.iter().map(|(k, v)| (k.clone(), *v)).collect()
    }
}

/// All 256 boxes, indexed by the hash of a lens label.
pub struct Boxes {
    pub boxes: Vec<LensBox>,
}

impl Boxes {
    /// One empty box per possible hash value.
    pub open spec fn wf(self) -> bool {
        self.boxes@.len() == 256
    }

    pub fn new() -> (r: Boxes)
        ensures
            r.wf(),
            forall|b: int| 0 <= b < 256 ==> lens_entries(#[trigger] r.boxes@[b]).len() == 0,
    {
        let mut boxes: Vec<LensBox> = Vec::new();
        let mut i: usize = 0;
        while i < 256
            invariant
                i <= 256,
                boxes@.len() == i,
                forall|b: int| 0 <= b < i ==> lens_entries(#[trigger] boxes@[b]).len() == 0,
            decreases 256 - i,
        {
            boxes.push(LensBox::new());
            i = i + 1;
        }
        Boxes { boxes }
    }

    /// Applies one command to the box its label hashes to; every other box
    /// stays as it was.
    pub fn resolve_command(&mut self, command: Command)
        requires
            old(self).wf(),
            command.box_id < 256,
        ensures
            final(self).wf(),
            forall|b: int|
                0 <= b < 256 && b != command.box_id ==> #[trigger] final(self).boxes@[b] == old(
                    self,
                ).boxes@[b],
            ({
                let before = lens_entries(old(self).boxes@[command.box_id as int]);
                let after = lens_entries(final(self).boxes@[command.box_id as int]);
                match command.command_type {
                    CommandType::Insert(focal_length) => {
                        ||| exists|i: int|
                            0 <= i < before.len() && (#[trigger] before[i]).0 == command.label@
                                && after == before.update(i, (command.label@, focal_length))
                        ||| ((forall|i: int|
                            0 <= i < before.len() ==> (#[trigger] before[i]).0 != command.label@)
                            && after == before.push((command.label@, focal_length)))
                    },
                    CommandType::Remove => {
                        ||| exists|i: int|
                            0 <= i < before.len() && (#[trigger] before[i]).0 == command.label@
                                && after == before.remove(i)
                        ||| ((forall|i: int|
                            0 <= i < before.len() ==> (#[trigger] before[i]).0 != command.label@)
                            && after == before)
                    },
                }
            }),
    {
        let ghost before = self.boxes@;
        let mut the_box = self.boxes.remove(command.box_id);
        match command.command_type {
            CommandType::Insert(focal_length) => {
                the_box.insert(command.label.as_str(), focal_length);
            },
            CommandType::Remove => {
                the_box.shift_remove(command.label.as_str());
            },
        }
        self.boxes.insert(command.box_id, the_box);
        proof {
            assert forall|b: int| 0 <= b < 256 && b != command.box_id implies #[trigger] self
                .boxes@[b] == before[b] by {
                if b < command.box_id {
                } else {
                    assert(self.boxes@[b] == before.remove(command.box_id as int)[b - 1]);
                }
            }
        }
    }
}

/// The hash of a lens label; same rule as the plain holiday hash.
pub fn hash_sequence(input: &str) -> (r: usize)
    ensures
        r == lens::spec_hash(input@),
        r < 256,
{
    lens::hash_sequence(input)
}

/// Parses one command: the label before the `=` or `-`, the box from the
/// label's hash, and an `Insert` with the focal length after `=` or a
/// `Remove` for a trailing `-`.
pub fn parse_command(input: &str) -> (r: Result<Command, LensError>)
    ensures
        r matches Ok(c) ==> c.box_id < 256,
{
    let (label, rest) = match split_once_char(input, '=') {
        Some(pair) => pair,
        None => {
            match split_once_char(input, '-') {
                Some(pair) => pair,
                None => {
                    return Err(LensError::BadCommand);
                },
            }
        },
    };
    let box_id = hash_sequence(label.as_str());
    let command_type = if rest.as_str().unicode_len() > 0 {
        match parse_u32(rest.as_str()) {
            Some(v) => CommandType::Insert(v as usize),
            None => {
                return Err(LensError::BadCommand);
            },
        }
    } else {
        let n = input.unicode_len();
        if n > 0 && input.get_char(n - 1) == '-' {
            CommandType::Remove
        } else {
            return Err(LensError::BadCommand);
        }
    };
    Ok(Command { label, box_id, command_type })
}

/// Parses the comma-separated command list; the first bad command is the
/// error.
pub fn parse(input: &str) -> (r: Result<Vec<Command>, LensError>)
    ensures
        r matches Ok(cs) ==> forall|i: int| 0 <= i < cs@.len() ==> (#[trigger] cs@[i]).box_id < 256,
{
    let pieces = split_char(input, ',');
    let mut out: Vec<Command> = Vec::new();
    let mut i: usize = 0;
    while i < pieces.len()
        invariant
            forall|j: int| 0 <= j < out@.len() ==> (#[trigger] out@[j]).box_id < 256,
        decreases pieces@.len() - i,
    {
        match parse_command(pieces[i].as_str()) {
            Ok(c) => out.push(c),
            Err(e) => {
                return Err(e);
            },
        }
        i = i + 1;
    }
    Ok(out)
}

/// Runs every command, then sums, over every lens left in every box, the
/// box's one-based number times the lens's one-based slot times its focal
/// length; a sum that would not fit stops growing.
pub fn solve_part(input: &str) -> (r: Result<usize, LensError>) {
    let commands = match parse(input) {
        Ok(cs) => cs,
        Err(e) => {
            return Err(e);
        },
    };
    let mut boxes = Boxes::new();
    let mut commands = commands;
    while commands.len() > 0
        invariant
            boxes.wf(),
            forall|j: int|
                0 <= j < commands@.len() ==> (#[trigger] commands@[j]).box_id < 256,
        decreases commands@.len(),
    {
        let command = commands.remove(0);
        boxes.resolve_command(command);
    }
    let mut total: usize = 0;
    let mut b: usize = 0;
    while b < 256
        invariant
            boxes.wf(),
        decreases 256 - b,
    {
        let lenses = boxes.boxes[b].entries_list();
        let mut s: usize = 0;
        while s < lenses.len()
            invariant
                b < 256,
            decreases lenses@.len() - s,
        {
            let focal = lenses[s].1;
            let due = (b + 1).checked_mul(s + 1);
            let due = match due {
                Some(d) => d.checked_mul(focal),
                None => None,
            };
            total = match due {
                Some(d) => match total.checked_add(d) {
                    Some(t) => t,
                    None => total,
                },
                None => total,
            };
            s = s + 1;
        }
        b = b + 1;
    }
    Ok(total)
}

} // verus!
