//! The sort direction of an index column.

use crate::error::{SdbError, SdbResult};
use crate::text::{push_decimal, push_str};
use vstd::prelude::*;

verus! {

/// The sort direction of an index column.
#[derive(Clone, Copy, PartialEq, Eq, Debug, Structural)]
pub enum Direction {
    /// Ascending order.
    Asc,
    /// Descending order.
    Desc,
}

/// The byte a direction is stored as.
pub open spec fn direction_byte(d: Direction) -> u8 {
    match d {
        Direction::Asc => 0,
        Direction::Desc => 1,
    }
}

/// The direction a stored byte names, if any.
pub open spec fn direction_of_byte(b: u8) -> Option<Direction> {
    if b == 0 {
        Some(Direction::Asc)
    } else if b == 1 {
        Some(Direction::Desc)
    } else {
        None
    }
}

impl Direction {
    /// The byte this direction is stored as.
    pub fn to_byte(self) -> (b: u8)
        ensures
            b == direction_byte(self),
    {
        match self {
            Direction::Asc => 0,
            Direction::Desc => 1,
        }
    }

    /// The direction a stored byte names; any other byte is
    /// [`Corrupt`](SdbError::Corrupt).
    pub fn from_byte(byte: u8) -> (r: SdbResult<Direction>)
        ensures
            match direction_of_byte(byte) {
                Some(d) => r matches Ok(x) && x == d,
                None => r matches Err(e) && e is Corrupt,
            },
    {
        if byte == 0 {
            Ok(Direction::Asc)
        } else if byte == 1 {
            Ok(Direction::Desc)
        } else {
            let mut msg = String::new();
            push_str(&mut msg, "unknown index direction ");
            push_decimal(&mut msg, byte as u128);
            Err(SdbError::Corrupt(msg))
        }
    }
}

/// A direction read back from its byte is the same direction.
pub proof fn lemma_direction_roundtrip(d: Direction)
    ensures
        direction_of_byte(direction_byte(d)) == Some(d),
{
}

} // verus!
