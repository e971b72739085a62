//! The ESCALADE problem's menu choices.
use vstd::prelude::*;

verus! {

/// A magnetisation direction.
#[derive(Debug, Clone, Copy, PartialEq, Eq, Structural)]
pub enum Direction {
    /// +x.
    PlusX,
    /// -x.
    MinusX,
    /// +y.
    PlusY,
    /// -y.
    MinusY,
    /// +z.
    PlusZ,
    /// -z.
    MinusZ,
}

/// The menu label of a direction.
pub open spec fn direction_name(d: Direction) -> Seq<char> {
    match d {
        Direction::PlusX => "+x"@,
        Direction::MinusX => "-x"@,
        Direction::PlusY => "+y"@,
        Direction::MinusY => "-y"@,
        Direction::PlusZ => "+z"@,
        Direction::MinusZ => "-z"@,
    }
}

impl Direction {
    /// Every direction, in menu order.
    pub const ALL: [Direction; 6] = [
        Direction::PlusX,
        Direction::MinusX,
        Direction::PlusY,
        Direction::MinusY,
        Direction::PlusZ,
        Direction::MinusZ,
    ];

    /// Label for a menu.
    pub fn name(self) -> (s: &'static str)
        ensures
            s@ == direction_name(self),
    {
        match self {
            Direction::PlusX => "+x",
            Direction::MinusX => "-x",
            Direction::PlusY => "+y",
            Direction::MinusY => "-y",
            Direction::PlusZ => "+z",
            Direction::MinusZ => "-z",
        }
    }
}

} // verus!
