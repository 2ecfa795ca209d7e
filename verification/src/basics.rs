//! Functions, expressions and matching on enums.

use vstd::prelude::*;

verus! {

pub fn double(value: i32) -> (result: i32)
    requires
        i32::MIN <= 2 * value <= i32::MAX,
    ensures
        result == 2 * value,
{
    value * 2
}

/// The word for a temperature in degrees Celsius.
pub open spec fn temperature_word(celsius: i32) -> Seq<char> {
    if celsius <= 0 {
        "freezing"@
    } else if celsius <= 15 {
        "cold"@
    } else if celsius <= 25 {
        "pleasant"@
    } else {
        "hot"@
    }
}

pub fn temperature_label(celsius: i32) -> (label: &'static str)
    ensures
        label@ == temperature_word(celsius),
{
    if celsius <= 0 {
        "freezing"
    } else if celsius <= 15 {
        "cold"
    } else if celsius <= 25 {
        "pleasant"
    } else {
        "hot"
    }
}

#[derive(Debug, Clone, Copy, PartialEq, Eq, Structural)]
pub enum Direction {
    North,
    East,
    South,
    West,
}

impl Direction {
    /// What moving in this direction does to the coordinates.
    pub open spec fn instruction_text(self) -> Seq<char> {
        match self {
            Direction::North => "increase y"@,
            Direction::East => "increase x"@,
            Direction::South => "decrease y"@,
            Direction::West => "decrease x"@,
        }
    }

    pub fn instruction(self) -> (text: &'static str)
        ensures
            text@ == self.instruction_text(),
    {
        match self {
            Direction::North => "increase y",
            Direction::East => "increase x",
            Direction::South => "decrease y",
            Direction::West => "decrease x",
        }
    }
}

} // verus!
