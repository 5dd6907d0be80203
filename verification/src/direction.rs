use vstd::prelude::*;

verus! {

/// A direction along a sequence: towards its start or towards its end.
#[derive(Clone, Copy, PartialEq, Eq, Debug)]
pub enum Direction {
    Back,
    Next,
}

impl Direction {
    /// `Back` when `condition` holds, `Next` otherwise.
    pub fn back_if(condition: bool) -> (d: Self)
        ensures
            d == (if condition { Direction::Back } else { Direction::Next }),
    {
        if condition {
            Direction::Back
        } else {
            Direction::Next
        }
    }
}

/// A horizontal direction.
#[derive(Clone, Copy, PartialEq, Eq, Debug)]
pub enum HDirection {
    Left,
    Right,
}

impl HDirection {
    /// `Left` when `condition` holds, `Right` otherwise.
    pub fn left_if(condition: bool) -> (d: Self)
        ensures
            d == (if condition { HDirection::Left } else { HDirection::Right }),
    {
        if condition {
            HDirection::Left
        } else {
            HDirection::Right
        }
    }
}

/// A vertical direction.
#[derive(Clone, Copy, PartialEq, Eq, Debug)]
pub enum VDirection {
    Up,
    Down,
}

impl VDirection {
    /// `Up` when `condition` holds, `Down` otherwise.
    pub fn up_if(condition: bool) -> (d: Self)
        ensures
            d == (if condition { VDirection::Up } else { VDirection::Down }),
    {
        if condition {
            VDirection::Up
        } else {
            VDirection::Down
        }
    }
}

} // verus!
