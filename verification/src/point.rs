//! Grid coordinates and a small cardinal-direction enum used by the
//! coarse-grained helpers in this crate.

use vstd::prelude::*;

verus! {

/// A grid location, `x` growing rightwards and `y` growing downwards.
#[derive(Clone, Copy, Debug, PartialEq, Eq, Structural)]
pub struct Loc {
    pub x: usize,
    pub y: usize,
}

/// One of the four cardinal directions.
#[derive(Clone, Copy, Debug, PartialEq, Eq, Structural)]
pub enum CardinalDir {
    UP,
    DOWN,
    RIGHT,
    LEFT,
}

impl CardinalDir {
    /// Dense index of the direction, usable as an array offset.
    pub fn idx(&self) -> (r: usize)
        ensures
            r == match self {
                CardinalDir::UP => 0int,
                CardinalDir::DOWN => 1int,
                CardinalDir::LEFT => 2int,
                CardinalDir::RIGHT => 3int,
            },
    {
        match self {
            CardinalDir::UP => 0,
            CardinalDir::DOWN => 1,
            CardinalDir::LEFT => 2,
            CardinalDir::RIGHT => 3,
        }
    }

    /// The four directions in a fixed order.
    pub fn iter(&self) -> (r: [CardinalDir; 4])
        ensures
            r[0] == CardinalDir::UP,
            r[1] == CardinalDir::RIGHT,
            r[2] == CardinalDir::DOWN,
            r[3] == CardinalDir::LEFT,
    {
        [CardinalDir::UP, CardinalDir::RIGHT, CardinalDir::DOWN, CardinalDir::LEFT]
    }

    /// The opposite direction; an involution.
    pub fn opposite(&self) -> (r: CardinalDir)
        ensures
            r == match self {
                CardinalDir::UP => CardinalDir::DOWN,
                CardinalDir::DOWN => CardinalDir::UP,
                CardinalDir::LEFT => CardinalDir::RIGHT,
                CardinalDir::RIGHT => CardinalDir::LEFT,
            },
    {
        match self {
            CardinalDir::UP => CardinalDir::DOWN,
            CardinalDir::DOWN => CardinalDir::UP,
            CardinalDir::LEFT => CardinalDir::RIGHT,
            CardinalDir::RIGHT => CardinalDir::LEFT,
        }
    }
}

} // verus!
