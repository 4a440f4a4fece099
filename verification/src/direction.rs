//! The four slide directions and their fixed enumeration order.

use vstd::prelude::*;

verus! {

/// A move in the game: the direction towards which all tiles slide.
#[derive(Copy, Clone, Debug, PartialEq, Eq, Hash, Structural)]
pub enum GameMove {
    Left,
    Right,
    Up,
    Down,
}

/// The fixed enumeration order of the directions: Left, Right, Up, Down.
pub open spec fn spec_move_index(m: GameMove) -> int {
    match m {
        GameMove::Left => 0,
        GameMove::Right => 1,
        GameMove::Up => 2,
        GameMove::Down => 3,
    }
}

/// The direction standing at a position of the fixed enumeration order.
pub open spec fn spec_move_of_index(d: int) -> GameMove {
    if d == 0 {
        GameMove::Left
    } else if d == 1 {
        GameMove::Right
    } else if d == 2 {
        GameMove::Up
    } else {
        GameMove::Down
    }
}

impl GameMove {
    /// Returns the index of the move in the fixed enumeration order.
    pub fn index(&self) -> (r: usize)
        ensures
            r == spec_move_index(*self),
            r < 4,
            spec_move_of_index(r as int) == *self,
    {
        match self {
            GameMove::Left => 0,
            GameMove::Right => 1,
            GameMove::Up => 2,
            GameMove::Down => 3,
        }
    }

    /// Returns the move standing at `index` in the fixed enumeration order.
    pub fn from_index(index: usize) -> (r: Self)
        requires
            index < 4,
        ensures
            r == spec_move_of_index(index as int),
            spec_move_index(r) == index,
    {
        if index == 0 {
            GameMove::Left
        } else if index == 1 {
            GameMove::Right
        } else if index == 2 {
            GameMove::Up
        } else {
            GameMove::Down
        }
    }
}

} // verus!
