//! Cell codes and player sides.
use vstd::prelude::*;

verus! {

/// An empty cell.
pub const C_EMPTY: u8 = 0;

/// A cell taken by X.
pub const C_X: u8 = 1;

/// A cell taken by O.
pub const C_O: u8 = 2;

/// A wall: no one can play there and no line crosses it.
pub const C_WALL: u8 = 3;

/// The side of X in the negamax convention.
pub const SIDE_X: i32 = 1;

/// The side of O in the negamax convention.
pub const SIDE_O: i32 = -1;

/// The code a side writes into the cells it takes.
pub open spec fn mark(side: i32) -> u8 {
    if side == SIDE_X {
        C_X
    } else {
        C_O
    }
}

} // verus!
