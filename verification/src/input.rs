//! From pressed keys to a move.

use crate::math::IVec2;
use vstd::prelude::*;

verus! {

/// One step along an axis for the two keys that pull along it.
pub open spec fn axis(forth: bool, back: bool) -> int {
    (if forth { 1int } else { 0int }) - (if back { 1int } else { 0int })
}

/// The direction that the four move keys ask for: one step up for `up`, one
/// down for `down`, and so on, keys that pull against each other cancelling
/// out. There is none where nothing is left.
pub open spec fn move_direction_spec(up: bool, down: bool, left: bool, right: bool) -> Option<IVec2> {
    if axis(right, left) == 0 && axis(up, down) == 0 {
        None
    } else {
        Some(IVec2 { x: axis(right, left) as i32, y: axis(up, down) as i32 })
    }
}

/// Turns the pressed move keys into the direction of a move, or into
/// nothing where no move is to be sent.
pub fn move_direction(up: bool, down: bool, left: bool, right: bool) -> (direction: Option<IVec2>)
    ensures
        direction == move_direction_spec(up, down, left, right),
{
    let mut x: i32 = 0;
    let mut y: i32 = 0;
    if up {
        y += 1;
    }
    if down {
        y -= 1;
    }
    if left {
        x -= 1;
    }
    if right {
        x += 1;
    }
    if x == 0 && y == 0 {
        None
    } else {
        Some(IVec2 { x, y })
    }
}

} // verus!
