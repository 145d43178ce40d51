//! The transition rule: a pure function from a cell's current state and its
//! live-neighbor count to its state in the next generation.

use vstd::prelude::*;

verus! {

/// The B3/S23 rule: a dead cell with exactly three live neighbors becomes
/// alive; a live cell with two or three live neighbors stays alive; every
/// other cell is dead in the next generation.
pub open spec fn spec_rule(state: bool, count: int) -> bool {
    if state {
        2 <= count <= 3
    } else {
        count == 3
    }
}

/// Calculates the next state for a cell from its current state and its
/// live-neighbor count, and nothing else.
pub fn calculate_next_state(state: bool, number_of_neighbors: u8) -> (r: bool)
    ensures
        r == spec_rule(state, number_of_neighbors as int),
{
    match state {
        false => {
            if number_of_neighbors != 3 {
                false
            } else {
                true
            }
        },
        true => {
            if number_of_neighbors < 2 || number_of_neighbors > 3 {
                false
            } else {
                true
            }
        },
    }
}

} // verus!
