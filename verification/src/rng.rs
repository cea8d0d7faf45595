//! Sources of random numbers.

use vstd::prelude::*;

verus! {

/// A source of random integers. A generator is a state machine: the draw
/// below a bound, and the state it leaves behind, are functions of its state.
pub trait Rng: Sized {
    /// The integer the next draw below `max` gives.
    spec fn draw(&self, max: i64) -> i64;

    /// The generator after a draw below `max`.
    spec fn after_draw(&self, max: i64) -> Self;

    /// Returns a random integer between 0 (inclusive) and `max` (exclusive).
    fn next_int(&mut self, max: i64) -> (r: i64)
        requires
            max > 0,
        ensures
            0 <= r < max,
            r == old(self).draw(max),
            *final(self) == old(self).after_draw(max),
    ;
}

} // verus!
