//! The heuristic score that orders the search.

use vstd::prelude::*;
use crate::ids::BASE_SCORE;
use crate::puzzle::Puzzle;

verus! {

impl Puzzle {
    /// The score of this state; the higher, the sooner the search expands
    /// it. Fewer open cells and more complete flows raise it, more successor
    /// states lower it.
    pub fn h(&self) -> (res: u64)
        requires
            self@.well_formed(),
            self@.num_open_cells() <= BASE_SCORE,
            BASE_SCORE + 2 * self@.num_complete() <= u64::MAX,
            self@.num_possible_children() <= BASE_SCORE - self@.num_open_cells() + 2
                * self@.num_complete(),
        ensures
            res == self@.score(),
    {
        proof {
            self@.lemma_well_formed_flows_placed();
        }
        BASE_SCORE - self.num_open_cells() + self.num_complete() * 2 - self.num_possible_children()
    }
}

} // verus!
