//! Dense zero-based identifiers of cells and flows.

use vstd::prelude::*;

verus! {

/// The index of a cell in its puzzle's cell arena.
#[derive(Debug, Default, Clone, Copy, PartialEq, Eq, Structural)]
pub struct CellId {
    pub index: usize,
}

/// The index of a flow in its puzzle's flow arena.
#[derive(Debug, Clone, Copy, PartialEq, Eq, Structural)]
pub struct FlowId {
    pub index: usize,
}

/// The index that `Puzzle::get_endpoint_to_extend` answers with when no
/// endpoint can be extended. A well-formed board has no cell with this
/// index.
pub const NON_EXISTENT_CELL_ID: usize = 999;

/// The largest number of neighbors a cell of a well-formed board has.
pub const MAX_NEIGHBORS: usize = 6;

/// The constant that the heuristic score starts from: large enough to keep
/// the score of a board of ordinary size above zero.
pub const BASE_SCORE: u64 = 1000;

/// The number of visited states after which the search reports how it
/// fares, and begins to count afresh what it counts from report to report.
pub const REPORT_EVERY: u64 = 10000;

/// The verdict of the feasibility analysis on a state that passed every
/// check.
pub const SOLVABLE: i16 = 1;

/// The verdict on a state from which no move can be made.
pub const UNSOLVABLE_NO_CHILDREN: i16 = -1;

/// The verdict on a state with an open cell that no flow can pass through
/// or end in.
pub const UNSOLVABLE_DEAD_ENDS: i16 = -2;

/// The verdict on a state in which a flow doubles back on itself.
pub const UNSOLVABLE_POOLS: i16 = -3;

/// The verdict on a state with an incomplete flow whose termini share no
/// region.
pub const UNSOLVABLE_PATH_BLOCKED: i16 = -4;

/// The verdict on a state with a region that no incomplete flow can reach
/// from both termini.
pub const UNSOLVABLE_REGION: i16 = -5;

} // verus!
