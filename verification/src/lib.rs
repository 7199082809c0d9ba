//! A solver core for flow-connection puzzles: the board model, the move
//! generator, the feasibility analysis, the heuristic score and the
//! best-first search that ties them together, with the reading of board
//! files and the drawing of states.

pub mod descent;
pub mod frontier;
pub mod ids;
pub mod laws;
pub mod layout;
pub mod model;
pub mod parser;
pub mod picture;
pub mod pruning;
pub mod puzzle;
pub mod regions;
pub mod search;
pub mod successors;
pub mod text;

pub use ids::{CellId, FlowId};
pub use model::{CellView, FlowView, PuzzleView};
pub use parser::{parse_puzzle, ParseError};
pub use puzzle::{Cell, Flow, Puzzle};
pub use search::{greedy_best_first, recursive, Search, SearchOutcome, SearchStats};
