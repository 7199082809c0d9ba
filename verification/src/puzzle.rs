//! The board model: cells, flows and the puzzle state that owns them, with
//! the queries on occupancy, adjacency and completeness.

pub mod feasibility;
pub mod heuristic;
pub mod moves;
pub mod render;
pub mod validity;

use vstd::prelude::*;
use crate::ids::{CellId, FlowId};
use crate::model::{CellView, FlowView, PuzzleView};

verus! {

/// One label's connection requirement: two termini that move as the flow is
/// extended.
#[derive(Debug)]
pub struct Flow {
    pub id: usize,
    endpoints: [Option<CellId>; 2],
    letter: char,
}

impl View for Flow {
    type V = FlowView;

    closed spec fn view(&self) -> FlowView {
        FlowView { id: self.id, endpoints: self.endpoints@, letter: self.letter }
    }
}

impl Clone for Flow {
    /// A copy with the same index, termini and label.
    fn clone(&self) -> (res: Self)
        ensures
            res@ == self@,
    {
        Flow { id: self.id, endpoints: self.endpoints, letter: self.letter }
    }
}

impl Flow {
    /// A flow has exactly two terminus slots.
    pub proof fn lemma_two_endpoints(&self)
        ensures
            self@.endpoints.len() == 2,
    {
    }

    /// Moves terminus `endpoint` (0 or 1) to `cell_id`.
    pub fn update_endpoint(&mut self, endpoint: usize, cell_id: CellId)
        requires
            endpoint < 2,
        ensures
            final(self)@ == (FlowView {
                endpoints: old(self)@.endpoints.update(endpoint as int, Some(cell_id)),
                ..old(self)@
            }),
    {
        self.endpoints[endpoint] = Some(cell_id);
    }

    /// Both termini, in order.
    pub fn get_endpoints(&self) -> (res: [CellId; 2])
        requires
            self@.endpoints[0] is Some,
            self@.endpoints[1] is Some,
        ensures
            res@ == seq![self@.endpoints[0]->0, self@.endpoints[1]->0],
    {
        let res = [self.endpoints[0].unwrap(), self.endpoints[1].unwrap()];
        assert(res@ =~= seq![self@.endpoints[0]->0, self@.endpoints[1]->0]);
        res
    }

    /// Terminus `i` (0 or 1).
    pub fn get_endpoint(&self, i: usize) -> (res: CellId)
        requires
            i < 2,
            self@.endpoints[0] is Some,
            self@.endpoints[1] is Some,
        ensures
            res == self@.endpoints[i as int]->0,
    {
        self.get_endpoints()[i]
    }

    /// Whether the two termini are adjacent on the board of `puzzle`.
    pub fn is_complete(&self, puzzle: &Puzzle) -> (res: bool)
        requires
            self@.endpoints[0] is Some,
            self@.endpoints[1] is Some,
            puzzle@.has_cell(self@.endpoints[0]->0.index as int),
        ensures
            res == puzzle@.adjacent(
                self@.endpoints[0]->0.index as int,
                self@.endpoints[1]->0.index as int,
            ),
    {
        let second = self.get_endpoint(1);
        puzzle.get_cell(self.get_endpoint(0)).unwrap().is_neighbor(&second)
    }

    /// The flow's label.
    pub fn get_letter(&self) -> (res: char)
        ensures
            res == self@.letter,
    {
        self.letter
    }
}

/// One grid position.
#[derive(Debug)]
pub struct Cell {
    pub is_endpoint: bool,
    pub flow_id: Option<FlowId>,
    pub neighbors: Vec<CellId>,
    pub is_hex: bool,
}

impl View for Cell {
    type V = CellView;

    open spec fn view(&self) -> CellView {
        CellView {
            is_endpoint: self.is_endpoint,
            flow_id: self.flow_id,
            neighbors: self.neighbors@,
            is_hex: self.is_hex,
        }
    }
}

impl Clone for Cell {
    /// A copy with a neighbor list of its own.
    fn clone(&self) -> (res: Self)
        ensures
            res@ == self@,
    {
        let mut neighbors: Vec<CellId> = Vec::new();
        let mut k: usize = 0;
        while k < self.neighbors.len()
            invariant
                k <= self.neighbors.len(),
                neighbors@ == self.neighbors@.take(k as int),
            decreases self.neighbors.len() - k,
        {
            neighbors.push(self.neighbors[k]);
            k += 1;
        }
        assert(self.neighbors@.take(k as int) =~= self.neighbors@);
        Cell { is_endpoint: self.is_endpoint, flow_id: self.flow_id, neighbors, is_hex: self.is_hex }
    }
}

impl Cell {
    /// Appends `cell` to the neighbor list.
    pub fn add_neighbor(&mut self, cell: CellId)
        ensures
            final(self)@ == (CellView { neighbors: old(self)@.neighbors.push(cell), ..old(self)@ }),
    {
        self.neighbors.push(cell);
    }

    /// Whether `other` occurs in the neighbor list.
    pub fn is_neighbor(&self, other: &CellId) -> (res: bool)
        ensures
            res == self@.lists(other.index as int),
    {
        let mut k: usize = 0;
        while k < self.neighbors.len()
            invariant
                k <= self.neighbors.len(),
                forall|j: int| 0 <= j < k ==> (#[trigger] self.neighbors@[j]).index != other.index,
            decreases self.neighbors.len() - k,
        {
            if self.neighbors[k].index == other.index {
                assert(self@.neighbors[k as int].index == other.index);
                return true;
            }
            k += 1;
        }
        false
    }

    /// Whether a flow occupies the cell.
    pub fn is_occupied(&self) -> (res: bool)
        ensures
            res == (self@.flow_id is Some),
    {
        self.flow_id.is_some()
    }

    /// The number of entries of the neighbor list that are open cells of
    /// `puzzle`.
    pub fn num_open_neighbors(&self, puzzle: &Puzzle) -> (res: usize)
        requires
            forall|k: int|
                0 <= k < self@.neighbors.len() ==> puzzle@.has_cell(
                    (#[trigger] self@.neighbors[k]).index as int,
                ),
        ensures
            res == puzzle@.open_among(self@.neighbors, self@.neighbors.len() as int),
    {
        let mut count: usize = 0;
        let mut k: usize = 0;
        while k < self.neighbors.len()
            invariant
                k <= self.neighbors.len(),
                count <= k,
                count == puzzle@.open_among(self@.neighbors, k as int),
                forall|j: int|
                    0 <= j < self@.neighbors.len() ==> puzzle@.has_cell(
                        (#[trigger] self@.neighbors[j]).index as int,
                    ),
            decreases self.neighbors.len() - k,
        {
            assert(puzzle@.has_cell(self@.neighbors[k as int].index as int));
            if !puzzle.get_cell(self.neighbors[k]).unwrap().is_occupied() {
                count += 1;
            }
            k += 1;
        }
        count
    }

    /// The length of the neighbor list.
    pub fn num_neighbors(&self) -> (res: usize)
        ensures
            res == self@.neighbors.len(),
    {
        self.neighbors.len()
    }
}

/// One state of the search: the cells and flows of a board, owned by value.
#[derive(Debug)]
pub struct Puzzle {
    cells: Vec<Cell>,
    pub flows: Vec<Flow>,
    pub is_hex: bool,
    pub print_string: String,
}

impl View for Puzzle {
    type V = PuzzleView;

    closed spec fn view(&self) -> PuzzleView {
        PuzzleView {
            cells: Seq::new(self.cells@.len(), |i: int| self.cells@[i]@),
            flows: Seq::new(self.flows@.len(), |i: int| self.flows@[i]@),
            is_hex: self.is_hex,
            print_string: self.print_string@,
        }
    }
}

impl Clone for Puzzle {
    /// A deep copy: the two states share no cell and no flow.
    fn clone(&self) -> (res: Self)
        ensures
            res@ == self@,
    {
        let mut cells: Vec<Cell> = Vec::new();
        let mut i: usize = 0;
        while i < self.cells.len()
            invariant
                i <= self.cells.len(),
                cells@.len() == i,
                forall|j: int| 0 <= j < i ==> (#[trigger] cells@[j])@ == self.cells@[j]@,
            decreases self.cells.len() - i,
        {
            cells.push(self.cells[i].clone());
            i += 1;
        }
        let mut flows: Vec<Flow> = Vec::new();
        let mut f: usize = 0;
        while f < self.flows.len()
            invariant
                f <= self.flows.len(),
                flows@.len() == f,
                forall|j: int| 0 <= j < f ==> (#[trigger] flows@[j])@ == self.flows@[j]@,
            decreases self.flows.len() - f,
        {
            flows.push(self.flows[f].clone());
            f += 1;
        }
        let res = Puzzle { cells, flows, is_hex: self.is_hex, print_string: self.print_string.clone() };
        assert(res@.cells =~= self@.cells);
        assert(res@.flows =~= self@.flows);
        res
    }
}

impl Puzzle {
    /// An empty board.
    pub fn new(is_hex: bool, print_string: String) -> (res: Puzzle)
        ensures
            res@ == (PuzzleView {
                cells: Seq::empty(),
                flows: Seq::empty(),
                is_hex,
                print_string: print_string@,
            }),
    {
        let res = Puzzle { cells: Vec::new(), flows: Vec::new(), is_hex, print_string };
        assert(res@.cells =~= Seq::empty());
        assert(res@.flows =~= Seq::empty());
        res
    }

    /// Appends a cell without neighbors and answers with its index.
    pub fn new_cell(&mut self, is_endpoint: bool, flow_id: Option<FlowId>, is_hex: bool) -> (res: CellId)
        ensures
            res.index == old(self)@.cells.len(),
            final(self)@ == (PuzzleView {
                cells: old(self)@.cells.push(
                    CellView { is_endpoint, flow_id, neighbors: Seq::empty(), is_hex },
                ),
                ..old(self)@
            }),
    {
        let next_index = self.num_cells();
        self.cells.push(Cell { is_endpoint, flow_id, neighbors: Vec::new(), is_hex });
        assert(self@.cells =~= old(self)@.cells.push(
            CellView { is_endpoint, flow_id, neighbors: Seq::empty(), is_hex },
        ));
        assert(self@.flows =~= old(self)@.flows);
        CellId { index: next_index }
    }

    /// The arenas are vectors, so every index fits a `usize`.
    pub proof fn lemma_sizes_fit(&self)
        ensures
            self@.cells.len() <= usize::MAX,
            self@.flows.len() <= usize::MAX,
    {
        assert(self.cells.len() == self.cells@.len());
        assert(self.flows.len() == self.flows@.len());
    }

    /// The number of cells.
    pub fn num_cells(&self) -> (res: usize)
        ensures
            res == self@.cells.len(),
    {
        self.cells.len()
    }

    /// The cell with index `id`. To ask for a cell that the board lacks is
    /// an error of the caller.
    pub fn get_cell(&self, id: CellId) -> (res: Option<&Cell>)
        requires
            self@.has_cell(id.index as int),
        ensures
            res matches Some(cell) && cell@ == self@.cells[id.index as int],
    {
        Some(&self.cells[id.index])
    }

    /// The cell with index `id`, to be changed in place. To ask for a cell
    /// that the board lacks is an error of the caller.
    pub fn get_cell_mut(&mut self, id: CellId) -> (res: Option<&mut Cell>)
        requires
            old(self)@.has_cell(id.index as int),
        ensures
            res is Some,
            (*res.unwrap())@ == old(self)@.cells[id.index as int],
            final(self)@ =~= (PuzzleView {
                cells: old(self)@.cells.update(id.index as int, (*final(res.unwrap()))@),
                ..old(self)@
            }),
    {
        let cell = &mut self.cells[id.index];
        Some(cell)
    }

    /// Appends a flow without termini and answers with its index.
    pub fn new_flow(&mut self, letter: char) -> (res: FlowId)
        ensures
            res.index == old(self)@.flows.len(),
            final(self)@ == (PuzzleView {
                flows: old(self)@.flows.push(
                    FlowView { id: res.index, endpoints: seq![None, None], letter },
                ),
                ..old(self)@
            }),
    {
        let next_index = self.flows.len();
        let flow = Flow { id: next_index, endpoints: [None, None], letter };
        assert(flow@.endpoints =~= seq![None, None]);
        self.flows.push(flow);
        assert(self@.flows =~= old(self)@.flows.push(
            FlowView { id: next_index, endpoints: seq![None, None], letter },
        ));
        assert(self@.cells =~= old(self)@.cells);
        FlowId { index: next_index }
    }

    /// The number of flows.
    pub fn num_flows(&self) -> (res: u64)
        ensures
            res == self@.flows.len(),
    {
        self.flows.len() as u64
    }

    /// The flow with index `id`. To ask for a flow that the puzzle lacks is
    /// an error of the caller.
    pub fn get_flow(&self, id: FlowId) -> (res: Option<&Flow>)
        requires
            self@.has_flow(id.index as int),
        ensures
            res matches Some(flow) && flow@ == self@.flows[id.index as int],
    {
        Some(&self.flows[id.index])
    }

    /// The flow with index `id`, to be changed in place. To ask for a flow
    /// that the puzzle lacks is an error of the caller.
    pub fn get_flow_mut(&mut self, id: FlowId) -> (res: Option<&mut Flow>)
        requires
            old(self)@.has_flow(id.index as int),
        ensures
            res is Some,
            (*res.unwrap())@ == old(self)@.flows[id.index as int],
            final(self)@ =~= (PuzzleView {
                flows: old(self)@.flows.update(id.index as int, (*final(res.unwrap()))@),
                ..old(self)@
            }),
    {
        let flow = &mut self.flows[id.index];
        Some(flow)
    }

    /// The number of flows whose termini are adjacent.
    pub fn num_complete(&self) -> (res: u64)
        requires
            self@.flows_placed(),
        ensures
            res == self@.num_complete(),
    {
        let mut count: usize = 0;
        let mut f: usize = 0;
        while f < self.flows.len()
            invariant
                f <= self.flows.len(),
                count <= f,
                count == self@.complete_upto(f as int),
                self@.flows_placed(),
            decreases self.flows.len() - f,
        {
            assert(self@.has_flow(f as int));
            assert(self.flows@[f as int]@ == self@.flows[f as int]);
            if self.flows[f].is_complete(self) {
                count += 1;
            }
            f += 1;
        }
        count as u64
    }

    /// The number of cells that no flow occupies.
    pub fn num_open_cells(&self) -> (res: u64)
        ensures
            res == self@.num_open_cells(),
    {
        let mut count: usize = 0;
        let mut c: usize = 0;
        while c < self.cells.len()
            invariant
                c <= self.cells.len(),
                count <= c,
                count == self@.open_cells_upto(c as int),
            decreases self.cells.len() - c,
        {
            if !self.cells[c].is_occupied() {
                count += 1;
            }
            c += 1;
        }
        count as u64
    }

    /// Whether every flow is complete and no cell is open. The answer
    /// depends on the state alone: asked twice of a state that has not
    /// changed, it is the same.
    pub fn is_complete(&self) -> (res: bool)
        requires
            self@.flows_placed(),
        ensures
            res == self@.is_complete(),
    {
        proof {
            self@.lemma_is_complete_by_counts();
        }
        self.num_complete() == self.num_flows() && self.num_open_cells() == 0
    }

    /// Both termini of every flow that is not complete, flow by flow.
    pub fn get_endpoints_for_incomplete_flows(&self) -> (res: Vec<CellId>)
        requires
            self@.flows_placed(),
        ensures
            res@ == self@.incomplete_endpoints(),
    {
        let mut endpoints: Vec<CellId> = Vec::new();
        let mut f: usize = 0;
        while f < self.flows.len()
            invariant
                f <= self.flows.len(),
                endpoints@ == self@.incomplete_endpoints_upto(f as int),
                self@.flows_placed(),
            decreases self.flows.len() - f,
        {
            assert(self@.has_flow(f as int));
            assert(self.flows@[f as int]@ == self@.flows[f as int]);
            let flow = &self.flows[f];
            if !flow.is_complete(self) {
                endpoints.push(flow.get_endpoint(0));
                endpoints.push(flow.get_endpoint(1));
            }
            f += 1;
        }
        endpoints
    }
}

} // verus!
