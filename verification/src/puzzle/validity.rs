//! The run-time test of the invariant that the solver asks of its input.

use vstd::prelude::*;
use crate::ids::{CellId, FlowId, BASE_SCORE, MAX_NEIGHBORS, NON_EXISTENT_CELL_ID};
use crate::puzzle::Puzzle;

verus! {

impl Puzzle {
    /// Whether every neighbor entry names a cell and no cell has more than
    /// `MAX_NEIGHBORS` of them.
    fn has_valid_links(&self) -> (res: bool)
        ensures
            res == self@.links_valid(),
    {
        let n = self.num_cells();
        let mut c: usize = 0;
        while c < n
            invariant
                c <= n,
                n == self@.cells.len(),
                forall|a: int| 0 <= a < c ==> #[trigger] self@.degree(a) <= MAX_NEIGHBORS,
                forall|a: int, k: int|
                    0 <= a < c && 0 <= k < self@.degree(a) ==> self@.has_cell(#[trigger] self@.neighbor(a, k)),
            decreases n - c,
        {
            let cell = self.get_cell(CellId { index: c }).unwrap();
            if cell.num_neighbors() > MAX_NEIGHBORS {
                assert(self@.has_cell(c as int) && self@.degree(c as int) > MAX_NEIGHBORS);
                return false;
            }
            let mut k: usize = 0;
            while k < cell.neighbors.len()
                invariant
                    k <= cell.neighbors.len(),
                    c < n,
                    n == self@.cells.len(),
                    cell@ == self@.cells[c as int],
                    forall|j: int| 0 <= j < k ==> self@.has_cell(#[trigger] self@.neighbor(c as int, j)),
                decreases cell.neighbors.len() - k,
            {
                if cell.neighbors[k].index >= n {
                    assert(self@.has_cell(c as int) && !self@.has_cell(self@.neighbor(c as int, k as int)));
                    return false;
                }
                k += 1;
            }
            c += 1;
        }
        true
    }

    /// Whether adjacency is symmetric.
    fn has_symmetric_links(&self) -> (res: bool)
        requires
            self@.links_valid(),
        ensures
            res == self@.symmetric(),
    {
        let n = self.num_cells();
        let mut c: usize = 0;
        while c < n
            invariant
                c <= n,
                n == self@.cells.len(),
                self@.links_valid(),
                forall|a: int, k: int|
                    0 <= a < c && 0 <= k < self@.degree(a) ==> self@.adjacent(#[trigger] self@.neighbor(a, k), a),
            decreases n - c,
        {
            let id = CellId { index: c };
            let cell = self.get_cell(id).unwrap();
            let mut k: usize = 0;
            while k < cell.neighbors.len()
                invariant
                    k <= cell.neighbors.len(),
                    c < n,
                    id.index == c,
                    n == self@.cells.len(),
                    self@.links_valid(),
                    cell@ == self@.cells[c as int],
                    forall|j: int|
                        0 <= j < k ==> self@.adjacent(#[trigger] self@.neighbor(c as int, j), c as int),
                decreases cell.neighbors.len() - k,
            {
                let other = cell.neighbors[k];
                assert(other.index == self@.neighbor(c as int, k as int));
                assert(self@.has_cell(self@.neighbor(c as int, k as int)));
                if !self.get_cell(other).unwrap().is_neighbor(&id) {
                    assert(self@.cells[c as int].neighbors[k as int].index == other.index);
                    assert(self@.adjacent(c as int, other.index as int));
                    assert(!self@.adjacent(other.index as int, c as int));
                    return false;
                }
                k += 1;
            }
            c += 1;
        }
        proof {
            assert forall|a: int, b: int| #[trigger] self@.adjacent(a, b) implies self@.adjacent(b, a) by {
                let k = choose|k: int|
                    0 <= k < self@.cells[a].neighbors.len() && (#[trigger] self@.cells[a].neighbors[k]).index
                        == b;
                assert(self@.neighbor(a, k) == b);
            }
        }
        true
    }

    /// Whether the flow `f` knows its index and has two distinct termini,
    /// each a cell that it occupies.
    fn is_flow_anchored(&self, f: usize) -> (res: bool)
        requires
            self@.has_flow(f as int),
        ensures
            res == self@.flow_anchored(f as int),
    {
        let flow = self.get_flow(FlowId { index: f }).unwrap();
        proof {
            flow.lemma_two_endpoints();
        }
        if flow.id != f || flow.endpoints[0].is_none() || flow.endpoints[1].is_none() {
            return false;
        }
        let first = flow.get_endpoint(0);
        let second = flow.get_endpoint(1);
        if first.index == second.index {
            return false;
        }
        self.is_held_by(first, f) && self.is_held_by(second, f)
    }

    /// Whether `id` names a cell that the flow `f` occupies.
    fn is_held_by(&self, id: CellId, f: usize) -> (res: bool)
        ensures
            res == self@.held_by(id.index as int, f as int),
    {
        if id.index >= self.num_cells() {
            return false;
        }
        match self.get_cell(id).unwrap().flow_id {
            Some(flow_id) => flow_id.index == f,
            None => false,
        }
    }

    /// Whether every flow is anchored.
    fn has_anchored_flows(&self) -> (res: bool)
        ensures
            res == forall|f: int| self@.has_flow(f) ==> #[trigger] self@.flow_anchored(f),
    {
        let mut f: usize = 0;
        while f < self.flows.len()
            invariant
                f <= self@.flows.len(),
                self.flows@.len() == self@.flows.len(),
                forall|g: int| 0 <= g < f ==> #[trigger] self@.flow_anchored(g),
            decreases self@.flows.len() - f,
        {
            if !self.is_flow_anchored(f) {
                assert(self@.has_flow(f as int));
                return false;
            }
            f += 1;
        }
        true
    }

    /// Whether every occupied cell names a flow of the puzzle and every cell
    /// is marked as an endpoint exactly while it is a terminus of its flow.
    fn has_consistent_cells(&self) -> (res: bool)
        requires
            forall|f: int| self@.has_flow(f) ==> #[trigger] self@.flow_anchored(f),
        ensures
            res == forall|c: int| self@.has_cell(c) ==> #[trigger] self@.cell_consistent(c),
    {
        let n = self.num_cells();
        let mut c: usize = 0;
        while c < n
            invariant
                c <= n,
                n == self@.cells.len(),
                forall|f: int| self@.has_flow(f) ==> #[trigger] self@.flow_anchored(f),
                forall|a: int| 0 <= a < c ==> #[trigger] self@.cell_consistent(a),
            decreases n - c,
        {
            let cell = self.get_cell(CellId { index: c }).unwrap();
            let is_terminus = match cell.flow_id {
                Some(flow_id) => {
                    if flow_id.index >= self.flows.len() {
                        assert(self@.has_cell(c as int) && !self@.cell_consistent(c as int));
                        return false;
                    }
                    let flow = self.get_flow(flow_id).unwrap();
                    assert(self@.flow_anchored(flow_id.index as int));
                    flow.get_endpoint(0).index == c || flow.get_endpoint(1).index == c
                },
                None => false,
            };
            if cell.is_endpoint != is_terminus {
                assert(self@.has_cell(c as int) && !self@.cell_consistent(c as int));
                return false;
            }
            c += 1;
        }
        true
    }

    /// Whether this state is well formed: no cell has the index that stands
    /// for none, neighbor entries name cells, adjacency is symmetric, every
    /// flow has two distinct termini on cells that it occupies, and the
    /// endpoint marks agree with the termini.
    pub fn is_well_formed(&self) -> (res: bool)
        ensures
            res == self@.well_formed(),
    {
        self.num_cells() <= NON_EXISTENT_CELL_ID && self.has_valid_links() && self.has_symmetric_links()
            && self.has_anchored_flows() && self.has_consistent_cells()
    }

    /// Whether the search accepts this state: it is well formed, and has so
    /// few open cells that the score never falls below zero.
    pub fn is_searchable(&self) -> (res: bool)
        ensures
            res == self@.searchable(),
    {
        self.is_well_formed() && self.num_open_cells() <= BASE_SCORE - (MAX_NEIGHBORS as u64)
    }
}

} // verus!
