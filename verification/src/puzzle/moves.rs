//! The move generator: which endpoint the next move extends, and the
//! successor states that the move leads to.

use vstd::prelude::*;
use crate::ids::{CellId, FlowId, MAX_NEIGHBORS, NON_EXISTENT_CELL_ID};
use crate::puzzle::Puzzle;

verus! {

impl Puzzle {
    /// The number of open neighbors of the cell `id`.
    pub(crate) fn open_neighbors_of(&self, id: CellId) -> (res: usize)
        requires
            self@.links_valid(),
            self@.has_cell(id.index as int),
        ensures
            res == self@.num_open_neighbors(id.index as int),
            res <= MAX_NEIGHBORS,
    {
        let cell = self.get_cell(id).unwrap();
        proof {
            let c = id.index as int;
            assert forall|k: int| 0 <= k < cell@.neighbors.len() implies self@.has_cell(
                (#[trigger] cell@.neighbors[k]).index as int,
            ) by {
                assert(self@.has_cell(self@.neighbor(c, k)));
            }
            self@.lemma_open_among_bound(cell@.neighbors, cell@.neighbors.len() as int);
            assert(self@.degree(c) <= MAX_NEIGHBORS);
        }
        cell.num_open_neighbors(self)
    }

    /// Whether a move from the cell `id` is forced: one of its neighbors is
    /// open and has exactly one open neighbor.
    pub(crate) fn is_forced_from(&self, id: CellId) -> (res: bool)
        requires
            self@.links_valid(),
            self@.has_cell(id.index as int),
        ensures
            res == self@.forced(id.index as int),
    {
        let cell = self.get_cell(id).unwrap();
        let ghost c = id.index as int;
        let mut k: usize = 0;
        while k < cell.neighbors.len()
            invariant
                k <= cell.neighbors.len(),
                self@.links_valid(),
                self@.has_cell(c),
                c == id.index as int,
                cell@ == self@.cells[c],
                forall|j: int|
                    0 <= j < k ==> !(self@.is_open(#[trigger] self@.neighbor(c, j))
                        && self@.num_open_neighbors(self@.neighbor(c, j)) == 1),
            decreases cell.neighbors.len() - k,
        {
            let n_id = cell.neighbors[k];
            assert(n_id.index == self@.neighbor(c, k as int));
            assert(self@.has_cell(self@.neighbor(c, k as int)));
            let neighbor = self.get_cell(n_id).unwrap();
            if !neighbor.is_occupied() && self.open_neighbors_of(n_id) == 1 {
                proof {
                    let n = self@.neighbor(c, k as int);
                    assert(0 <= k < self@.degree(c));
                    assert(self@.is_open(n));
                    assert(self@.num_open_neighbors(n) == 1);
                    assert(self@.forced(c));
                }
                return true;
            }
            k += 1;
        }
        false
    }

    /// The endpoint that the next move extends, or the cell id with index
    /// `NON_EXISTENT_CELL_ID` when no flow is left to extend.
    pub fn get_endpoint_to_extend(&self) -> (res: CellId)
        requires
            self@.well_formed(),
        ensures
            match self@.endpoint_to_extend() {
                Some(id) => res == id && self@.has_cell(id.index as int) && self@.is_candidate(id),
                None => res.index == NON_EXISTENT_CELL_ID,
            },
            res.index == NON_EXISTENT_CELL_ID <==> self@.endpoint_to_extend() is None,
    {
        proof {
            self@.lemma_well_formed_flows_placed();
        }
        let possible_endpoints = self.get_endpoints_for_incomplete_flows();
        let ghost list = self@.incomplete_endpoints();
        proof {
            self@.lemma_incomplete_endpoints_are_candidates(self@.flows.len() as int);
            assert forall|j: int| 0 <= j < list.len() implies self@.has_cell(
                (#[trigger] list[j]).index as int,
            ) by {
                self@.lemma_candidate_is_cell(list[j]);
            }
        }
        // No cell has more open neighbors than it has neighbors.
        let mut min_open: usize = MAX_NEIGHBORS + 1;
        let mut min_open_cell_id = CellId { index: NON_EXISTENT_CELL_ID };
        let ghost mut best: int = -1;
        let mut i: usize = 0;
        while i < possible_endpoints.len()
            invariant
                i <= possible_endpoints.len(),
                possible_endpoints@ == list,
                self@.well_formed(),
                forall|j: int| 0 <= j < list.len() ==> self@.has_cell((#[trigger] list[j]).index as int),
                i == 0 ==> best == -1 && min_open == MAX_NEIGHBORS + 1 && min_open_cell_id.index
                    == NON_EXISTENT_CELL_ID,
                i > 0 ==> self@.first_least(list.take(i as int), best) && min_open_cell_id == list[best]
                    && min_open == self@.num_open_neighbors(list[best].index as int),
            decreases possible_endpoints.len() - i,
        {
            let cell_id = possible_endpoints[i];
            let open = self.open_neighbors_of(cell_id);
            let ghost prefix = list.take(i as int);
            let ghost next = list.take(i + 1);
            if open < min_open {
                min_open = open;
                min_open_cell_id = cell_id;
                proof {
                    assert forall|j: int| 0 <= j < next.len() implies self@.num_open_neighbors(
                        next[i as int].index as int,
                    ) <= self@.num_open_neighbors((#[trigger] next[j]).index as int) by {
                        if j < i {
                            assert(prefix[j] == next[j]);
                        }
                    }
                    assert forall|j: int| 0 <= j < i implies self@.num_open_neighbors(
                        next[i as int].index as int,
                    ) < self@.num_open_neighbors((#[trigger] next[j]).index as int) by {
                        assert(prefix[j] == next[j]);
                    }
                    best = i as int;
                }
            } else {
                proof {
                    assert(i > 0);
                    assert forall|j: int| 0 <= j < next.len() implies self@.num_open_neighbors(
                        next[best].index as int,
                    ) <= self@.num_open_neighbors((#[trigger] next[j]).index as int) by {
                        if j < i {
                            assert(prefix[j] == next[j]);
                        }
                    }
                    assert forall|j: int| 0 <= j < best implies self@.num_open_neighbors(
                        next[best].index as int,
                    ) < self@.num_open_neighbors((#[trigger] next[j]).index as int) by {
                        assert(prefix[j] == next[j]);
                    }
                }
            }
            i += 1;
        }
        if min_open_cell_id.index == NON_EXISTENT_CELL_ID {
            return min_open_cell_id;
        }
        proof {
            assert(list.take(list.len() as int) =~= list);
            assert(self@.first_least(list, best));
            self@.lemma_first_least_unique(list, best, choose|k: int| self@.first_least(list, k));
            self@.lemma_candidate_is_cell(list[best]);
        }
        // With at most one open neighbor the move from the chosen endpoint is
        // forced already.
        if min_open > 1 {
            let mut j: usize = 0;
            while j < possible_endpoints.len()
                invariant
                    j <= possible_endpoints.len(),
                    possible_endpoints@ == list,
                    list == self@.incomplete_endpoints(),
                    self@.well_formed(),
                    best == (choose|k: int| self@.first_least(list, k)),
                    self@.first_least(list, best),
                    self@.num_open_neighbors(list[best].index as int) > 1,
                    forall|m: int| 0 <= m < list.len() ==> self@.has_cell((#[trigger] list[m]).index as int),
                    forall|m: int| 0 <= m < list.len() ==> self@.is_candidate(#[trigger] list[m]),
                    forall|m: int| 0 <= m < j ==> !self@.forced((#[trigger] list[m]).index as int),
                decreases possible_endpoints.len() - j,
            {
                let cell_id = possible_endpoints[j];
                if self.is_forced_from(cell_id) {
                    proof {
                        assert(self@.first_forced(list, j as int));
                        self@.lemma_first_forced_unique(
                            list,
                            j as int,
                            choose|k: int| self@.first_forced(list, k),
                        );
                    }
                    return cell_id;
                }
                j += 1;
            }
            proof {
                assert forall|k: int| !self@.first_forced(list, k) by {
                    if 0 <= k < list.len() {
                        assert(!self@.forced(list[k].index as int));
                    }
                }
            }
        }
        min_open_cell_id
    }

    /// The number of successor states.
    pub fn num_possible_children(&self) -> (res: u64)
        requires
            self@.well_formed(),
        ensures
            res == self@.num_possible_children(),
            res <= MAX_NEIGHBORS,
    {
        let endpoint_id = self.get_endpoint_to_extend();
        if endpoint_id.index == NON_EXISTENT_CELL_ID {
            return 0;
        }
        self.open_neighbors_of(endpoint_id) as u64
    }

    /// A copy of this state in which terminus `endpoint_index` of the flow
    /// `flow_id` has moved into the cell `n_id`.
    fn extended(&self, flow_id: FlowId, endpoint_index: usize, n_id: CellId) -> (child: Puzzle)
        requires
            self@.has_flow(flow_id.index as int),
            self@.has_cell(n_id.index as int),
            endpoint_index < 2,
            self@.flows[flow_id.index as int].endpoints.len() == 2,
            self@.flows[flow_id.index as int].endpoints[0] is Some,
            self@.flows[flow_id.index as int].endpoints[1] is Some,
            self@.has_cell(self@.endpoint(flow_id.index as int, endpoint_index as int)),
        ensures
            child@ == self@.extend(flow_id, endpoint_index as int, n_id),
    {
        let mut child = self.clone();

        let cell_to_move_to = child.get_cell_mut(n_id).unwrap();
        cell_to_move_to.flow_id = Some(FlowId { index: flow_id.index });
        cell_to_move_to.is_endpoint = true;

        let left = child.get_flow(flow_id).unwrap().get_endpoint(endpoint_index);
        child.get_cell_mut(left).unwrap().is_endpoint = false;

        let child_flow = child.get_flow_mut(flow_id).unwrap();
        child_flow.update_endpoint(endpoint_index, CellId { index: n_id.index });
        assert(child@ =~= self@.extend(flow_id, endpoint_index as int, n_id));
        child
    }

    /// The successor states: for each open neighbor of the endpoint to
    /// extend, a copy of this state in which the flow has moved into it.
    pub fn create_children(&self) -> (children: Vec<Puzzle>)
        requires
            self@.well_formed(),
        ensures
            children@.len() == self@.children().len(),
            forall|i: int| 0 <= i < children@.len() ==> (#[trigger] children@[i])@ == self@.children()[i],
    {
        let endpoint_id = self.get_endpoint_to_extend();
        if endpoint_id.index == NON_EXISTENT_CELL_ID {
            return Vec::new();
        }
        let endpoint_cell = self.get_cell(endpoint_id).unwrap();
        let ghost c = endpoint_id.index as int;
        proof {
            self@.lemma_candidate_is_cell(endpoint_id);
            assert(self@.cell_consistent(c));
        }
        let flow_id = endpoint_cell.flow_id.unwrap();
        let flow = self.get_flow(flow_id).unwrap();
        let ghost f = flow_id.index as int;
        assert(self@.flow_anchored(f));
        let endpoint_index: usize = if flow.get_endpoint(0).index == endpoint_id.index {
            0
        } else {
            1
        };
        assert(endpoint_index == self@.terminus_at(endpoint_id));
        assert(self@.endpoint(f, endpoint_index as int) == c) by {
            self@.lemma_candidate_stands_at_terminus(endpoint_id);
        }

        let mut children: Vec<Puzzle> = Vec::new();
        let mut k: usize = 0;
        while k < endpoint_cell.neighbors.len()
            invariant
                k <= endpoint_cell.neighbors.len(),
                self@.well_formed(),
                self@.has_cell(c),
                endpoint_cell@ == self@.cells[c],
                self@.has_flow(f),
                f == flow_id.index,
                self@.flow_anchored(f),
                endpoint_index < 2,
                self@.endpoint(f, endpoint_index as int) == c,
                children@.len() == self@.moves_upto(flow_id, endpoint_index as int, k as int).len(),
                forall|i: int|
                    0 <= i < children@.len() ==> (#[trigger] children@[i])@ == self@.moves_upto(
                        flow_id,
                        endpoint_index as int,
                        k as int,
                    )[i],
            decreases endpoint_cell.neighbors.len() - k,
        {
            let n_id = endpoint_cell.neighbors[k];
            assert(n_id.index == self@.neighbor(c, k as int));
            assert(self@.has_cell(self@.neighbor(c, k as int)));
            if self.is_open_cell(n_id) {
                let child = self.extended(flow_id, endpoint_index, n_id);
                children.push(child);
            }
            k += 1;
        }
        children
    }
}

} // verus!
