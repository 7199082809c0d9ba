//! The mathematical model of a puzzle state.
//!
//! Every contract of the crate is stated over `PuzzleView`: two sequences of
//! plain records, cells and flows, that refer to each other by index. The
//! predicates here say what it means for a cell to be open, for two cells to
//! be adjacent, for a flow to be complete and for a board to be well formed.

use vstd::prelude::*;
use vstd::relations::injective_on;
use vstd::set_lib::{lemma_int_range, lemma_len_subset, lemma_map_size, set_int_range};
use crate::ids::{CellId, FlowId, MAX_NEIGHBORS, NON_EXISTENT_CELL_ID};

verus! {

/// What a cell holds.
#[verifier::ext_equal]
pub struct CellView {
    pub is_endpoint: bool,
    pub flow_id: Option<FlowId>,
    pub neighbors: Seq<CellId>,
    pub is_hex: bool,
}

/// What a flow holds: its own index, its two termini and its label.
#[verifier::ext_equal]
pub struct FlowView {
    pub id: usize,
    pub endpoints: Seq<Option<CellId>>,
    pub letter: char,
}

/// A whole puzzle state.
#[verifier::ext_equal]
pub struct PuzzleView {
    pub cells: Seq<CellView>,
    pub flows: Seq<FlowView>,
    pub is_hex: bool,
    pub print_string: Seq<char>,
}

impl CellView {
    /// `b` occurs in this cell's neighbor list.
    pub open spec fn lists(self, b: int) -> bool {
        exists|k: int| 0 <= k < self.neighbors.len() && (#[trigger] self.neighbors[k]).index == b
    }
}

impl PuzzleView {
    // ----- cells and adjacency -----

    /// `c` is the index of a cell.
    pub open spec fn has_cell(self, c: int) -> bool {
        0 <= c < self.cells.len()
    }

    /// `f` is the index of a flow.
    pub open spec fn has_flow(self, f: int) -> bool {
        0 <= f < self.flows.len()
    }

    /// The number of entries in the neighbor list of `c`.
    pub open spec fn degree(self, c: int) -> int {
        self.cells[c].neighbors.len() as int
    }

    /// The `k`-th entry of the neighbor list of `c`.
    pub open spec fn neighbor(self, c: int, k: int) -> int {
        self.cells[c].neighbors[k].index as int
    }

    /// `b` occurs in the neighbor list of `a`.
    pub open spec fn adjacent(self, a: int, b: int) -> bool {
        self.has_cell(a) && self.cells[a].lists(b)
    }

    /// `c` is a cell that no flow occupies.
    pub open spec fn is_open(self, c: int) -> bool {
        self.has_cell(c) && self.cells[c].flow_id is None
    }

    /// `c` is a cell that flow `f` occupies.
    pub open spec fn held_by(self, c: int, f: int) -> bool {
        self.has_cell(c) && self.cells[c].flow_id is Some && self.cells[c].flow_id->0.index == f
    }

    /// How many of the first `k` entries of `list` are open cells.
    pub open spec fn open_among(self, list: Seq<CellId>, k: int) -> nat
        decreases k,
    {
        if k <= 0 {
            0
        } else {
            self.open_among(list, k - 1) + if self.is_open(list[k - 1].index as int) {
                1nat
            } else {
                0nat
            }
        }
    }

    /// How many entries of the neighbor list of `c` are open.
    pub open spec fn num_open_neighbors(self, c: int) -> nat {
        self.open_among(self.cells[c].neighbors, self.degree(c))
    }

    /// How many of the first `k` entries of the neighbor list of `c` are
    /// occupied by the flow that occupies `c`.
    pub open spec fn same_flow_neighbors_upto(self, c: int, k: int) -> nat
        decreases k,
    {
        if k <= 0 {
            0
        } else {
            let n = self.neighbor(c, k - 1);
            self.same_flow_neighbors_upto(c, k - 1) + if self.cells[n].flow_id is Some
                && self.cells[n].flow_id->0.index == self.cells[c].flow_id->0.index {
                1nat
            } else {
                0nat
            }
        }
    }

    /// How many of the first `n` cells are open.
    pub open spec fn open_cells_upto(self, n: int) -> nat
        decreases n,
    {
        if n <= 0 {
            0
        } else {
            self.open_cells_upto(n - 1) + if self.is_open(n - 1) {
                1nat
            } else {
                0nat
            }
        }
    }

    /// How many cells are open.
    pub open spec fn num_open_cells(self) -> nat {
        self.open_cells_upto(self.cells.len() as int)
    }

    // ----- flows -----

    /// The cell at which terminus `e` (0 or 1) of flow `f` stands.
    pub open spec fn endpoint(self, f: int, e: int) -> int {
        self.flows[f].endpoints[e]->0.index as int
    }

    /// The two termini of flow `f` are adjacent.
    pub open spec fn flow_complete(self, f: int) -> bool {
        self.adjacent(self.endpoint(f, 0), self.endpoint(f, 1))
    }

    /// How many of the first `n` flows are complete.
    pub open spec fn complete_upto(self, n: int) -> nat
        decreases n,
    {
        if n <= 0 {
            0
        } else {
            self.complete_upto(n - 1) + if self.flow_complete(n - 1) {
                1nat
            } else {
                0nat
            }
        }
    }

    /// How many flows are complete.
    pub open spec fn num_complete(self) -> nat {
        self.complete_upto(self.flows.len() as int)
    }

    /// Every flow is complete and no cell is open.
    pub open spec fn is_complete(self) -> bool {
        &&& forall|f: int| self.has_flow(f) ==> #[trigger] self.flow_complete(f)
        &&& forall|c: int| !#[trigger] self.is_open(c)
    }

    /// The termini of the flows among the first `n` that are not complete:
    /// flow by flow, terminus 0 before terminus 1.
    pub open spec fn incomplete_endpoints_upto(self, n: int) -> Seq<CellId>
        decreases n,
    {
        if n <= 0 {
            Seq::empty()
        } else {
            let before = self.incomplete_endpoints_upto(n - 1);
            if self.flow_complete(n - 1) {
                before
            } else {
                before.push(self.flows[n - 1].endpoints[0]->0).push(self.flows[n - 1].endpoints[1]->0)
            }
        }
    }

    /// The termini of all flows that are not complete.
    pub open spec fn incomplete_endpoints(self) -> Seq<CellId> {
        self.incomplete_endpoints_upto(self.flows.len() as int)
    }

    // ----- the choice of the endpoint to extend -----

    /// A move from `c` is forced: one of its neighbors is open and has
    /// exactly one open neighbor itself.
    pub open spec fn forced(self, c: int) -> bool {
        exists|k: int|
            0 <= k < self.degree(c) && self.is_open(#[trigger] self.neighbor(c, k))
                && self.num_open_neighbors(self.neighbor(c, k)) == 1
    }

    /// Entry `k` of `list` has the fewest open neighbors, and is the first
    /// entry that has so few.
    pub open spec fn first_least(self, list: Seq<CellId>, k: int) -> bool {
        &&& 0 <= k < list.len()
        &&& forall|j: int|
            0 <= j < list.len() ==> self.num_open_neighbors(list[k].index as int)
                <= self.num_open_neighbors((#[trigger] list[j]).index as int)
        &&& forall|j: int|
            0 <= j < k ==> self.num_open_neighbors(list[k].index as int) < self.num_open_neighbors(
                (#[trigger] list[j]).index as int,
            )
    }

    /// Entry `k` of `list` is the first from which a move is forced.
    pub open spec fn first_forced(self, list: Seq<CellId>, k: int) -> bool {
        &&& 0 <= k < list.len()
        &&& self.forced(list[k].index as int)
        &&& forall|j: int| 0 <= j < k ==> !self.forced((#[trigger] list[j]).index as int)
    }

    /// The endpoint that the next move extends: among the termini of
    /// incomplete flows the first with the fewest open neighbors, unless that
    /// minimum is above one and a move is forced from some terminus, in which
    /// case the first such terminus. `None` when every flow is complete.
    pub open spec fn endpoint_to_extend(self) -> Option<CellId> {
        let list = self.incomplete_endpoints();
        if list.len() == 0 {
            None
        } else {
            let least = choose|k: int| self.first_least(list, k);
            if self.num_open_neighbors(list[least].index as int) > 1 && exists|k: int|
                self.first_forced(list, k) {
                Some(list[choose|k: int| self.first_forced(list, k)])
            } else {
                Some(list[least])
            }
        }
    }

    /// The number of moves from the endpoint to extend; zero when there is
    /// none.
    pub open spec fn num_possible_children(self) -> nat {
        match self.endpoint_to_extend() {
            Some(id) => self.num_open_neighbors(id.index as int),
            None => 0,
        }
    }

    /// `id` is a terminus of a flow that is not complete.
    pub open spec fn is_candidate(self, id: CellId) -> bool {
        exists|f: int|
            self.has_flow(f) && !#[trigger] self.flow_complete(f) && (self.flows[f].endpoints[0] == Some(id)
                || self.flows[f].endpoints[1] == Some(id))
    }

    // ----- well-formedness -----

    /// Every flow has both termini, and terminus 0 names a cell of the board:
    /// what the completeness queries need.
    pub open spec fn flows_placed(self) -> bool {
        forall|f: int|
            self.has_flow(f) ==> {
                &&& (#[trigger] self.flows[f]).endpoints.len() == 2
                &&& self.flows[f].endpoints[0] is Some
                &&& self.flows[f].endpoints[1] is Some
                &&& self.has_cell(self.endpoint(f, 0))
            }
    }

    /// Every neighbor entry names a cell of the board, and no cell has more
    /// than `MAX_NEIGHBORS` of them.
    pub open spec fn links_valid(self) -> bool {
        &&& forall|c: int| self.has_cell(c) ==> #[trigger] self.degree(c) <= MAX_NEIGHBORS
        &&& forall|c: int, k: int|
            self.has_cell(c) && 0 <= k < self.degree(c) ==> self.has_cell(#[trigger] self.neighbor(c, k))
    }

    /// Adjacency is symmetric.
    pub open spec fn symmetric(self) -> bool {
        forall|a: int, b: int| #[trigger] self.adjacent(a, b) ==> self.adjacent(b, a)
    }

    /// Flow `f` knows its own index and has two distinct termini, each a cell
    /// that it occupies.
    pub open spec fn flow_anchored(self, f: int) -> bool {
        &&& self.flows[f].id == f
        &&& self.flows[f].endpoints.len() == 2
        &&& self.flows[f].endpoints[0] is Some
        &&& self.flows[f].endpoints[1] is Some
        &&& self.endpoint(f, 0) != self.endpoint(f, 1)
        &&& self.held_by(self.endpoint(f, 0), f)
        &&& self.held_by(self.endpoint(f, 1), f)
    }

    /// Cell `c` is a terminus of the flow that occupies it.
    pub open spec fn is_terminus(self, c: int) -> bool {
        self.cells[c].flow_id matches Some(fid) && (self.endpoint(fid.index as int, 0) == c
            || self.endpoint(fid.index as int, 1) == c)
    }

    /// An occupied cell names a flow of the puzzle, and a cell is marked as an
    /// endpoint exactly while it is a terminus.
    pub open spec fn cell_consistent(self, c: int) -> bool {
        &&& self.cells[c].flow_id matches Some(fid) ==> self.has_flow(fid.index as int)
        &&& self.cells[c].is_endpoint <==> self.is_terminus(c)
    }

    /// The invariant of every state that the solver works on: no cell has
    /// the index that stands for none, neighbor entries name cells, no cell
    /// has too many of them, adjacency is symmetric, every flow is anchored
    /// and every cell consistent.
    pub open spec fn well_formed(self) -> bool {
        &&& self.cells.len() <= NON_EXISTENT_CELL_ID
        &&& self.links_valid()
        &&& self.symmetric()
        &&& forall|f: int| self.has_flow(f) ==> #[trigger] self.flow_anchored(f)
        &&& forall|c: int| self.has_cell(c) ==> #[trigger] self.cell_consistent(c)
    }

    /// The two states are states of one board: the same cells with the same
    /// neighbor lists, and the same flows by index and label.
    pub open spec fn same_board(self, other: PuzzleView) -> bool {
        &&& self.cells.len() == other.cells.len()
        &&& self.flows.len() == other.flows.len()
        &&& self.is_hex == other.is_hex
        &&& self.print_string == other.print_string
        &&& forall|c: int|
            self.has_cell(c) ==> (#[trigger] self.cells[c]).neighbors == other.cells[c].neighbors
                && self.cells[c].is_hex == other.cells[c].is_hex
        &&& forall|f: int|
            self.has_flow(f) ==> (#[trigger] self.flows[f]).id == other.flows[f].id && self.flows[f].letter
                == other.flows[f].letter
    }
}

impl PuzzleView {
    /// A count of open entries never exceeds the number of entries counted.
    pub proof fn lemma_open_among_bound(self, list: Seq<CellId>, k: int)
        requires
            0 <= k,
        ensures
            self.open_among(list, k) <= k,
        decreases k,
    {
        if k > 0 {
            self.lemma_open_among_bound(list, k - 1);
        }
    }

    /// The count of complete flows among the first `n` is at most `n`, and
    /// equals `n` exactly when all of them are complete.
    pub proof fn lemma_complete_upto(self, n: int)
        requires
            0 <= n,
        ensures
            self.complete_upto(n) <= n,
            self.complete_upto(n) == n <==> forall|f: int| 0 <= f < n ==> #[trigger] self.flow_complete(f),
        decreases n,
    {
        if n > 0 {
            self.lemma_complete_upto(n - 1);
            if self.complete_upto(n) == n {
                assert forall|f: int| 0 <= f < n implies #[trigger] self.flow_complete(f) by {
                    if f < n - 1 {
                    }
                }
            }
        }
    }

    /// The count of open cells among the first `n` is at most `n`, and is
    /// zero exactly when none of them is open.
    pub proof fn lemma_open_cells_upto(self, n: int)
        requires
            0 <= n,
        ensures
            self.open_cells_upto(n) <= n,
            self.open_cells_upto(n) == 0 <==> forall|c: int| 0 <= c < n ==> !#[trigger] self.is_open(c),
        decreases n,
    {
        if n > 0 {
            self.lemma_open_cells_upto(n - 1);
            if self.open_cells_upto(n) == 0 {
                assert forall|c: int| 0 <= c < n implies !#[trigger] self.is_open(c) by {
                    if c < n - 1 {
                    }
                }
            }
        }
    }

    /// A puzzle is complete exactly when every flow counts as complete and no
    /// cell counts as open.
    pub proof fn lemma_is_complete_by_counts(self)
        ensures
            self.is_complete() <==> self.num_complete() == self.flows.len() && self.num_open_cells() == 0,
    {
        self.lemma_complete_upto(self.flows.len() as int);
        self.lemma_open_cells_upto(self.cells.len() as int);
    }

    /// Every entry of the list of termini of incomplete flows is one.
    pub proof fn lemma_incomplete_endpoints_are_candidates(self, n: int)
        requires
            0 <= n <= self.flows.len(),
            self.flows_placed(),
        ensures
            forall|j: int|
                0 <= j < self.incomplete_endpoints_upto(n).len() ==> self.is_candidate(
                    #[trigger] self.incomplete_endpoints_upto(n)[j],
                ),
        decreases n,
    {
        if n > 0 {
            self.lemma_incomplete_endpoints_are_candidates(n - 1);
            let before = self.incomplete_endpoints_upto(n - 1);
            let list = self.incomplete_endpoints_upto(n);
            assert forall|j: int| 0 <= j < list.len() implies self.is_candidate(#[trigger] list[j]) by {
                if j < before.len() {
                    assert(list[j] == before[j]);
                } else {
                    assert(self.has_flow(n - 1) && !self.flow_complete(n - 1));
                    assert(self.flows[n - 1].endpoints[0] is Some);
                }
            }
        }
    }

    /// A well-formed board has its flows placed.
    pub proof fn lemma_well_formed_flows_placed(self)
        requires
            self.well_formed(),
        ensures
            self.flows_placed(),
    {
        assert forall|f: int| self.has_flow(f) implies {
            &&& (#[trigger] self.flows[f]).endpoints.len() == 2
            &&& self.flows[f].endpoints[0] is Some
            &&& self.flows[f].endpoints[1] is Some
            &&& self.has_cell(self.endpoint(f, 0))
        } by {
            assert(self.flow_anchored(f));
        }
    }

    /// A well-formed board has at most as many flows as cells: each flow
    /// occupies the cell of its terminus 0, and no two flows occupy one cell.
    pub proof fn lemma_flows_at_most_cells(self)
        requires
            self.well_formed(),
        ensures
            self.flows.len() <= self.cells.len(),
    {
        let flows = set_int_range(0, self.flows.len() as int);
        let cells = set_int_range(0, self.cells.len() as int);
        let at = |f: int| self.endpoint(f, 0);
        lemma_int_range(0, self.flows.len() as int);
        lemma_int_range(0, self.cells.len() as int);
        assert(injective_on(at, flows)) by {
            assert forall|f: int, g: int|
                flows.contains(f) && flows.contains(g) && #[trigger] at(f) == #[trigger] at(g) implies f
                == g by {
                assert(self.flow_anchored(f));
                assert(self.flow_anchored(g));
            }
        }
        let image = flows.map(at);
        lemma_map_size(flows, image, at);
        assert(image.subset_of(cells)) by {
            assert forall|c: int| image.contains(c) implies cells.contains(c) by {
                let f = choose|f: int| flows.contains(f) && c == at(f);
                assert(self.flow_anchored(f));
            }
        }
        lemma_len_subset(image, cells);
    }

    /// On a well-formed board a terminus of an incomplete flow is a cell
    /// whose neighbor entries all name cells.
    pub proof fn lemma_candidate_is_cell(self, id: CellId)
        requires
            self.well_formed(),
            self.is_candidate(id),
        ensures
            self.has_cell(id.index as int),
            self.cells[id.index as int].flow_id is Some,
            self.degree(id.index as int) <= MAX_NEIGHBORS,
    {
        let f = choose|f: int|
            self.has_flow(f) && !#[trigger] self.flow_complete(f) && (self.flows[f].endpoints[0] == Some(
                id,
            ) || self.flows[f].endpoints[1] == Some(id));
        assert(self.flow_anchored(f));
    }

    /// On a well-formed board a terminus of an incomplete flow stands at a
    /// cell that its flow occupies, and is terminus 0 or 1 of that flow.
    pub proof fn lemma_candidate_stands_at_terminus(self, id: CellId)
        requires
            self.well_formed(),
            self.is_candidate(id),
        ensures
            self.has_cell(id.index as int),
            self.cells[id.index as int].flow_id is Some,
            self.has_flow(self.cells[id.index as int].flow_id->0.index as int),
            !self.flow_complete(self.cells[id.index as int].flow_id->0.index as int),
            self.endpoint(self.cells[id.index as int].flow_id->0.index as int, 0) == id.index
                || self.endpoint(self.cells[id.index as int].flow_id->0.index as int, 1) == id.index,
    {
        let f = choose|f: int|
            self.has_flow(f) && !#[trigger] self.flow_complete(f) && (self.flows[f].endpoints[0] == Some(
                id,
            ) || self.flows[f].endpoints[1] == Some(id));
        assert(self.flow_anchored(f));
    }

    /// A list that is not empty has a first least entry.
    pub proof fn lemma_first_least_exists(self, list: Seq<CellId>)
        requires
            list.len() > 0,
        ensures
            exists|k: int| self.first_least(list, k),
        decreases list.len(),
    {
        if list.len() == 1 {
            assert(self.first_least(list, 0));
        } else {
            let shorter = list.drop_last();
            self.lemma_first_least_exists(shorter);
            let k = choose|k: int| self.first_least(shorter, k);
            let last = list.len() - 1;
            assert(shorter[k] == list[k]);
            if self.num_open_neighbors(list[last].index as int) < self.num_open_neighbors(
                list[k].index as int,
            ) {
                assert forall|j: int| 0 <= j < list.len() implies self.num_open_neighbors(
                    list[last].index as int,
                ) <= self.num_open_neighbors((#[trigger] list[j]).index as int) by {
                    if j < last {
                        assert(shorter[j] == list[j]);
                    }
                }
                assert forall|j: int| 0 <= j < last implies self.num_open_neighbors(list[last].index as int)
                    < self.num_open_neighbors((#[trigger] list[j]).index as int) by {
                    assert(shorter[j] == list[j]);
                }
                assert(self.first_least(list, last));
            } else {
                assert forall|j: int| 0 <= j < list.len() implies self.num_open_neighbors(
                    list[k].index as int,
                ) <= self.num_open_neighbors((#[trigger] list[j]).index as int) by {
                    if j < last {
                        assert(shorter[j] == list[j]);
                    }
                }
                assert forall|j: int| 0 <= j < k implies self.num_open_neighbors(list[k].index as int)
                    < self.num_open_neighbors((#[trigger] list[j]).index as int) by {
                    assert(shorter[j] == list[j]);
                }
                assert(self.first_least(list, k));
            }
        }
    }

    /// The endpoint to extend, where there is one, is a terminus of an
    /// incomplete flow; there is one exactly when some flow is incomplete.
    pub proof fn lemma_endpoint_to_extend(self)
        requires
            self.flows_placed(),
        ensures
            self.endpoint_to_extend() matches Some(id) ==> self.is_candidate(id),
            self.endpoint_to_extend() is None <==> self.incomplete_endpoints().len() == 0,
    {
        let list = self.incomplete_endpoints();
        self.lemma_incomplete_endpoints_are_candidates(self.flows.len() as int);
        if list.len() > 0 {
            self.lemma_first_least_exists(list);
            let least = choose|k: int| self.first_least(list, k);
            assert(self.is_candidate(list[least]));
            if exists|k: int| self.first_forced(list, k) {
                let forced = choose|k: int| self.first_forced(list, k);
                assert(self.is_candidate(list[forced]));
            }
        }
    }

    /// At most one entry of a list is its first least one.
    pub proof fn lemma_first_least_unique(self, list: Seq<CellId>, a: int, b: int)
        requires
            self.first_least(list, a),
            self.first_least(list, b),
        ensures
            a == b,
    {
        if a < b {
            assert(self.num_open_neighbors(list[b].index as int) < self.num_open_neighbors(
                list[a].index as int,
            ));
            assert(self.num_open_neighbors(list[a].index as int) <= self.num_open_neighbors(
                list[b].index as int,
            ));
        } else if b < a {
            assert(self.num_open_neighbors(list[a].index as int) < self.num_open_neighbors(
                list[b].index as int,
            ));
            assert(self.num_open_neighbors(list[b].index as int) <= self.num_open_neighbors(
                list[a].index as int,
            ));
        }
    }

    /// At most one entry of a list is the first from which a move is forced.
    pub proof fn lemma_first_forced_unique(self, list: Seq<CellId>, a: int, b: int)
        requires
            self.first_forced(list, a),
            self.first_forced(list, b),
        ensures
            a == b,
    {
        if a < b {
            assert(!self.forced(list[a].index as int));
        } else if b < a {
            assert(!self.forced(list[b].index as int));
        }
    }
}

} // verus!
