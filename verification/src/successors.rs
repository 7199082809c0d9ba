//! Successor states: what a single move does to a state, and the list of
//! states that the move generator answers with.

use vstd::prelude::*;
use crate::ids::{CellId, FlowId, MAX_NEIGHBORS};
use crate::model::{CellView, FlowView, PuzzleView};

verus! {

impl PuzzleView {
    /// The state after terminus `e` (0 or 1) of the flow `f` has moved into
    /// the cell `n`: `n` is occupied by `f` and marked as an endpoint, the
    /// cell that the terminus left is no longer marked, and the flow points
    /// to `n`.
    pub open spec fn extend(self, f: FlowId, e: int, n: CellId) -> PuzzleView {
        let left = self.endpoint(f.index as int, e);
        let entered = self.cells.update(
            n.index as int,
            CellView { flow_id: Some(f), is_endpoint: true, ..self.cells[n.index as int] },
        );
        PuzzleView {
            cells: entered.update(left, CellView { is_endpoint: false, ..entered[left] }),
            flows: self.flows.update(
                f.index as int,
                FlowView {
                    endpoints: self.flows[f.index as int].endpoints.update(e, Some(n)),
                    ..self.flows[f.index as int]
                },
            ),
            ..self
        }
    }

    /// The states that follow from moving terminus `e` of the flow `f` into
    /// each open cell among the first `k` entries of the neighbor list of
    /// the cell where it stands, in the order of that list.
    pub open spec fn moves_upto(self, f: FlowId, e: int, k: int) -> Seq<PuzzleView>
        decreases k,
    {
        if k <= 0 {
            Seq::empty()
        } else {
            let before = self.moves_upto(f, e, k - 1);
            let n = self.cells[self.endpoint(f.index as int, e)].neighbors[k - 1];
            if self.is_open(n.index as int) {
                before.push(self.extend(f, e, n))
            } else {
                before
            }
        }
    }

    /// Which terminus of its flow stands at the cell `id`: 0 if terminus 0
    /// does, else 1.
    pub open spec fn terminus_at(self, id: CellId) -> int {
        if self.endpoint(self.cells[id.index as int].flow_id->0.index as int, 0) == id.index {
            0
        } else {
            1
        }
    }

    /// The successor states: one for each open neighbor of the endpoint to
    /// extend, in the order of its neighbor list; none when there is no
    /// endpoint to extend.
    pub open spec fn children(self) -> Seq<PuzzleView> {
        match self.endpoint_to_extend() {
            None => Seq::empty(),
            Some(id) => self.moves_upto(
                self.cells[id.index as int].flow_id->0,
                self.terminus_at(id),
                self.degree(id.index as int),
            ),
        }
    }

    /// `child` is the state after some terminus of the flow `f` has moved
    /// from where it stood into an open cell beside it.
    pub open spec fn moves_to(self, child: PuzzleView, f: FlowId, e: int) -> bool {
        exists|k: int|
            0 <= k < self.degree(self.endpoint(f.index as int, e)) && self.is_open(
                #[trigger] self.neighbor(self.endpoint(f.index as int, e), k),
            ) && child == self.extend(f, e, self.cells[self.endpoint(f.index as int, e)].neighbors[k])
    }

    // ----- facts about a single move -----

    /// A move leaves the board as it is: the same cells with the same
    /// neighbor lists, the same flows by index and label.
    pub proof fn lemma_extend_keeps_board(self, f: FlowId, e: int, n: CellId)
        requires
            self.has_flow(f.index as int),
            self.has_cell(n.index as int),
            self.has_cell(self.endpoint(f.index as int, e)),
        ensures
            self.extend(f, e, n).same_board(self),
            forall|a: int, b: int| self.extend(f, e, n).adjacent(a, b) == self.adjacent(a, b),
            forall|c: int|
                self.has_cell(c) && c != n.index ==> (#[trigger] self.extend(f, e, n).cells[c]).flow_id
                    == self.cells[c].flow_id,
            self.extend(f, e, n).cells[n.index as int].flow_id == Some(f),
    {
        let next = self.extend(f, e, n);
        assert forall|a: int, b: int| next.adjacent(a, b) == self.adjacent(a, b) by {
            if self.has_cell(a) {
                assert(next.cells[a].neighbors == self.cells[a].neighbors);
            }
        }
    }

    /// A move into an open cell leaves one open cell fewer.
    pub proof fn lemma_extend_open_cells(self, f: FlowId, e: int, n: CellId)
        requires
            self.has_flow(f.index as int),
            self.is_open(n.index as int),
            self.has_cell(self.endpoint(f.index as int, e)),
        ensures
            self.extend(f, e, n).num_open_cells() + 1 == self.num_open_cells(),
    {
        self.lemma_extend_keeps_board(f, e, n);
        self.lemma_extend_open_cells_upto(f, e, n, self.cells.len() as int);
    }

    /// Among the first `m` cells a move into the open cell `n` leaves one
    /// open cell fewer if `n` is among them, and as many as before if not.
    pub proof fn lemma_extend_open_cells_upto(self, f: FlowId, e: int, n: CellId, m: int)
        requires
            self.has_flow(f.index as int),
            self.is_open(n.index as int),
            self.has_cell(self.endpoint(f.index as int, e)),
            0 <= m <= self.cells.len(),
        ensures
            self.extend(f, e, n).open_cells_upto(m) + (if n.index < m {
                1nat
            } else {
                0nat
            }) == self.open_cells_upto(m),
        decreases m,
    {
        if m > 0 {
            self.lemma_extend_open_cells_upto(f, e, n, m - 1);
            self.lemma_extend_keeps_board(f, e, n);
            let next = self.extend(f, e, n);
            if m - 1 != n.index {
                assert(next.cells[m - 1].flow_id == self.cells[m - 1].flow_id);
            }
        }
    }

    /// A move of a terminus into an open cell keeps a well-formed state well
    /// formed.
    pub proof fn lemma_extend_well_formed(self, f: FlowId, e: int, n: CellId)
        requires
            self.well_formed(),
            self.has_flow(f.index as int),
            0 <= e < 2,
            self.is_open(n.index as int),
        ensures
            self.extend(f, e, n).well_formed(),
    {
        let next = self.extend(f, e, n);
        let fi = f.index as int;
        let left = self.endpoint(fi, e);
        assert(self.flow_anchored(fi));
        self.lemma_extend_keeps_board(f, e, n);
        assert(next.links_valid()) by {
            assert forall|c: int| next.has_cell(c) implies #[trigger] next.degree(c) <= MAX_NEIGHBORS by {
                assert(self.degree(c) <= MAX_NEIGHBORS);
            }
            assert forall|c: int, k: int| next.has_cell(c) && 0 <= k < next.degree(c) implies next.has_cell(
                #[trigger] next.neighbor(c, k),
            ) by {
                assert(self.has_cell(self.neighbor(c, k)));
            }
        }
        assert(next.symmetric()) by {
            assert forall|a: int, b: int| #[trigger] next.adjacent(a, b) implies next.adjacent(b, a) by {
                assert(self.adjacent(a, b));
            }
        }
        assert forall|g: int| next.has_flow(g) implies #[trigger] next.flow_anchored(g) by {
            assert(self.flow_anchored(g));
            if g != fi {
                assert(next.flows[g] == self.flows[g]);
                assert(next.endpoint(g, 0) == self.endpoint(g, 0));
                assert(next.endpoint(g, 1) == self.endpoint(g, 1));
            } else {
                assert(next.endpoint(fi, e) == n.index);
                assert(next.endpoint(fi, 1 - e) == self.endpoint(fi, 1 - e));
            }
        }
        assert forall|c: int| next.has_cell(c) implies #[trigger] next.cell_consistent(c) by {
            assert(self.cell_consistent(c));
            if c == n.index {
                assert(next.is_terminus(c));
            } else if c == left {
                assert(next.cells[c].flow_id == self.cells[c].flow_id);
                assert(!next.is_terminus(c));
            } else {
                assert(next.cells[c] == self.cells[c]);
                let g = self.cells[c].flow_id;
                if g is Some {
                    let gi = g->0.index as int;
                    assert(self.flow_anchored(gi));
                    assert(next.is_terminus(c) == self.is_terminus(c));
                }
            }
        }
    }

    /// The list of moves over the first `k` neighbor entries has one state
    /// for each open entry, and each state is a move into an open neighbor.
    pub proof fn lemma_moves_upto(self, f: FlowId, e: int, k: int)
        requires
            0 <= k <= self.degree(self.endpoint(f.index as int, e)),
        ensures
            self.moves_upto(f, e, k).len() == self.open_among(
                self.cells[self.endpoint(f.index as int, e)].neighbors,
                k,
            ),
            forall|i: int|
                0 <= i < self.moves_upto(f, e, k).len() ==> self.moves_to(
                    #[trigger] self.moves_upto(f, e, k)[i],
                    f,
                    e,
                ),
        decreases k,
    {
        if k > 0 {
            self.lemma_moves_upto(f, e, k - 1);
            let at = self.endpoint(f.index as int, e);
            let before = self.moves_upto(f, e, k - 1);
            let all = self.moves_upto(f, e, k);
            assert forall|i: int| 0 <= i < all.len() implies self.moves_to(#[trigger] all[i], f, e) by {
                if i < before.len() {
                    assert(all[i] == before[i]);
                } else {
                    assert(self.is_open(self.neighbor(at, k - 1)));
                }
            }
        }
    }

    /// What holds of every successor of a well-formed state: it is the move
    /// of the chosen terminus into an open neighbor, it is well formed, it is
    /// a state of the same board, and it has one open cell fewer. There are
    /// as many successors as the chosen endpoint has open neighbors.
    pub proof fn lemma_children(self)
        requires
            self.well_formed(),
        ensures
            self.children().len() == self.num_possible_children(),
            self.children().len() <= MAX_NEIGHBORS,
            forall|i: int|
                0 <= i < self.children().len() ==> {
                    let child = #[trigger] self.children()[i];
                    &&& self.endpoint_to_extend() matches Some(id)
                    &&& self.moves_to(child, self.cells[id.index as int].flow_id->0, self.terminus_at(id))
                    &&& child.well_formed()
                    &&& child.same_board(self)
                    &&& child.num_open_cells() + 1 == self.num_open_cells()
                },
    {
        match self.endpoint_to_extend() {
            None => {},
            Some(id) => {
                self.lemma_well_formed_flows_placed();
                self.lemma_endpoint_to_extend();
                self.lemma_candidate_stands_at_terminus(id);
                let c = id.index as int;
                let f = self.cells[c].flow_id->0;
                let e = self.terminus_at(id);
                assert(self.endpoint(f.index as int, e) == c);
                self.lemma_moves_upto(f, e, self.degree(c));
                self.lemma_open_among_bound(self.cells[c].neighbors, self.degree(c));
                assert(self.degree(c) <= MAX_NEIGHBORS);
                assert forall|i: int| 0 <= i < self.children().len() implies {
                    let child = #[trigger] self.children()[i];
                    &&& self.moves_to(child, f, e)
                    &&& child.well_formed()
                    &&& child.same_board(self)
                    &&& child.num_open_cells() + 1 == self.num_open_cells()
                } by {
                    let child = self.children()[i];
                    assert(self.moves_to(child, f, e));
                    let k = choose|k: int|
                        0 <= k < self.degree(c) && self.is_open(#[trigger] self.neighbor(c, k)) && child
                            == self.extend(f, e, self.cells[c].neighbors[k]);
                    let n = self.cells[c].neighbors[k];
                    assert(n.index == self.neighbor(c, k));
                    self.lemma_extend_well_formed(f, e, n);
                    self.lemma_extend_keeps_board(f, e, n);
                    self.lemma_extend_open_cells(f, e, n);
                }
            },
        }
    }
}

} // verus!
