//! Soundness of the pruning: from a state that the feasibility analysis
//! rules out for a blocked flow, an orphaned region, a dead end or the lack
//! of moves, the move generator never arrives at a complete state.

use vstd::prelude::*;
use crate::ids::{
    CellId, FlowId, SOLVABLE, UNSOLVABLE_DEAD_ENDS, UNSOLVABLE_NO_CHILDREN, UNSOLVABLE_PATH_BLOCKED,
    UNSOLVABLE_POOLS, UNSOLVABLE_REGION,
};
use crate::model::PuzzleView;

verus! {

impl PuzzleView {
    /// `target` follows from this state in exactly `steps` moves of the move
    /// generator, whatever the feasibility analysis says of the states
    /// between.
    pub open spec fn follows(self, target: PuzzleView, steps: nat) -> bool
        decreases steps,
    {
        steps > 0 && exists|i: int|
            0 <= i < self.children().len() && (if steps == 1 {
                #[trigger] self.children()[i] == target
            } else {
                self.children()[i].follows(target, (steps - 1) as nat)
            })
    }

    /// Moving terminus `e` of the flow `f` into the cell `n` is a move of
    /// the game: the flow is incomplete, and `n` is an open neighbor of the
    /// cell where the terminus stands.
    pub open spec fn legal(self, f: FlowId, e: int, n: CellId) -> bool {
        &&& self.has_flow(f.index as int)
        &&& 0 <= e < 2
        &&& !self.flow_complete(f.index as int)
        &&& self.is_open(n.index as int)
        &&& self.adjacent(self.endpoint(f.index as int, e), n.index as int)
    }

    /// None of the first `n` entries of `list` is an open cell, but for
    /// entry `k0`, which may be.
    pub open spec fn closed_but(self, list: Seq<CellId>, n: int, k0: int) -> bool {
        forall|k: int| 0 <= k < n && k != k0 ==> !self.is_open((#[trigger] list[k]).index as int)
    }

    /// The open cell `c` can be entered through entry `k0` of its neighbor
    /// list at most: every other entry names an occupied cell that is not
    /// marked as an endpoint.
    pub open spec fn walled_in(self, c: int, k0: int) -> bool {
        &&& self.is_open(c)
        &&& forall|k: int|
            0 <= k < self.degree(c) && k != k0 ==> !self.is_open(#[trigger] self.neighbor(c, k))
                && !self.cells[self.neighbor(c, k)].is_endpoint
    }

    /// A terminus stands at the cell `c` and can neither move nor be met:
    /// every neighbor of `c` is occupied and none is marked as an endpoint.
    pub open spec fn walled_terminus(self, c: int) -> bool {
        &&& self.has_cell(c)
        &&& !self.is_open(c)
        &&& self.is_terminus(c)
        &&& forall|k: int|
            0 <= k < self.degree(c) ==> !self.is_open(#[trigger] self.neighbor(c, k))
                && !self.cells[self.neighbor(c, k)].is_endpoint
    }

    /// No complete state follows from this one by moves of the game: a flow
    /// is blocked, a region is orphaned, an open cell is walled in, or a
    /// terminus is.
    pub open spec fn doomed(self) -> bool {
        ||| exists|f: int| self.blocked(f)
        ||| exists|r: int| self.orphaned(r)
        ||| exists|c: int, k0: int| self.walled_in(c, k0)
        ||| exists|c: int| self.walled_terminus(c)
    }

    // ----- what a move changes -----

    /// What a legal move leaves as it was and what it changes.
    pub proof fn lemma_move_facts(self, f: FlowId, e: int, n: CellId)
        requires
            self.well_formed(),
            self.legal(f, e, n),
        ensures
            self.extend(f, e, n).well_formed(),
            self.extend(f, e, n).cells.len() == self.cells.len(),
            self.extend(f, e, n).flows.len() == self.flows.len(),
            forall|c: int|
                self.has_cell(c) ==> (#[trigger] self.extend(f, e, n).cells[c]).neighbors
                    == self.cells[c].neighbors,
            forall|a: int, b: int| self.extend(f, e, n).adjacent(a, b) == self.adjacent(a, b),
            forall|c: int| #[trigger] self.extend(f, e, n).is_open(c) == (self.is_open(c) && c != n.index),
            forall|c: int|
                self.has_cell(c) && c != n.index && c != self.endpoint(f.index as int, e) ==> (
                #[trigger] self.extend(f, e, n).cells[c]) == self.cells[c],
            forall|g: int, d: int|
                self.has_flow(g) && 0 <= d < 2 && (g != f.index || d != e) ==> #[trigger] self.extend(
                    f,
                    e,
                    n,
                ).endpoint(g, d) == self.endpoint(g, d),
            self.extend(f, e, n).endpoint(f.index as int, e) == n.index,
            self.extend(f, e, n).cells[n.index as int].flow_id == Some(f),
            self.extend(f, e, n).cells[n.index as int].is_endpoint,
            !self.extend(f, e, n).cells[self.endpoint(f.index as int, e)].is_endpoint,
            self.extend(f, e, n).cells[self.endpoint(f.index as int, e)].flow_id
                == self.cells[self.endpoint(f.index as int, e)].flow_id,
            self.cells[self.endpoint(f.index as int, e)].is_endpoint,
            self.has_cell(self.endpoint(f.index as int, e)),
            self.endpoint(f.index as int, e) != n.index,
            forall|g: int|
                self.has_flow(g) && g != f.index ==> #[trigger] self.extend(f, e, n).flow_complete(g)
                    == self.flow_complete(g),
    {
        let next = self.extend(f, e, n);
        let fi = f.index as int;
        let at = self.endpoint(fi, e);
        assert(self.flow_anchored(fi));
        assert(self.cell_consistent(at));
        self.lemma_extend_well_formed(f, e, n);
        self.lemma_extend_keeps_board(f, e, n);
        assert forall|g: int, d: int| self.has_flow(g) && 0 <= d < 2 && (g != fi || d != e) implies #[trigger] next.endpoint(
            g,
            d,
        ) == self.endpoint(g, d) by {
            if g != fi {
                assert(next.flows[g] == self.flows[g]);
            }
        }
        assert forall|g: int| self.has_flow(g) && g != fi implies #[trigger] next.flow_complete(g)
            == self.flow_complete(g) by {
            assert(next.endpoint(g, 0) == self.endpoint(g, 0));
            assert(next.endpoint(g, 1) == self.endpoint(g, 1));
        }
    }

    /// A move splits regions and never joins them: cells that lie in one
    /// region after it did so before.
    pub proof fn lemma_move_keeps_apart(self, f: FlowId, e: int, n: CellId, a: int, b: int)
        requires
            self.well_formed(),
            self.legal(f, e, n),
            self.extend(f, e, n).connected(a, b),
        ensures
            self.connected(a, b),
    {
        let next = self.extend(f, e, n);
        self.lemma_move_facts(f, e, n);
        let path = choose|path: Seq<int>| #[trigger] next.walk_between(path, a, b);
        assert forall|i: int| 0 <= i < path.len() implies self.is_open(#[trigger] path[i]) by {
            assert(next.is_open(path[i]));
        }
        assert forall|i: int| 0 <= i < path.len() - 1 implies self.adjacent(#[trigger] path[i], path[i + 1]) by {
            assert(next.adjacent(path[i], path[i + 1]));
        }
        assert(self.walk_between(path, a, b));
    }

    /// A region that touches a cell after a move touched it before.
    pub proof fn lemma_move_keeps_untouched(self, f: FlowId, e: int, n: CellId, c: int, r: int)
        requires
            self.well_formed(),
            self.legal(f, e, n),
            self.has_cell(c),
            self.extend(f, e, n).touches(c, r),
        ensures
            self.touches(c, r),
    {
        let next = self.extend(f, e, n);
        self.lemma_move_facts(f, e, n);
        let k = choose|k: int| 0 <= k < next.degree(c) && next.connected(r, #[trigger] next.neighbor(c, k));
        assert(next.neighbor(c, k) == self.neighbor(c, k));
        self.lemma_move_keeps_apart(f, e, n, r, self.neighbor(c, k));
    }

    /// A region that touches, after the move, the cell that was entered
    /// held that cell before the move.
    pub proof fn lemma_touching_entered_cell(self, f: FlowId, e: int, n: CellId, r: int)
        requires
            self.well_formed(),
            self.legal(f, e, n),
            self.extend(f, e, n).touches(n.index as int, r),
        ensures
            self.connected(r, n.index as int),
            self.touches(self.endpoint(f.index as int, e), r),
    {
        let next = self.extend(f, e, n);
        let ni = n.index as int;
        let at = self.endpoint(f.index as int, e);
        self.lemma_move_facts(f, e, n);
        let k = choose|k: int| 0 <= k < next.degree(ni) && next.connected(r, #[trigger] next.neighbor(ni, k));
        let m = self.neighbor(ni, k);
        assert(next.neighbor(ni, k) == m);
        self.lemma_move_keeps_apart(f, e, n, r, m);
        self.lemma_connected_open(r, m);
        assert(self.cells[ni].neighbors[k].index == m);
        assert(self.adjacent(ni, m));
        assert(self.adjacent(m, ni));
        self.lemma_connected_step(m, ni);
        self.lemma_connected_trans(r, m, ni);
        self.lemma_entered_cell_touches(f, e, n, r);
    }

    /// The region of the cell that a move enters touches the cell that the
    /// terminus leaves.
    pub proof fn lemma_entered_cell_touches(self, f: FlowId, e: int, n: CellId, r: int)
        requires
            self.legal(f, e, n),
            self.connected(r, n.index as int),
        ensures
            self.touches(self.endpoint(f.index as int, e), r),
    {
        let at = self.endpoint(f.index as int, e);
        let k = choose|k: int|
            0 <= k < self.cells[at].neighbors.len() && (#[trigger] self.cells[at].neighbors[k]).index
                == n.index;
        assert(self.neighbor(at, k) == n.index);
    }

    /// A cell that lists an open cell as a neighbor is touched by the
    /// region of every cell that lies in one region with it.
    pub proof fn lemma_adjacent_touches(self, c: int, m: int, r: int)
        requires
            self.adjacent(c, m),
            self.connected(r, m),
        ensures
            self.touches(c, r),
    {
        let k = choose|k: int|
            0 <= k < self.cells[c].neighbors.len() && (#[trigger] self.cells[c].neighbors[k]).index == m;
        assert(self.neighbor(c, k) == m);
    }

    // ----- what stays doomed -----

    /// A blocked flow stays blocked through every move.
    pub proof fn lemma_blocked_persists(self, f: FlowId, e: int, n: CellId, b: int)
        requires
            self.well_formed(),
            self.legal(f, e, n),
            self.blocked(b),
        ensures
            self.extend(f, e, n).blocked(b),
    {
        let next = self.extend(f, e, n);
        let fi = f.index as int;
        let ni = n.index as int;
        let at = self.endpoint(fi, e);
        let other = self.endpoint(fi, 1 - e);
        self.lemma_move_facts(f, e, n);
        assert(self.flow_anchored(b));
        if b == fi {
            assert(next.endpoint(fi, 1 - e) == other);
            if next.flow_complete(fi) {
                assert(self.adjacent(ni, other) || self.adjacent(other, ni));
                assert(self.adjacent(other, ni));
                self.lemma_connected_refl(ni);
                self.lemma_adjacent_touches(other, ni, ni);
                self.lemma_entered_cell_touches(f, e, n, ni);
                assert(self.claims(fi, ni));
            }
            assert forall|r: int| !#[trigger] next.claims(fi, r) by {
                if next.claims(fi, r) {
                    assert(next.touches(ni, r));
                    assert(next.touches(other, r));
                    self.lemma_touching_entered_cell(f, e, n, r);
                    self.lemma_move_keeps_untouched(f, e, n, other, r);
                    assert(self.claims(fi, r));
                }
            }
        } else {
            assert forall|r: int| !#[trigger] next.claims(b, r) by {
                if next.claims(b, r) {
                    self.lemma_move_keeps_untouched(f, e, n, self.endpoint(b, 0), r);
                    self.lemma_move_keeps_untouched(f, e, n, self.endpoint(b, 1), r);
                    assert(self.claims(b, r));
                }
            }
        }
    }

    /// After a move an orphaned region is still orphaned, as far as it is
    /// still open, or the flow that moved into it is blocked.
    pub proof fn lemma_orphaned_persists(self, f: FlowId, e: int, n: CellId, r: int)
        requires
            self.well_formed(),
            self.legal(f, e, n),
            self.orphaned(r),
        ensures
            self.extend(f, e, n).orphaned(r) || self.extend(f, e, n).blocked(f.index as int),
    {
        let next = self.extend(f, e, n);
        let fi = f.index as int;
        let ni = n.index as int;
        let at = self.endpoint(fi, e);
        let other = self.endpoint(fi, 1 - e);
        self.lemma_move_facts(f, e, n);
        assert(self.flow_anchored(fi));
        assert(next.endpoint(fi, 1 - e) == other);
        if self.connected(r, ni) {
            self.lemma_entered_cell_touches(f, e, n, r);
            assert(!self.claims(fi, r));
            assert(!self.touches(other, r));
            if next.flow_complete(fi) {
                assert(self.adjacent(ni, other) || self.adjacent(other, ni));
                assert(self.adjacent(other, ni));
                self.lemma_adjacent_touches(other, ni, r);
            }
            assert forall|s: int| !#[trigger] next.claims(fi, s) by {
                if next.claims(fi, s) {
                    assert(next.touches(ni, s));
                    assert(next.touches(other, s));
                    self.lemma_touching_entered_cell(f, e, n, s);
                    self.lemma_move_keeps_untouched(f, e, n, other, s);
                    self.lemma_connected_sym(s, ni);
                    self.lemma_connected_trans(r, ni, s);
                    self.lemma_touches_by_region(other, s, r);
                }
            }
            assert(next.blocked(fi));
        } else {
            self.lemma_connected_refl(r);
            assert(r != ni);
            assert forall|g: int| !#[trigger] next.claims(g, r) by {
                if next.claims(g, r) {
                    if g == fi {
                        assert(next.touches(ni, r));
                        self.lemma_touching_entered_cell(f, e, n, r);
                    } else {
                        assert(self.flow_anchored(g));
                        self.lemma_move_keeps_untouched(f, e, n, self.endpoint(g, 0), r);
                        self.lemma_move_keeps_untouched(f, e, n, self.endpoint(g, 1), r);
                        assert(self.claims(g, r));
                    }
                }
            }
            assert(next.orphaned(r));
        }
    }

    /// After a move an open cell that was walled in still is, or a terminus
    /// has moved into it and is walled in there.
    pub proof fn lemma_walled_in_persists(self, f: FlowId, e: int, n: CellId, c: int, k0: int)
        requires
            self.well_formed(),
            self.legal(f, e, n),
            self.walled_in(c, k0),
        ensures
            self.extend(f, e, n).walled_in(c, k0) || self.extend(f, e, n).walled_terminus(c),
    {
        let next = self.extend(f, e, n);
        let fi = f.index as int;
        let ni = n.index as int;
        let at = self.endpoint(fi, e);
        self.lemma_move_facts(f, e, n);
        if ni != c {
            assert forall|k: int| 0 <= k < next.degree(c) && k != k0 implies !next.is_open(
                #[trigger] next.neighbor(c, k),
            ) && !next.cells[next.neighbor(c, k)].is_endpoint by {
                let m = self.neighbor(c, k);
                assert(next.neighbor(c, k) == m);
                assert(self.has_cell(m));
                assert(!self.is_open(m));
                if m != at {
                    assert(next.cells[m] == self.cells[m]);
                }
            }
            assert(next.walled_in(c, k0));
        } else {
            assert(self.adjacent(c, at));
            let kx = choose|k: int|
                0 <= k < self.cells[c].neighbors.len() && (#[trigger] self.cells[c].neighbors[k]).index == at;
            assert(self.neighbor(c, kx) == at);
            assert(kx == k0);
            assert forall|k: int| 0 <= k < next.degree(c) implies !next.is_open(
                #[trigger] next.neighbor(c, k),
            ) && !next.cells[next.neighbor(c, k)].is_endpoint by {
                let m = self.neighbor(c, k);
                assert(next.neighbor(c, k) == m);
                assert(self.has_cell(m));
                if k != k0 {
                    assert(!self.is_open(m));
                    assert(!self.cells[m].is_endpoint);
                    assert(m != at);
                    assert(m != ni);
                    assert(next.cells[m] == self.cells[m]);
                } else {
                    assert(m == at);
                    assert(self.flow_anchored(fi));
                    assert(!self.is_open(at));
                }
            }
            assert(next.is_terminus(c));
            assert(next.walled_terminus(c));
        }
    }

    /// A walled-in terminus stays walled in through every move.
    pub proof fn lemma_walled_terminus_persists(self, f: FlowId, e: int, n: CellId, c: int)
        requires
            self.well_formed(),
            self.legal(f, e, n),
            self.walled_terminus(c),
        ensures
            self.extend(f, e, n).walled_terminus(c),
    {
        let next = self.extend(f, e, n);
        let fi = f.index as int;
        let ni = n.index as int;
        let at = self.endpoint(fi, e);
        self.lemma_move_facts(f, e, n);
        if at == c {
            let k = choose|k: int|
                0 <= k < self.cells[c].neighbors.len() && (#[trigger] self.cells[c].neighbors[k]).index == ni;
            assert(self.neighbor(c, k) == ni);
        }
        assert(at != c && ni != c);
        assert(next.cells[c] == self.cells[c]);
        let g = self.cells[c].flow_id->0.index as int;
        assert(self.cell_consistent(c));
        assert(next.is_terminus(c)) by {
            if self.endpoint(g, 0) == c {
                assert(next.endpoint(g, 0) == c);
            } else {
                assert(next.endpoint(g, 1) == c);
            }
        }
        assert forall|k: int| 0 <= k < next.degree(c) implies !next.is_open(#[trigger] next.neighbor(c, k))
            && !next.cells[next.neighbor(c, k)].is_endpoint by {
            let m = self.neighbor(c, k);
            assert(next.neighbor(c, k) == m);
            assert(self.has_cell(m));
            assert(!self.is_open(m));
            if m != at {
                assert(next.cells[m] == self.cells[m]);
            }
        }
    }

    /// A doomed state stays doomed through every move of the game.
    pub proof fn lemma_doomed_persists(self, f: FlowId, e: int, n: CellId)
        requires
            self.well_formed(),
            self.legal(f, e, n),
            self.doomed(),
        ensures
            self.extend(f, e, n).doomed(),
    {
        let next = self.extend(f, e, n);
        if exists|b: int| self.blocked(b) {
            let b = choose|b: int| self.blocked(b);
            self.lemma_blocked_persists(f, e, n, b);
        } else if exists|r: int| self.orphaned(r) {
            let r = choose|r: int| self.orphaned(r);
            self.lemma_orphaned_persists(f, e, n, r);
        } else if exists|c: int, k0: int| self.walled_in(c, k0) {
            let (c, k0) = choose|c: int, k0: int| self.walled_in(c, k0);
            self.lemma_walled_in_persists(f, e, n, c, k0);
        } else {
            let c = choose|c: int| self.walled_terminus(c);
            self.lemma_walled_terminus_persists(f, e, n, c);
        }
    }

    /// A doomed state is not complete.
    pub proof fn lemma_doomed_is_incomplete(self)
        requires
            self.well_formed(),
            self.doomed(),
        ensures
            !self.is_complete(),
    {
        if exists|b: int| self.blocked(b) {
            let b = choose|b: int| self.blocked(b);
            assert(self.has_flow(b) && !self.flow_complete(b));
        } else if exists|r: int| self.orphaned(r) {
            let r = choose|r: int| self.orphaned(r);
            assert(self.is_open(r));
        } else if exists|c: int, k0: int| self.walled_in(c, k0) {
            let (c, k0) = choose|c: int, k0: int| self.walled_in(c, k0);
            assert(self.is_open(c));
        } else {
            let c = choose|c: int| self.walled_terminus(c);
            assert(self.cell_consistent(c));
            let g = self.cells[c].flow_id->0.index as int;
            assert(self.flow_anchored(g));
            let other = if self.endpoint(g, 0) == c {
                self.endpoint(g, 1)
            } else {
                self.endpoint(g, 0)
            };
            if self.flow_complete(g) {
                assert(self.adjacent(c, other) || self.adjacent(other, c));
                assert(self.adjacent(c, other));
                let k = choose|k: int|
                    0 <= k < self.cells[c].neighbors.len() && (#[trigger] self.cells[c].neighbors[k]).index
                        == other;
                assert(self.neighbor(c, k) == other);
                assert(self.cell_consistent(other));
                assert(self.is_terminus(other));
            }
            assert(self.has_flow(g) && !self.flow_complete(g));
        }
    }

    /// Where at most one of the first `n` entries of a list is open, all
    /// entries but one are not.
    pub proof fn lemma_one_open_entry(self, list: Seq<CellId>, n: int)
        requires
            0 <= n,
            self.open_among(list, n) <= 1,
        ensures
            exists|k0: int| #[trigger] self.closed_but(list, n, k0),
        decreases n,
    {
        if n == 0 {
            assert(self.closed_but(list, n, 0));
        } else {
            self.lemma_open_among_bound(list, n - 1);
            if self.is_open(list[n - 1].index as int) {
                self.lemma_none_open(list, n - 1);
                assert(self.closed_but(list, n, n - 1));
            } else {
                self.lemma_one_open_entry(list, n - 1);
                let k0 = choose|k0: int| #[trigger] self.closed_but(list, n - 1, k0);
                assert(self.closed_but(list, n, k0));
            }
        }
    }

    /// Where none of the first `n` entries of a list counts as open, none
    /// is.
    pub proof fn lemma_none_open(self, list: Seq<CellId>, n: int)
        requires
            0 <= n,
            self.open_among(list, n) == 0,
        ensures
            forall|k: int| 0 <= k < n ==> !self.is_open(#[trigger] list[k].index as int),
        decreases n,
    {
        if n > 0 {
            self.lemma_none_open(list, n - 1);
        }
    }

    /// A state that the feasibility analysis rules out for a dead end, an
    /// orphaned region or a blocked flow is doomed.
    pub proof fn lemma_verdict_dooms(self)
        requires
            self.well_formed(),
            self.solvability() == UNSOLVABLE_DEAD_ENDS || self.solvability() == UNSOLVABLE_REGION
                || self.solvability() == UNSOLVABLE_PATH_BLOCKED,
        ensures
            self.doomed(),
    {
        if self.solvability() == UNSOLVABLE_DEAD_ENDS {
            let c = choose|c: int| self.dead_end(c);
            self.lemma_one_open_entry(self.cells[c].neighbors, self.degree(c));
            let k0 = choose|k0: int| #[trigger] self.closed_but(self.cells[c].neighbors, self.degree(c), k0);
            assert forall|k: int| 0 <= k < self.degree(c) && k != k0 implies !self.is_open(
                #[trigger] self.neighbor(c, k),
            ) && !self.cells[self.neighbor(c, k)].is_endpoint by {
                assert(!self.is_open(self.cells[c].neighbors[k].index as int));
            }
            assert(self.walled_in(c, k0));
        }
    }

    /// Every successor of a well-formed state comes about by a move of the
    /// game.
    pub proof fn lemma_child_is_legal_move(self, i: int) -> (step: (FlowId, int, CellId))
        requires
            self.well_formed(),
            0 <= i < self.children().len(),
        ensures
            self.legal(step.0, step.1, step.2),
            self.children()[i] == self.extend(step.0, step.1, step.2),
    {
        self.lemma_children();
        self.lemma_well_formed_flows_placed();
        self.lemma_endpoint_to_extend();
        let child = self.children()[i];
        let id = self.endpoint_to_extend()->0;
        self.lemma_candidate_stands_at_terminus(id);
        let f = self.cells[id.index as int].flow_id->0;
        let e = self.terminus_at(id);
        let at = self.endpoint(f.index as int, e);
        assert(self.moves_to(child, f, e));
        let k = choose|k: int|
            0 <= k < self.degree(at) && self.is_open(#[trigger] self.neighbor(at, k)) && child == self.extend(
                f,
                e,
                self.cells[at].neighbors[k],
            );
        let n = self.cells[at].neighbors[k];
        assert(n.index == self.neighbor(at, k));
        assert(self.adjacent(at, n.index as int));
        (f, e, n)
    }

    /// No complete state follows from a doomed state.
    pub proof fn lemma_doomed_is_final(self, target: PuzzleView, steps: nat)
        requires
            self.well_formed(),
            self.doomed(),
            self.follows(target, steps),
        ensures
            !target.is_complete(),
        decreases steps,
    {
        let i = choose|i: int|
            0 <= i < self.children().len() && (if steps == 1 {
                #[trigger] self.children()[i] == target
            } else {
                self.children()[i].follows(target, (steps - 1) as nat)
            });
        let child = self.children()[i];
        let (f, e, n) = self.lemma_child_is_legal_move(i);
        self.lemma_move_facts(f, e, n);
        self.lemma_doomed_persists(f, e, n);
        if steps == 1 {
            child.lemma_doomed_is_incomplete();
        } else {
            child.lemma_doomed_is_final(target, (steps - 1) as nat);
        }
    }

    /// Pruning is sound: from a well-formed state that the feasibility
    /// analysis rules out for any reason but a pool, no sequence of moves of
    /// the move generator arrives at a complete state.
    pub proof fn lemma_pruning_sound(self, target: PuzzleView, steps: nat)
        requires
            self.well_formed(),
            self.solvability() != SOLVABLE,
            self.solvability() != UNSOLVABLE_POOLS,
            self.follows(target, steps),
        ensures
            !target.is_complete(),
    {
        self.lemma_children();
        if self.solvability() != UNSOLVABLE_NO_CHILDREN {
            self.lemma_verdict_dooms();
            self.lemma_doomed_is_final(target, steps);
        }
    }
}

} // verus!
