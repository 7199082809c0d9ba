//! The search tree: which states follow from a state through moves that the
//! search keeps, and what it means for a state to have a solution.

use vstd::prelude::*;
use crate::ids::{BASE_SCORE, MAX_NEIGHBORS, SOLVABLE};
use crate::model::PuzzleView;

verus! {

impl PuzzleView {
    /// The heuristic score: the base, less the open cells, plus two for each
    /// complete flow, less the number of successor states.
    pub open spec fn score(self) -> int {
        BASE_SCORE - self.num_open_cells() + 2 * self.num_complete() - self.num_possible_children()
    }

    /// The search goes on from this state: it is not complete, and the
    /// feasibility analysis passes it.
    pub open spec fn kept(self) -> bool {
        !self.is_complete() && self.solvability() == SOLVABLE
    }

    /// `target` follows from this state in exactly `steps` moves, and every
    /// state strictly between the two is kept.
    pub open spec fn leads_to(self, target: PuzzleView, steps: nat) -> bool
        decreases steps,
    {
        steps > 0 && exists|i: int|
            0 <= i < self.children().len() && (if steps == 1 {
                #[trigger] self.children()[i] == target
            } else {
                self.children()[i].kept() && self.children()[i].leads_to(target, (steps - 1) as nat)
            })
    }

    /// `target` follows from this state in one move or more, through kept
    /// states.
    pub open spec fn reaches(self, target: PuzzleView) -> bool {
        exists|steps: nat| self.leads_to(target, steps)
    }

    /// Some complete state follows from this one.
    pub open spec fn has_solution(self) -> bool {
        exists|target: PuzzleView| self.reaches(target) && target.is_complete()
    }

    /// A well-formed state with so few open cells that its score cannot
    /// fall below zero, nor that of any state that follows from it.
    pub open spec fn searchable(self) -> bool {
        self.well_formed() && self.num_open_cells() + MAX_NEIGHBORS <= BASE_SCORE
    }

    // ----- facts about the search tree -----

    /// The score of a searchable state can be computed in a `u64`, step by
    /// step, without falling below zero.
    pub proof fn lemma_searchable_score(self)
        requires
            self.searchable(),
        ensures
            self.num_open_cells() <= BASE_SCORE,
            BASE_SCORE + 2 * self.num_complete() <= u64::MAX,
            self.num_possible_children() <= BASE_SCORE - self.num_open_cells() + 2 * self.num_complete(),
            0 <= self.score() <= u64::MAX,
    {
        self.lemma_open_cells_upto(self.cells.len() as int);
        self.lemma_complete_upto(self.flows.len() as int);
        self.lemma_flows_at_most_cells();
        self.lemma_children();
    }

    /// A state reaches each of its successors.
    pub proof fn lemma_reaches_child(self, i: int)
        requires
            0 <= i < self.children().len(),
        ensures
            self.reaches(self.children()[i]),
    {
        assert(self.leads_to(self.children()[i], 1));
    }

    /// What a kept successor reaches, the state reaches too.
    pub proof fn lemma_reaches_through_child(self, i: int, target: PuzzleView)
        requires
            0 <= i < self.children().len(),
            self.children()[i].kept(),
            self.children()[i].reaches(target),
        ensures
            self.reaches(target),
    {
        let steps = choose|steps: nat| self.children()[i].leads_to(target, steps);
        assert(self.leads_to(target, steps + 1));
    }

    /// What a state reaches follows from one of its successors: it is that
    /// successor, or the successor is kept and reaches it.
    pub proof fn lemma_reaches_unfold(self, target: PuzzleView)
        requires
            self.reaches(target),
        ensures
            exists|i: int|
                0 <= i < self.children().len() && (#[trigger] self.children()[i] == target || (
                self.children()[i].kept() && self.children()[i].reaches(target))),
    {
        let steps = choose|steps: nat| self.leads_to(target, steps);
        let i = choose|i: int|
            0 <= i < self.children().len() && (if steps == 1 {
                #[trigger] self.children()[i] == target
            } else {
                self.children()[i].kept() && self.children()[i].leads_to(target, (steps - 1) as nat)
            });
        if steps != 1 {
            assert(self.children()[i].reaches(target));
        }
    }

    /// While every one of the first `n` flows is complete, none of their
    /// termini is listed for extension.
    pub proof fn lemma_no_incomplete_endpoints(self, n: int)
        requires
            0 <= n,
            forall|f: int| 0 <= f < n ==> #[trigger] self.flow_complete(f),
        ensures
            self.incomplete_endpoints_upto(n).len() == 0,
        decreases n,
    {
        if n > 0 {
            self.lemma_no_incomplete_endpoints(n - 1);
            assert(self.flow_complete(n - 1));
        }
    }

    /// Nothing follows from a complete state.
    pub proof fn lemma_complete_is_final(self)
        requires
            self.is_complete(),
        ensures
            self.children().len() == 0,
            forall|target: PuzzleView| !self.reaches(target),
            !self.has_solution(),
    {
        assert forall|f: int| 0 <= f < self.flows.len() implies #[trigger] self.flow_complete(f) by {
            assert(self.has_flow(f));
        }
        self.lemma_no_incomplete_endpoints(self.flows.len() as int);
        assert forall|target: PuzzleView| !self.reaches(target) by {
            if self.reaches(target) {
                self.lemma_reaches_unfold(target);
            }
        }
    }

    /// A state has a solution exactly when one of its successors is complete,
    /// or is kept and has a solution itself.
    pub proof fn lemma_has_solution_by_children(self)
        ensures
            self.has_solution() <==> exists|i: int|
                0 <= i < self.children().len() && ((#[trigger] self.children()[i]).is_complete() || (
                self.children()[i].kept() && self.children()[i].has_solution())),
    {
        if self.has_solution() {
            let target = choose|target: PuzzleView| self.reaches(target) && target.is_complete();
            self.lemma_reaches_unfold(target);
            let i = choose|i: int|
                0 <= i < self.children().len() && (#[trigger] self.children()[i] == target || (
                self.children()[i].kept() && self.children()[i].reaches(target)));
            assert(self.children()[i].is_complete() || (self.children()[i].kept()
                && self.children()[i].has_solution()));
        }
        if exists|i: int|
            0 <= i < self.children().len() && ((#[trigger] self.children()[i]).is_complete() || (
            self.children()[i].kept() && self.children()[i].has_solution())) {
            let i = choose|i: int|
                0 <= i < self.children().len() && ((#[trigger] self.children()[i]).is_complete() || (
                self.children()[i].kept() && self.children()[i].has_solution()));
            let child = self.children()[i];
            if child.is_complete() {
                self.lemma_reaches_child(i);
            } else {
                let target = choose|target: PuzzleView| child.reaches(target) && target.is_complete();
                self.lemma_reaches_through_child(i, target);
            }
        }
    }

    /// A state that leads to a kept state leads to each successor of that
    /// state in one step more.
    pub proof fn lemma_leads_to_append(self, mid: PuzzleView, steps: nat, i: int)
        requires
            self.leads_to(mid, steps),
            mid.kept(),
            0 <= i < mid.children().len(),
        ensures
            self.leads_to(mid.children()[i], steps + 1),
        decreases steps,
    {
        let j = choose|j: int|
            0 <= j < self.children().len() && (if steps == 1 {
                #[trigger] self.children()[j] == mid
            } else {
                self.children()[j].kept() && self.children()[j].leads_to(mid, (steps - 1) as nat)
            });
        if steps == 1 {
            assert(mid.leads_to(mid.children()[i], 1));
            assert(self.children()[j].kept() && self.children()[j].leads_to(mid.children()[i], 1));
        } else {
            self.children()[j].lemma_leads_to_append(mid, (steps - 1) as nat, i);
        }
        assert(self.leads_to(mid.children()[i], steps + 1));
    }

    /// A state that reaches a kept state reaches each of its successors.
    pub proof fn lemma_reaches_append(self, mid: PuzzleView, i: int)
        requires
            self.reaches(mid),
            mid.kept(),
            0 <= i < mid.children().len(),
        ensures
            self.reaches(mid.children()[i]),
    {
        let steps = choose|steps: nat| self.leads_to(mid, steps);
        self.lemma_leads_to_append(mid, steps, i);
    }

    /// Whatever a searchable state reaches is searchable, and a state of the
    /// same board with fewer open cells.
    pub proof fn lemma_leads_to_searchable(self, target: PuzzleView, steps: nat)
        requires
            self.searchable(),
            self.leads_to(target, steps),
        ensures
            target.searchable(),
            target.same_board(self),
            target.num_open_cells() + steps == self.num_open_cells(),
        decreases steps,
    {
        self.lemma_children();
        let j = choose|j: int|
            0 <= j < self.children().len() && (if steps == 1 {
                #[trigger] self.children()[j] == target
            } else {
                self.children()[j].kept() && self.children()[j].leads_to(target, (steps - 1) as nat)
            });
        let child = self.children()[j];
        if steps != 1 {
            child.lemma_leads_to_searchable(target, (steps - 1) as nat);
            assert(target.same_board(self));
        }
    }
}

} // verus!
