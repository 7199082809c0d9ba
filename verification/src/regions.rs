//! Regions: the maximal sets of open cells that are reachable from one
//! another through open cells only, and what it means for a region to be
//! claimed by a flow.

use vstd::prelude::*;
use crate::ids::{
    SOLVABLE, UNSOLVABLE_DEAD_ENDS, UNSOLVABLE_NO_CHILDREN, UNSOLVABLE_PATH_BLOCKED, UNSOLVABLE_POOLS,
    UNSOLVABLE_REGION,
};
use crate::model::PuzzleView;

verus! {

impl PuzzleView {
    /// `path` is a walk over open cells, each adjacent to the next.
    pub open spec fn open_walk(self, path: Seq<int>) -> bool {
        &&& path.len() > 0
        &&& forall|i: int| 0 <= i < path.len() ==> self.is_open(#[trigger] path[i])
        &&& forall|i: int| 0 <= i < path.len() - 1 ==> self.adjacent(#[trigger] path[i], path[i + 1])
    }

    /// `path` is a walk over open cells from `a` to `b`.
    pub open spec fn walk_between(self, path: Seq<int>, a: int, b: int) -> bool {
        self.open_walk(path) && path[0] == a && path[path.len() - 1] == b
    }

    /// The open cells `a` and `b` lie in one region.
    pub open spec fn connected(self, a: int, b: int) -> bool {
        exists|path: Seq<int>| #[trigger] self.walk_between(path, a, b)
    }

    /// The region of the open cell `r` touches the cell `c`: some neighbor of
    /// `c` lies in it.
    pub open spec fn touches(self, c: int, r: int) -> bool {
        exists|k: int| 0 <= k < self.degree(c) && self.connected(r, #[trigger] self.neighbor(c, k))
    }

    /// The flow `f` is incomplete and the region of `r` touches both of its
    /// termini.
    pub open spec fn claims(self, f: int, r: int) -> bool {
        &&& self.has_flow(f)
        &&& !self.flow_complete(f)
        &&& self.touches(self.endpoint(f, 0), r)
        &&& self.touches(self.endpoint(f, 1), r)
    }

    /// The open cell `r` lies in a region that no incomplete flow claims.
    pub open spec fn orphaned(self, r: int) -> bool {
        self.is_open(r) && forall|f: int| !#[trigger] self.claims(f, r)
    }

    /// The flow `f` is incomplete and no region touches both of its termini.
    pub open spec fn blocked(self, f: int) -> bool {
        &&& self.has_flow(f)
        &&& !self.flow_complete(f)
        &&& forall|r: int| !#[trigger] self.claims(f, r)
    }

    /// `labels` names the regions: every open cell carries the index of an
    /// open cell of its own region, and two open cells carry the same index
    /// exactly when they lie in one region.
    pub open spec fn region_labels(self, labels: Seq<usize>) -> bool {
        &&& labels.len() == self.cells.len()
        &&& forall|a: int| self.is_open(a) ==> self.connected(a, #[trigger] labels[a] as int)
        &&& forall|a: int, b: int|
            self.is_open(a) && self.is_open(b) ==> (labels[a] == labels[b] <==> #[trigger] self.connected(
                a,
                b,
            ))
    }

    // ----- the local checks and the verdict -----

    /// Some neighbor of `c` is marked as an endpoint.
    pub open spec fn beside_endpoint(self, c: int) -> bool {
        exists|k: int| 0 <= k < self.degree(c) && self.cells[#[trigger] self.neighbor(c, k)].is_endpoint
    }

    /// `c` is an open cell with exactly one open neighbor and no endpoint
    /// beside it: no flow can pass through it, and none can end in it.
    pub open spec fn dead_end(self, c: int) -> bool {
        self.is_open(c) && self.num_open_neighbors(c) == 1 && !self.beside_endpoint(c)
    }

    /// `c` is an occupied cell with at most one open neighbor and more than
    /// two neighbors that its own flow occupies.
    pub open spec fn pool(self, c: int) -> bool {
        &&& self.has_cell(c)
        &&& !self.is_open(c)
        &&& self.num_open_neighbors(c) <= 1
        &&& self.same_flow_neighbors_upto(c, self.degree(c)) > 2
    }

    /// The verdict of the feasibility analysis: the first check that
    /// triggers, in the order no move, dead end, pool, orphaned region,
    /// blocked flow. The first three are made on square boards only.
    pub open spec fn solvability(self) -> i16 {
        if !self.is_hex && self.num_possible_children() == 0 {
            UNSOLVABLE_NO_CHILDREN
        } else if !self.is_hex && exists|c: int| self.dead_end(c) {
            UNSOLVABLE_DEAD_ENDS
        } else if !self.is_hex && exists|c: int| self.pool(c) {
            UNSOLVABLE_POOLS
        } else if exists|r: int| self.orphaned(r) {
            UNSOLVABLE_REGION
        } else if exists|f: int| self.blocked(f) {
            UNSOLVABLE_PATH_BLOCKED
        } else {
            SOLVABLE
        }
    }

    // ----- facts about regions -----

    /// Only open cells are connected.
    pub proof fn lemma_connected_open(self, a: int, b: int)
        requires
            self.connected(a, b),
        ensures
            self.is_open(a),
            self.is_open(b),
    {
        let path = choose|path: Seq<int>| #[trigger] self.walk_between(path, a, b);
        assert(self.is_open(path[0]));
        assert(self.is_open(path[path.len() - 1]));
    }

    /// An open cell lies in its own region.
    pub proof fn lemma_connected_refl(self, a: int)
        requires
            self.is_open(a),
        ensures
            self.connected(a, a),
    {
        assert(self.walk_between(seq![a], a, a));
    }

    /// Two adjacent open cells lie in one region.
    pub proof fn lemma_connected_step(self, a: int, b: int)
        requires
            self.is_open(a),
            self.is_open(b),
            self.adjacent(a, b),
        ensures
            self.connected(a, b),
    {
        let path = seq![a, b];
        assert forall|i: int| 0 <= i < path.len() - 1 implies self.adjacent(#[trigger] path[i], path[i + 1]) by {
            assert(i == 0);
        }
        assert(self.walk_between(path, a, b));
    }

    /// Lying in one region is symmetric where adjacency is.
    pub proof fn lemma_connected_sym(self, a: int, b: int)
        requires
            self.symmetric(),
            self.connected(a, b),
        ensures
            self.connected(b, a),
    {
        let path = choose|path: Seq<int>| #[trigger] self.walk_between(path, a, b);
        let back = Seq::new(path.len(), |i: int| path[path.len() - 1 - i]);
        assert forall|i: int| 0 <= i < back.len() implies self.is_open(#[trigger] back[i]) by {
            assert(self.is_open(path[path.len() - 1 - i]));
        }
        assert forall|i: int| 0 <= i < back.len() - 1 implies self.adjacent(#[trigger] back[i], back[i + 1]) by {
            let j = path.len() - 2 - i;
            assert(self.adjacent(path[j], path[j + 1]));
        }
        assert(self.walk_between(back, b, a));
    }

    /// Lying in one region is transitive.
    pub proof fn lemma_connected_trans(self, a: int, b: int, c: int)
        requires
            self.connected(a, b),
            self.connected(b, c),
        ensures
            self.connected(a, c),
    {
        let first = choose|path: Seq<int>| #[trigger] self.walk_between(path, a, b);
        let second = choose|path: Seq<int>| #[trigger] self.walk_between(path, b, c);
        let n = first.len() as int;
        let path = first + second.subrange(1, second.len() as int);
        assert forall|i: int| 0 <= i < path.len() implies self.is_open(#[trigger] path[i]) by {
            if i < n {
                assert(self.is_open(first[i]));
            } else {
                assert(self.is_open(second[i - n + 1]));
            }
        }
        assert forall|i: int| 0 <= i < path.len() - 1 implies self.adjacent(#[trigger] path[i], path[i + 1]) by {
            if i < n - 1 {
                assert(self.adjacent(first[i], first[i + 1]));
            } else {
                let j = i - n + 1;
                assert(self.adjacent(second[j], second[j + 1]));
                if i == n - 1 {
                    assert(path[i] == first[n - 1]);
                }
            }
        }
        assert(self.walk_between(path, a, c));
    }

    /// Labels that agree across every pair of adjacent open cells agree
    /// across every walk.
    pub proof fn lemma_walk_keeps_label(self, labels: Seq<usize>, path: Seq<int>)
        requires
            self.open_walk(path),
            forall|c: int, k: int|
                self.is_open(c) && 0 <= k < self.degree(c) && self.is_open(#[trigger] self.neighbor(c, k))
                    ==> labels[c] == labels[self.neighbor(c, k)],
        ensures
            labels[path[0]] == labels[path[path.len() - 1]],
        decreases path.len(),
    {
        if path.len() > 1 {
            let shorter = path.subrange(0, path.len() - 1);
            assert forall|i: int| 0 <= i < shorter.len() implies self.is_open(#[trigger] shorter[i]) by {
                assert(self.is_open(path[i]));
            }
            assert forall|i: int| 0 <= i < shorter.len() - 1 implies self.adjacent(
                #[trigger] shorter[i],
                shorter[i + 1],
            ) by {
                assert(self.adjacent(path[i], path[i + 1]));
            }
            self.lemma_walk_keeps_label(labels, shorter);
            let a = path[path.len() - 2];
            let b = path[path.len() - 1];
            assert(self.adjacent(a, b));
            assert(self.is_open(a) && self.is_open(b));
            let k = choose|k: int|
                0 <= k < self.cells[a].neighbors.len() && (#[trigger] self.cells[a].neighbors[k]).index == b;
            assert(self.neighbor(a, k) == b);
        }
    }

    /// Labels that name an open cell of the own region and agree across every
    /// pair of adjacent open cells name the regions.
    pub proof fn lemma_stable_labels_name_regions(self, labels: Seq<usize>)
        requires
            self.symmetric(),
            labels.len() == self.cells.len(),
            forall|a: int| self.is_open(a) ==> self.connected(a, #[trigger] labels[a] as int),
            forall|c: int, k: int|
                self.is_open(c) && 0 <= k < self.degree(c) && self.is_open(#[trigger] self.neighbor(c, k))
                    ==> labels[c] == labels[self.neighbor(c, k)],
        ensures
            self.region_labels(labels),
    {
        assert forall|a: int, b: int| self.is_open(a) && self.is_open(b) implies (labels[a] == labels[b]
            <==> #[trigger] self.connected(a, b)) by {
            if self.connected(a, b) {
                let path = choose|path: Seq<int>| #[trigger] self.walk_between(path, a, b);
                self.lemma_walk_keeps_label(labels, path);
            }
            if labels[a] == labels[b] {
                let l = labels[a] as int;
                assert(self.connected(a, l));
                assert(self.connected(b, labels[b] as int));
                self.lemma_connected_sym(b, l);
                self.lemma_connected_trans(a, l, b);
            }
        }
    }

    /// Whether a region touches a cell does not depend on the cell that
    /// stands for the region.
    pub proof fn lemma_touches_by_region(self, c: int, r: int, s: int)
        requires
            self.connected(s, r),
            self.touches(c, r),
        ensures
            self.touches(c, s),
    {
        let k = choose|k: int| 0 <= k < self.degree(c) && self.connected(r, #[trigger] self.neighbor(c, k));
        self.lemma_connected_trans(s, r, self.neighbor(c, k));
    }
}

} // verus!
