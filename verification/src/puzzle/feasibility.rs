//! The feasibility analysis: the checks that tell a state from which no
//! solution can follow, cheapest first.

use vstd::prelude::*;
use crate::ids::{
    CellId, FlowId, SOLVABLE, UNSOLVABLE_DEAD_ENDS, UNSOLVABLE_NO_CHILDREN, UNSOLVABLE_PATH_BLOCKED,
    UNSOLVABLE_POOLS, UNSOLVABLE_REGION,
};
use crate::puzzle::Puzzle;

verus! {

/// The sum of the entries of `labels`.
spec fn label_sum(labels: Seq<usize>) -> nat
    decreases labels.len(),
{
    if labels.len() == 0 {
        0
    } else {
        label_sum(labels.drop_last()) + labels.last() as nat
    }
}

/// Replacing one entry changes the sum by the difference.
proof fn lemma_label_sum_update(labels: Seq<usize>, i: int, v: usize)
    requires
        0 <= i < labels.len(),
    ensures
        label_sum(labels.update(i, v)) == label_sum(labels) - labels[i] + v,
    decreases labels.len(),
{
    let updated = labels.update(i, v);
    if i == labels.len() - 1 {
        assert(updated.drop_last() =~= labels.drop_last());
    } else {
        assert(updated.drop_last() =~= labels.drop_last().update(i, v));
        lemma_label_sum_update(labels.drop_last(), i, v);
    }
}

impl Puzzle {
    /// Whether the cell `id` is open.
    pub(crate) fn is_open_cell(&self, id: CellId) -> (res: bool)
        requires
            self@.has_cell(id.index as int),
        ensures
            res == self@.is_open(id.index as int),
    {
        !self.get_cell(id).unwrap().is_occupied()
    }

    /// Whether some neighbor of the cell `id` is marked as an endpoint.
    fn has_endpoint_neighbor(&self, id: CellId) -> (res: bool)
        requires
            self@.links_valid(),
            self@.has_cell(id.index as int),
        ensures
            res == self@.beside_endpoint(id.index as int),
    {
        let cell = self.get_cell(id).unwrap();
        let ghost c = id.index as int;
        let mut k: usize = 0;
        while k < cell.neighbors.len()
            invariant
                k <= cell.neighbors.len(),
                self@.links_valid(),
                self@.has_cell(c),
                c == id.index as int,
                cell@ == self@.cells[c],
                forall|j: int| 0 <= j < k ==> !self@.cells[#[trigger] self@.neighbor(c, j)].is_endpoint,
            decreases cell.neighbors.len() - k,
        {
            let n_id = cell.neighbors[k];
            assert(n_id.index == self@.neighbor(c, k as int));
            assert(self@.has_cell(self@.neighbor(c, k as int)));
            if self.get_cell(n_id).unwrap().is_endpoint {
                assert(self@.cells[self@.neighbor(c, k as int)].is_endpoint);
                return true;
            }
            k += 1;
        }
        false
    }

    /// The number of neighbors of the occupied cell `id` that its own flow
    /// occupies.
    fn same_flow_neighbors_of(&self, id: CellId) -> (res: usize)
        requires
            self@.links_valid(),
            self@.has_cell(id.index as int),
            !self@.is_open(id.index as int),
        ensures
            res == self@.same_flow_neighbors_upto(id.index as int, self@.degree(id.index as int)),
    {
        let cell = self.get_cell(id).unwrap();
        let ghost c = id.index as int;
        let mut same_flow_count: usize = 0;
        let mut k: usize = 0;
        while k < cell.neighbors.len()
            invariant
                k <= cell.neighbors.len(),
                self@.links_valid(),
                self@.has_cell(c),
                !self@.is_open(c),
                c == id.index as int,
                cell@ == self@.cells[c],
                same_flow_count <= k,
                same_flow_count == self@.same_flow_neighbors_upto(c, k as int),
            decreases cell.neighbors.len() - k,
        {
            let n_id = cell.neighbors[k];
            assert(n_id.index == self@.neighbor(c, k as int));
            assert(self@.has_cell(self@.neighbor(c, k as int)));
            let neighbor = self.get_cell(n_id).unwrap();
            if neighbor.is_occupied() && neighbor.flow_id.unwrap().index == cell.flow_id.unwrap().index {
                same_flow_count += 1;
            }
            k += 1;
        }
        same_flow_count
    }

    /// Whether some open cell has exactly one open neighbor and no endpoint
    /// beside it.
    fn has_dead_end(&self) -> (res: bool)
        requires
            self@.links_valid(),
        ensures
            res == exists|c: int| self@.dead_end(c),
    {
        let mut i: usize = 0;
        while i < self.num_cells()
            invariant
                i <= self@.cells.len(),
                self@.links_valid(),
                forall|c: int| 0 <= c < i ==> !self@.dead_end(c),
            decreases self@.cells.len() - i,
        {
            let id = CellId { index: i };
            if self.is_open_cell(id) && self.open_neighbors_of(id) == 1 && !self.has_endpoint_neighbor(id) {
                assert(self@.dead_end(i as int));
                return true;
            }
            i += 1;
        }
        false
    }

    /// Whether some occupied cell with at most one open neighbor has more
    /// than two neighbors of its own flow.
    fn has_pool(&self) -> (res: bool)
        requires
            self@.links_valid(),
        ensures
            res == exists|c: int| self@.pool(c),
    {
        let mut i: usize = 0;
        while i < self.num_cells()
            invariant
                i <= self@.cells.len(),
                self@.links_valid(),
                forall|c: int| 0 <= c < i ==> !self@.pool(c),
            decreases self@.cells.len() - i,
        {
            let id = CellId { index: i };
            if !self.is_open_cell(id) && self.open_neighbors_of(id) <= 1 && self.same_flow_neighbors_of(id) > 2 {
                assert(self@.pool(i as int));
                return true;
            }
            i += 1;
        }
        false
    }

    /// Names the regions of the board: the answer gives every open cell the
    /// least index of an open cell of its region.
    fn label_regions(&self) -> (labels: Vec<usize>)
        requires
            self@.links_valid(),
            self@.symmetric(),
        ensures
            self@.region_labels(labels@),
    {
        let n = self.num_cells();
        let mut labels: Vec<usize> = Vec::new();
        let mut i: usize = 0;
        while i < n
            invariant
                i <= n,
                labels@.len() == i,
                forall|j: int| 0 <= j < i ==> #[trigger] labels@[j] == j,
            decreases n - i,
        {
            labels.push(i);
            i += 1;
        }
        proof {
            assert forall|a: int| self@.is_open(a) implies self@.connected(a, #[trigger] labels@[a] as int) by {
                self@.lemma_connected_refl(a);
            }
        }
        // Every open cell takes over the least label among its open
        // neighbors, until no label changes any more.
        let mut changed = true;
        while changed
            invariant
                n == self@.cells.len(),
                labels@.len() == n,
                self@.links_valid(),
                forall|a: int| self@.is_open(a) ==> self@.connected(a, #[trigger] labels@[a] as int),
                !changed ==> forall|c: int, k: int|
                    self@.is_open(c) && 0 <= k < self@.degree(c) && self@.is_open(
                        #[trigger] self@.neighbor(c, k),
                    ) ==> labels@[c] <= labels@[self@.neighbor(c, k)],
            decreases label_sum(labels@), (if changed { 1int } else { 0int }),
        {
            changed = false;
            let ghost before = labels@;
            let mut c: usize = 0;
            while c < n
                invariant
                    c <= n,
                    n == self@.cells.len(),
                    labels@.len() == n,
                    self@.links_valid(),
                    forall|a: int| self@.is_open(a) ==> self@.connected(a, #[trigger] labels@[a] as int),
                    label_sum(labels@) <= label_sum(before),
                    changed ==> label_sum(labels@) < label_sum(before),
                    !changed ==> forall|a: int, k: int|
                        0 <= a < c && self@.is_open(a) && 0 <= k < self@.degree(a) && self@.is_open(
                            #[trigger] self@.neighbor(a, k),
                        ) ==> labels@[a] <= labels@[self@.neighbor(a, k)],
                decreases n - c,
            {
                let id = CellId { index: c };
                if self.is_open_cell(id) {
                    let cell = self.get_cell(id).unwrap();
                    let mut k: usize = 0;
                    while k < cell.neighbors.len()
                        invariant
                            k <= cell.neighbors.len(),
                            c < n,
                            n == self@.cells.len(),
                            labels@.len() == n,
                            self@.links_valid(),
                            self@.is_open(c as int),
                            cell@ == self@.cells[c as int],
                            forall|a: int|
                                self@.is_open(a) ==> self@.connected(a, #[trigger] labels@[a] as int),
                            label_sum(labels@) <= label_sum(before),
                            changed ==> label_sum(labels@) < label_sum(before),
                            !changed ==> forall|a: int, j: int|
                                0 <= a < c && self@.is_open(a) && 0 <= j < self@.degree(a) && self@.is_open(
                                    #[trigger] self@.neighbor(a, j),
                                ) ==> labels@[a] <= labels@[self@.neighbor(a, j)],
                            !changed ==> forall|j: int|
                                0 <= j < k && self@.is_open(#[trigger] self@.neighbor(c as int, j))
                                    ==> labels@[c as int] <= labels@[self@.neighbor(c as int, j)],
                        decreases cell.neighbors.len() - k,
                    {
                        let n_id = cell.neighbors[k];
                        assert(n_id.index == self@.neighbor(c as int, k as int));
                        assert(self@.has_cell(self@.neighbor(c as int, k as int)));
                        if self.is_open_cell(n_id) && labels[n_id.index] < labels[c] {
                            proof {
                                let m = n_id.index as int;
                                assert(self@.cells[c as int].neighbors[k as int].index == m);
                                assert(self@.adjacent(c as int, m));
                                self@.lemma_connected_step(c as int, m);
                                assert(self@.connected(m, labels@[m] as int));
                                self@.lemma_connected_trans(c as int, m, labels@[m] as int);
                                lemma_label_sum_update(labels@, c as int, labels@[m]);
                            }
                            let least = labels[n_id.index];
                            labels.set(c, least);
                            changed = true;
                        }
                        k += 1;
                    }
                }
                c += 1;
            }
        }
        proof {
            assert forall|c: int, k: int|
                self@.is_open(c) && 0 <= k < self@.degree(c) && self@.is_open(
                    #[trigger] self@.neighbor(c, k),
                ) implies labels@[c] == labels@[self@.neighbor(c, k)] by {
                let m = self@.neighbor(c, k);
                assert(self@.cells[c].neighbors[k].index == m);
                assert(self@.adjacent(c, m));
                assert(self@.adjacent(m, c));
                let back = choose|j: int|
                    0 <= j < self@.cells[m].neighbors.len() && (#[trigger] self@.cells[m].neighbors[j]).index
                        == c;
                assert(self@.neighbor(m, back) == c);
            }
            self@.lemma_stable_labels_name_regions(labels@);
        }
        labels
    }

    /// Whether the region that the open cell `label` stands for touches the
    /// cell `id`.
    fn touches_region(&self, id: CellId, labels: &Vec<usize>, label: usize) -> (res: bool)
        requires
            self@.links_valid(),
            self@.region_labels(labels@),
            self@.has_cell(id.index as int),
            self@.is_open(label as int),
            labels@[label as int] == label,
        ensures
            res == self@.touches(id.index as int, label as int),
    {
        let cell = self.get_cell(id).unwrap();
        let ghost c = id.index as int;
        let mut k: usize = 0;
        while k < cell.neighbors.len()
            invariant
                k <= cell.neighbors.len(),
                self@.links_valid(),
                self@.region_labels(labels@),
                self@.has_cell(c),
                c == id.index as int,
                cell@ == self@.cells[c],
                self@.is_open(label as int),
                labels@[label as int] == label,
                forall|j: int| 0 <= j < k ==> !self@.connected(label as int, #[trigger] self@.neighbor(c, j)),
            decreases cell.neighbors.len() - k,
        {
            let n_id = cell.neighbors[k];
            let ghost m = self@.neighbor(c, k as int);
            assert(n_id.index == m);
            assert(self@.has_cell(m));
            if self.is_open_cell(n_id) && labels[n_id.index] == label {
                assert(self@.connected(label as int, m));
                return true;
            }
            proof {
                if self@.connected(label as int, m) {
                    self@.lemma_connected_open(label as int, m);
                }
            }
            k += 1;
        }
        false
    }

    /// Whether the flow `f` is complete.
    fn is_flow_complete(&self, f: usize) -> (res: bool)
        requires
            self@.flows_placed(),
            self@.has_flow(f as int),
        ensures
            res == self@.flow_complete(f as int),
    {
        let flow = self.get_flow(FlowId { index: f }).unwrap();
        assert(flow@ == self@.flows[f as int]);
        flow.is_complete(self)
    }

    /// Terminus `e` (0 or 1) of the flow `f`.
    pub(crate) fn terminus(&self, f: usize, e: usize) -> (res: CellId)
        requires
            self@.well_formed(),
            self@.has_flow(f as int),
            e < 2,
        ensures
            res == self@.flows[f as int].endpoints[e as int]->0,
            res.index == self@.endpoint(f as int, e as int),
            self@.has_cell(res.index as int),
    {
        let flow = self.get_flow(FlowId { index: f }).unwrap();
        assert(self@.flow_anchored(f as int));
        flow.get_endpoint(e)
    }

    /// Whether some incomplete flow claims the region that the open cell
    /// `label` stands for.
    fn is_claimed(&self, labels: &Vec<usize>, label: usize) -> (res: bool)
        requires
            self@.well_formed(),
            self@.region_labels(labels@),
            self@.is_open(label as int),
            labels@[label as int] == label,
        ensures
            res == exists|f: int| self@.claims(f, label as int),
    {
        proof {
            self@.lemma_well_formed_flows_placed();
        }
        let mut f: usize = 0;
        while f < self.flows.len()
            invariant
                f <= self@.flows.len(),
                self.flows@.len() == self@.flows.len(),
                self@.well_formed(),
                self@.flows_placed(),
                self@.region_labels(labels@),
                self@.is_open(label as int),
                labels@[label as int] == label,
                forall|g: int| 0 <= g < f ==> !self@.claims(g, label as int),
            decreases self@.flows.len() - f,
        {
            if !self.is_flow_complete(f) && self.touches_region(self.terminus(f, 0), labels, label)
                && self.touches_region(self.terminus(f, 1), labels, label) {
                assert(self@.claims(f as int, label as int));
                return true;
            }
            f += 1;
        }
        false
    }

    /// Whether some region is claimed by no incomplete flow.
    fn has_orphaned_region(&self, labels: &Vec<usize>) -> (res: bool)
        requires
            self@.well_formed(),
            self@.region_labels(labels@),
        ensures
            res == exists|r: int| self@.orphaned(r),
    {
        let mut i: usize = 0;
        while i < self.num_cells()
            invariant
                i <= self@.cells.len(),
                self@.well_formed(),
                self@.region_labels(labels@),
                forall|r: int|
                    0 <= r < i && self@.is_open(r) && #[trigger] labels@[r] == r ==> exists|f: int|
                        self@.claims(f, r),
            decreases self@.cells.len() - i,
        {
            // One cell stands for each region: the one that carries its own
            // index.
            if self.is_open_cell(CellId { index: i }) && labels[i] == i && !self.is_claimed(labels, i) {
                assert(self@.orphaned(i as int));
                return true;
            }
            i += 1;
        }
        proof {
            assert forall|r: int| !self@.orphaned(r) by {
                if self@.is_open(r) {
                    let l = labels@[r] as int;
                    assert(self@.connected(r, l));
                    self@.lemma_connected_open(r, l);
                    self@.lemma_connected_refl(l);
                    assert(self@.connected(l, l));
                    assert(labels@[l] == l);
                    let f = choose|f: int| self@.claims(f, l);
                    self@.lemma_touches_by_region(self@.endpoint(f, 0), l, r);
                    self@.lemma_touches_by_region(self@.endpoint(f, 1), l, r);
                    assert(self@.claims(f, r));
                }
            }
        }
        false
    }

    /// Whether some region touches both termini of the incomplete flow `f`.
    fn shares_region(&self, labels: &Vec<usize>, f: usize) -> (res: bool)
        requires
            self@.well_formed(),
            self@.region_labels(labels@),
            self@.has_flow(f as int),
            !self@.flow_complete(f as int),
        ensures
            res == exists|r: int| self@.claims(f as int, r),
    {
        let first = self.terminus(f, 0);
        let second = self.terminus(f, 1);
        let cell = self.get_cell(first).unwrap();
        let ghost c = first.index as int;
        let ghost d = second.index as int;
        let mut k: usize = 0;
        while k < cell.neighbors.len()
            invariant
                k <= cell.neighbors.len(),
                self@.well_formed(),
                self@.region_labels(labels@),
                self@.has_flow(f as int),
                !self@.flow_complete(f as int),
                self@.has_cell(c),
                self@.has_cell(d),
                c == first.index as int,
                d == second.index as int,
                c == self@.endpoint(f as int, 0),
                d == self@.endpoint(f as int, 1),
                cell@ == self@.cells[c],
                forall|j: int|
                    0 <= j < k && self@.is_open(#[trigger] self@.neighbor(c, j)) ==> !self@.touches(
                        d,
                        self@.neighbor(c, j),
                    ),
            decreases cell.neighbors.len() - k,
        {
            let n_id = cell.neighbors[k];
            let ghost m = self@.neighbor(c, k as int);
            assert(n_id.index == m);
            assert(self@.has_cell(m));
            if self.is_open_cell(n_id) {
                let label = labels[n_id.index];
                proof {
                    let l = label as int;
                    assert(self@.connected(m, l));
                    self@.lemma_connected_open(m, l);
                    self@.lemma_connected_refl(l);
                    assert(self@.connected(l, l));
                    assert(labels@[l] == l);
                    self@.lemma_connected_sym(m, l);
                }
                if self.touches_region(second, labels, label) {
                    assert(self@.touches(c, label as int));
                    assert(self@.claims(f as int, label as int));
                    return true;
                }
                proof {
                    if self@.touches(d, m) {
                        self@.lemma_touches_by_region(d, m, label as int);
                    }
                }
            }
            k += 1;
        }
        proof {
            assert forall|r: int| !self@.claims(f as int, r) by {
                if self@.claims(f as int, r) {
                    let j = choose|j: int|
                        0 <= j < self@.degree(c) && self@.connected(r, #[trigger] self@.neighbor(c, j));
                    let m = self@.neighbor(c, j);
                    self@.lemma_connected_open(r, m);
                    self@.lemma_connected_sym(r, m);
                    self@.lemma_touches_by_region(d, r, m);
                }
            }
        }
        false
    }

    /// Whether the termini of some incomplete flow share no region.
    fn has_blocked_flow(&self, labels: &Vec<usize>) -> (res: bool)
        requires
            self@.well_formed(),
            self@.region_labels(labels@),
        ensures
            res == exists|f: int| self@.blocked(f),
    {
        proof {
            self@.lemma_well_formed_flows_placed();
        }
        let mut f: usize = 0;
        while f < self.flows.len()
            invariant
                f <= self@.flows.len(),
                self.flows@.len() == self@.flows.len(),
                self@.well_formed(),
                self@.flows_placed(),
                self@.region_labels(labels@),
                forall|g: int| 0 <= g < f ==> !self@.blocked(g),
            decreases self@.flows.len() - f,
        {
            if !self.is_flow_complete(f) && !self.shares_region(labels, f) {
                assert(self@.blocked(f as int));
                return true;
            }
            f += 1;
        }
        false
    }

    /// Whether a solution can still follow from this state, as far as the
    /// checks can tell: `SOLVABLE`, or the reason of the first check that
    /// rules a solution out.
    pub fn is_solvable(&self) -> (res: i16)
        requires
            self@.well_formed(),
        ensures
            res == self@.solvability(),
    {
        // The local checks rest on the shape of a square board.
        if !self.is_hex {
            if self.num_possible_children() == 0 {
                return UNSOLVABLE_NO_CHILDREN;
            }
            if self.has_dead_end() {
                return UNSOLVABLE_DEAD_ENDS;
            }
            if self.has_pool() {
                return UNSOLVABLE_POOLS;
            }
        }
        let labels = self.label_regions();
        if self.has_orphaned_region(&labels) {
            return UNSOLVABLE_REGION;
        }
        if self.has_blocked_flow(&labels) {
            return UNSOLVABLE_PATH_BLOCKED;
        }
        SOLVABLE
    }
}

} // verus!
