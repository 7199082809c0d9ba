//! Laws of the board model and the move generator, proved over the model.

use vstd::prelude::*;
use crate::layout::{is_link_char, link_at};
use crate::model::PuzzleView;
use crate::parser::{lemma_cell_at_in_range, lemma_wired_keeps_cells};

verus! {

impl PuzzleView {
    /// Exactly one cell is occupied in `child` that was open in this state,
    /// and every other cell is occupied by the same flow, or open, in both.
    pub open spec fn one_cell_entered(self, child: PuzzleView) -> bool {
        exists|n: int|
            {
                &&& #[trigger] self.is_open(n)
                &&& !child.is_open(n)
                &&& forall|c: int|
                    self.has_cell(c) && c != n ==> (#[trigger] child.cells[c]).flow_id
                        == self.cells[c].flow_id
            }
    }

    /// Exactly one terminus of one flow stands elsewhere in `child` than in
    /// this state.
    pub open spec fn one_terminus_moved(self, child: PuzzleView) -> bool {
        exists|f: int, e: int|
            {
                &&& self.has_flow(f)
                &&& 0 <= e < 2
                &&& #[trigger] child.endpoint(f, e) != self.endpoint(f, e)
                &&& forall|g: int, d: int|
                    self.has_flow(g) && 0 <= d < 2 && (g != f || d != e) ==> #[trigger] child.endpoint(g, d)
                        == self.endpoint(g, d)
            }
    }

    /// Adjacency is symmetric on every well-formed board: `a` lists `b` as
    /// a neighbor exactly when `b` lists `a`.
    pub proof fn lemma_adjacency_symmetric(self, a: int, b: int)
        requires
            self.well_formed(),
        ensures
            self.adjacent(a, b) <==> self.adjacent(b, a),
    {
    }

    /// Every successor that the move generator produces differs from its
    /// parent by a single step: one cell was entered, one terminus of one
    /// flow has moved, and the board is the same.
    pub proof fn lemma_single_step_diff(self, i: int)
        requires
            self.well_formed(),
            0 <= i < self.children().len(),
        ensures
            self.one_cell_entered(self.children()[i]),
            self.one_terminus_moved(self.children()[i]),
            self.children()[i].same_board(self),
    {
        let child = self.children()[i];
        let (f, e, n) = self.lemma_child_is_legal_move(i);
        let fi = f.index as int;
        self.lemma_move_facts(f, e, n);
        self.lemma_extend_keeps_board(f, e, n);
        assert(self.is_open(n.index as int) && !child.is_open(n.index as int));
        assert(child.endpoint(fi, e) != self.endpoint(fi, e));
    }

    /// A flow that is complete stays complete in every successor.
    pub proof fn lemma_child_keeps_complete_flows(self, i: int, g: int)
        requires
            self.well_formed(),
            0 <= i < self.children().len(),
            self.has_flow(g),
            self.flow_complete(g),
        ensures
            self.children()[i].flow_complete(g),
    {
        let (f, e, n) = self.lemma_child_is_legal_move(i);
        self.lemma_move_facts(f, e, n);
        assert(g != f.index);
    }

    /// Where every flow that is complete in this state is complete in
    /// `other`, `other` has at least as many complete flows among the first
    /// `n`.
    pub proof fn lemma_complete_upto_monotonic(self, other: PuzzleView, n: int)
        requires
            0 <= n <= self.flows.len(),
            forall|g: int| self.has_flow(g) && self.flow_complete(g) ==> #[trigger] other.flow_complete(g),
        ensures
            self.complete_upto(n) <= other.complete_upto(n),
        decreases n,
    {
        if n > 0 {
            self.lemma_complete_upto_monotonic(other, n - 1);
            if self.flow_complete(n - 1) {
                assert(self.has_flow(n - 1));
                assert(other.flow_complete(n - 1));
            }
        }
    }

    /// A successor never has fewer complete flows than its parent.
    pub proof fn lemma_completeness_monotonic(self, i: int)
        requires
            self.well_formed(),
            0 <= i < self.children().len(),
        ensures
            self.children()[i].num_complete() >= self.num_complete(),
    {
        let child = self.children()[i];
        self.lemma_children();
        assert forall|g: int| self.has_flow(g) && self.flow_complete(g) implies #[trigger] child.flow_complete(
            g,
        ) by {
            self.lemma_child_keeps_complete_flows(i, g);
        }
        self.lemma_complete_upto_monotonic(child, self.flows.len() as int);
    }

    /// Every neighbor entry names a cell of the board.
    pub open spec fn links_in_range(self) -> bool {
        forall|c: int, k: int|
            self.has_cell(c) && 0 <= k < self.degree(c) ==> self.has_cell(#[trigger] self.neighbor(c, k))
    }

    /// No cell has a neighbor.
    pub open spec fn unlinked(self) -> bool {
        forall|c: int| self.has_cell(c) ==> #[trigger] self.degree(c) == 0
    }

    /// Placing cells joins none.
    pub proof fn lemma_placed_unlinked(self, rows: Seq<Seq<char>>, r: int, c: int)
        requires
            self.unlinked(),
        ensures
            self.placed(rows, r, c).unlinked(),
        decreases r, c,
    {
        if c > 0 && 0 <= r < rows.len() {
            self.lemma_placed_unlinked(rows, r, c - 1);
            let before = self.placed(rows, r, c - 1);
            let after = before.place(rows[r][c - 1]);
            assert forall|x: int| after.has_cell(x) implies #[trigger] after.degree(x) == 0 by {
                if x < before.cells.len() {
                    assert(before.degree(x) == 0);
                    assert(after.cells[x] == before.cells[x]);
                }
            }
        } else if r > 0 {
            self.lemma_placed_unlinked(rows, r - 1, rows[r - 1].len() as int);
        }
    }

    /// Joining two cells of a board with symmetric adjacency leaves
    /// adjacency symmetric, and every neighbor entry the name of a cell.
    pub proof fn lemma_joined_symmetric(self, a: int, b: int)
        requires
            self.symmetric(),
            self.links_in_range(),
            self.has_cell(a),
            self.has_cell(b),
            a <= usize::MAX,
            b <= usize::MAX,
        ensures
            self.joined(a, b).symmetric(),
            self.joined(a, b).links_in_range(),
            forall|x: int, y: int|
                self.joined(a, b).adjacent(x, y) <==> self.adjacent(x, y) || (x == a && y == b) || (x == b
                    && y == a),
    {
        let next = self.joined(a, b);
        assert forall|x: int, y: int|
            next.adjacent(x, y) <==> self.adjacent(x, y) || (x == a && y == b) || (x == b && y == a) by {
            if self.has_cell(x) {
                let old_list = self.cells[x].neighbors;
                let new_list = next.cells[x].neighbors;
                if self.adjacent(x, y) {
                    let k = choose|k: int| 0 <= k < old_list.len() && (#[trigger] old_list[k]).index == y;
                    assert(new_list[k].index == y);
                }
                if x == a && y == b {
                    if a == b {
                        assert(new_list[old_list.len() as int].index == y);
                    } else {
                        assert(new_list[old_list.len() as int].index == y);
                    }
                }
                if x == b && y == a {
                    assert(new_list[new_list.len() - 1].index == y);
                }
                if next.adjacent(x, y) {
                    let k = choose|k: int| 0 <= k < new_list.len() && (#[trigger] new_list[k]).index == y;
                    if k < old_list.len() {
                        assert(old_list[k].index == y);
                    }
                }
            }
        }
        assert forall|x: int, y: int| #[trigger] next.adjacent(x, y) implies next.adjacent(y, x) by {
            if self.adjacent(x, y) {
                assert(self.adjacent(y, x));
            }
        }
        assert forall|c: int, k: int| next.has_cell(c) && 0 <= k < next.degree(c) implies next.has_cell(
            #[trigger] next.neighbor(c, k),
        ) by {
            if k < self.degree(c) {
                assert(self.has_cell(self.neighbor(c, k)));
                assert(next.neighbor(c, k) == self.neighbor(c, k));
            }
        }
    }

    /// Whatever the link characters of a board file join, adjacency is
    /// symmetric on the board that comes of them.
    pub proof fn lemma_wired_symmetric(base: PuzzleView, rows: Seq<Seq<char>>, r: int, c: int)
        requires
            base.unlinked(),
            base.placed_all(rows).cells.len() <= usize::MAX,
            0 <= r <= rows.len(),
            r < rows.len() ==> 0 <= c <= rows[r].len(),
            r == rows.len() ==> c == 0,
            PuzzleView::wired(base, rows, r, c) is Some,
        ensures
            PuzzleView::wired(base, rows, r, c)->0.symmetric(),
            PuzzleView::wired(base, rows, r, c)->0.links_in_range(),
        decreases r, c,
    {
        if c > 0 && r < rows.len() {
            Self::lemma_wired_symmetric(base, rows, r, c - 1);
            lemma_wired_keeps_cells(base, rows, r, c - 1);
            if is_link_char(rows[r][c - 1]) {
                let board = PuzzleView::wired(base, rows, r, c - 1)->0;
                let link = link_at(rows, r, c - 1)->0;
                lemma_cell_at_in_range(base, rows, link.first, link.vertical);
                lemma_cell_at_in_range(base, rows, link.second, link.vertical);
                let ends = PuzzleView::ends_at(base, rows, r, c - 1)->0;
                board.lemma_joined_symmetric(ends.0, ends.1);
            }
        } else if r > 0 {
            Self::lemma_wired_symmetric(base, rows, r - 1, rows[r - 1].len() as int);
        } else {
            base.lemma_placed_unlinked(rows, rows.len() as int, 0);
            let board = base.placed_all(rows);
            assert forall|x: int, y: int| #[trigger] board.adjacent(x, y) implies board.adjacent(y, x) by {
                assert(board.degree(x) == 0);
            }
            assert forall|x: int, k: int| board.has_cell(x) && 0 <= k < board.degree(x) implies board.has_cell(
                #[trigger] board.neighbor(x, k),
            ) by {
                assert(board.degree(x) == 0);
            }
        }
    }

    /// Adjacency is symmetric on every board that a board file describes:
    /// a cell lists another as a neighbor exactly when that one lists it,
    /// and every neighbor entry names a cell of the board.
    pub proof fn lemma_parsed_board_symmetric(text: Seq<char>, a: int, b: int)
        requires
            PuzzleView::parsed(text) is Some,
            PuzzleView::parsed(text)->0.cells.len() <= usize::MAX,
        ensures
            PuzzleView::parsed(text)->0.adjacent(a, b) <==> PuzzleView::parsed(text)->0.adjacent(b, a),
            PuzzleView::parsed(text)->0.links_in_range(),
    {
        let rows = crate::text::board_rows(text);
        let base = PuzzleView::blank(crate::layout::is_hex_header(text), text);
        lemma_wired_keeps_cells(base, rows, rows.len() as int, 0);
        Self::lemma_wired_symmetric(base, rows, rows.len() as int, 0);
    }
}

} // verus!
