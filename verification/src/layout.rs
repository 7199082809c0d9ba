//! The meaning of a board file: which cells and flows its characters
//! place, and which cells its link characters join.
//!
//! The first line of the file names the kind of board. Every further line
//! that is no comment is a row. In a row an upper-case letter is a terminus
//! of the flow of that letter, `.` an open cell and `*` a bridge, which
//! stands for two cells, one for the flow that crosses it from side to side
//! and one for the flow that crosses it up and down. The characters `-`,
//! `|`, `/` and `\` join the two cells on either side of them.

use vstd::prelude::*;
use crate::ids::{CellId, FlowId};
use crate::model::{CellView, FlowView, PuzzleView};
use crate::text::board_rows;

verus! {

/// An upper-case letter: the label of a flow.
pub open spec fn is_label(c: char) -> bool {
    'A' <= c && c <= 'Z'
}

/// A character that stands for a cell, or for the two cells of a bridge.
pub open spec fn is_cell_char(c: char) -> bool {
    is_label(c) || c == '.' || c == '*'
}

/// A character that joins two cells.
pub open spec fn is_link_char(c: char) -> bool {
    c == '-' || c == '/' || c == '\\' || c == '|'
}

/// The text has a first line that is not empty and ends in a line feed.
pub open spec fn has_header(text: Seq<char>) -> bool {
    text.len() > 0 && text[0] != '\n' && exists|i: int| 0 <= i < text.len() && text[i] == '\n'
}

/// The first line is `HEX` and one more character of a single byte: the
/// file describes a board of hexagons.
pub open spec fn is_hex_header(text: Seq<char>) -> bool {
    &&& text.len() >= 5
    &&& text[0] == 'H'
    &&& text[1] == 'E'
    &&& text[2] == 'X'
    &&& text[3] != '\n'
    &&& (text[3] as u32) < 128
    &&& text[4] == '\n'
}

/// A place in the rows: a row and a column.
pub struct Place {
    pub row: int,
    pub col: int,
}

/// The cells that a link character joins, and whether it joins them up and
/// down.
pub struct Link {
    pub first: Place,
    pub second: Place,
    pub vertical: bool,
}

/// The greatest row and the greatest column at which a cell character
/// stands before column `c` of row `r`, or zero where none does.
pub open spec fn span(rows: Seq<Seq<char>>, r: int, c: int) -> (int, int)
    decreases r, c,
{
    if c > 0 && 0 <= r < rows.len() {
        let before = span(rows, r, c - 1);
        if is_cell_char(rows[r][c - 1]) {
            (if r > before.0 {
                r
            } else {
                before.0
            }, if c - 1 > before.1 {
                c - 1
            } else {
                before.1
            })
        } else {
            before
        }
    } else if r > 0 {
        span(rows, r - 1, rows[r - 1].len() as int)
    } else {
        (0, 0)
    }
}

/// The two places that the link character at column `c` of row `r` joins:
/// the places on either side of it, in the direction of the character. A
/// `-` to the right of every cell joins the place to its left with the
/// first column of its row, and a `|` below every cell the place above it
/// with the first row of its column. `None` where a place would lie
/// before the first row or column.
pub open spec fn link_at(rows: Seq<Seq<char>>, r: int, c: int) -> Option<Link> {
    let ch = rows[r][c];
    let widest = span(rows, rows.len() as int, 0);
    if ch == '-' {
        if c < 1 {
            None
        } else {
            Some(
                Link {
                    first: Place { row: r, col: c - 1 },
                    second: Place { row: r, col: if c > widest.1 {
                        0
                    } else {
                        c + 1
                    } },
                    vertical: false,
                },
            )
        }
    } else if ch == '/' {
        if c < 1 || r < 1 {
            None
        } else {
            Some(
                Link {
                    first: Place { row: r + 1, col: c - 1 },
                    second: Place { row: r - 1, col: c + 1 },
                    vertical: false,
                },
            )
        }
    } else if ch == '\\' {
        if c < 1 || r < 1 {
            None
        } else {
            Some(
                Link {
                    first: Place { row: r - 1, col: c - 1 },
                    second: Place { row: r + 1, col: c + 1 },
                    vertical: false,
                },
            )
        }
    } else {
        if r < 1 {
            None
        } else {
            Some(
                Link {
                    first: Place { row: r - 1, col: c },
                    second: Place { row: if r > widest.0 {
                        0
                    } else {
                        r + 1
                    }, col: c },
                    vertical: true,
                },
            )
        }
    }
}

impl PuzzleView {
    /// A board without cells and flows.
    pub open spec fn blank(is_hex: bool, print_string: Seq<char>) -> PuzzleView {
        PuzzleView { cells: Seq::empty(), flows: Seq::empty(), is_hex, print_string }
    }

    /// The greatest index below `n` of a flow with the label `letter`.
    pub open spec fn last_labelled(self, letter: char, n: int) -> Option<int>
        decreases n,
    {
        if n <= 0 {
            None
        } else if self.flows[n - 1].letter == letter {
            Some(n - 1)
        } else {
            self.last_labelled(letter, n - 1)
        }
    }

    /// The flows, with terminus 1 of every flow among the first `n` that
    /// has the label `letter` set to `id`.
    pub open spec fn closed_at(self, letter: char, id: CellId, n: int) -> Seq<FlowView> {
        Seq::new(
            self.flows.len(),
            |f: int|
                if f < n && self.flows[f].letter == letter {
                    FlowView { endpoints: self.flows[f].endpoints.update(1, Some(id)), ..self.flows[f] }
                } else {
                    self.flows[f]
                },
        )
    }

    /// The board with one more cell.
    pub open spec fn with_cell(self, is_endpoint: bool, flow_id: Option<FlowId>) -> PuzzleView {
        PuzzleView {
            cells: self.cells.push(
                CellView { is_endpoint, flow_id, neighbors: Seq::empty(), is_hex: self.is_hex },
            ),
            ..self
        }
    }

    /// The board after the character `ch` of a row: a bridge adds two open
    /// cells and `.` one. A letter adds a cell that is a terminus of the
    /// flow of that letter: terminus 0 of a new flow where the letter
    /// stands for the first time, and else terminus 1. Any other character
    /// adds nothing.
    pub open spec fn place(self, ch: char) -> PuzzleView {
        let id = CellId { index: self.cells.len() as usize };
        if ch == '*' {
            self.with_cell(false, None).with_cell(false, None)
        } else if ch == '.' {
            self.with_cell(false, None)
        } else if is_label(ch) {
            match self.last_labelled(ch, self.flows.len() as int) {
                Some(f) => PuzzleView {
                    flows: self.closed_at(ch, id, self.flows.len() as int),
                    ..self.with_cell(true, Some(FlowId { index: f as usize }))
                },
                None => PuzzleView {
                    flows: self.flows.push(
                        FlowView {
                            id: self.flows.len() as usize,
                            endpoints: seq![Some(id), None],
                            letter: ch,
                        },
                    ),
                    ..self.with_cell(true, Some(FlowId { index: self.flows.len() as usize }))
                },
            }
        } else {
            self
        }
    }

    /// The board after every character before column `c` of row `r`, from
    /// this board on.
    pub open spec fn placed(self, rows: Seq<Seq<char>>, r: int, c: int) -> PuzzleView
        decreases r, c,
    {
        if c > 0 && 0 <= r < rows.len() {
            self.placed(rows, r, c - 1).place(rows[r][c - 1])
        } else if r > 0 {
            self.placed(rows, r - 1, rows[r - 1].len() as int)
        } else {
            self
        }
    }

    /// The board after all rows.
    pub open spec fn placed_all(self, rows: Seq<Seq<char>>) -> PuzzleView {
        self.placed(rows, rows.len() as int, 0)
    }

    /// The index of the cell that stands at `place`, counted from this
    /// board on: the number of cells placed before it, and for the
    /// up-and-down cell of a bridge one more. `None` where no cell stands.
    pub open spec fn cell_at(self, rows: Seq<Seq<char>>, place: Place, vertical: bool) -> Option<int> {
        if 0 <= place.row < rows.len() && 0 <= place.col < rows[place.row].len() && is_cell_char(
            rows[place.row][place.col],
        ) {
            Some(
                self.placed(rows, place.row, place.col).cells.len() + if rows[place.row][place.col] == '*'
                    && vertical {
                    1int
                } else {
                    0int
                },
            )
        } else {
            None
        }
    }

    /// The board with the cells `a` and `b` joined: `b` is appended to the
    /// neighbors of `a`, then `a` to those of `b`.
    pub open spec fn joined(self, a: int, b: int) -> PuzzleView {
        let first = self.cells.update(
            a,
            CellView { neighbors: self.cells[a].neighbors.push(CellId { index: b as usize }), ..self.cells[a] },
        );
        PuzzleView {
            cells: first.update(
                b,
                CellView { neighbors: first[b].neighbors.push(CellId { index: a as usize }), ..first[b] },
            ),
            ..self
        }
    }

    /// The pair of cells that the link character at column `c` of row `r`
    /// joins, on the board that `base` grew into; `None` where one of its
    /// two places holds no cell.
    pub open spec fn ends_at(base: PuzzleView, rows: Seq<Seq<char>>, r: int, c: int) -> Option<(int, int)> {
        match link_at(rows, r, c) {
            None => None,
            Some(link) => match (
                base.cell_at(rows, link.first, link.vertical),
                base.cell_at(rows, link.second, link.vertical),
            ) {
                (Some(a), Some(b)) => Some((a, b)),
                _ => None,
            },
        }
    }

    /// The board `base` with all its cells placed and the cells joined that
    /// the link characters before column `c` of row `r` join; `None` where
    /// one of them joins a place without a cell.
    pub open spec fn wired(base: PuzzleView, rows: Seq<Seq<char>>, r: int, c: int) -> Option<PuzzleView>
        decreases r, c,
    {
        if c > 0 && 0 <= r < rows.len() {
            match Self::wired(base, rows, r, c - 1) {
                None => None,
                Some(board) => if is_link_char(rows[r][c - 1]) {
                    match Self::ends_at(base, rows, r, c - 1) {
                        Some((a, b)) => Some(board.joined(a, b)),
                        None => None,
                    }
                } else {
                    Some(board)
                },
            }
        } else if r > 0 {
            Self::wired(base, rows, r - 1, rows[r - 1].len() as int)
        } else {
            Some(base.placed_all(rows))
        }
    }

    /// The board that a board file describes; `None` where the file has no
    /// first line or a link character joins a place without a cell.
    pub open spec fn parsed(text: Seq<char>) -> Option<PuzzleView> {
        if has_header(text) {
            let rows = board_rows(text);
            Self::wired(Self::blank(is_hex_header(text), text), rows, rows.len() as int, 0)
        } else {
            None
        }
    }
}

} // verus!
