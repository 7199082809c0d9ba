//! The picture of a state: the text of its board file with the letter of
//! the flow in place of every cell that a flow occupies.

use vstd::prelude::*;
use crate::layout::is_cell_char;
use crate::model::PuzzleView;
use crate::text::lines;

verus! {

/// What has been drawn so far.
pub struct Sheet {
    /// The text of the picture.
    pub text: Seq<char>,
    /// The notes on the bridges, which follow the picture.
    pub notes: Seq<char>,
    /// The number of bridges drawn.
    pub bridges: nat,
    /// The number of cells drawn, two for each bridge.
    pub cells: nat,
}

/// The character of the digit `d`.
pub open spec fn digit(d: int) -> char {
    if d == 0 {
        '0'
    } else if d == 1 {
        '1'
    } else if d == 2 {
        '2'
    } else if d == 3 {
        '3'
    } else if d == 4 {
        '4'
    } else if d == 5 {
        '5'
    } else if d == 6 {
        '6'
    } else if d == 7 {
        '7'
    } else if d == 8 {
        '8'
    } else {
        '9'
    }
}

/// The number `n` in decimal digits.
pub open spec fn decimal(n: nat) -> Seq<char>
    decreases n,
{
    if n < 10 {
        seq![digit(n as int)]
    } else {
        decimal(n / 10).push(digit((n % 10) as int))
    }
}

/// The note on bridge number `count`, which the flows of the two given
/// letters cross.
pub open spec fn bridge_note(count: nat, first: char, second: char) -> Seq<char> {
    "\nBridge "@ + decimal(count) + ": Vertical is "@ + seq![first] + ", horizontal is "@ + seq![second]
        + "\n"@
}

impl Sheet {
    /// An empty sheet.
    pub open spec fn blank() -> Sheet {
        Sheet { text: Seq::empty(), notes: Seq::empty(), bridges: 0, cells: 0 }
    }

    /// The sheet with `ch` at the end of its text.
    pub open spec fn with_char(self, ch: char) -> Sheet {
        Sheet { text: self.text.push(ch), ..self }
    }
}

impl PuzzleView {
    /// The letter of the flow that occupies the cell `c`.
    pub open spec fn letter_at(self, c: int) -> Option<char> {
        if self.has_cell(c) && self.cells[c].flow_id is Some && self.has_flow(
            self.cells[c].flow_id->0.index as int,
        ) {
            Some(self.flows[self.cells[c].flow_id->0.index as int].letter)
        } else {
            None
        }
    }

    /// The sheet after the character `ch` of a row. A bridge is drawn as
    /// its number, and a note names the flows that cross it. A cell that a
    /// flow occupies is drawn as the letter of the flow. An open cell, and
    /// any other character, is drawn as it is. `None` where the state has
    /// no cell for the character, or no flows on a bridge.
    pub open spec fn draw(self, sheet: Sheet, ch: char) -> Option<Sheet> {
        if ch == '*' {
            match (self.letter_at(sheet.cells as int), self.letter_at(sheet.cells as int + 1)) {
                (Some(first), Some(second)) => Some(
                    Sheet {
                        text: sheet.text + decimal(sheet.bridges + 1),
                        notes: sheet.notes + bridge_note(sheet.bridges + 1, first, second),
                        bridges: sheet.bridges + 1,
                        cells: sheet.cells + 2,
                    },
                ),
                _ => None,
            }
        } else if is_cell_char(ch) {
            if !self.has_cell(sheet.cells as int) {
                None
            } else if self.cells[sheet.cells as int].flow_id is None {
                Some(Sheet { cells: sheet.cells + 1, ..sheet.with_char(ch) })
            } else {
                match self.letter_at(sheet.cells as int) {
                    Some(letter) => Some(Sheet { cells: sheet.cells + 1, ..sheet.with_char(letter) }),
                    None => None,
                }
            }
        } else {
            Some(sheet.with_char(ch))
        }
    }

    /// The sheet after the first `n` characters of the row `line`.
    pub open spec fn draw_row(self, sheet: Sheet, line: Seq<char>, n: int) -> Option<Sheet>
        decreases n,
    {
        if n <= 0 {
            Some(sheet)
        } else {
            match self.draw_row(sheet, line, n - 1) {
                Some(before) => self.draw(before, line[n - 1]),
                None => None,
            }
        }
    }

    /// The sheet after the first `n` of the given lines, each ended by a
    /// line feed.
    pub open spec fn draw_lines(self, all: Seq<Seq<char>>, n: int) -> Option<Sheet>
        decreases n,
    {
        if n <= 0 {
            Some(Sheet::blank())
        } else {
            match self.draw_lines(all, n - 1) {
                Some(before) => match self.draw_row(before, all[n - 1], all[n - 1].len() as int) {
                    Some(after) => Some(after.with_char('\n')),
                    None => None,
                },
                None => None,
            }
        }
    }

    /// The picture of this state: the lines of its board file after the
    /// first, with every cell character drawn as its cell, then the notes on
    /// the bridges and two line feeds. Every line counts, a comment too.
    /// `None` where the file has cells that the state lacks.
    pub open spec fn picture(self) -> Option<Seq<char>> {
        let body = lines(self.print_string).drop_first();
        match self.draw_lines(body, body.len() as int) {
            Some(sheet) => Some(sheet.text + sheet.notes + seq!['\n', '\n']),
            None => None,
        }
    }
}

} // verus!
