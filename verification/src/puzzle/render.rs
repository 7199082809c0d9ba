//! Drawing a state as text.

use vstd::prelude::*;
use crate::ids::CellId;
use crate::model::PuzzleView;
use crate::picture::{bridge_note, decimal, digit, Sheet};
use crate::puzzle::Puzzle;
use crate::text::{characters, lemma_lines_nonempty, lines, rows_of, split_lines};

verus! {

/// The character of the digit `d`.
fn digit_char(d: usize) -> (res: char)
    requires
        d < 10,
    ensures
        res == digit(d as int),
{
    if d == 0 {
        '0'
    } else if d == 1 {
        '1'
    } else if d == 2 {
        '2'
    } else if d == 3 {
        '3'
    } else if d == 4 {
        '4'
    } else if d == 5 {
        '5'
    } else if d == 6 {
        '6'
    } else if d == 7 {
        '7'
    } else if d == 8 {
        '8'
    } else {
        '9'
    }
}

/// Appends the decimal digits of `n` to `out`.
fn push_decimal(out: &mut Vec<char>, n: usize)
    ensures
        final(out)@ == old(out)@ + decimal(n as nat),
    decreases n,
{
    if n < 10 {
        out.push(digit_char(n));
        assert(out@ =~= old(out)@ + decimal(n as nat));
    } else {
        push_decimal(out, n / 10);
        out.push(digit_char(n % 10));
        assert(out@ =~= old(out)@ + decimal(n as nat));
    }
}

/// Appends the characters of `text` to `out`.
fn push_text(out: &mut Vec<char>, text: &str)
    ensures
        final(out)@ == old(out)@ + text@,
{
    let chars = characters(text);
    push_all(out, &chars);
}

/// Appends `chars` to `out`.
fn push_all(out: &mut Vec<char>, chars: &Vec<char>)
    ensures
        final(out)@ == old(out)@ + chars@,
{
    let mut i: usize = 0;
    assert(out@ =~= old(out)@ + chars@.take(0));
    while i < chars.len()
        invariant
            i <= chars.len(),
            out@ == old(out)@ + chars@.take(i as int),
        decreases chars.len() - i,
    {
        out.push(chars[i]);
        assert(out@ =~= old(out)@ + chars@.take(i + 1));
        i += 1;
    }
    assert(chars@.take(chars@.len() as int) =~= chars@);
}

/// What has been drawn so far.
struct Drawing {
    text: Vec<char>,
    notes: Vec<char>,
    bridges: usize,
    cells: usize,
}

impl View for Drawing {
    type V = Sheet;

    closed spec fn view(&self) -> Sheet {
        Sheet { text: self.text@, notes: self.notes@, bridges: self.bridges as nat, cells: self.cells as nat }
    }
}

impl Puzzle {
    /// The letter of the flow that occupies the cell with the given index.
    fn letter_of(&self, index: usize) -> (res: Option<char>)
        ensures
            res == self@.letter_at(index as int),
    {
        if index >= self.num_cells() {
            return None;
        }
        match self.get_cell(CellId { index }).unwrap().flow_id {
            Some(flow_id) => {
                if flow_id.index >= self.flows.len() {
                    return None;
                }
                Some(self.get_flow(flow_id).unwrap().get_letter())
            },
            None => None,
        }
    }

    /// Draws the character `ch` of a row. Answers whether the state has the
    /// cells that the character stands for.
    fn draw_char(&self, drawing: &mut Drawing, ch: char) -> (res: bool)
        requires
            2 * old(drawing).bridges <= old(drawing).cells,
        ensures
            res ==> self@.draw(old(drawing)@, ch) == Some(final(drawing)@),
            !res ==> self@.draw(old(drawing)@, ch) is None,
            2 * final(drawing).bridges <= final(drawing).cells,
    {
        proof {
            self.lemma_sizes_fit();
        }
        if ch == '*' {
            if drawing.cells >= self.num_cells() || drawing.cells + 1 >= self.num_cells() {
                return false;
            }
            match (self.letter_of(drawing.cells), self.letter_of(drawing.cells + 1)) {
                (Some(first), Some(second)) => {
                    drawing.bridges += 1;
                    push_text(&mut drawing.notes, "\nBridge ");
                    push_decimal(&mut drawing.notes, drawing.bridges);
                    push_text(&mut drawing.notes, ": Vertical is ");
                    drawing.notes.push(first);
                    push_text(&mut drawing.notes, ", horizontal is ");
                    drawing.notes.push(second);
                    push_text(&mut drawing.notes, "\n");
                    drawing.cells += 2;
                    push_decimal(&mut drawing.text, drawing.bridges);
                    assert(drawing.notes@ =~= old(drawing).notes@ + bridge_note(
                        drawing.bridges as nat,
                        first,
                        second,
                    ));
                    true
                },
                _ => false,
            }
        } else if ('A' <= ch && ch <= 'Z') || ch == '.' {
            if drawing.cells >= self.num_cells() {
                return false;
            }
            if self.get_cell(CellId { index: drawing.cells }).unwrap().flow_id.is_none() {
                drawing.text.push(ch);
                drawing.cells += 1;
                true
            } else {
                match self.letter_of(drawing.cells) {
                    Some(letter) => {
                        drawing.text.push(letter);
                        drawing.cells += 1;
                        true
                    },
                    None => false,
                }
            }
        } else {
            drawing.text.push(ch);
            true
        }
    }

    /// The picture of this state: the text of its board file, without the
    /// first line, with the letter of its flow in place of every cell that a
    /// flow occupies and a number in place of every bridge; then a note for
    /// each bridge on the flows that cross it. Every cell character stands
    /// for the next cell, in a comment too. `None` where the file has cells
    /// that the state lacks, or a bridge that no two flows cross.
    pub fn render(&self) -> (res: Option<Vec<char>>)
        ensures
            match res {
                Some(text) => self@.picture() == Some(text@),
                None => self@.picture() is None,
            },
    {
        let text = characters(self.print_string.as_str());
        let all = split_lines(&text);
        proof {
            lemma_lines_nonempty(text@);
        }
        let ghost body = lines(self@.print_string).drop_first();
        let mut drawing = Drawing { text: Vec::new(), notes: Vec::new(), bridges: 0, cells: 0 };
        let mut i: usize = 1;
        while i < all.len()
            invariant
                1 <= i <= all.len(),
                rows_of(all@) == lines(self@.print_string),
                body == lines(self@.print_string).drop_first(),
                body.len() == all.len() - 1,
                self@.draw_lines(body, i - 1) == Some(drawing@),
                2 * drawing.bridges <= drawing.cells,
            decreases all.len() - i,
        {
            let line = &all[i];
            assert(rows_of(all@)[i as int] == line@);
            assert(body[i - 1] == line@);
            let ghost start = drawing@;
            let mut k: usize = 0;
            while k < line.len()
                invariant
                    k <= line.len(),
                    1 <= i <= body.len(),
                    body == lines(self@.print_string).drop_first(),
                    body[i - 1] == line@,
                    self@.draw_lines(body, i - 1) == Some(start),
                    self@.draw_row(start, line@, k as int) == Some(drawing@),
                    2 * drawing.bridges <= drawing.cells,
                decreases line.len() - k,
            {
                if !self.draw_char(&mut drawing, line[k]) {
                    proof {
                        lemma_draw_row_fails(self@, start, line@, k + 1, line@.len() as int);
                        lemma_draw_lines_fails(self@, body, i as int, body.len() as int);
                    }
                    return None;
                }
                k += 1;
            }
            drawing.text.push('\n');
            i += 1;
        }
        let mut picture = drawing.text;
        push_all(&mut picture, &drawing.notes);
        picture.push('\n');
        picture.push('\n');
        assert(picture@ =~= drawing@.text + drawing@.notes + seq!['\n', '\n']);
        Some(picture)
    }
}

/// Once a character of a row cannot be drawn, the row cannot.
proof fn lemma_draw_row_fails(state: PuzzleView, sheet: Sheet, line: Seq<char>, n: int, m: int)
    requires
        0 <= n <= m,
        state.draw_row(sheet, line, n) is None,
    ensures
        state.draw_row(sheet, line, m) is None,
    decreases m,
{
    if n < m {
        lemma_draw_row_fails(state, sheet, line, n, m - 1);
    }
}

/// Once a line cannot be drawn, the picture cannot.
proof fn lemma_draw_lines_fails(state: PuzzleView, all: Seq<Seq<char>>, n: int, m: int)
    requires
        0 <= n <= m,
        state.draw_lines(all, n) is None,
    ensures
        state.draw_lines(all, m) is None,
    decreases m,
{
    if n < m {
        lemma_draw_lines_fails(state, all, n, m - 1);
    }
}

} // verus!
