//! Reading a board file into the puzzle that it describes.

use vstd::prelude::*;
use crate::ids::{CellId, FlowId};
use crate::layout::{has_header, is_cell_char, is_hex_header, is_label, is_link_char, link_at, span, Place};
use crate::model::PuzzleView;
use crate::puzzle::Puzzle;
use crate::text::{board_rows, characters, rows_of, split_rows};

verus! {

/// Why a text describes no board.
#[derive(Debug, Clone, Copy, PartialEq, Eq, Structural)]
pub enum ParseError {
    /// The text has no first line, or an empty one.
    MissingHeader,
    /// The link character at this row and column joins a place where no
    /// cell stands.
    DanglingLink { row: usize, col: usize },
}

/// `index` holds, for every place of `rows`, the number of cells that
/// `base` has grown by before that place.
pub open spec fn indexed(base: PuzzleView, rows: Seq<Seq<char>>, index: Seq<Vec<usize>>) -> bool {
    &&& index.len() == rows.len()
    &&& forall|r: int| 0 <= r < rows.len() ==> (#[trigger] index[r])@.len() == rows[r].len()
    &&& forall|r: int, c: int|
        0 <= r < rows.len() && 0 <= c < rows[r].len() ==> #[trigger] index[r]@[c] == base.placed(
            rows,
            r,
            c,
        ).cells.len()
}

/// The link character at column `c` of row `r` is the first that joins a
/// place where no cell stands.
pub open spec fn dangling_at(base: PuzzleView, rows: Seq<Seq<char>>, r: int, c: int) -> bool {
    &&& 0 <= r < rows.len()
    &&& 0 <= c < rows[r].len()
    &&& is_link_char(rows[r][c])
    &&& PuzzleView::wired(base, rows, r, c) is Some
    &&& PuzzleView::ends_at(base, rows, r, c) is None
}

/// Placing a character keeps the kind of board, and adds two cells for a
/// bridge, one for any other cell character and none else.
pub proof fn lemma_place_counts(board: PuzzleView, ch: char)
    ensures
        board.place(ch).is_hex == board.is_hex,
        board.place(ch).print_string == board.print_string,
        board.place(ch).cells.len() == board.cells.len() + if ch == '*' {
            2int
        } else if is_cell_char(ch) {
            1int
        } else {
            0int
        },
{
}

/// Every prefix of the rows has placed at most as many cells as the whole,
/// and a cell character that stands at a place has its cells placed by the
/// end.
pub proof fn lemma_placed_grows(base: PuzzleView, rows: Seq<Seq<char>>, r: int, c: int, r2: int, c2: int)
    requires
        0 <= r <= r2 <= rows.len(),
        r < rows.len() ==> 0 <= c <= rows[r].len(),
        r == rows.len() ==> c == 0,
        r2 < rows.len() ==> 0 <= c2 <= rows[r2].len(),
        r2 == rows.len() ==> c2 == 0,
        r == r2 ==> c <= c2,
    ensures
        base.placed(rows, r, c).cells.len() <= base.placed(rows, r2, c2).cells.len(),
        base.placed(rows, r2, c2).is_hex == base.is_hex,
        base.placed(rows, r2, c2).print_string == base.print_string,
    decreases r2, c2,
{
    if c2 > 0 && r2 < rows.len() {
        lemma_place_counts(base.placed(rows, r2, c2 - 1), rows[r2][c2 - 1]);
        if r < r2 || c < c2 {
            lemma_placed_grows(base, rows, r, c, r2, c2 - 1);
        } else {
            lemma_placed_grows(base, rows, r2, 0, r2, c2 - 1);
        }
    } else if r2 > 0 {
        if r < r2 {
            lemma_placed_grows(base, rows, r, c, r2 - 1, rows[r2 - 1].len() as int);
        } else {
            lemma_placed_grows(base, rows, r2 - 1, 0, r2 - 1, rows[r2 - 1].len() as int);
        }
    }
}

/// A cell that stands at a place is a cell of the board after all rows.
pub proof fn lemma_cell_at_in_range(base: PuzzleView, rows: Seq<Seq<char>>, place: Place, vertical: bool)
    requires
        base.cell_at(rows, place, vertical) is Some,
    ensures
        0 <= base.cell_at(rows, place, vertical)->0 < base.placed_all(rows).cells.len(),
{
    let r = place.row;
    let c = place.col;
    lemma_place_counts(base.placed(rows, r, c), rows[r][c]);
    assert(base.placed(rows, r, c + 1) == base.placed(rows, r, c).place(rows[r][c]));
    if r + 1 < rows.len() {
        lemma_placed_grows(base, rows, r, c + 1, rows.len() as int, 0);
    } else {
        lemma_placed_grows(base, rows, r, c + 1, r, rows[r].len() as int);
        assert(base.placed(rows, r + 1, 0) == base.placed(rows, r, rows[r].len() as int));
    }
}

/// Joining cells leaves the number of cells, and the flows, as they are.
pub proof fn lemma_wired_keeps_cells(base: PuzzleView, rows: Seq<Seq<char>>, r: int, c: int)
    requires
        0 <= r <= rows.len(),
        r < rows.len() ==> 0 <= c <= rows[r].len(),
        r == rows.len() ==> c == 0,
        PuzzleView::wired(base, rows, r, c) is Some,
    ensures
        PuzzleView::wired(base, rows, r, c)->0.cells.len() == base.placed_all(rows).cells.len(),
        PuzzleView::wired(base, rows, r, c)->0.flows == base.placed_all(rows).flows,
    decreases r, c,
{
    if c > 0 && r < rows.len() {
        lemma_wired_keeps_cells(base, rows, r, c - 1);
        if is_link_char(rows[r][c - 1]) {
            let link = link_at(rows, r, c - 1)->0;
            lemma_cell_at_in_range(base, rows, link.first, link.vertical);
            lemma_cell_at_in_range(base, rows, link.second, link.vertical);
        }
    } else if r > 0 {
        lemma_wired_keeps_cells(base, rows, r - 1, rows[r - 1].len() as int);
    }
}

/// Once a link character has joined a place without a cell, no board comes
/// of the rows.
pub proof fn lemma_wired_fails_on(base: PuzzleView, rows: Seq<Seq<char>>, r: int, c: int, r2: int, c2: int)
    requires
        0 <= r <= r2 <= rows.len(),
        r < rows.len() ==> 0 <= c <= rows[r].len(),
        r == rows.len() ==> c == 0,
        r2 < rows.len() ==> 0 <= c2 <= rows[r2].len(),
        r2 == rows.len() ==> c2 == 0,
        r == r2 ==> c <= c2,
        PuzzleView::wired(base, rows, r, c) is None,
    ensures
        PuzzleView::wired(base, rows, r2, c2) is None,
    decreases r2, c2,
{
    if r < r2 || c < c2 {
        if c2 > 0 && r2 < rows.len() {
            lemma_wired_fails_on(base, rows, r, c, r2, c2 - 1);
        } else if r2 > 0 {
            if r < r2 {
                lemma_wired_fails_on(base, rows, r, c, r2 - 1, rows[r2 - 1].len() as int);
            }
        }
    }
}

/// Whether `c` is an upper-case letter.
pub fn is_label_char(c: char) -> (res: bool)
    ensures
        res == is_label(c),
{
    'A' <= c && c <= 'Z'
}

/// Whether `text` has a first line that is not empty and ends in a line
/// feed.
fn has_first_line(text: &Vec<char>) -> (res: bool)
    ensures
        res == has_header(text@),
{
    if text.len() == 0 || text[0] == '\n' {
        return false;
    }
    let mut i: usize = 0;
    while i < text.len()
        invariant
            i <= text.len(),
            text.len() > 0,
            text@[0] != '\n',
            forall|j: int| 0 <= j < i ==> text@[j] != '\n',
        decreases text.len() - i,
    {
        if text[i] == '\n' {
            return true;
        }
        i += 1;
    }
    false
}

/// Whether the first line of `text` names a board of hexagons.
fn names_hex_board(text: &Vec<char>) -> (res: bool)
    ensures
        res == is_hex_header(text@),
{
    text.len() >= 5 && text[0] == 'H' && text[1] == 'E' && text[2] == 'X' && text[3] != '\n' && (
    text[3] as u32) < 128 && text[4] == '\n'
}

/// Adds to `puzzle` what the character `ch` of a row stands for.
fn place_char(puzzle: &mut Puzzle, ch: char, is_hex: bool)
    requires
        old(puzzle)@.is_hex == is_hex,
    ensures
        final(puzzle)@ == old(puzzle)@.place(ch),
{
    let ghost before = puzzle@;
    if ch == '*' {
        puzzle.new_cell(false, None, is_hex);
        puzzle.new_cell(false, None, is_hex);
    } else if ch == '.' {
        puzzle.new_cell(false, None, is_hex);
    } else if is_label_char(ch) {
        let cell_id = puzzle.new_cell(true, None, is_hex);
        let ghost grown = puzzle@;
        proof {
            puzzle.lemma_sizes_fit();
        }
        let count = puzzle.num_flows() as usize;
        let mut found: Option<FlowId> = None;
        let mut f: usize = 0;
        assert(puzzle@.flows =~= before.closed_at(ch, cell_id, 0));
        while f < count
            invariant
                f <= count,
                count == before.flows.len(),
                grown.flows == before.flows,
                puzzle@ == (PuzzleView { flows: before.closed_at(ch, cell_id, f as int), ..grown }),
                match found {
                    Some(flow_id) => before.last_labelled(ch, f as int) == Some(flow_id.index as int),
                    None => before.last_labelled(ch, f as int) is None,
                },
            decreases count - f,
        {
            let flow_id = FlowId { index: f };
            if puzzle.get_flow(flow_id).unwrap().get_letter() == ch {
                let flow = puzzle.get_flow_mut(flow_id).unwrap();
                proof {
                    flow.lemma_two_endpoints();
                }
                flow.update_endpoint(1, cell_id);
                found = Some(flow_id);
            }
            assert(puzzle@.flows =~= before.closed_at(ch, cell_id, f + 1));
            f += 1;
        }
        let flow_id = match found {
            Some(flow_id) => flow_id,
            None => {
                let flow_id = puzzle.new_flow(ch);
                let ghost fresh = puzzle@;
                let flow = puzzle.get_flow_mut(flow_id).unwrap();
                flow.update_endpoint(0, cell_id);
                proof {
                    assert(before.closed_at(ch, cell_id, count as int) =~= before.flows) by {
                        lemma_unlabelled_is_untouched(before, ch, cell_id, count as int);
                    }
                    assert(seq![None::<CellId>, None].update(0, Some(cell_id)) =~= seq![Some(cell_id), None]);
                }
                flow_id
            },
        };
        puzzle.get_cell_mut(cell_id).unwrap().flow_id = Some(flow_id);
        assert(puzzle@ =~= before.place(ch));
    }
}

/// Where no flow among the first `n` has the label `letter`, none of them
/// gets a terminus.
proof fn lemma_unlabelled_is_untouched(board: PuzzleView, letter: char, id: CellId, n: int)
    requires
        0 <= n <= board.flows.len(),
        board.last_labelled(letter, n) is None,
    ensures
        board.closed_at(letter, id, n) =~= board.flows,
    decreases n,
{
    if n > 0 {
        lemma_unlabelled_is_untouched(board, letter, id, n - 1);
        assert forall|f: int| 0 <= f < n implies board.flows[f].letter != letter by {
            lemma_unlabelled_has_no_letter(board, letter, n, f);
        }
    }
}

/// Where no flow among the first `n` has the label `letter`, flow `f`
/// among them has another.
proof fn lemma_unlabelled_has_no_letter(board: PuzzleView, letter: char, n: int, f: int)
    requires
        0 <= f < n,
        board.last_labelled(letter, n) is None,
    ensures
        board.flows[f].letter != letter,
        board.last_labelled(letter, f) is None,
    decreases n,
{
    if f < n - 1 {
        lemma_unlabelled_has_no_letter(board, letter, n - 1, f);
    }
}

/// The index of the cell that stands at the given row and column, if one
/// does.
fn cell_index(
    rows: &Vec<Vec<char>>,
    index: &Vec<Vec<usize>>,
    row: usize,
    col: usize,
    vertical: bool,
    Ghost(base): Ghost<PuzzleView>,
) -> (res: Option<usize>)
    requires
        indexed(base, rows_of(rows@), index@),
        base.placed_all(rows_of(rows@)).cells.len() <= usize::MAX,
    ensures
        match res {
            Some(id) => base.cell_at(rows_of(rows@), Place { row: row as int, col: col as int }, vertical)
                == Some(id as int),
            None => base.cell_at(rows_of(rows@), Place { row: row as int, col: col as int }, vertical)
                is None,
        },
{
    if row >= rows.len() {
        return None;
    }
    assert(rows_of(rows@)[row as int] == rows@[row as int]@);
    if col >= rows[row].len() {
        return None;
    }
    let ch = rows[row][col];
    if !(is_label_char(ch) || ch == '.' || ch == '*') {
        return None;
    }
    proof {
        lemma_cell_at_in_range(
            base,
            rows_of(rows@),
            Place { row: row as int, col: col as int },
            vertical,
        );
    }
    let id = index[row][col];
    if ch == '*' && vertical {
        Some(id + 1)
    } else {
        Some(id)
    }
}

/// The pair of cells that the link character at the given row and column
/// joins, if a cell stands at either place.
fn link_ends(
    rows: &Vec<Vec<char>>,
    index: &Vec<Vec<usize>>,
    row: usize,
    col: usize,
    max_cell_row: usize,
    max_cell_col: usize,
    Ghost(base): Ghost<PuzzleView>,
) -> (res: Option<(usize, usize)>)
    requires
        indexed(base, rows_of(rows@), index@),
        base.placed_all(rows_of(rows@)).cells.len() <= usize::MAX,
        row < rows.len(),
        col < rows@[row as int].len(),
        is_link_char(rows@[row as int]@[col as int]),
        (max_cell_row as int, max_cell_col as int) == span(rows_of(rows@), rows.len() as int, 0),
    ensures
        match res {
            Some((a, b)) => PuzzleView::ends_at(base, rows_of(rows@), row as int, col as int) == Some(
                (a as int, b as int),
            ),
            None => PuzzleView::ends_at(base, rows_of(rows@), row as int, col as int) is None,
        },
{
    assert(rows_of(rows@)[row as int] == rows@[row as int]@);
    let c = rows[row][col];
    // The two places on either side of the character.
    let (row1, col1, row2, col2, vertical) = if c == '-' {
        if col < 1 {
            return None;
        }
        // To the right of every cell the link wraps round to the first
        // column.
        if col > max_cell_col {
            (row, col - 1, row, 0, false)
        } else {
            (row, col - 1, row, col + 1, false)
        }
    } else if c == '/' {
        if col < 1 || row < 1 {
            return None;
        }
        (row + 1, col - 1, row - 1, col + 1, false)
    } else if c == '\\' {
        if col < 1 || row < 1 {
            return None;
        }
        (row - 1, col - 1, row + 1, col + 1, false)
    } else {
        if row < 1 {
            return None;
        }
        // Below every cell the link wraps round to the first row.
        if row > max_cell_row {
            (row - 1, col, 0, col, true)
        } else {
            (row - 1, col, row + 1, col, true)
        }
    };
    let first = cell_index(rows, index, row1, col1, vertical, Ghost(base));
    let second = cell_index(rows, index, row2, col2, vertical, Ghost(base));
    match (first, second) {
        (Some(a), Some(b)) => Some((a, b)),
        _ => None,
    }
}

/// Adds to `puzzle` the cells and flows that the characters of `rows`
/// stand for, row by row. Answers with the number of cells placed before
/// each character, and with the greatest row and column of a cell.
fn place_cells(puzzle: &mut Puzzle, rows: &Vec<Vec<char>>, is_hex: bool) -> (res: (
    Vec<Vec<usize>>,
    usize,
    usize,
))
    requires
        old(puzzle)@.is_hex == is_hex,
    ensures
        final(puzzle)@ == old(puzzle)@.placed_all(rows_of(rows@)),
        indexed(old(puzzle)@, rows_of(rows@), res.0@),
        (res.1 as int, res.2 as int) == span(rows_of(rows@), rows.len() as int, 0),
{
    let ghost base = puzzle@;
    let ghost lines = rows_of(rows@);
    let mut index: Vec<Vec<usize>> = Vec::new();
    let mut max_cell_row: usize = 0;
    let mut max_cell_col: usize = 0;
    let mut row: usize = 0;
    while row < rows.len()
        invariant
            row <= rows.len(),
            lines == rows_of(rows@),
            base.is_hex == is_hex,
            puzzle@ == base.placed(lines, row as int, 0),
            index@.len() == row,
            forall|r: int| 0 <= r < row ==> (#[trigger] index@[r])@.len() == lines[r].len(),
            forall|r: int, c: int|
                0 <= r < row && 0 <= c < lines[r].len() ==> #[trigger] index@[r]@[c] == base.placed(
                    lines,
                    r,
                    c,
                ).cells.len(),
            (max_cell_row as int, max_cell_col as int) == span(lines, row as int, 0),
            max_cell_row <= row,
        decreases rows.len() - row,
    {
        let line = &rows[row];
        assert(lines[row as int] == line@);
        let mut line_index: Vec<usize> = Vec::new();
        let mut col: usize = 0;
        while col < line.len()
            invariant
                col <= line.len(),
                row < rows.len(),
                lines == rows_of(rows@),
                lines[row as int] == line@,
                base.is_hex == is_hex,
                puzzle@ == base.placed(lines, row as int, col as int),
                line_index@.len() == col,
                forall|c: int|
                    0 <= c < col ==> #[trigger] line_index@[c] == base.placed(lines, row as int, c).cells.len(),
                (max_cell_row as int, max_cell_col as int) == span(lines, row as int, col as int),
                max_cell_row <= row,
            decreases line.len() - col,
        {
            let c = line[col];
            proof {
                lemma_placed_grows(base, lines, 0, 0, row as int, col as int);
            }
            line_index.push(puzzle.num_cells());
            place_char(puzzle, c, is_hex);
            if is_label_char(c) || c == '.' || c == '*' {
                if row > max_cell_row {
                    max_cell_row = row;
                }
                if col > max_cell_col {
                    max_cell_col = col;
                }
            }
            col += 1;
        }
        index.push(line_index);
        row += 1;
    }
    (index, max_cell_row, max_cell_col)
}

/// Joins the cells of `puzzle` that the link characters of `rows` join,
/// row by row, until one of them joins a place without a cell.
fn join_cells(
    puzzle: &mut Puzzle,
    rows: &Vec<Vec<char>>,
    index: &Vec<Vec<usize>>,
    max_cell_row: usize,
    max_cell_col: usize,
    Ghost(base): Ghost<PuzzleView>,
) -> (res: Result<(), ParseError>)
    requires
        old(puzzle)@ == base.placed_all(rows_of(rows@)),
        indexed(base, rows_of(rows@), index@),
        (max_cell_row as int, max_cell_col as int) == span(rows_of(rows@), rows.len() as int, 0),
    ensures
        res is Ok ==> PuzzleView::wired(base, rows_of(rows@), rows.len() as int, 0) == Some(
            final(puzzle)@,
        ),
        res is Err ==> PuzzleView::wired(base, rows_of(rows@), rows.len() as int, 0) is None,
        res matches Err(error) ==> error matches ParseError::DanglingLink { row, col } && dangling_at(
            base,
            rows_of(rows@),
            row as int,
            col as int,
        ),
{
    let ghost lines = rows_of(rows@);
    proof {
        puzzle.lemma_sizes_fit();
    }
    let mut row: usize = 0;
    while row < rows.len()
        invariant
            row <= rows.len(),
            lines == rows_of(rows@),
            indexed(base, lines, index@),
            base.placed_all(lines).cells.len() <= usize::MAX,
            (max_cell_row as int, max_cell_col as int) == span(lines, rows.len() as int, 0),
            PuzzleView::wired(base, lines, row as int, 0) == Some(puzzle@),
        decreases rows.len() - row,
    {
        let line = &rows[row];
        assert(lines[row as int] == line@);
        let mut col: usize = 0;
        while col < line.len()
            invariant
                col <= line.len(),
                row < rows.len(),
                lines == rows_of(rows@),
                lines[row as int] == line@,
                rows@[row as int] == *line,
                indexed(base, lines, index@),
                base.placed_all(lines).cells.len() <= usize::MAX,
                (max_cell_row as int, max_cell_col as int) == span(lines, rows.len() as int, 0),
                PuzzleView::wired(base, lines, row as int, col as int) == Some(puzzle@),
            decreases line.len() - col,
        {
            let c = line[col];
            if c == '-' || c == '/' || c == '\\' || c == '|' {
                match link_ends(rows, index, row, col, max_cell_row, max_cell_col, Ghost(base)) {
                    Some((a, b)) => {
                        proof {
                            let link = link_at(lines, row as int, col as int)->0;
                            lemma_cell_at_in_range(base, lines, link.first, link.vertical);
                            lemma_cell_at_in_range(base, lines, link.second, link.vertical);
                            lemma_wired_keeps_cells(base, lines, row as int, col as int);
                        }
                        let ghost before = puzzle@;
                        puzzle.get_cell_mut(CellId { index: a }).unwrap().add_neighbor(CellId { index: b });
                        puzzle.get_cell_mut(CellId { index: b }).unwrap().add_neighbor(CellId { index: a });
                        assert(puzzle@ =~= before.joined(a as int, b as int));
                    },
                    None => {
                        proof {
                            assert(PuzzleView::wired(base, lines, row as int, col + 1) is None);
                            lemma_wired_fails_on(
                                base,
                                lines,
                                row as int,
                                col + 1,
                                rows.len() as int,
                                0,
                            );
                        }
                        return Err(ParseError::DanglingLink { row, col });
                    },
                }
            }
            col += 1;
        }
        row += 1;
    }
    Ok(())
}

/// The puzzle that the board file `input` describes. The first line tells
/// whether the board is one of hexagons; the rows below it give the cells,
/// their flows and their neighbors.
pub fn parse_puzzle(input: &str) -> (res: Result<Puzzle, ParseError>)
    ensures
        res matches Ok(puzzle) ==> PuzzleView::parsed(input@) == Some(puzzle@),
        res is Err <==> PuzzleView::parsed(input@) is None,
        res == Err::<Puzzle, ParseError>(ParseError::MissingHeader) <==> !has_header(input@),
        res matches Err(ParseError::DanglingLink { row, col }) ==> has_header(input@) && dangling_at(
            PuzzleView::blank(is_hex_header(input@), input@),
            board_rows(input@),
            row as int,
            col as int,
        ),
{
    let text = characters(input);
    if !has_first_line(&text) {
        return Err(ParseError::MissingHeader);
    }
    let is_hex = names_hex_board(&text);
    let rows = split_rows(&text);
    let mut puzzle = Puzzle::new(is_hex, input.to_owned());
    let ghost base = puzzle@;
    let (index, max_cell_row, max_cell_col) = place_cells(&mut puzzle, &rows, is_hex);
    match join_cells(&mut puzzle, &rows, &index, max_cell_row, max_cell_col, Ghost(base)) {
        Ok(()) => Ok(puzzle),
        Err(error) => Err(error),
    }
}

} // verus!
