use flow_solver::parser::{parse_puzzle, ParseError};
use flow_solver::search::greedy_best_first;
use flow_solver::text::{characters, split_lines, split_rows};
use flow_solver::{CellId, FlowId, Puzzle};

fn id(index: usize) -> CellId {
    CellId { index }
}

fn neighbors(puzzle: &Puzzle, index: usize) -> Vec<usize> {
    puzzle.get_cell(id(index)).unwrap().neighbors.iter().map(|n| n.index).collect()
}

fn chars(text: &str) -> Vec<char> {
    text.chars().collect()
}

#[test]
fn characters_are_read_in_order() {
    assert_eq!(characters("A-é\n"), vec!['A', '-', 'é', '\n']);
    assert!(characters("").is_empty());
}

#[test]
fn lines_are_split_at_line_feeds() {
    assert_eq!(split_lines(&chars("")), vec![chars("")]);
    assert_eq!(split_lines(&chars("ab")), vec![chars("ab")]);
    assert_eq!(split_lines(&chars("ab\ncd")), vec![chars("ab"), chars("cd")]);
    assert_eq!(split_lines(&chars("ab\n")), vec![chars("ab"), chars("")]);
    assert_eq!(split_lines(&chars("\n\nx\r\n")), vec![chars(""), chars(""), chars("x\r"), chars("")]);
}

#[test]
fn rows_leave_out_the_first_line_and_comments() {
    assert_eq!(split_rows(&chars("SQUARE\nA-.\n// a comment\n| |\n/ not one\n")), vec![
        chars("A-."),
        chars("| |"),
        chars("/ not one"),
        chars(""),
    ]);
    assert!(split_rows(&chars("only a header")).is_empty());
}

#[test]
fn row_of_three_cells() {
    let puzzle = parse_puzzle("SQUARE\nA-.-A\n").unwrap();
    assert_eq!(puzzle.num_cells(), 3);
    assert_eq!(puzzle.num_flows(), 1);
    assert!(!puzzle.is_hex);
    assert_eq!(puzzle.print_string, "SQUARE\nA-.-A\n");
    assert_eq!(neighbors(&puzzle, 0), vec![1]);
    assert_eq!(neighbors(&puzzle, 1), vec![0, 2]);
    assert_eq!(neighbors(&puzzle, 2), vec![1]);
    let flow = puzzle.get_flow(FlowId { index: 0 }).unwrap();
    assert_eq!(flow.id, 0);
    assert_eq!(flow.get_letter(), 'A');
    assert_eq!(flow.get_endpoints(), [id(0), id(2)]);
    let first = puzzle.get_cell(id(0)).unwrap();
    assert!(first.is_endpoint);
    assert!(!first.is_hex);
    assert_eq!(first.flow_id, Some(FlowId { index: 0 }));
    let middle = puzzle.get_cell(id(1)).unwrap();
    assert!(!middle.is_endpoint);
    assert_eq!(middle.flow_id, None);
    assert!(puzzle.is_well_formed());
}

#[test]
fn cells_are_numbered_row_by_row() {
    let text = "SQUARE \nA-.-B\n| | |\n.-.-.\n| | |\nA-.-B\n";
    let puzzle = parse_puzzle(text).unwrap();
    assert_eq!(puzzle.num_cells(), 9);
    assert_eq!(puzzle.num_flows(), 2);
    assert!(puzzle.is_well_formed());
    assert_eq!(neighbors(&puzzle, 0), vec![1, 3]);
    assert_eq!(neighbors(&puzzle, 4), vec![1, 3, 5, 7]);
    assert_eq!(neighbors(&puzzle, 8), vec![5, 7]);
    assert_eq!(puzzle.get_flow(FlowId { index: 0 }).unwrap().get_endpoints(), [id(0), id(6)]);
    assert_eq!(puzzle.get_flow(FlowId { index: 1 }).unwrap().get_endpoints(), [id(2), id(8)]);
    assert_eq!(puzzle.get_flow(FlowId { index: 1 }).unwrap().get_letter(), 'B');
}

#[test]
fn header_names_the_kind_of_board() {
    // The character before the line feed is not part of the name.
    assert!(parse_puzzle("HEX\r\n.\n").unwrap().is_hex);
    assert!(parse_puzzle("HEX \n.\n").unwrap().is_hex);
    assert!(parse_puzzle("HEX \n.\n").unwrap().get_cell(id(0)).unwrap().is_hex);
    assert!(!parse_puzzle("HEX\n.\n").unwrap().is_hex);
    assert!(!parse_puzzle("HEXé\n.\n").unwrap().is_hex);
    assert!(!parse_puzzle("HEXA \n.\n").unwrap().is_hex);
    assert!(!parse_puzzle("SQUARE\r\n.\n").unwrap().is_hex);
    assert!(!parse_puzzle("hex \n.\n").unwrap().is_hex);
}

#[test]
fn comments_are_no_rows() {
    let puzzle = parse_puzzle("SQUARE\n// A board\nA-.\n// with notes\n| |\nA-.\n").unwrap();
    assert_eq!(puzzle.num_cells(), 4);
    assert_eq!(puzzle.num_flows(), 1);
    assert_eq!(neighbors(&puzzle, 0), vec![1, 2]);
    assert_eq!(neighbors(&puzzle, 3), vec![1, 2]);
    assert!(puzzle.is_well_formed());
}

#[test]
fn slanted_links_join_across_rows() {
    let text = "HEX \n.   .\n \\ /\n  .\n / \\\n.   .\n";
    let puzzle = parse_puzzle(text).unwrap();
    assert_eq!(puzzle.num_cells(), 5);
    // The middle cell is cell 2.
    assert_eq!(neighbors(&puzzle, 2), vec![0, 1, 3, 4]);
    assert_eq!(neighbors(&puzzle, 0), vec![2]);
    assert_eq!(neighbors(&puzzle, 1), vec![2]);
    assert_eq!(neighbors(&puzzle, 3), vec![2]);
    assert_eq!(neighbors(&puzzle, 4), vec![2]);
    assert!(puzzle.is_well_formed());
}

#[test]
fn links_beyond_the_last_cell_wrap_round() {
    // The last `-` of each row stands to the right of every cell, and the
    // `|` of the last row below every cell.
    let text = "SQUARE\n.-.-\n|\n.-.-\n|\n";
    let puzzle = parse_puzzle(text).unwrap();
    assert_eq!(puzzle.num_cells(), 4);
    assert_eq!(neighbors(&puzzle, 0), vec![1, 1, 2, 2]);
    assert_eq!(neighbors(&puzzle, 1), vec![0, 0]);
    assert_eq!(neighbors(&puzzle, 2), vec![0, 3, 3, 0]);
    assert_eq!(neighbors(&puzzle, 3), vec![2, 2]);
}

#[test]
fn bridge_stands_for_two_cells() {
    let text = "SQUARE\n  A\n  |\nB-*-B\n  |\n  A\n";
    let puzzle = parse_puzzle(text).unwrap();
    // A, B, the two cells of the bridge, B, A.
    assert_eq!(puzzle.num_cells(), 6);
    assert_eq!(puzzle.num_flows(), 2);
    // Cell 2 is crossed from side to side, cell 3 up and down.
    assert_eq!(neighbors(&puzzle, 2), vec![1, 4]);
    assert_eq!(neighbors(&puzzle, 3), vec![0, 5]);
    assert_eq!(neighbors(&puzzle, 0), vec![3]);
    assert_eq!(neighbors(&puzzle, 1), vec![2]);
    assert!(!puzzle.get_cell(id(2)).unwrap().is_endpoint);
    assert!(!puzzle.get_cell(id(3)).unwrap().is_occupied());
    assert!(puzzle.is_well_formed());
}

#[test]
fn letter_that_stands_alone_leaves_a_flow_half_placed() {
    let puzzle = parse_puzzle("SQUARE\nA-.\n").unwrap();
    assert_eq!(puzzle.num_flows(), 1);
    assert!(!puzzle.is_well_formed());
}

#[test]
fn third_letter_takes_over_the_second_terminus() {
    let puzzle = parse_puzzle("SQUARE\nA-A-A\n").unwrap();
    assert_eq!(puzzle.num_flows(), 1);
    assert_eq!(puzzle.get_flow(FlowId { index: 0 }).unwrap().get_endpoints(), [id(0), id(2)]);
    assert_eq!(puzzle.get_cell(id(1)).unwrap().flow_id, Some(FlowId { index: 0 }));
    assert!(!puzzle.is_well_formed());
}

#[test]
fn text_without_a_first_line_is_refused() {
    assert_eq!(parse_puzzle("").err(), Some(ParseError::MissingHeader));
    assert_eq!(parse_puzzle("SQUARE").err(), Some(ParseError::MissingHeader));
    assert_eq!(parse_puzzle("\nA-A\n").err(), Some(ParseError::MissingHeader));
    assert!(parse_puzzle("S\n").is_ok());
    assert_eq!(parse_puzzle("S\n").unwrap().num_cells(), 0);
}

#[test]
fn link_to_a_place_without_a_cell_is_refused() {
    // Nothing stands to the left of the first column.
    assert_eq!(parse_puzzle("SQUARE\n-A\n").err(), Some(ParseError::DanglingLink { row: 0, col: 0 }));
    // Nothing stands above the first row.
    assert_eq!(parse_puzzle("SQUARE\nA\n|\nA\n|\n").err(), None);
    assert_eq!(parse_puzzle("SQUARE\n|\nA\n").err(), Some(ParseError::DanglingLink { row: 0, col: 0 }));
    assert_eq!(parse_puzzle("SQUARE\nA/A\n").err(), Some(ParseError::DanglingLink { row: 0, col: 1 }));
    // A blank stands where the link points.
    assert_eq!(
        parse_puzzle("SQUARE\nA-.-A\n|   |\n. - .\n").err(),
        Some(ParseError::DanglingLink { row: 2, col: 2 })
    );
    // The row below is too short.
    assert_eq!(
        parse_puzzle("SQUARE\nA-.-A\n    |\n.\n").err(),
        Some(ParseError::DanglingLink { row: 1, col: 4 })
    );
    // The first of two bad links is the one that is named.
    assert_eq!(
        parse_puzzle("SQUARE\nA- -A\n").err(),
        Some(ParseError::DanglingLink { row: 0, col: 1 })
    );
}

#[test]
fn parsed_board_is_solved() {
    let text = "SQUARE \nA-.-B-.-D\n| | | | |\n.-.-C-.-E\n| | | | |\n.-.-.-.-.\n| | | | |\n.-B-.-D-.\n| | | | |\n.-A-C-E-.\n";
    let puzzle = parse_puzzle(text).unwrap();
    assert_eq!(puzzle.num_cells(), 25);
    assert_eq!(puzzle.num_flows(), 5);
    assert!(puzzle.is_searchable());
    let solved = greedy_best_first(puzzle).solution.expect("a solution");
    assert!(solved.is_complete());
    assert_eq!(solved.num_open_cells(), 0);
    assert_eq!(solved.num_complete(), 5);
}

fn text_of(picture: Option<Vec<char>>) -> Option<String> {
    picture.map(|chars| chars.into_iter().collect())
}

#[test]
fn picture_shows_the_flow_of_every_cell() {
    let puzzle = parse_puzzle("SQUARE\nA-.-A\n").unwrap();
    assert_eq!(text_of(puzzle.render()), Some(String::from("A-.-A\n\n\n\n")));
    let solved = greedy_best_first(puzzle).solution.unwrap();
    assert_eq!(text_of(solved.render()), Some(String::from("A-A-A\n\n\n\n")));
}

#[test]
fn picture_copies_comments_and_links() {
    let text = "SQUARE\n// two flows, a note\nA-B\n| |\n.-.\n| |\nA-B";
    let puzzle = parse_puzzle(text).unwrap();
    let solved = greedy_best_first(puzzle).solution.unwrap();
    assert_eq!(
        text_of(solved.render()),
        Some(String::from("// two flows, a note\nA-B\n| |\nA-B\n| |\nA-B\n\n\n"))
    );
    // A cell character in a comment stands for a cell like any other, so
    // that the rows below it run out of cells.
    let text = "SQUARE\n// A.\nA-.-A\n";
    let solved = greedy_best_first(parse_puzzle(text).unwrap()).solution.unwrap();
    assert_eq!(solved.render(), None);
}

#[test]
fn picture_numbers_the_bridges() {
    let text = "SQUARE\n  A\n  |\nB-*-B\n  |\n  A\n";
    let puzzle = parse_puzzle(text).unwrap();
    // No flow crosses the bridge yet.
    assert_eq!(puzzle.render(), None);
    assert!(puzzle.is_searchable());
    let solved = greedy_best_first(puzzle).solution.expect("a solution");
    assert_eq!(
        text_of(solved.render()),
        Some(String::from(
            "  A\n  |\nB-1-B\n  |\n  A\n\n\nBridge 1: Vertical is B, horizontal is A\n\n\n"
        ))
    );
}

#[test]
fn picture_counts_bridges_in_decimal() {
    let text = format!("S\nA{}\n", "*".repeat(12));
    let mut puzzle = parse_puzzle(&text).unwrap();
    assert_eq!(puzzle.num_cells(), 25);
    for index in 1..25 {
        puzzle.get_cell_mut(id(index)).unwrap().flow_id = Some(FlowId { index: 0 });
    }
    let picture = text_of(puzzle.render()).unwrap();
    assert!(picture.starts_with("A123456789101112\n\n\nBridge 1: Vertical is A, horizontal is A\n"));
    assert!(picture.ends_with("\nBridge 12: Vertical is A, horizontal is A\n\n\n"));
    assert_eq!(picture.matches("Bridge ").count(), 12);
}

#[test]
fn picture_needs_a_cell_for_every_cell_character() {
    let mut puzzle = Puzzle::new(false, String::from("SQUARE\n.-.\n"));
    assert_eq!(puzzle.render(), None);
    puzzle.new_cell(false, None, false);
    assert_eq!(puzzle.render(), None);
    puzzle.new_cell(false, None, false);
    assert_eq!(text_of(puzzle.render()), Some(String::from(".-.\n\n\n\n")));
    // A cell of a flow that the puzzle lacks cannot be drawn.
    puzzle.get_cell_mut(id(1)).unwrap().flow_id = Some(FlowId { index: 0 });
    assert_eq!(puzzle.render(), None);
    puzzle.new_flow('Q');
    assert_eq!(text_of(puzzle.render()), Some(String::from(".-Q\n\n\n\n")));
    // Without a first line and rows there is nothing to draw but the end.
    assert_eq!(text_of(Puzzle::new(false, String::new()).render()), Some(String::from("\n\n")));
}
