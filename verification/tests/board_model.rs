use flow_solver::{Cell, CellId, Flow, FlowId, Puzzle};

/// Builds a square board from rows of characters: `.` is an open cell, an
/// upper-case letter a terminus of the flow of that letter, a lower-case
/// letter a cell that the flow of that letter has passed through, and a
/// blank no cell at all. Cells beside each other in a row or a column are
/// neighbors.
fn grid(rows: &[&str]) -> Puzzle {
    let mut puzzle = Puzzle::new(false, rows.join("\n"));
    let mut termini: Vec<usize> = Vec::new();
    let mut ids: Vec<Vec<Option<CellId>>> = Vec::new();
    for row in rows {
        let mut line = Vec::new();
        for c in row.chars() {
            if c == ' ' {
                line.push(None);
                continue;
            }
            let id = puzzle.new_cell(c.is_ascii_uppercase(), None, false);
            if c.is_ascii_alphabetic() {
                let letter = c.to_ascii_uppercase();
                let mut found = None;
                for i in 0..puzzle.num_flows() as usize {
                    if puzzle.flows[i].get_letter() == letter {
                        found = Some(FlowId { index: i });
                    }
                }
                let flow_id = match found {
                    Some(flow_id) => flow_id,
                    None => {
                        termini.push(0);
                        puzzle.new_flow(letter)
                    }
                };
                if c.is_ascii_uppercase() {
                    let slot = termini[flow_id.index].min(1);
                    termini[flow_id.index] += 1;
                    puzzle.get_flow_mut(flow_id).unwrap().update_endpoint(slot, id);
                }
                puzzle.get_cell_mut(id).unwrap().flow_id = Some(flow_id);
            }
            line.push(Some(id));
        }
        ids.push(line);
    }
    for r in 0..ids.len() {
        for c in 0..ids[r].len() {
            let Some(a) = ids[r][c] else { continue };
            if c + 1 < ids[r].len() {
                if let Some(b) = ids[r][c + 1] {
                    link(&mut puzzle, a, b);
                }
            }
            if r + 1 < ids.len() && c < ids[r + 1].len() {
                if let Some(b) = ids[r + 1][c] {
                    link(&mut puzzle, a, b);
                }
            }
        }
    }
    puzzle
}

fn link(puzzle: &mut Puzzle, a: CellId, b: CellId) {
    puzzle.get_cell_mut(a).unwrap().add_neighbor(b);
    puzzle.get_cell_mut(b).unwrap().add_neighbor(a);
}

fn id(index: usize) -> CellId {
    CellId { index }
}

#[test]
fn new_puzzle_is_empty() {
    let puzzle = Puzzle::new(true, String::from("HEX\n"));
    assert_eq!(puzzle.num_cells(), 0);
    assert_eq!(puzzle.num_flows(), 0);
    assert!(puzzle.is_hex);
    assert_eq!(puzzle.print_string, "HEX\n");
    assert_eq!(puzzle.num_open_cells(), 0);
    assert!(puzzle.is_well_formed());
}

#[test]
fn new_cell_answers_with_dense_indices() {
    let mut puzzle = Puzzle::new(false, String::new());
    assert_eq!(puzzle.new_cell(false, None, false), id(0));
    assert_eq!(puzzle.new_cell(true, Some(FlowId { index: 3 }), true), id(1));
    assert_eq!(puzzle.num_cells(), 2);
    let cell: &Cell = puzzle.get_cell(id(1)).unwrap();
    assert!(cell.is_endpoint);
    assert!(cell.is_hex);
    assert_eq!(cell.flow_id, Some(FlowId { index: 3 }));
    assert_eq!(cell.num_neighbors(), 0);
    assert!(cell.is_occupied());
    assert!(!puzzle.get_cell(id(0)).unwrap().is_occupied());
}

#[test]
fn lookups_answer_with_the_cell_or_flow() {
    let mut puzzle = grid(&["A.A"]);
    assert!(puzzle.get_cell(id(2)).unwrap().is_endpoint);
    assert!(!puzzle.get_cell(id(1)).unwrap().is_occupied());
    assert_eq!(puzzle.get_flow(FlowId { index: 0 }).unwrap().get_letter(), 'A');
    puzzle.get_cell_mut(id(1)).unwrap().is_hex = true;
    assert!(puzzle.get_cell(id(1)).unwrap().is_hex);
    assert!(!puzzle.get_cell(id(0)).unwrap().is_hex);
    puzzle.get_flow_mut(FlowId { index: 0 }).unwrap().update_endpoint(0, id(1));
    assert_eq!(puzzle.get_flow(FlowId { index: 0 }).unwrap().get_endpoint(0), id(1));
    assert_eq!(puzzle.num_cells(), 3);
    assert_eq!(puzzle.num_flows(), 1);
}

#[test]
fn new_flow_has_no_termini_yet() {
    let mut puzzle = Puzzle::new(false, String::new());
    let first = puzzle.new_flow('Q');
    let second = puzzle.new_flow('R');
    assert_eq!(first, FlowId { index: 0 });
    assert_eq!(second, FlowId { index: 1 });
    assert_eq!(puzzle.num_flows(), 2);
    let flow: &Flow = puzzle.get_flow(second).unwrap();
    assert_eq!(flow.id, 1);
    assert_eq!(flow.get_letter(), 'R');
    assert!(!puzzle.is_well_formed());
}

#[test]
fn update_endpoint_moves_one_terminus() {
    let mut puzzle = grid(&["A.A"]);
    let flow = puzzle.get_flow_mut(FlowId { index: 0 }).unwrap();
    assert_eq!(flow.get_endpoints(), [id(0), id(2)]);
    flow.update_endpoint(1, id(1));
    assert_eq!(flow.get_endpoints(), [id(0), id(1)]);
    assert_eq!(flow.get_endpoint(0), id(0));
    assert_eq!(flow.get_endpoint(1), id(1));
}

#[test]
fn add_neighbor_appends_one_direction() {
    let mut puzzle = Puzzle::new(false, String::new());
    let a = puzzle.new_cell(false, None, false);
    let b = puzzle.new_cell(false, None, false);
    puzzle.get_cell_mut(a).unwrap().add_neighbor(b);
    assert!(puzzle.get_cell(a).unwrap().is_neighbor(&b));
    assert!(!puzzle.get_cell(b).unwrap().is_neighbor(&a));
    assert_eq!(puzzle.get_cell(a).unwrap().neighbors, vec![b]);
    assert!(!puzzle.is_well_formed());
    puzzle.get_cell_mut(b).unwrap().add_neighbor(a);
    assert!(puzzle.is_well_formed());
}

#[test]
fn adjacency_is_symmetric_on_a_grid() {
    let puzzle = grid(&["A..", ".B.", "AB."]);
    assert!(puzzle.is_well_formed());
    for a in 0..puzzle.num_cells() {
        for b in 0..puzzle.num_cells() {
            let ab = puzzle.get_cell(id(a)).unwrap().is_neighbor(&id(b));
            let ba = puzzle.get_cell(id(b)).unwrap().is_neighbor(&id(a));
            assert_eq!(ab, ba);
        }
    }
    assert!(puzzle.get_cell(id(4)).unwrap().is_neighbor(&id(1)));
    assert!(!puzzle.get_cell(id(4)).unwrap().is_neighbor(&id(0)));
}

#[test]
fn open_neighbors_are_counted_per_entry() {
    let puzzle = grid(&["A..", ".B.", "AB."]);
    let count = |i: usize| puzzle.get_cell(id(i)).unwrap().num_open_neighbors(&puzzle);
    assert_eq!(count(0), 2);
    assert_eq!(count(1), 1);
    assert_eq!(count(4), 3);
    assert_eq!(count(6), 1);
    assert_eq!(count(7), 1);
    assert_eq!(count(8), 1);
    assert_eq!(puzzle.get_cell(id(4)).unwrap().num_neighbors(), 4);
    assert_eq!(puzzle.num_open_cells(), 5);
}

#[test]
fn flows_complete_when_termini_are_adjacent() {
    let puzzle = grid(&["A..", ".B.", "AB."]);
    assert!(!puzzle.get_flow(FlowId { index: 0 }).unwrap().is_complete(&puzzle));
    assert!(puzzle.get_flow(FlowId { index: 1 }).unwrap().is_complete(&puzzle));
    assert_eq!(puzzle.num_complete(), 1);
    assert!(!puzzle.is_complete());
    assert_eq!(puzzle.get_endpoints_for_incomplete_flows(), vec![id(0), id(6)]);
}

#[test]
fn complete_needs_all_flows_and_no_open_cell() {
    let open_left = grid(&["AA."]);
    assert_eq!(open_left.num_complete(), open_left.num_flows());
    assert!(!open_left.is_complete());
    let full = grid(&["AA", "BB"]);
    assert_eq!(full.num_open_cells(), 0);
    assert!(full.is_complete());
    let apart = grid(&["AaB", "AbB"]);
    assert_eq!(apart.num_open_cells(), 0);
    assert!(apart.is_complete());
    let not_joined = grid(&["AB", "BA"]);
    assert_eq!(not_joined.num_open_cells(), 0);
    assert_eq!(not_joined.num_complete(), 0);
    assert!(!not_joined.is_complete());
}

#[test]
fn is_complete_answers_the_same_twice() {
    for rows in [vec!["A.A"], vec!["AA", "BB"], vec!["A..", ".B.", "AB."]] {
        let puzzle = grid(&rows);
        let first = puzzle.is_complete();
        let second = puzzle.is_complete();
        assert_eq!(first, second);
    }
}

#[test]
fn clone_is_a_deep_copy() {
    let puzzle = grid(&["A.A"]);
    let mut copy = puzzle.clone();
    copy.get_cell_mut(id(1)).unwrap().flow_id = Some(FlowId { index: 0 });
    copy.get_flow_mut(FlowId { index: 0 }).unwrap().update_endpoint(0, id(1));
    assert!(!puzzle.get_cell(id(1)).unwrap().is_occupied());
    assert_eq!(puzzle.get_flow(FlowId { index: 0 }).unwrap().get_endpoint(0), id(0));
    assert_eq!(copy.get_flow(FlowId { index: 0 }).unwrap().get_endpoint(0), id(1));
    assert_eq!(copy.print_string, puzzle.print_string);
}

#[test]
fn well_formedness_is_tested_in_full() {
    assert!(grid(&["A.A"]).is_well_formed());
    assert!(grid(&["AaB", "AbB"]).is_well_formed());

    // A neighbor entry that names no cell.
    let mut dangling = grid(&["A.A"]);
    dangling.get_cell_mut(id(1)).unwrap().add_neighbor(id(9));
    assert!(!dangling.is_well_formed());

    // A flow with a single terminus.
    assert!(!grid(&["A.."]).is_well_formed());

    // A cell that is marked as an endpoint without being one.
    let mut marked = grid(&["A.A"]);
    marked.get_cell_mut(id(1)).unwrap().is_endpoint = true;
    assert!(!marked.is_well_formed());

    // A terminus on a cell that another flow occupies.
    let mut stolen = grid(&["AAB", "..B"]);
    stolen.get_cell_mut(id(0)).unwrap().flow_id = Some(FlowId { index: 1 });
    assert!(!stolen.is_well_formed());

    // A cell that names a flow that the puzzle lacks.
    let mut stray = grid(&["A.A"]);
    stray.get_cell_mut(id(1)).unwrap().flow_id = Some(FlowId { index: 5 });
    assert!(!stray.is_well_formed());

    // Both termini on one cell.
    let mut folded = grid(&["A.A"]);
    folded.get_flow_mut(FlowId { index: 0 }).unwrap().update_endpoint(1, id(0));
    assert!(!folded.is_well_formed());

    // More neighbors than a cell of any board has.
    let mut crowded = Puzzle::new(false, String::new());
    let hub = crowded.new_cell(false, None, false);
    for _ in 0..7 {
        let spoke = crowded.new_cell(false, None, false);
        link(&mut crowded, hub, spoke);
    }
    assert!(!crowded.is_well_formed());
}

#[test]
fn searchable_bounds_the_open_cells() {
    assert!(grid(&["A.A"]).is_searchable());
    let mut large = Puzzle::new(false, String::new());
    for _ in 0..994 {
        large.new_cell(false, None, false);
    }
    assert!(large.is_searchable());
    large.new_cell(false, None, false);
    assert!(large.is_well_formed());
    assert!(!large.is_searchable());

    // A board of 999 cells of which few are open.
    let row = format!("A{}A{}", "a".repeat(900), ".".repeat(97));
    let crowded = grid(&[&row]);
    assert_eq!(crowded.num_cells(), 999);
    assert_eq!(crowded.num_open_cells(), 97);
    assert!(crowded.is_well_formed());
    assert!(crowded.is_searchable());
}

#[test]
fn board_has_no_cell_with_the_index_that_stands_for_none() {
    let mut board = Puzzle::new(false, String::new());
    for _ in 0..999 {
        board.new_cell(false, None, false);
    }
    assert!(board.is_well_formed());
    board.new_cell(false, None, false);
    assert!(!board.is_well_formed());
    assert!(!board.is_searchable());
}
