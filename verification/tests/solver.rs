use flow_solver::frontier::Frontier;
use flow_solver::ids::{
    BASE_SCORE, MAX_NEIGHBORS, NON_EXISTENT_CELL_ID, SOLVABLE, UNSOLVABLE_DEAD_ENDS, UNSOLVABLE_NO_CHILDREN,
    UNSOLVABLE_PATH_BLOCKED, UNSOLVABLE_POOLS, UNSOLVABLE_REGION,
};
use flow_solver::ids::REPORT_EVERY;
use flow_solver::search::{expand_next, greedy_best_first, recursive, Search, SearchStats};
use flow_solver::{CellId, FlowId, Puzzle};

/// Builds a square board from rows of characters: `.` is an open cell, an
/// upper-case letter a terminus of the flow of that letter, a lower-case
/// letter a cell that the flow of that letter has passed through, and a
/// blank no cell at all. Cells beside each other in a row or a column are
/// neighbors.
fn grid(rows: &[&str]) -> Puzzle {
    let mut puzzle = Puzzle::new(false, rows.join("\n"));
    let mut termini: Vec<usize> = Vec::new();
    let mut ids: Vec<Vec<Option<CellId>>> = Vec::new();
    for row in rows {
        let mut line = Vec::new();
        for c in row.chars() {
            if c == ' ' {
                line.push(None);
                continue;
            }
            let id = puzzle.new_cell(c.is_ascii_uppercase(), None, false);
            if c.is_ascii_alphabetic() {
                let letter = c.to_ascii_uppercase();
                let mut found = None;
                for i in 0..puzzle.num_flows() as usize {
                    if puzzle.flows[i].get_letter() == letter {
                        found = Some(FlowId { index: i });
                    }
                }
                let flow_id = match found {
                    Some(flow_id) => flow_id,
                    None => {
                        termini.push(0);
                        puzzle.new_flow(letter)
                    }
                };
                if c.is_ascii_uppercase() {
                    let slot = termini[flow_id.index].min(1);
                    termini[flow_id.index] += 1;
                    puzzle.get_flow_mut(flow_id).unwrap().update_endpoint(slot, id);
                }
                puzzle.get_cell_mut(id).unwrap().flow_id = Some(flow_id);
            }
            line.push(Some(id));
        }
        ids.push(line);
    }
    for r in 0..ids.len() {
        for c in 0..ids[r].len() {
            let Some(a) = ids[r][c] else { continue };
            if c + 1 < ids[r].len() {
                if let Some(b) = ids[r][c + 1] {
                    link(&mut puzzle, a, b);
                }
            }
            if r + 1 < ids.len() && c < ids[r + 1].len() {
                if let Some(b) = ids[r + 1][c] {
                    link(&mut puzzle, a, b);
                }
            }
        }
    }
    puzzle
}

fn link(puzzle: &mut Puzzle, a: CellId, b: CellId) {
    puzzle.get_cell_mut(a).unwrap().add_neighbor(b);
    puzzle.get_cell_mut(b).unwrap().add_neighbor(a);
}

fn id(index: usize) -> CellId {
    CellId { index }
}

/// A board given by its cells and links: for each cell the letter as in
/// `grid`, and the pairs of cells that are neighbors.
fn graph(cells: &str, links: &[(usize, usize)]) -> Puzzle {
    let mut puzzle = grid(&[cells]);
    for i in 0..puzzle.num_cells() {
        puzzle.get_cell_mut(id(i)).unwrap().neighbors.clear();
    }
    for (a, b) in links {
        link(&mut puzzle, id(*a), id(*b));
    }
    puzzle
}

/// Whether any state below `puzzle` in the tree of the move generator is
/// complete.
fn completes_below(puzzle: &Puzzle) -> bool {
    puzzle.create_children().iter().any(|child| child.is_complete() || completes_below(child))
}

/// Every state in the tree of the move generator from `puzzle` on.
fn subtree(puzzle: &Puzzle, into: &mut Vec<Puzzle>) {
    for child in puzzle.create_children() {
        subtree(&child, into);
        into.push(child);
    }
}

// ----- the move generator -----

#[test]
fn endpoint_with_fewest_open_neighbors_is_chosen() {
    let puzzle = grid(&["A.B", "...", "B.A"]);
    assert!(puzzle.is_well_formed());
    assert_eq!(puzzle.get_endpoints_for_incomplete_flows(), vec![id(0), id(8), id(2), id(6)]);
    // A at 8 and B at 6 have two open neighbors, A at 0 and B at 2 have
    // one: the first of these two is chosen.
    let walled = grid(&["AaB", "...", "B.A"]);
    assert_eq!(walled.get_endpoint_to_extend(), id(0));
    assert_eq!(walled.num_possible_children(), 1);
    // A at 8 and B at 6 have one open neighbor, the others two: A at 8
    // comes first among the termini.
    let cornered = grid(&["A.B", "...", "BbA"]);
    assert_eq!(cornered.get_endpoint_to_extend(), id(8));
    assert_eq!(cornered.num_possible_children(), 1);
}

#[test]
fn first_of_equally_constrained_endpoints_is_chosen() {
    let puzzle = grid(&["A.A"]);
    assert_eq!(puzzle.get_endpoint_to_extend(), id(0));
    let puzzle = grid(&["A.B", "...", "B.A"]);
    assert_eq!(puzzle.get_endpoint_to_extend(), id(0));
    assert_eq!(puzzle.num_possible_children(), 2);
}

#[test]
fn forced_move_overrides_the_minimum() {
    // Cells 0, 1: termini of A, with two open neighbors each, on a ring of
    // four open cells. Cells 2, 3: termini of B, with three open neighbors
    // each. The open cell 8 beside B at 2 has the single open neighbor 9, and
    // the open cell 13 beside B at 3 has the single open neighbor 12.
    let links = [
        (0, 4), (0, 5), (1, 6), (1, 7), (4, 5), (5, 6), (6, 7), (7, 4),
        (2, 8), (2, 9), (2, 10), (8, 9), (9, 10), (10, 11),
        (3, 11), (3, 12), (3, 13), (11, 12), (12, 13),
    ];
    let forced = graph("AABB..........", &links);
    assert!(forced.is_well_formed());
    assert_eq!(forced.get_endpoints_for_incomplete_flows(), vec![id(0), id(1), id(2), id(3)]);
    assert_eq!(forced.get_endpoint_to_extend(), id(2));
    assert_eq!(forced.num_possible_children(), 3);

    // With one more way out of each of the two cells no move is forced.
    let mut free = links.to_vec();
    free.push((8, 10));
    free.push((13, 11));
    let free = graph("AABB..........", &free);
    assert!(free.is_well_formed());
    assert_eq!(free.get_endpoint_to_extend(), id(0));
    assert_eq!(free.num_possible_children(), 2);

    // With a minimum of one no forced move is looked for: B at 11 has one
    // open neighbor, and is chosen although the open cell 3 beside A at 0
    // has a single open neighbor.
    let corner = grid(&["A..", "..A", "B.b", "..B"]);
    assert!(corner.is_well_formed());
    assert_eq!(corner.get_endpoint_to_extend(), id(11));
}

#[test]
fn no_endpoint_when_all_flows_are_complete() {
    let puzzle = grid(&["AA."]);
    assert_eq!(puzzle.get_endpoint_to_extend().index, NON_EXISTENT_CELL_ID);
    assert_eq!(NON_EXISTENT_CELL_ID, 999);
    assert_eq!(puzzle.num_possible_children(), 0);
    assert!(puzzle.create_children().is_empty());
    let none = Puzzle::new(false, String::new());
    assert_eq!(none.get_endpoint_to_extend().index, NON_EXISTENT_CELL_ID);
}

#[test]
fn children_follow_the_neighbor_list() {
    let puzzle = grid(&["A.B", "...", "B.A"]);
    let children = puzzle.create_children();
    assert_eq!(children.len(), 2);
    // Cell 0 lists cell 1 before cell 3.
    assert_eq!(children[0].get_flow(FlowId { index: 0 }).unwrap().get_endpoints(), [id(1), id(8)]);
    assert_eq!(children[1].get_flow(FlowId { index: 0 }).unwrap().get_endpoints(), [id(3), id(8)]);
    for child in &children {
        assert!(child.is_well_formed());
        assert!(!child.get_cell(id(0)).unwrap().is_endpoint);
        assert!(child.get_cell(id(0)).unwrap().is_occupied());
        assert_eq!(child.num_open_cells(), puzzle.num_open_cells() - 1);
    }
    assert!(children[0].get_cell(id(1)).unwrap().is_endpoint);
    assert_eq!(children[0].get_cell(id(1)).unwrap().flow_id, Some(FlowId { index: 0 }));
    assert!(!children[0].get_cell(id(3)).unwrap().is_occupied());
    // The parent is as it was.
    assert!(puzzle.get_cell(id(0)).unwrap().is_endpoint);
    assert!(!puzzle.get_cell(id(1)).unwrap().is_occupied());
}

#[test]
fn second_terminus_moves_when_it_is_the_chosen_one() {
    let puzzle = grid(&["A..", "..A", "B.b", "..B"]);
    assert_eq!(puzzle.get_endpoint_to_extend(), id(11));
    let children = puzzle.create_children();
    assert_eq!(children.len(), 1);
    assert_eq!(children[0].get_flow(FlowId { index: 1 }).unwrap().get_endpoints(), [id(6), id(10)]);
    assert!(!children[0].get_cell(id(11)).unwrap().is_endpoint);
    assert!(children[0].get_cell(id(10)).unwrap().is_endpoint);
}

#[test]
fn child_differs_from_parent_by_a_single_step() {
    let puzzle = grid(&["A.B", "...", "B.A"]);
    let mut states = vec![puzzle.clone()];
    subtree(&puzzle, &mut states);
    subtree(&grid(&["A..", "...", "..A"]), &mut states);
    assert!(states.len() > 10);
    for parent in &states {
        for child in parent.create_children() {
            let mut cells_changed = 0;
            for c in 0..parent.num_cells() {
                let before = parent.get_cell(id(c)).unwrap();
                let after = child.get_cell(id(c)).unwrap();
                assert_eq!(before.neighbors, after.neighbors);
                if before.flow_id != after.flow_id {
                    cells_changed += 1;
                    assert!(!before.is_occupied());
                    assert!(after.is_occupied());
                }
            }
            assert_eq!(cells_changed, 1);
            let mut termini_moved = 0;
            for f in 0..parent.num_flows() as usize {
                let before = parent.get_flow(FlowId { index: f }).unwrap().get_endpoints();
                let after = child.get_flow(FlowId { index: f }).unwrap().get_endpoints();
                for e in 0..2 {
                    if before[e] != after[e] {
                        termini_moved += 1;
                    }
                }
            }
            assert_eq!(termini_moved, 1);
        }
    }
}

#[test]
fn child_has_no_fewer_complete_flows() {
    let puzzle = grid(&["A.B", "...", "B.A"]);
    let mut states = vec![puzzle.clone()];
    subtree(&puzzle, &mut states);
    for parent in &states {
        for child in parent.create_children() {
            assert!(child.num_complete() >= parent.num_complete());
        }
    }
}

// ----- the heuristic -----

#[test]
fn score_follows_the_formula() {
    // 1000 - 1 open cell + 0 complete - 1 child.
    assert_eq!(grid(&["A.A"]).h(), 998);
    // 1000 - 5 open + 2 * 1 complete - 1 child (A at 0 moves to 1 or 3: the
    // terminus at 6 has one open neighbor and comes second, the one at 0 has
    // two).
    let puzzle = grid(&["A..", ".B.", "AB."]);
    assert_eq!(puzzle.get_endpoint_to_extend(), id(6));
    assert_eq!(puzzle.h(), 1000 - 5 + 2 - 1);
    // Nothing to extend: 1000 - 1 open + 2 * 1.
    assert_eq!(grid(&["AA."]).h(), 1001);
    assert_eq!(grid(&["AA", "BB"]).h(), 1004);
    assert_eq!(BASE_SCORE, 1000);
    assert_eq!(MAX_NEIGHBORS, 6);
}

// ----- the feasibility analysis -----

#[test]
fn state_without_moves_is_ruled_out_first() {
    // The termini of A have no open neighbor, although B could still move.
    let puzzle = grid(&["AbABbB."]);
    assert!(puzzle.is_well_formed());
    assert_eq!(puzzle.num_possible_children(), 0);
    assert_eq!(puzzle.is_solvable(), UNSOLVABLE_NO_CHILDREN);
    assert_eq!(UNSOLVABLE_NO_CHILDREN, -1);
    // A complete state has no moves either.
    assert_eq!(grid(&["AA", "BB"]).is_solvable(), UNSOLVABLE_NO_CHILDREN);
}

#[test]
fn lack_of_moves_is_not_looked_for_on_hex_boards() {
    // No terminus of A can move: on a board of hexagons the flow is found
    // blocked instead.
    let mut puzzle = grid(&["AbABB"]);
    assert!(puzzle.is_well_formed());
    assert_eq!(puzzle.is_solvable(), UNSOLVABLE_NO_CHILDREN);
    puzzle.is_hex = true;
    assert_eq!(puzzle.num_possible_children(), 0);
    assert_eq!(puzzle.is_solvable(), UNSOLVABLE_PATH_BLOCKED);
    // A complete state passes every check that is left.
    let mut complete = grid(&["AA", "BB"]);
    complete.is_hex = true;
    assert_eq!(complete.is_solvable(), SOLVABLE);
    // Open cells that no flow is left to fill make an orphaned region.
    let mut left = grid(&["AA."]);
    left.is_hex = true;
    assert_eq!(left.is_solvable(), UNSOLVABLE_REGION);
}

#[test]
fn dead_end_is_reported() {
    // Cell 4 is open, has the single open neighbor 5 and no endpoint beside
    // it.
    let puzzle = grid(&["A.Aa.."]);
    assert!(puzzle.is_well_formed());
    assert_eq!(puzzle.num_possible_children(), 1);
    assert_eq!(puzzle.is_solvable(), UNSOLVABLE_DEAD_ENDS);
    assert_eq!(UNSOLVABLE_DEAD_ENDS, -2);
}

#[test]
fn open_cell_beside_an_endpoint_is_no_dead_end() {
    // Cell 1 has the single open neighbor 2, but the terminus at 0 lies
    // beside it.
    let puzzle = grid(&["A..A"]);
    assert_eq!(puzzle.is_solvable(), SOLVABLE);
    assert_eq!(SOLVABLE, 1);
}

#[test]
fn dead_ends_are_not_looked_for_on_hex_boards() {
    let mut puzzle = grid(&["A.Aa.."]);
    puzzle.is_hex = true;
    // Without the dead end check the region of cells 4 and 5 is found
    // orphaned.
    assert_eq!(puzzle.is_solvable(), UNSOLVABLE_REGION);
}

#[test]
fn pool_is_reported() {
    // Cell 1 is occupied, has no open neighbor and three neighbors of its
    // own flow.
    let puzzle = grid(&["aaa", "aaa", "A.A"]);
    assert!(puzzle.is_well_formed());
    assert_eq!(puzzle.is_solvable(), UNSOLVABLE_POOLS);
    assert_eq!(UNSOLVABLE_POOLS, -3);
}

#[test]
fn dead_end_is_reported_before_a_pool() {
    // The pool at cell 1 comes before the dead end at cell 10 in the order
    // of the cells; the dead end is reported all the same.
    let puzzle = grid(&["aaa", "aaa", "A.A", "a  ", ".. "]);
    assert!(puzzle.is_well_formed());
    assert_eq!(puzzle.is_solvable(), UNSOLVABLE_DEAD_ENDS);
}

#[test]
fn pool_verdict_leaves_a_complete_successor() {
    let puzzle = grid(&["aaa", "aaa", "A.A"]);
    assert_eq!(puzzle.is_solvable(), UNSOLVABLE_POOLS);
    let children = puzzle.create_children();
    assert_eq!(children.len(), 1);
    assert!(children[0].is_complete());
}

#[test]
fn orphaned_region_is_reported() {
    // The region of cells 4 to 6 touches no terminus at all. Cell 4 would
    // be found as a dead end first, so the board is marked as hex.
    let mut puzzle = grid(&["A.Aa..."]);
    puzzle.is_hex = true;
    assert_eq!(puzzle.is_solvable(), UNSOLVABLE_REGION);
    assert_eq!(UNSOLVABLE_REGION, -5);

    // A region that touches one terminus of a flow only.
    //   0:A 1:. 2:A 3:b 4:B 5:. 6:. 7:B, with 5 beside 4 and 6 beside 7, and
    //   a single open cell 8 beside A at 2 alone.
    let lone = graph("A.AbB..B.", &[(0, 1), (1, 2), (2, 3), (3, 4), (4, 5), (5, 6), (6, 7), (2, 8)]);
    assert!(lone.is_well_formed());
    assert_eq!(lone.is_solvable(), UNSOLVABLE_REGION);
}

#[test]
fn blocked_flow_is_reported() {
    // Cells 0, 1: termini of A; 2, 3: of B; 4, 5: of C; 6, 7: open. The open
    // cell 6 lies beside both termini of B and beside A at 0, the open cell
    // 7 beside both termini of C and beside A at 1. Each region is claimed,
    // but no region touches both termini of A.
    let puzzle = graph("AABBCC..", &[(6, 2), (6, 3), (6, 0), (7, 4), (7, 5), (7, 1)]);
    assert!(puzzle.is_well_formed());
    assert_eq!(puzzle.num_complete(), 0);
    assert!(puzzle.num_possible_children() > 0);
    assert_eq!(puzzle.is_solvable(), UNSOLVABLE_PATH_BLOCKED);
    assert_eq!(UNSOLVABLE_PATH_BLOCKED, -4);
}

#[test]
fn orphaned_region_is_reported_before_a_blocked_flow() {
    // As above, without the flow C: the region of cell 7 is orphaned, and A
    // is blocked.
    let puzzle = graph("AABB..", &[(4, 2), (4, 3), (4, 0), (5, 1)]);
    assert!(puzzle.is_well_formed());
    assert_eq!(puzzle.is_solvable(), UNSOLVABLE_REGION);
}

#[test]
fn regions_are_joined_through_open_cells_only() {
    // Two open regions, left and right of the wall of b; A can reach its
    // other end through the left one.
    let puzzle = grid(&["A.b.B", "..b..", "A.B.."]);
    assert!(puzzle.is_well_formed());
    assert_eq!(puzzle.is_solvable(), SOLVABLE);
    // A long winding region is one region.
    let snake = grid(&["A....", "BBbb.", ".....", ".bbbb", "....A"]);
    assert!(snake.is_well_formed());
    assert_eq!(snake.is_solvable(), SOLVABLE);
}

#[test]
fn ruled_out_states_lead_to_no_complete_state() {
    let boards: Vec<Puzzle> = vec![
        grid(&["A.B", "...", "B.A"]),
        grid(&["AB.", "...", ".BA"]),
        grid(&["A..", ".B.", "AB."]),
        grid(&["A.Aa.."]),
        grid(&["A..", "...", "..A"]),
        grid(&["A..", "BB.", "A.."]),
        grid(&["AB", "..", "BA"]),
        graph("AABBCC..", &[(6, 2), (6, 3), (6, 0), (7, 4), (7, 5), (7, 1)]),
    ];
    let mut ruled_out = 0;
    for board in &boards {
        let mut states = vec![board.clone()];
        subtree(board, &mut states);
        for state in &states {
            let verdict = state.is_solvable();
            if verdict != SOLVABLE && verdict != UNSOLVABLE_POOLS {
                ruled_out += 1;
                assert!(!completes_below(state));
            }
        }
    }
    assert!(ruled_out > 5);
}

// ----- the search -----

#[test]
fn two_by_two_board_with_crossed_pairs() {
    // A at (0,0) and (1,1), B at (1,0) and (0,1): no cell is open, and no
    // two cells of one flow share an edge.
    let puzzle = grid(&["AB", "BA"]);
    assert!(puzzle.is_searchable());
    assert_eq!(puzzle.num_open_cells(), 0);
    assert_eq!(puzzle.num_complete(), 0);
    assert!(!puzzle.is_complete());
    let outcome = greedy_best_first(puzzle.clone());
    assert!(outcome.solution.is_none());
    assert_eq!(outcome.stats.states_visited, 1);
    assert!(recursive(&puzzle).is_none());
}

#[test]
fn two_by_two_board_with_pairs_side_by_side() {
    let puzzle = grid(&["AA", "BB"]);
    assert!(puzzle.is_complete());
    assert_eq!(puzzle.num_complete(), 2);
    assert_eq!(puzzle.num_open_cells(), 0);
    let solved = recursive(&puzzle).unwrap();
    assert!(solved.is_complete());
    // The best-first search looks at successors only.
    assert!(greedy_best_first(puzzle).solution.is_none());
}

#[test]
fn single_row_is_solved_in_one_step() {
    let puzzle = grid(&["A.A"]);
    assert!(puzzle.is_searchable());
    let outcome = greedy_best_first(puzzle.clone());
    let solved = outcome.solution.unwrap();
    assert!(solved.is_complete());
    assert_eq!(solved.num_open_cells(), 0);
    assert_eq!(solved.num_complete(), 1);
    assert_eq!(solved.get_cell(id(1)).unwrap().flow_id, Some(FlowId { index: 0 }));
    assert_eq!(outcome.stats.states_visited, 1);
    assert_eq!(outcome.stats.states_created, 2);
    assert_eq!(outcome.stats.frontier_max, 1);
    assert_eq!(outcome.stats.children_discarded, 0);
    assert_eq!(outcome.latest.unwrap().num_open_cells(), 1);
    let solved = recursive(&puzzle).unwrap();
    assert!(solved.is_complete());
}

#[test]
fn three_by_three_board_is_solved() {
    let single = grid(&["A...A"]);
    let solved = greedy_best_first(single).solution.expect("a solution");
    assert!(solved.is_complete());
    assert_eq!(solved.num_complete(), 1);

    let puzzle = grid(&["A..", "BB.", "A.."]);
    assert!(puzzle.is_searchable());
    let outcome = greedy_best_first(puzzle.clone());
    let solved = outcome.solution.expect("a solution");
    assert!(solved.is_complete());
    assert!(solved.is_well_formed());
    assert_eq!(solved.num_open_cells(), 0);
    assert_eq!(solved.num_complete(), 2);
    assert!(outcome.stats.states_visited >= 1);
    assert!(outcome.stats.states_created > outcome.stats.states_visited);
    let stats = outcome.stats;
    assert_eq!(
        stats.children_discarded,
        stats.discarded_no_children + stats.discarded_dead_end + stats.discarded_pools
            + stats.discarded_blocked + stats.discarded_region
    );
    let solved = recursive(&puzzle).expect("a solution");
    assert!(solved.is_complete());
}

#[test]
fn both_searches_agree_with_the_tree() {
    let boards = [
        grid(&["A..", "...", "..A"]),
        grid(&["A..", "BB.", "A.."]),
        grid(&["A.B", "...", "B.A"]),
        grid(&["A.B", "...", "A.B"]),
        grid(&["AB", "..", "AB"]),
        grid(&["AB", "..", "BA"]),
        grid(&["A...A"]),
        grid(&["aaa", "aaa", "A.A"]),
    ];
    let mut solved = 0;
    for board in &boards {
        assert!(board.is_searchable());
        assert!(!board.is_complete());
        let best_first = greedy_best_first(board.clone()).solution;
        let depth_first = recursive(board);
        assert_eq!(best_first.is_some(), depth_first.is_some());
        if let Some(found) = best_first {
            solved += 1;
            assert!(found.is_complete());
            assert!(completes_below(board));
        }
    }
    assert_eq!(solved, 4);
}

#[test]
fn five_by_five_board_is_solved() {
    let puzzle = grid(&["A.B.D", "..C.E", ".....", ".B.D.", ".ACE."]);
    assert!(puzzle.is_searchable());
    let outcome = greedy_best_first(puzzle);
    let solved = outcome.solution.expect("a solution");
    assert!(solved.is_complete());
    assert_eq!(solved.num_complete(), 5);
    assert_eq!(solved.num_open_cells(), 0);
}

#[test]
fn exhausted_search_reports_no_solution() {
    // B walls A in: no path joins the ends of A.
    let puzzle = grid(&["A.B", "..B", "..A"]);
    assert!(puzzle.is_searchable());
    let outcome = greedy_best_first(puzzle.clone());
    assert!(outcome.solution.is_none());
    assert!(outcome.latest.is_some());
    assert!(outcome.stats.states_visited >= 1);
    assert!(recursive(&puzzle).is_none());
    assert!(!completes_below(&puzzle) || outcome.stats.children_discarded > 0);
}

#[test]
fn step_expands_the_state_of_highest_score() {
    let mut frontier = Frontier::new();
    let low = grid(&["A...A"]);
    let high = grid(&["A..A", "BB.."]);
    assert_eq!(low.h(), 996);
    assert_eq!(high.h(), 1000 - 4 + 2 - 1);
    frontier.push(low.clone(), low.h());
    frontier.push(high.clone(), high.h());
    let mut stats = SearchStats::new();
    let step = expand_next(&mut frontier, &mut stats);
    assert!(step.solution.is_none());
    assert_eq!(step.expanded.num_cells(), 8);
    assert_eq!(stats.states_visited, 1);
    assert_eq!(stats.frontier_max, 2);
    assert_eq!(stats.states_created, 1);
    // The state of five cells still waits, and with it the successor of
    // the state that was expanded, if the analysis passed it.
    assert_eq!(frontier.len() as u64 + stats.children_discarded, 2);
}

#[test]
fn step_answers_with_a_complete_successor() {
    let one = grid(&["A.A"]);
    let mut frontier = Frontier::new();
    frontier.push(one.clone(), one.h());
    let mut stats = SearchStats::new();
    let step = expand_next(&mut frontier, &mut stats);
    let solved = step.solution.unwrap();
    assert!(solved.is_complete());
    assert_eq!(step.expanded.num_open_cells(), 1);
    assert!(frontier.is_empty());
    assert_eq!(stats.states_created, 1);
}

#[test]
fn step_counts_the_flows_and_cells_of_the_visited_state() {
    let puzzle = grid(&["A..A", "BB.."]);
    let mut frontier = Frontier::new();
    frontier.push(puzzle.clone(), puzzle.h());
    let mut stats = SearchStats::new();
    stats.max_flows_completed = 3;
    stats.flows_complete_sum = 10;
    stats.cells_open_sum = 100;
    let step = expand_next(&mut frontier, &mut stats);
    assert!(step.report.is_none());
    assert_eq!(stats.max_flows_completed, 3);
    assert_eq!(stats.flows_complete_sum, 11);
    assert_eq!(stats.cells_open_sum, 104);
    let mut fresh = SearchStats::new();
    let mut frontier = Frontier::new();
    frontier.push(puzzle.clone(), puzzle.h());
    expand_next(&mut frontier, &mut fresh);
    assert_eq!(fresh.max_flows_completed, 1);
}

#[test]
fn report_is_due_at_every_ten_thousandth_state() {
    assert_eq!(REPORT_EVERY, 10000);
    let puzzle = grid(&["A..A", "BB.."]);
    let mut frontier = Frontier::new();
    frontier.push(puzzle.clone(), puzzle.h());
    let mut stats = SearchStats::new();
    stats.states_visited = 9999;
    stats.states_created = 20000;
    stats.flows_complete_sum = 7;
    let step = expand_next(&mut frontier, &mut stats);
    assert!(step.solution.is_none());
    let report = step.report.expect("a report");
    assert_eq!(report.states_visited, 10000);
    assert_eq!(report.flows_complete_sum, 8);
    assert_eq!(report.cells_open_sum, 4);
    assert_eq!(report.max_flows_completed, 1);
    assert_eq!(report.states_created, 20000 + puzzle.num_possible_children());
    // What is counted from report to report begins afresh.
    assert_eq!(stats.states_visited, 10000);
    assert_eq!(stats.states_created, report.states_created);
    assert_eq!(stats.flows_complete_sum, 0);
    assert_eq!(stats.cells_open_sum, 0);
    assert_eq!(stats.max_flows_completed, 0);

    // A step that finds the solution makes no report.
    let one = grid(&["A.A"]);
    let mut frontier = Frontier::new();
    frontier.push(one.clone(), one.h());
    let mut stats = SearchStats::new();
    stats.states_visited = 9999;
    let step = expand_next(&mut frontier, &mut stats);
    assert!(step.solution.is_some());
    assert!(step.report.is_none());
    assert_eq!(stats.cells_open_sum, 1);
}

#[test]
fn run_by_steps_ends_as_the_whole_search_does() {
    let boards = [
        grid(&["A..", "BB.", "A.."]),
        grid(&["A.B", "...", "B.A"]),
        grid(&["A.B.D", "..C.E", ".....", ".B.D.", ".ACE."]),
        grid(&["AB", "..", "BA"]),
    ];
    for board in &boards {
        let whole = greedy_best_first(board.clone());
        let mut search = Search::new(board.clone());
        assert!(search.has_waiting());
        assert_eq!(search.num_waiting(), 1);
        assert!(search.latest().is_none());
        assert_eq!(search.stats().states_created, 1);
        let mut solution = None;
        let mut steps = 0;
        while solution.is_none() && search.has_waiting() {
            let advance = search.step();
            assert!(advance.report.is_none());
            solution = advance.solution;
            steps += 1;
        }
        assert_eq!(solution.is_some(), whole.solution.is_some());
        let stats = search.stats();
        assert_eq!(stats.states_visited, steps);
        assert_eq!(stats.states_visited, whole.stats.states_visited);
        assert_eq!(stats.states_created, whole.stats.states_created);
        assert_eq!(stats.frontier_max, whole.stats.frontier_max);
        assert_eq!(stats.children_discarded, whole.stats.children_discarded);
        assert_eq!(stats.max_flows_completed, whole.stats.max_flows_completed);
        assert_eq!(stats.cells_open_sum, whole.stats.cells_open_sum);
        assert_eq!(search.num_waiting(), whole.waiting);
        assert_eq!(
            search.latest().map(|state| state.num_open_cells()),
            whole.latest.map(|state| state.num_open_cells())
        );
    }
}

#[test]
fn counting_begins_afresh_on_demand() {
    let mut stats = SearchStats::new();
    stats.states_visited = 5;
    stats.max_flows_completed = 3;
    stats.flows_complete_sum = 10;
    stats.cells_open_sum = 100;
    stats.start_afresh();
    assert_eq!(stats.states_visited, 5);
    assert_eq!(stats.max_flows_completed, 0);
    assert_eq!(stats.flows_complete_sum, 0);
    assert_eq!(stats.cells_open_sum, 0);
}

// ----- the frontier and the counters -----

#[test]
fn frontier_hands_out_the_highest_priority() {
    let mut frontier = Frontier::new();
    assert!(frontier.is_empty());
    assert!(frontier.pop().is_none());
    frontier.push(grid(&["A.A"]), 5);
    frontier.push(grid(&["A..A"]), 9);
    frontier.push(grid(&["A...A"]), 9);
    frontier.push(grid(&["A....A"]), 2);
    assert_eq!(frontier.len(), 4);
    assert_eq!(frontier.pop().unwrap().num_cells(), 4);
    assert_eq!(frontier.pop().unwrap().num_cells(), 5);
    assert_eq!(frontier.pop().unwrap().num_cells(), 3);
    assert_eq!(frontier.pop().unwrap().num_cells(), 6);
    assert!(frontier.is_empty());
}

#[test]
fn discards_are_counted_by_reason() {
    let mut stats = SearchStats::new();
    stats.record_discard(UNSOLVABLE_NO_CHILDREN);
    stats.record_discard(UNSOLVABLE_DEAD_ENDS);
    stats.record_discard(UNSOLVABLE_DEAD_ENDS);
    stats.record_discard(UNSOLVABLE_POOLS);
    stats.record_discard(UNSOLVABLE_PATH_BLOCKED);
    stats.record_discard(UNSOLVABLE_REGION);
    stats.record_discard(UNSOLVABLE_REGION);
    stats.record_discard(UNSOLVABLE_REGION);
    assert_eq!(stats.children_discarded, 8);
    assert_eq!(stats.discarded_no_children, 1);
    assert_eq!(stats.discarded_dead_end, 2);
    assert_eq!(stats.discarded_pools, 1);
    assert_eq!(stats.discarded_blocked, 1);
    assert_eq!(stats.discarded_region, 3);
    assert_eq!(stats.states_visited, 0);
}

#[test]
fn counters_stop_at_the_maximum() {
    let mut stats = SearchStats::new();
    stats.children_discarded = u64::MAX;
    stats.discarded_pools = u64::MAX;
    stats.record_discard(UNSOLVABLE_POOLS);
    assert_eq!(stats.children_discarded, u64::MAX);
    assert_eq!(stats.discarded_pools, u64::MAX);
}
