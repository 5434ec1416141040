use std::collections::HashMap;
use tictactoe::ai::AI;
use tictactoe::codec::{encode, NodeIndex};
use tictactoe::compilation::TTTCompilation;
use tictactoe::compiler::compile_table;
use tictactoe::node::CompileError;

fn engine() -> AI<TTTCompilation> {
    let mut ai = AI::new(TTTCompilation::new());
    ai.load(compile_table(TTTCompilation::new()).unwrap());
    ai
}

#[test]
fn new_engine_has_an_empty_table() {
    let ai = AI::new(TTTCompilation::new());
    assert_eq!(ai.table.len(), 0);
    assert_eq!(ai.rules.board_size, 3);
}

#[test]
fn load_takes_the_table() {
    let mut ai = AI::new(TTTCompilation::new());
    let mut table: HashMap<NodeIndex, i8> = HashMap::new();
    table.insert(4, 1);
    ai.load(table.clone());
    assert_eq!(ai.table, table);
}

#[test]
fn engine_fills_the_top_row() {
    let ai = engine();
    let board = encode(&[1, 1, 0, 2, 2, 0, 0, 0, 0]);
    assert_eq!(ai.get_move(board, 1), Ok(encode(&[1, 1, 1, 2, 2, 0, 0, 0, 0])));
}

#[test]
fn engine_fills_each_line_that_wants_one_mark() {
    let ai = engine();
    let cases: [([u8; 9], u8, usize); 8] = [
        ([1, 0, 1, 2, 2, 0, 0, 0, 0], 1, 1),
        ([2, 2, 0, 1, 1, 0, 0, 0, 0], 1, 5),
        ([1, 2, 0, 1, 2, 0, 0, 0, 0], 1, 6),
        ([2, 1, 0, 0, 1, 0, 2, 0, 0], 1, 7),
        ([1, 2, 2, 0, 1, 0, 0, 0, 0], 1, 8),
        ([2, 0, 1, 0, 1, 0, 0, 2, 0], 1, 6),
        ([1, 1, 0, 2, 2, 0, 1, 0, 0], 2, 5),
        ([1, 0, 2, 1, 2, 0, 0, 1, 0], 2, 6),
    ];
    for (board, team, cell) in cases.iter() {
        let mut after = *board;
        after[*cell] = *team;
        assert_eq!(ai.get_move(encode(board), *team), Ok(encode(&after)), "board {:?}", board);
    }
}

#[test]
fn engine_wins_at_once_rather_than_later() {
    let ai = engine();
    // Team 1 wins in cell 8. Cells 2 and 3 win too, two moves later, and
    // lead to boards with lower numbers.
    let board = encode(&[1, 2, 0, 0, 1, 0, 0, 2, 0]);
    assert_eq!(board, 4462);
    assert_eq!(ai.table[&(board + 9)], -1);
    assert_eq!(ai.table[&(board + 27)], -1);
    assert_eq!(ai.get_move(board, 1), Ok(board + 6561));
}

#[test]
fn engine_takes_the_lowest_of_two_winning_cells() {
    let ai = engine();
    // Team 1 wins in cell 2 and in cell 6.
    let board = encode(&[1, 1, 0, 1, 2, 2, 0, 2, 0]);
    assert_eq!(ai.get_move(board, 1), Ok(board + 9));
}

#[test]
fn engine_stops_a_line_of_the_other_team() {
    let ai = engine();
    // Team 2 threatens cell 2; team 1 has no line of its own to fill.
    let board = encode(&[2, 2, 0, 0, 1, 0, 0, 0, 1]);
    assert_eq!(ai.get_move(board, 1), Ok(board + 9));
}

#[test]
fn engine_starts_in_the_first_cell() {
    // Every first move leads to a draw: the lowest number goes first.
    let ai = engine();
    assert_eq!(ai.get_move(0, 1), Ok(1));
}

#[test]
fn engine_answers_the_corner_in_the_centre() {
    // After a corner every reply but the centre loses.
    let ai = engine();
    assert_eq!(ai.get_move(1, 2), Ok(1 + 2 * 81));
}

#[test]
fn full_board_has_no_move() {
    let ai = engine();
    let full = encode(&[1, 2, 1, 1, 2, 2, 2, 1, 1]);
    assert_eq!(ai.get_move(full, 2), Err(CompileError::NoLegalMove));
}

#[test]
fn won_board_has_no_move() {
    let ai = engine();
    let won = encode(&[1, 1, 1, 2, 2, 0, 0, 0, 0]);
    assert_eq!(ai.get_move(won, 2), Err(CompileError::NoLegalMove));
    assert_eq!(ai.get_move(13, 2), Err(CompileError::NoLegalMove));
}

#[test]
fn empty_table_lacks_the_first_child() {
    let ai = AI::new(TTTCompilation::new());
    assert_eq!(ai.get_move(0, 1), Err(CompileError::MissingNode(1)));
    assert_eq!(ai.get_move(1, 2), Err(CompileError::MissingNode(7)));
}

#[test]
fn first_board_that_the_table_lacks_is_named() {
    let mut ai = AI::new(TTTCompilation::new());
    let mut table: HashMap<NodeIndex, i8> = HashMap::new();
    table.insert(1, 0);
    table.insert(3, 0);
    table.insert(27, 0);
    ai.load(table);
    assert_eq!(ai.get_move(0, 1), Err(CompileError::MissingNode(9)));
}

#[test]
fn lowest_value_goes_first_in_any_table() {
    let mut ai = AI::new(TTTCompilation::new());
    let board = encode(&[1, 2, 1, 2, 1, 2, 0, 0, 0]);
    let mut table: HashMap<NodeIndex, i8> = HashMap::new();
    table.insert(board + 2 * 729, 1);
    table.insert(board + 2 * 2187, -1);
    table.insert(board + 2 * 6561, 0);
    ai.load(table.clone());
    assert_eq!(ai.get_move(board, 2), Ok(board + 2 * 2187));
    // Of equal values the lowest number goes first.
    table.insert(board + 2 * 729, -1);
    ai.load(table);
    assert_eq!(ai.get_move(board, 2), Ok(board + 2 * 729));
}

#[test]
fn engine_on_a_board_of_two_rows() {
    let mut rules = TTTCompilation::new();
    rules.set_board_size(2);
    let mut table_rules = TTTCompilation::new();
    table_rules.set_board_size(2);
    let mut ai = AI::new(rules);
    ai.load(compile_table(table_rules).unwrap());
    assert_eq!(ai.get_move(0, 1), Ok(1));
    // Team 1 holds cell 0, team 2 cell 1: cell 2 fills a column.
    assert_eq!(ai.get_move(1 + 6, 1), Ok(1 + 6 + 9));
}

#[test]
fn board_out_of_reach_leads_to_boards_that_the_table_lacks() {
    // Two marks of team 1 and none of team 2: no game leads here.
    let ai = engine();
    assert_eq!(ai.get_move(4, 1), Err(CompileError::MissingNode(13)));
}
