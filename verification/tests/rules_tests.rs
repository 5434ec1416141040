use tictactoe::codec::{encode, NodeIndex};
use tictactoe::rules::{get_winner, get_winner_col, get_winner_diag, get_winner_row, line_owner};

fn id_of(board: [u8; 9]) -> NodeIndex {
    encode(&board)
}

#[test]
fn empty_board_has_no_winner() {
    assert_eq!(get_winner(&0, 3), 0);
}

#[test]
fn top_row_of_team_one_wins() {
    assert_eq!(get_winner(&13, 3), 1);
    assert_eq!(get_winner_row(&13, 3), 1);
    assert_eq!(get_winner_col(&13, 3), 0);
    assert_eq!(get_winner_diag(&13, 3), 0);
}

#[test]
fn every_row_wins_for_either_team() {
    for team in 1..=2u8 {
        for row in 0..3 {
            let mut board = [0u8; 9];
            for col in 0..3 {
                board[row * 3 + col] = team;
            }
            let id = id_of(board);
            assert_eq!(get_winner_row(&id, 3), team);
            assert_eq!(get_winner(&id, 3), team);
        }
    }
}

#[test]
fn every_column_wins_for_either_team() {
    for team in 1..=2u8 {
        for col in 0..3 {
            let mut board = [0u8; 9];
            for row in 0..3 {
                board[row * 3 + col] = team;
            }
            let id = id_of(board);
            assert_eq!(get_winner_col(&id, 3), team);
            assert_eq!(get_winner_row(&id, 3), 0);
            assert_eq!(get_winner(&id, 3), team);
        }
    }
}

#[test]
fn both_diagonals_win_for_either_team() {
    for team in 1..=2u8 {
        let main = id_of([team, 0, 0, 0, team, 0, 0, 0, team]);
        assert_eq!(get_winner_diag(&main, 3), team);
        assert_eq!(get_winner(&main, 3), team);
        let anti = id_of([0, 0, team, 0, team, 0, team, 0, 0]);
        assert_eq!(get_winner_diag(&anti, 3), team);
        assert_eq!(get_winner(&anti, 3), team);
        assert_eq!(get_winner_row(&anti, 3), 0);
        assert_eq!(get_winner_col(&anti, 3), 0);
    }
}

#[test]
fn full_board_without_a_line_has_no_winner() {
    let id = id_of([1, 2, 1, 1, 2, 2, 2, 1, 1]);
    assert_eq!(get_winner(&id, 3), 0);
    assert_eq!(get_winner_row(&id, 3), 0);
    assert_eq!(get_winner_col(&id, 3), 0);
    assert_eq!(get_winner_diag(&id, 3), 0);
}

#[test]
fn two_in_a_line_do_not_win() {
    assert_eq!(get_winner(&id_of([1, 1, 0, 0, 0, 0, 0, 0, 0]), 3), 0);
    assert_eq!(get_winner(&id_of([1, 1, 2, 0, 0, 0, 0, 0, 0]), 3), 0);
    assert_eq!(get_winner(&id_of([1, 0, 0, 0, 1, 0, 0, 0, 2]), 3), 0);
}

#[test]
fn line_that_starts_on_an_empty_cell_does_not_win() {
    assert_eq!(get_winner(&id_of([0, 1, 1, 0, 0, 0, 0, 0, 0]), 3), 0);
}

#[test]
fn first_filled_row_decides_between_two() {
    assert_eq!(get_winner(&id_of([1, 1, 1, 2, 2, 2, 0, 0, 0]), 3), 1);
    assert_eq!(get_winner(&id_of([2, 2, 2, 1, 1, 1, 0, 0, 0]), 3), 2);
    assert_eq!(get_winner(&id_of([0, 0, 0, 2, 2, 2, 1, 1, 1]), 3), 2);
}

#[test]
fn first_filled_column_decides_between_two() {
    assert_eq!(get_winner(&id_of([2, 1, 0, 2, 1, 0, 2, 1, 0]), 3), 2);
    assert_eq!(get_winner(&id_of([0, 1, 2, 0, 1, 2, 0, 1, 2]), 3), 1);
}

#[test]
fn board_of_four_rows_wants_four_in_a_line() {
    let mut board = [0u8; 16];
    board[4] = 2;
    board[5] = 2;
    board[6] = 2;
    assert_eq!(get_winner(&encode(&board), 4), 0);
    board[7] = 2;
    assert_eq!(get_winner(&encode(&board), 4), 2);
    assert_eq!(get_winner_row(&encode(&board), 4), 2);
}

#[test]
fn board_of_four_rows_has_its_own_columns_and_diagonals() {
    let mut column = [0u8; 16];
    for row in 0..4 {
        column[row * 4 + 2] = 1;
    }
    assert_eq!(get_winner_col(&encode(&column), 4), 1);
    assert_eq!(get_winner(&encode(&column), 4), 1);

    let mut main = [0u8; 16];
    for k in 0..4 {
        main[k * 5] = 2;
    }
    assert_eq!(get_winner_diag(&encode(&main), 4), 2);

    let mut anti = [0u8; 16];
    for k in 0..4 {
        anti[3 + k * 3] = 1;
    }
    assert_eq!(get_winner_diag(&encode(&anti), 4), 1);
    assert_eq!(get_winner(&encode(&anti), 4), 1);
}

#[test]
fn three_by_three_line_is_no_line_on_four_rows() {
    // The top row of the small board lies in cells 0, 1, 2 of the large one.
    assert_eq!(get_winner(&13, 4), 0);
}

#[test]
fn smallest_boards() {
    assert_eq!(get_winner(&0, 0), 0);
    assert_eq!(get_winner(&1, 0), 0);
    assert_eq!(get_winner(&0, 1), 0);
    assert_eq!(get_winner(&1, 1), 1);
    assert_eq!(get_winner(&2, 1), 2);
    // Two rows: team 1 in cells 0 and 1.
    assert_eq!(get_winner(&4, 2), 1);
    // Two rows: team 2 in cells 1 and 2, the second diagonal.
    assert_eq!(get_winner(&24, 2), 2);
}

#[test]
fn line_owner_follows_start_and_stride() {
    let id = id_of([1, 2, 1, 1, 2, 2, 2, 2, 1]);
    assert_eq!(line_owner(id, 1, 3, 3), 2);
    assert_eq!(line_owner(id, 0, 3, 3), 0);
    assert_eq!(line_owner(id, 0, 3, 2), 1);
    assert_eq!(line_owner(id, 4, 1, 2), 2);
    assert_eq!(line_owner(id, 0, 1, 0), 0);
    assert_eq!(line_owner(id, 8, 0, 5), 1);
}
