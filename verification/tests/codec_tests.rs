use tictactoe::codec::{decode, digit_at, drop_digits, encode, NodeIndex, MAX_CELLS};

#[test]
fn top_row_encodes_to_thirteen() {
    let board: [u8; 9] = [1, 1, 1, 0, 0, 0, 0, 0, 0];
    assert_eq!(encode(&board), 13);
}

#[test]
fn thirteen_decodes_to_top_row() {
    assert_eq!(decode(13, 9), vec![1, 1, 1, 0, 0, 0, 0, 0, 0]);
}

#[test]
fn empty_board_encodes_to_zero() {
    assert_eq!(encode(&[0u8; 9]), 0);
    assert_eq!(encode(&[]), 0);
}

#[test]
fn each_cell_weighs_a_power_of_three() {
    let mut weight: NodeIndex = 1;
    for cell in 0..9 {
        let mut board = [0u8; 9];
        board[cell] = 1;
        assert_eq!(encode(&board), weight);
        board[cell] = 2;
        assert_eq!(encode(&board), 2 * weight);
        weight *= 3;
    }
}

#[test]
fn full_board_of_team_two_is_the_last_number() {
    assert_eq!(encode(&[2u8; 9]), 19682);
    assert_eq!(decode(19682, 9), vec![2u8; 9]);
}

#[test]
fn longest_board_fits() {
    let board = vec![2u8; MAX_CELLS];
    let id = encode(&board);
    assert_eq!(id, 147808829414345923316083210206383297600);
    assert_eq!(decode(id, MAX_CELLS), board);
}

#[test]
fn mixed_board_encodes_digit_by_digit() {
    // 2 + 0*3 + 1*9 + 2*27 + 1*81
    assert_eq!(encode(&[2, 0, 1, 2, 1]), 146);
    assert_eq!(decode(146, 5), vec![2, 0, 1, 2, 1]);
}

#[test]
fn cells_beyond_the_digits_are_empty() {
    assert_eq!(decode(1, 3), vec![1, 0, 0]);
    assert_eq!(decode(5, 4), vec![2, 1, 0, 0]);
    assert_eq!(decode(0, 9), vec![0u8; 9]);
    assert_eq!(decode(u128::MAX, 0), Vec::<u8>::new());
}

#[test]
fn decoding_fewer_cells_drops_the_high_digits() {
    // 146 is 2, 0, 1, 2, 1 from the lowest digit on.
    assert_eq!(decode(146, 3), vec![2, 0, 1]);
}

#[test]
fn every_board_of_nine_cells_round_trips() {
    for id in 0..19683u128 {
        let board = decode(id, 9);
        assert_eq!(board.len(), 9);
        assert!(board.iter().all(|mark| *mark <= 2));
        assert_eq!(encode(&board), id);
    }
}

#[test]
fn boards_round_trip_through_their_numbers() {
    let boards: [[u8; 9]; 4] = [
        [1, 2, 1, 1, 2, 2, 2, 1, 1],
        [0, 0, 0, 0, 1, 0, 0, 0, 0],
        [2, 2, 2, 2, 2, 2, 2, 2, 2],
        [1, 0, 2, 0, 1, 0, 2, 0, 1],
    ];
    for board in boards.iter() {
        assert_eq!(decode(encode(board), 9), board.to_vec());
    }
}

#[test]
fn digit_at_reads_one_cell() {
    assert_eq!(digit_at(13, 0), 1);
    assert_eq!(digit_at(13, 1), 1);
    assert_eq!(digit_at(13, 2), 1);
    assert_eq!(digit_at(13, 3), 0);
    assert_eq!(digit_at(146, 3), 2);
    assert_eq!(digit_at(146, 200), 0);
    assert_eq!(digit_at(u128::MAX, 80), 2);
    assert_eq!(digit_at(u128::MAX, 81), 0);
}

#[test]
fn drop_digits_divides_by_powers_of_three() {
    assert_eq!(drop_digits(100, 0), 100);
    assert_eq!(drop_digits(100, 2), 11);
    assert_eq!(drop_digits(100, 5), 0);
    assert_eq!(drop_digits(19682, 8), 2);
    assert_eq!(drop_digits(0, 1000), 0);
}
