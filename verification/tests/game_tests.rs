use tictactoe::codec::encode;
use tictactoe::game::{GameBoard, Mode, BOARD_CELLS, BOARD_SIZE};
use tictactoe::node::CompileError;

#[test]
fn new_game_starts_empty_between_two_players() {
    let game = GameBoard::new();
    assert_eq!(game.board_state, [0; 9]);
    assert_eq!(game.turn, 1);
    assert_eq!(game.turn_count, 0);
    assert_eq!(game.hash, 0);
    assert_eq!(game.winner, None);
    assert_eq!(game.game_mode, Mode::TwoPlayer);
    assert_eq!(game.ai_team, 1);
    assert_eq!(game.ai.table.len(), 5478);
    assert_eq!(BOARD_SIZE, 3);
    assert_eq!(BOARD_CELLS, 9);
}

#[test]
fn hash_follows_the_board() {
    let mut game = GameBoard::new();
    game.board_state = [1, 1, 1, 0, 0, 0, 0, 0, 0];
    game.update_board_hash();
    assert_eq!(game.hash, 13);
    game.board_state = [0, 0, 0, 0, 2, 0, 0, 0, 0];
    game.update_board_hash();
    assert_eq!(game.hash, 162);
}

#[test]
fn board_follows_the_hash() {
    let mut game = GameBoard::new();
    game.set_board_from_hash(13);
    assert_eq!(game.board_state, [1, 1, 1, 0, 0, 0, 0, 0, 0]);
    assert_eq!(game.hash, 0);
    game.set_board_from_hash(19682);
    assert_eq!(game.board_state, [2; 9]);
    game.set_board_from_hash(0);
    assert_eq!(game.board_state, [0; 9]);
}

#[test]
fn winner_is_seen_and_kept() {
    let mut game = GameBoard::new();
    game.update_winner();
    assert_eq!(game.winner, None);
    game.hash = 13;
    game.update_winner();
    assert_eq!(game.winner, Some(1));
    game.hash = 0;
    game.update_winner();
    assert_eq!(game.winner, Some(1));
    game.hash = 26;
    game.update_winner();
    assert_eq!(game.winner, Some(2));
}

#[test]
fn turn_passes_back_and_forth() {
    let mut game = GameBoard::new();
    game.update_turn();
    assert_eq!(game.turn, 2);
    game.update_turn();
    assert_eq!(game.turn, 1);
    game.turn = 7;
    game.update_turn();
    assert_eq!(game.turn, 1);
}

#[test]
fn engine_moves_only_in_a_game_against_it() {
    let mut game = GameBoard::new();
    assert!(!game.is_ai_turn());
    game.game_mode = Mode::Computer;
    assert!(game.is_ai_turn());
    game.ai_team = 2;
    assert!(!game.is_ai_turn());
    game.turn = 2;
    assert!(game.is_ai_turn());
    game.winner = Some(1);
    assert!(!game.is_ai_turn());
    game.winner = None;
    game.turn_count = 9;
    assert!(!game.is_ai_turn());
}

#[test]
fn engine_does_not_move_between_two_players() {
    let mut game = GameBoard::new();
    assert_eq!(game.make_ai_turn(), Ok(()));
    assert_eq!(game.board_state, [0; 9]);
    assert_eq!(game.turn, 1);
    assert_eq!(game.turn_count, 0);
}

#[test]
fn engine_opens_in_the_first_cell() {
    let mut game = GameBoard::new();
    game.game_mode = Mode::Computer;
    assert_eq!(game.make_ai_turn(), Ok(()));
    assert_eq!(game.board_state, [1, 0, 0, 0, 0, 0, 0, 0, 0]);
    assert_eq!(game.hash, 1);
    assert_eq!(game.turn, 2);
    assert_eq!(game.turn_count, 1);
    assert_eq!(game.winner, None);
}

#[test]
fn restart_clears_the_board() {
    let mut game = GameBoard::new();
    assert_eq!(game.handle_click(4), Ok(true));
    assert_eq!(game.handle_click(0), Ok(true));
    assert_eq!(game.restart(), Ok(()));
    assert_eq!(game.board_state, [0; 9]);
    assert_eq!(game.turn, 1);
    assert_eq!(game.turn_count, 0);
    assert_eq!(game.hash, 0);
    assert_eq!(game.winner, None);
    assert_eq!(game.game_mode, Mode::TwoPlayer);
}

#[test]
fn restart_lets_the_engine_open_where_it_plays_team_one() {
    let mut game = GameBoard::new();
    game.game_mode = Mode::Computer;
    assert_eq!(game.restart(), Ok(()));
    assert_eq!(game.board_state, [1, 0, 0, 0, 0, 0, 0, 0, 0]);
    assert_eq!(game.turn, 2);
    assert_eq!(game.turn_count, 1);
    game.ai_team = 2;
    assert_eq!(game.restart(), Ok(()));
    assert_eq!(game.board_state, [0; 9]);
    assert_eq!(game.turn, 1);
}

#[test]
fn clicks_set_marks_in_turn() {
    let mut game = GameBoard::new();
    assert_eq!(game.handle_click(4), Ok(true));
    assert_eq!(game.board_state, [0, 0, 0, 0, 1, 0, 0, 0, 0]);
    assert_eq!(game.hash, 81);
    assert_eq!(game.turn, 2);
    assert_eq!(game.turn_count, 1);
    assert_eq!(game.handle_click(0), Ok(true));
    assert_eq!(game.board_state, [2, 0, 0, 0, 1, 0, 0, 0, 0]);
    assert_eq!(game.hash, 83);
    assert_eq!(game.turn, 1);
    assert_eq!(game.turn_count, 2);
    assert_eq!(game.winner, None);
}

#[test]
fn click_on_a_taken_cell_does_nothing() {
    let mut game = GameBoard::new();
    assert_eq!(game.handle_click(4), Ok(true));
    assert_eq!(game.handle_click(4), Ok(false));
    assert_eq!(game.board_state, [0, 0, 0, 0, 1, 0, 0, 0, 0]);
    assert_eq!(game.turn, 2);
    assert_eq!(game.turn_count, 1);
}

#[test]
fn click_beside_the_board_does_nothing() {
    let mut game = GameBoard::new();
    assert_eq!(game.handle_click(9), Ok(false));
    assert_eq!(game.handle_click(usize::MAX), Ok(false));
    assert_eq!(game.board_state, [0; 9]);
    assert_eq!(game.turn_count, 0);
}

#[test]
fn two_players_play_to_a_win() {
    let mut game = GameBoard::new();
    for cell in [0, 3, 1, 4] {
        assert_eq!(game.handle_click(cell), Ok(true));
        assert_eq!(game.winner, None);
    }
    assert_eq!(game.handle_click(2), Ok(true));
    assert_eq!(game.winner, Some(1));
    assert_eq!(game.hash, encode(&[1, 1, 1, 2, 2, 0, 0, 0, 0]));
    assert_eq!(game.turn_count, 5);
    // The game is over: no more marks.
    assert_eq!(game.handle_click(8), Ok(false));
    assert_eq!(game.board_state, [1, 1, 1, 2, 2, 0, 0, 0, 0]);
}

#[test]
fn two_players_play_to_a_draw() {
    let mut game = GameBoard::new();
    for cell in [0, 1, 2, 4, 3, 5, 7, 6, 8] {
        assert_eq!(game.handle_click(cell), Ok(true));
    }
    assert_eq!(game.board_state, [1, 2, 1, 1, 2, 2, 2, 1, 1]);
    assert_eq!(game.winner, None);
    assert_eq!(game.turn_count, 9);
    assert_eq!(game.handle_click(0), Ok(false));
}

#[test]
fn engine_replies_to_a_click() {
    let mut game = GameBoard::new();
    game.game_mode = Mode::Computer;
    game.ai_team = 2;
    assert_eq!(game.handle_click(0), Ok(true));
    // The centre is the one reply to a corner that does not lose.
    assert_eq!(game.board_state, [1, 0, 0, 0, 2, 0, 0, 0, 0]);
    assert_eq!(game.hash, 1 + 162);
    assert_eq!(game.turn, 1);
    assert_eq!(game.turn_count, 2);
}

#[test]
fn engine_is_not_beaten() {
    // The player takes the first empty cell each time.
    let mut game = GameBoard::new();
    game.game_mode = Mode::Computer;
    game.ai_team = 2;
    while game.winner.is_none() && game.turn_count < 9 {
        let cell = game.board_state.iter().position(|mark| *mark == 0).unwrap();
        assert_eq!(game.handle_click(cell), Ok(true));
    }
    assert_eq!(game.winner, Some(2));
}

#[test]
fn engine_takes_the_win_it_is_offered() {
    let mut game = GameBoard::new();
    game.game_mode = Mode::Computer;
    assert_eq!(game.restart(), Ok(()));
    // The engine holds cell 0. The player answers beside it each time.
    assert_eq!(game.handle_click(1), Ok(true));
    assert_eq!(game.handle_click(2), Ok(true));
    assert_eq!(game.winner, Some(1));
}

#[test]
fn engine_without_a_table_cannot_move() {
    let mut game = GameBoard::new();
    game.ai.table.clear();
    game.game_mode = Mode::Computer;
    assert_eq!(game.make_ai_turn(), Err(CompileError::MissingNode(1)));
    assert_eq!(game.board_state, [0; 9]);
    assert_eq!(game.turn, 1);
    assert_eq!(game.turn_count, 0);
    game.ai_team = 2;
    // The mark of the player stays where the engine fails to reply.
    assert_eq!(game.handle_click(8), Err(CompileError::MissingNode(6561 + 2)));
    assert_eq!(game.board_state, [0, 0, 0, 0, 0, 0, 0, 0, 1]);
    assert_eq!(game.turn, 2);
    assert_eq!(game.turn_count, 1);
}

#[test]
fn engine_asked_on_a_finished_board_has_no_move() {
    let mut game = GameBoard::new();
    game.game_mode = Mode::Computer;
    game.board_state = [1, 2, 1, 1, 2, 2, 2, 1, 1];
    game.update_board_hash();
    // The count of moves says that cells are left; the board says no.
    game.turn_count = 8;
    assert_eq!(game.make_ai_turn(), Err(CompileError::NoLegalMove));
}
