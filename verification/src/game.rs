//! A game of tic-tac-toe on the board of three rows and columns, between
//! two players or against the engine.

use vstd::prelude::*;
use vstd::pervasive::unreached;
use crate::ai::{first_missing, holds_all, is_best_move, AI};
use crate::codec::{
    decode_spec, encode, encode_spec, lemma_digit_beyond, lemma_encode_bound, lemma_encode_decode,
    lemma_pow3_positive, lemma_shift_step, pow3, valid_board, NodeIndex,
};
use crate::compilation::{lemma_tictactoe_always_ends, Compilation, TTTCompilation};
use crate::compiler::compile_table;
use crate::graph::compiled;
use crate::node::{other_team, CompileError};
use crate::rules::{child_states, get_winner, lemma_winner_range, winner_spec};

verus! {

/// The number of rows, and of columns, of the board of a game.
pub const BOARD_SIZE: u8 = 3;

/// The number of cells of the board of a game.
pub const BOARD_CELLS: usize = 9;

/// Who plays.
#[derive(Clone, Copy, Debug, PartialEq, Eq, Structural)]
pub enum Mode {
    /// Two players take turns.
    TwoPlayer,
    /// One player against the engine.
    Computer,
}

/// A game: the board, whose turn it is, and the engine.
pub struct GameBoard {
    /// The mark in each cell: 0 for none, else the team.
    pub board_state: [u8; 9],
    /// The team that moves next.
    pub turn: u8,
    /// How many moves were made.
    pub turn_count: u8,
    /// The number of the board.
    pub hash: NodeIndex,
    /// The team that has won, once one has.
    pub winner: Option<u8>,
    pub game_mode: Mode,
    /// The team that the engine plays in a game against it.
    pub ai_team: u8,
    pub ai: AI<TTTCompilation>,
}

/// A game as contracts see it.
pub struct GameView {
    pub board: Seq<u8>,
    pub turn: u8,
    pub turn_count: u8,
    pub hash: NodeIndex,
    pub winner: Option<u8>,
    /// The game is one against the engine.
    pub computer: bool,
    pub ai_team: u8,
    /// The table that the engine plays from.
    pub table: Map<NodeIndex, i8>,
}

/// The winner as the game knows it once the board `hash` was looked at: the
/// winner of that board where it has one, else what was known before.
pub open spec fn seen_winner(hash: NodeIndex, before: Option<u8>) -> Option<u8> {
    if winner_spec(hash as nat, BOARD_SIZE as nat) != 0 {
        Some(winner_spec(hash as nat, BOARD_SIZE as nat) as u8)
    } else {
        before
    }
}

/// It is for the engine to move: the game is one against it, it is its
/// team's turn, no winner is known and fewer than nine moves were made.
pub open spec fn ai_turn(v: GameView) -> bool {
    v.computer && v.turn == v.ai_team && v.winner is None && v.turn_count < 9
}

/// The game after a move to the board `board`.
pub open spec fn after_reply(v: GameView, board: NodeIndex) -> GameView {
    GameView {
        board: decode_spec(board as nat, BOARD_CELLS as nat),
        turn: other_team(v.turn),
        turn_count: (v.turn_count + 1) as u8,
        hash: board,
        winner: seen_winner(board, v.winner),
        ..v
    }
}

/// What the engine's turn makes of the game `before`. Where it is not for
/// the engine to move, nothing changes. Else the engine moves to the best
/// board one move on; where the game is over on the board, or the table
/// lacks a board one move on, nothing changes and the error says which.
pub open spec fn ai_turn_taken(
    before: GameView,
    after: GameView,
    done: Result<(), CompileError>,
) -> bool {
    if !ai_turn(before) {
        done is Ok && after == before
    } else {
        let kids = child_states(before.hash, before.ai_team, BOARD_CELLS as nat);
        let over = winner_spec(before.hash as nat, BOARD_SIZE as nat) != 0 || kids.len() == 0;
        match done {
            Ok(_) => {
                &&& !over
                &&& holds_all(before.table, kids)
                &&& is_best_move::<TTTCompilation>(
                    BOARD_SIZE,
                    before.table,
                    before.ai_team,
                    kids,
                    after.hash,
                )
                &&& after == after_reply(before, after.hash)
            },
            Err(CompileError::NoLegalMove) => over && after == before,
            Err(CompileError::MissingNode(missing)) => !over && first_missing(
                before.table,
                kids,
                missing,
            ) && after == before,
            Err(_) => false,
        }
    }
}

/// A mark can be set in the cell `index`: there is such a cell, it is
/// empty, no winner is known and fewer than nine moves were made.
pub open spec fn can_place(v: GameView, index: usize) -> bool {
    index < BOARD_CELLS && v.winner is None && v.turn_count < 9 && v.board[index as int] == 0
}

/// The game after the team to move has set its mark in the cell `index`.
pub open spec fn after_mark(v: GameView, index: usize) -> GameView {
    let board = v.board.update(index as int, v.turn);
    GameView {
        board,
        turn: other_team(v.turn),
        turn_count: (v.turn_count + 1) as u8,
        hash: encode_spec(board) as NodeIndex,
        winner: seen_winner(encode_spec(board) as NodeIndex, v.winner),
        ..v
    }
}

/// The game set back to its start: the empty board, team 1 to move.
pub open spec fn restarted(v: GameView) -> GameView {
    GameView {
        board: decode_spec(0, BOARD_CELLS as nat),
        turn: 1,
        turn_count: 0,
        hash: 0,
        winner: None,
        ..v
    }
}

/// The empty board decodes to nine empty cells.
proof fn lemma_empty_cells_decoded(board: Seq<u8>)
    requires
        board.len() == 9,
        forall|k: int| 0 <= k < 9 ==> board[k] == 0,
    ensures
        board == decode_spec(0, BOARD_CELLS as nat),
        encode_spec(board) == 0,
        valid_board(board),
{
    let empty = decode_spec(0, BOARD_CELLS as nat);
    assert forall|k: int| 0 <= k < 9 implies #[trigger] empty[k] == 0 by {
        lemma_digit_beyond(0, 0, k as nat);
    }
    assert(board =~= empty);
    lemma_pow3_positive(BOARD_CELLS as nat);
    lemma_encode_decode(0, BOARD_CELLS as nat);
}

impl GameBoard {
    pub open spec fn view(&self) -> GameView {
        GameView {
            board: self.board_state@,
            turn: self.turn,
            turn_count: self.turn_count,
            hash: self.hash,
            winner: self.winner,
            computer: self.game_mode == Mode::Computer,
            ai_team: self.ai_team,
            table: self.ai.table@,
        }
    }

    /// The game is in order: the board holds marks of the two teams only,
    /// `hash` is its number, the teams are 1 and 2, and the engine knows
    /// the board of three rows and columns.
    pub open spec fn wf(&self) -> bool {
        &&& valid_board(self.board_state@)
        &&& self.hash == encode_spec(self.board_state@)
        &&& 1 <= self.turn <= 2
        &&& 1 <= self.ai_team <= 2
        &&& self.ai.rules.wf()
        &&& self.ai.rules.view().board_size == BOARD_SIZE
    }

    /// A game between two players on the empty board, team 1 to move, with
    /// an engine that has compiled the game and would play team 1.
    pub fn new() -> (game: GameBoard)
        ensures
            game.wf(),
            game.view() == restarted(game.view()),
            !game.view().computer,
            game.view().ai_team == 1,
            compiled::<TTTCompilation>(BOARD_SIZE, game.view().table),
    {
        proof {
            lemma_tictactoe_always_ends(BOARD_SIZE);
        }
        let table = match compile_table(TTTCompilation::new()) {
            Ok(table) => table,
            Err(_) => unreached(),
        };
        let mut ai = AI::new(TTTCompilation::new());
        ai.load(table);
        let game = GameBoard {
            board_state: [0, 0, 0, 0, 0, 0, 0, 0, 0],
            turn: 1,
            turn_count: 0,
            hash: 0,
            winner: None,
            game_mode: Mode::TwoPlayer,
            ai_team: 1,
            ai,
        };
        proof {
            lemma_empty_cells_decoded(game.board_state@);
        }
        game
    }

    /// Sets `hash` to the number of the board.
    pub fn update_board_hash(&mut self)
        requires
            valid_board(old(self).board_state@),
        ensures
            final(self).view() == (GameView {
                hash: encode_spec(old(self).board_state@) as NodeIndex,
                ..old(self).view()
            }),
            final(self).hash == encode_spec(old(self).board_state@),
            final(self).ai == old(self).ai,
    {
        self.hash = encode(self.board_state.as_slice());
    }

    /// Looks for a winner on the board `hash`, and keeps it where there is
    /// one.
    pub fn update_winner(&mut self)
        ensures
            final(self).view() == (GameView {
                winner: seen_winner(old(self).hash, old(self).winner),
                ..old(self).view()
            }),
            final(self).ai == old(self).ai,
    {
        let winner = get_winner(&self.hash, BOARD_SIZE);
        if winner != 0 {
            self.winner = Some(winner);
        }
    }

    /// Whether it is for the engine to move.
    pub fn is_ai_turn(&mut self) -> (engine: bool)
        ensures
            *final(self) == *old(self),
            engine == ai_turn(old(self).view()),
    {
        match self.game_mode {
            Mode::Computer => self.turn == self.ai_team && self.winner.is_none()
                && self.turn_count < 9,
            Mode::TwoPlayer => false,
        }
    }

    /// Sets the board to the board number `n`.
    pub fn set_board_from_hash(&mut self, n: NodeIndex)
        ensures
            final(self).view() == (GameView {
                board: decode_spec(n as nat, BOARD_CELLS as nat),
                ..old(self).view()
            }),
            final(self).ai == old(self).ai,
    {
        let mut n = n;
        let ghost id = n;
        let mut i: usize = 0;
        assert(pow3(0) == 1);
        while i < 9
            invariant
                i <= 9,
                n == id as nat / pow3(i as nat),
                self.view() == (GameView { board: self.board_state@, ..old(self).view() }),
                self.ai == old(self).ai,
                forall|k: int|
                    0 <= k < i ==> self.board_state@[k] == decode_spec(
                        id as nat,
                        BOARD_CELLS as nat,
                    )[k],
            decreases 9 - i,
        {
            proof {
                lemma_shift_step(id as nat, i as nat);
            }
            if n > 0 {
                self.board_state[i] = (n % 3) as u8;
                n = n / 3;
            } else {
                self.board_state[i] = 0;
            }
            i = i + 1;
        }
        assert(self.board_state@ =~= decode_spec(id as nat, BOARD_CELLS as nat));
    }

    /// Passes the turn to the other team.
    pub fn update_turn(&mut self)
        ensures
            final(self).view() == (GameView {
                turn: other_team(old(self).turn),
                ..old(self).view()
            }),
            final(self).ai == old(self).ai,
    {
        self.turn = if self.turn == 1 {
            2
        } else {
            1
        };
    }

    /// Lets the engine move where it is for the engine to move: see
    /// `ai_turn_taken`.
    pub fn make_ai_turn(&mut self) -> (done: Result<(), CompileError>)
        requires
            old(self).wf(),
        ensures
            final(self).wf(),
            final(self).ai == old(self).ai,
            ai_turn_taken(old(self).view(), final(self).view(), done),
    {
        if !self.is_ai_turn() {
            return Ok(());
        }
        proof {
            lemma_encode_bound(self.board_state@);
            lemma_winner_range(self.hash as nat, BOARD_SIZE as nat);
        }
        let hash = match self.ai.get_move(self.hash, self.ai_team) {
            Ok(hash) => hash,
            Err(error) => {
                return Err(error);
            },
        };
        proof {
            TTTCompilation::lemma_child_valid(BOARD_SIZE, self.hash, self.ai_team, hash);
            lemma_encode_decode(hash as nat, BOARD_CELLS as nat);
        }
        self.set_board_from_hash(hash);
        self.update_turn();
        self.hash = hash;
        self.turn_count += 1;
        self.update_winner();
        Ok(())
    }

    /// Sets the game back to its start, and lets the engine move where it
    /// is for the engine to move.
    pub fn restart(&mut self) -> (done: Result<(), CompileError>)
        requires
            1 <= old(self).ai_team <= 2,
            old(self).ai.rules.wf(),
            old(self).ai.rules.view().board_size == BOARD_SIZE,
        ensures
            final(self).wf(),
            final(self).ai == old(self).ai,
            ai_turn_taken(restarted(old(self).view()), final(self).view(), done),
    {
        self.turn = 1;
        self.turn_count = 0;
        self.hash = 0;
        self.winner = None;
        self.board_state = [0, 0, 0, 0, 0, 0, 0, 0, 0];
        proof {
            lemma_empty_cells_decoded(self.board_state@);
        }
        self.make_ai_turn()
    }

    /// The player to move sets a mark in the cell `index`, and the engine
    /// replies where it is for the engine to move. Nothing happens, and
    /// the result is `false`, where no mark can be set there: see
    /// `can_place`.
    pub fn handle_click(&mut self, index: usize) -> (done: Result<bool, CompileError>)
        requires
            old(self).wf(),
        ensures
            final(self).wf(),
            final(self).ai == old(self).ai,
            !can_place(old(self).view(), index) ==> done == Ok::<bool, CompileError>(false)
                && final(self).view() == old(self).view(),
            can_place(old(self).view(), index) ==> ai_turn_taken(
                after_mark(old(self).view(), index),
                final(self).view(),
                match done {
                    Ok(_) => Ok(()),
                    Err(error) => Err(error),
                },
            ) && done != Ok::<bool, CompileError>(false),
    {
        if index >= 9 || self.winner.is_some() || self.turn_count >= 9 || self.board_state[index]
            != 0 {
            return Ok(false);
        }
        self.board_state[index] = self.turn;
        self.update_turn();
        self.update_board_hash();
        self.update_winner();
        self.turn_count += 1;
        match self.make_ai_turn() {
            Ok(_) => Ok(true),
            Err(error) => Err(error),
        }
    }
}

} // verus!
