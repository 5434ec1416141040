//! What a game has to offer to be compiled, and tic-tac-toe's offer.
//!
//! A `Compilation` holds the rules of one game for one board size and the
//! store of the boards met so far. The compiler and the engine know a game
//! through this trait alone.

use vstd::prelude::*;
use std::collections::HashMap;
use std::collections::hash_map::Entry;
use vstd::std_specs::hash::*;
use crate::codec::{
    digit, lemma_pow3_fits, lemma_pow3_positive, lemma_shift_step, pow3, NodeIndex, MAX_CELLS,
};
use crate::graph::{always_ends, decreasing, lemma_reachable_valid, reachable, step};
use crate::node::{other_team, CompileError, Node, NodeMap};
use crate::rules::{
    child_states, empty_cells, get_winner, lemma_child_states_moves, lemma_empty_board,
    lemma_move_fills_cell, lemma_parent_states_moves, lemma_placed_bound, lemma_unplace,
    lemma_winner_range, parent_states, placed, turn_spec, winner_spec,
};

verus! {

broadcast use vstd::std_specs::hash::group_hash_axioms;

/// The board on which every game starts: no cell holds a mark.
pub const INITIAL_STATE: NodeIndex = 0;

/// A `Compilation` as contracts see it.
pub struct CompilationView {
    /// The number of rows, and of columns, of the board.
    pub board_size: u8,
    /// The store: the record of each board met so far.
    pub nodes: Map<NodeIndex, Node>,
    /// How many boards were taken from the queue and looked at.
    pub nodes_processed: nat,
    /// How many boards that end the game were scored.
    pub winners_processed: nat,
    /// How many boards were scored in all.
    pub nodes_scored: nat,
}

impl CompilationView {
    /// Nothing was compiled yet: the store is empty and the counters are 0.
    pub open spec fn is_fresh(self) -> bool {
        &&& self.nodes == Map::<NodeIndex, Node>::empty()
        &&& self.nodes_processed == 0
        &&& self.winners_processed == 0
        &&& self.nodes_scored == 0
    }
}

/// The rules of a game of two teams that take turns, with the store and
/// the counters of its compilation.
///
/// The rules are functions of the board size and the board. Team 1 moves
/// first, on `INITIAL_STATE`.
pub trait Compilation: Sized {
    spec fn view(&self) -> CompilationView;

    /// The value can be used: its board size is one the game has.
    spec fn wf(&self) -> bool;

    /// The game can be played on a board of this size.
    spec fn valid_size(size: u8) -> bool;

    /// `id` is a board of this size.
    spec fn valid_state(size: u8, id: NodeIndex) -> bool;

    /// The team that moves next on the board `id`.
    spec fn turn_of(size: u8, id: NodeIndex) -> u8;

    /// The team that has won on the board `id`, or 0.
    spec fn winner_of(size: u8, id: NodeIndex) -> u8;

    /// The boards that one move of `team` leads to from `id`.
    spec fn children_of(size: u8, id: NodeIndex, team: u8) -> Seq<NodeIndex>;

    /// Boards from which one move of `team` leads to `id`: all of them,
    /// and perhaps more.
    spec fn parents_of(size: u8, id: NodeIndex, team: u8) -> Seq<NodeIndex>;

    /// A usable value has a valid size and a store that a machine can hold.
    proof fn lemma_wf(&self)
        requires
            self.wf(),
        ensures
            Self::valid_size(self.view().board_size),
            self.view().nodes.dom().finite(),
            self.view().nodes.len() <= usize::MAX,
    ;

    /// The game starts on a valid board, and team 1 starts.
    proof fn lemma_initial_state(size: u8)
        requires
            Self::valid_size(size),
        ensures
            Self::valid_state(size, INITIAL_STATE),
            Self::turn_of(size, INITIAL_STATE) == 1,
    ;

    /// The team to move is 1 or 2, the winner 0, 1 or 2.
    proof fn lemma_teams(size: u8, id: NodeIndex)
        requires
            Self::valid_size(size),
            Self::valid_state(size, id),
        ensures
            1 <= Self::turn_of(size, id) <= 2,
            Self::winner_of(size, id) <= 2,
    ;

    /// A move of either team leads from a valid board to a valid board.
    proof fn lemma_child_valid(size: u8, id: NodeIndex, team: u8, child: NodeIndex)
        requires
            Self::valid_size(size),
            Self::valid_state(size, id),
            1 <= team <= 2,
            Self::children_of(size, id, team).contains(child),
        ensures
            Self::valid_state(size, child),
    ;

    /// A move of the team whose turn it is leads to a valid board on which
    /// the other team moves, and that board counts the first among its
    /// parents.
    proof fn lemma_child(size: u8, id: NodeIndex, child: NodeIndex)
        requires
            Self::valid_size(size),
            Self::valid_state(size, id),
            Self::children_of(size, id, Self::turn_of(size, id)).contains(child),
        ensures
            Self::valid_state(size, child),
            Self::turn_of(size, child) == other_team(Self::turn_of(size, id)),
            Self::parents_of(size, child, Self::turn_of(size, id)).contains(id),
    ;

    /// Counts one more board as looked at.
    fn inc_nodes_processed(&mut self)
        requires
            old(self).wf(),
            old(self).view().nodes_processed < usize::MAX,
        ensures
            final(self).wf(),
            final(self).view() == (CompilationView {
                nodes_processed: old(self).view().nodes_processed + 1,
                ..old(self).view()
            }),
    ;

    /// How many boards were looked at.
    fn get_nodes_processed(&self) -> (count: usize)
        requires
            self.wf(),
        ensures
            count == self.view().nodes_processed,
    ;

    /// Counts one more finished game as scored.
    fn inc_winners_processed(&mut self)
        requires
            old(self).wf(),
            old(self).view().winners_processed < usize::MAX,
        ensures
            final(self).wf(),
            final(self).view() == (CompilationView {
                winners_processed: old(self).view().winners_processed + 1,
                ..old(self).view()
            }),
    ;

    /// How many finished games were scored.
    fn get_winners_processed(&self) -> (count: usize)
        requires
            self.wf(),
        ensures
            count == self.view().winners_processed,
    ;

    /// Counts one more board as scored.
    fn inc_nodes_scored(&mut self)
        requires
            old(self).wf(),
            old(self).view().nodes_scored < usize::MAX,
        ensures
            final(self).wf(),
            final(self).view() == (CompilationView {
                nodes_scored: old(self).view().nodes_scored + 1,
                ..old(self).view()
            }),
    ;

    /// How many boards were scored.
    fn get_nodes_scored(&self) -> (count: usize)
        requires
            self.wf(),
        ensures
            count == self.view().nodes_scored,
    ;

    /// The record of the board `id`, to read and to change; `MissingNode`
    /// where the store has none.
    fn get_node_mut(&mut self, id: NodeIndex) -> (found: Result<&mut Node, CompileError>)
        requires
            old(self).wf(),
        ensures
            final(self).wf(),
            match found {
                Ok(node) => {
                    &&& old(self).view().nodes.contains_key(id)
                    &&& *node == old(self).view().nodes[id]
                    &&& final(self).view() == (CompilationView {
                        nodes: old(self).view().nodes.insert(id, *final(node)),
                        ..old(self).view()
                    })
                },
                Err(error) => {
                    &&& !old(self).view().nodes.contains_key(id)
                    &&& error == CompileError::MissingNode(id)
                    &&& final(self).view() == old(self).view()
                },
            },
    ;

    /// Puts the record `n` of the board `id` into the store;
    /// `DuplicateNode` where the store has one of that board.
    fn insert_node(&mut self, id: NodeIndex, n: Node) -> (done: Result<(), CompileError>)
        requires
            old(self).wf(),
        ensures
            final(self).wf(),
            match done {
                Ok(_) => {
                    &&& !old(self).view().nodes.contains_key(id)
                    &&& final(self).view() == (CompilationView {
                        nodes: old(self).view().nodes.insert(id, n),
                        ..old(self).view()
                    })
                },
                Err(error) => {
                    &&& old(self).view().nodes.contains_key(id)
                    &&& error == CompileError::DuplicateNode(id)
                    &&& final(self).view() == old(self).view()
                },
            },
    ;

    /// Whether the store has a record of the board `id`.
    fn contains_node(&self, id: &NodeIndex) -> (found: bool)
        requires
            self.wf(),
        ensures
            found == self.view().nodes.contains_key(*id),
    ;

    /// A copy of the store.
    fn get_cloned_map(&self) -> (copy: NodeMap)
        requires
            self.wf(),
        ensures
            copy@ == self.view().nodes,
    ;

    /// The team that has won on the board `id`, or 0.
    fn get_winner(&self, id: &NodeIndex) -> (team: u8)
        requires
            self.wf(),
            Self::valid_state(self.view().board_size, *id),
        ensures
            team == Self::winner_of(self.view().board_size, *id),
    ;

    /// The boards that one move of `team` leads to from `id`; none where
    /// no move is left.
    fn get_child_states(&self, id: NodeIndex, team: u8) -> (states: Vec<NodeIndex>)
        requires
            self.wf(),
            Self::valid_state(self.view().board_size, id),
            1 <= team <= 2,
        ensures
            states@ == Self::children_of(self.view().board_size, id, team),
    ;

    /// Boards from which one move of `team` leads to `id`: all of them,
    /// and perhaps more.
    fn get_parent_states(&self, id: NodeIndex, team: u8) -> (states: Vec<NodeIndex>)
        requires
            self.wf(),
            Self::valid_state(self.view().board_size, id),
            1 <= team <= 2,
        ensures
            states@ == Self::parents_of(self.view().board_size, id, team),
    ;

    /// Empties the store and sets the counters to 0.
    fn reset(&mut self)
        ensures
            final(self).wf(),
            final(self).view().is_fresh(),
    ;
}

/// Tic-tac-toe on a square board, with the store of its compilation.
pub struct TTTCompilation {
    pub nodes: NodeMap,
    pub nodes_processed: usize,
    pub winners_processed: usize,
    pub nodes_scored: usize,
    pub board_size: u8,
}

/// The number of cells of a board of `size` rows and columns.
pub open spec fn cells_of(size: u8) -> nat {
    (size * size) as nat
}

impl TTTCompilation {
    /// An empty store for the board of three rows and columns.
    pub fn new() -> (fresh: TTTCompilation)
        ensures
            fresh.wf(),
            fresh.view().is_fresh(),
            fresh.view().board_size == 3,
    {
        TTTCompilation {
            nodes: HashMap::new(),
            nodes_processed: 0,
            winners_processed: 0,
            nodes_scored: 0,
            board_size: 3,
        }
    }

    /// Sets the number of rows and columns. Boards of more than
    /// `MAX_CELLS` cells have identifiers that no `NodeIndex` holds: with
    /// such a size the value is not `wf`.
    pub fn set_board_size(&mut self, size: u8)
        ensures
            final(self).view() == (CompilationView { board_size: size, ..old(self).view() }),
            final(self).wf() <==> size * size <= MAX_CELLS,
    {
        self.board_size = size;
    }

    /// The number of cells of the board.
    fn cell_count(&self) -> (cells: usize)
        requires
            self.wf(),
        ensures
            cells == cells_of(self.board_size),
            cells <= MAX_CELLS,
    {
        let size = self.board_size as usize;
        assert(size * size <= 255 * 255) by (nonlinear_arith)
            requires
                size <= 255,
        ;
        size * size
    }
}

impl Compilation for TTTCompilation {
    open spec fn view(&self) -> CompilationView {
        CompilationView {
            board_size: self.board_size,
            nodes: self.nodes@,
            nodes_processed: self.nodes_processed as nat,
            winners_processed: self.winners_processed as nat,
            nodes_scored: self.nodes_scored as nat,
        }
    }

    open spec fn wf(&self) -> bool {
        Self::valid_size(self.board_size)
    }

    open spec fn valid_size(size: u8) -> bool {
        size * size <= MAX_CELLS
    }

    open spec fn valid_state(size: u8, id: NodeIndex) -> bool {
        id < pow3(cells_of(size))
    }

    open spec fn turn_of(size: u8, id: NodeIndex) -> u8 {
        turn_spec(id as nat, cells_of(size)) as u8
    }

    open spec fn winner_of(size: u8, id: NodeIndex) -> u8 {
        winner_spec(id as nat, size as nat) as u8
    }

    open spec fn children_of(size: u8, id: NodeIndex, team: u8) -> Seq<NodeIndex> {
        child_states(id, team, cells_of(size))
    }

    open spec fn parents_of(size: u8, id: NodeIndex, team: u8) -> Seq<NodeIndex> {
        parent_states(id, team, cells_of(size))
    }

    proof fn lemma_wf(&self) {
        assert(self.nodes@.len() == spec_hash_map_len(&self.nodes));
    }

    proof fn lemma_initial_state(size: u8) {
        lemma_pow3_positive(cells_of(size));
        lemma_empty_board(cells_of(size));
    }

    proof fn lemma_teams(size: u8, id: NodeIndex) {
        lemma_winner_range(id as nat, size as nat);
    }

    proof fn lemma_child_valid(size: u8, id: NodeIndex, team: u8, child: NodeIndex) {
        let cells = cells_of(size);
        lemma_pow3_fits(cells);
        lemma_child_states_moves(id, team, cells, child);
        let cell = choose|cell: nat|
            cell < cells && digit(id as nat, cell) == 0 && child as nat == #[trigger] placed(
                id as nat,
                team as nat,
                cell,
            );
        lemma_placed_bound(id as nat, team as nat, cells, cell);
    }

    proof fn lemma_child(size: u8, id: NodeIndex, child: NodeIndex) {
        let cells = cells_of(size);
        let team = Self::turn_of(size, id);
        lemma_pow3_fits(cells);
        lemma_child_states_moves(id, team, cells, child);
        let cell = choose|cell: nat|
            cell < cells && digit(id as nat, cell) == 0 && child as nat == #[trigger] placed(
                id as nat,
                team as nat,
                cell,
            );
        lemma_placed_bound(id as nat, team as nat, cells, cell);
        lemma_move_fills_cell(id as nat, child as nat, team as nat, cells);
        lemma_parent_states_moves(child, team, cells, id);
    }

    fn inc_nodes_processed(&mut self) {
        self.nodes_processed += 1;
    }

    fn get_nodes_processed(&self) -> (count: usize) {
        self.nodes_processed
    }

    fn inc_winners_processed(&mut self) {
        self.winners_processed += 1;
    }

    fn get_winners_processed(&self) -> (count: usize) {
        self.winners_processed
    }

    fn inc_nodes_scored(&mut self) {
        self.nodes_scored += 1;
    }

    fn get_nodes_scored(&self) -> (count: usize) {
        self.nodes_scored
    }

    fn get_node_mut(&mut self, id: NodeIndex) -> (found: Result<&mut Node, CompileError>) {
        if !self.nodes.contains_key(&id) {
            return Err(CompileError::MissingNode(id));
        }
        match self.nodes.entry(id) {
            Entry::Occupied(entry) => Ok(entry.into_mut()),
            Entry::Vacant(_) => Err(CompileError::MissingNode(id)),
        }
    }

    fn insert_node(&mut self, id: NodeIndex, n: Node) -> (done: Result<(), CompileError>) {
        if self.nodes.contains_key(&id) {
            return Err(CompileError::DuplicateNode(id));
        }
        self.nodes.insert(id, n);
        Ok(())
    }

    fn contains_node(&self, id: &NodeIndex) -> (found: bool) {
        self.nodes.contains_key(id)
    }

    fn get_cloned_map(&self) -> (copy: NodeMap) {
        self.nodes.clone()
    }

    fn get_winner(&self, id: &NodeIndex) -> (team: u8) {
        get_winner(id, self.board_size)
    }

    /// The boards that one move of `team` leads to from `id`: for each
    /// empty cell `i`, in the order of the cells, `id + team * 3^i`. None
    /// where the board is full.
    fn get_child_states(&self, id: NodeIndex, team: u8) -> (states: Vec<NodeIndex>) {
        let cells = self.cell_count();
        let mut rest: NodeIndex = id;
        let mut weight: NodeIndex = 1;
        let mut states: Vec<NodeIndex> = Vec::new();
        let mut i: usize = 0;
        assert(pow3(0) == 1);
        while i < cells
            invariant
                i <= cells <= MAX_CELLS,
                1 <= team <= 2,
                id < pow3(cells as nat),
                rest == id as nat / pow3(i as nat),
                i < cells ==> weight == pow3(i as nat),
                states@ == child_states(id, team, i as nat),
            decreases cells - i,
        {
            proof {
                lemma_shift_step(id as nat, i as nat);
                lemma_pow3_fits(cells as nat);
                lemma_pow3_fits((i + 1) as nat);
            }
            if rest % 3 == 0 {
                proof {
                    lemma_placed_bound(id as nat, team as nat, cells as nat, i as nat);
                    assert(team as nat * weight as nat <= 2 * weight) by (nonlinear_arith)
                        requires
                            team <= 2,
                    ;
                }
                states.push(id + team as NodeIndex * weight);
            }
            rest = rest / 3;
            i = i + 1;
            if i < cells {
                proof {
                    lemma_pow3_fits((i + 1) as nat);
                }
                weight = weight * 3;
            }
        }
        states
    }

    /// The boards from which one move of `team` leads to `id`: for each
    /// cell `i` that holds the mark of `team`, in the order of the cells,
    /// `id - team * 3^i`.
    fn get_parent_states(&self, id: NodeIndex, team: u8) -> (states: Vec<NodeIndex>) {
        let cells = self.cell_count();
        let mut rest: NodeIndex = id;
        let mut weight: NodeIndex = 1;
        let mut states: Vec<NodeIndex> = Vec::new();
        let mut i: usize = 0;
        assert(pow3(0) == 1);
        while i < cells
            invariant
                i <= cells <= MAX_CELLS,
                1 <= team <= 2,
                rest == id as nat / pow3(i as nat),
                i < cells ==> weight == pow3(i as nat),
                states@ == parent_states(id, team, i as nat),
            decreases cells - i,
        {
            proof {
                lemma_shift_step(id as nat, i as nat);
                lemma_pow3_fits((i + 1) as nat);
            }
            if rest % 3 == team as NodeIndex {
                proof {
                    lemma_unplace(id as nat, team as nat, i as nat);
                    assert(team as nat * weight as nat <= 2 * weight) by (nonlinear_arith)
                        requires
                            team <= 2,
                    ;
                }
                states.push(id - team as NodeIndex * weight);
            }
            rest = rest / 3;
            i = i + 1;
            if i < cells {
                proof {
                    lemma_pow3_fits((i + 1) as nat);
                }
                weight = weight * 3;
            }
        }
        states
    }

    /// Empties the store, sets the counters to 0 and the board size to 3:
    /// the value is as `new` gives it.
    fn reset(&mut self)
        ensures
            final(self).view().board_size == 3,
    {
        self.nodes = HashMap::new();
        self.nodes_processed = 0;
        self.winners_processed = 0;
        self.nodes_scored = 0;
        self.board_size = 3;
    }
}

/// Every game of tic-tac-toe ends: each move leaves one empty cell less.
pub proof fn lemma_tictactoe_always_ends(size: u8)
    requires
        TTTCompilation::valid_size(size),
    ensures
        always_ends::<TTTCompilation>(size),
{
    let cells = cells_of(size);
    let rank = |id: NodeIndex| empty_cells(id as nat, cells);
    assert forall|from: NodeIndex, to: NodeIndex|
        reachable::<TTTCompilation>(size, from) && #[trigger] step::<TTTCompilation>(
            size,
            from,
            to,
        ) implies rank(to) < rank(from) by {
        let team = TTTCompilation::turn_of(size, from);
        lemma_reachable_valid::<TTTCompilation>(size, from);
        lemma_pow3_fits(cells);
        lemma_child_states_moves(from, team, cells, to);
        lemma_move_fills_cell(from as nat, to as nat, team as nat, cells);
    }
    assert(decreasing::<TTTCompilation>(size, rank));
}

} // verus!
