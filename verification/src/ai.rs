//! The engine: it plays from the table that a compilation gives.

use vstd::prelude::*;
use std::collections::HashMap;
use vstd::std_specs::hash::*;
use crate::codec::NodeIndex;
use crate::compilation::Compilation;
use crate::graph::{compiled, moves, sound_entry, terminal};
use crate::node::CompileError;

verus! {

broadcast use vstd::std_specs::hash::group_hash_axioms;

/// The engine of a game: the rules and a table of values.
pub struct AI<C: Compilation> {
    /// The game.
    pub rules: C,
    /// For each board the result of best play, for the team that moves on
    /// it: 1 for a win, -1 for a loss, 0 for a draw.
    pub table: HashMap<NodeIndex, i8>,
}

/// The move to the board `a` is to be preferred to the move to `b`, for
/// `team`: the lower value goes first, as it is the other team's; of two
/// boards of one value, the one on which `team` has won; of two that are
/// alike in this too, the lower number.
pub open spec fn preferred<C: Compilation>(
    size: u8,
    table: Map<NodeIndex, i8>,
    team: u8,
    a: NodeIndex,
    b: NodeIndex,
) -> bool {
    let wins_a = C::winner_of(size, a) == team;
    let wins_b = C::winner_of(size, b) == team;
    ||| table[a] < table[b]
    ||| table[a] == table[b] && wins_a && !wins_b
    ||| table[a] == table[b] && wins_a == wins_b && a < b
}

/// `chosen` is the best of the boards `kids`: it is one of them and is
/// preferred to each other.
pub open spec fn is_best_move<C: Compilation>(
    size: u8,
    table: Map<NodeIndex, i8>,
    team: u8,
    kids: Seq<NodeIndex>,
    chosen: NodeIndex,
) -> bool {
    &&& kids.contains(chosen)
    &&& forall|k: int|
        0 <= k < kids.len() ==> #[trigger] kids[k] == chosen || preferred::<C>(
            size,
            table,
            team,
            chosen,
            kids[k],
        )
}

/// `missing` is the first of the boards `kids` that the table lacks.
pub open spec fn first_missing(
    table: Map<NodeIndex, i8>,
    kids: Seq<NodeIndex>,
    missing: NodeIndex,
) -> bool {
    exists|j: int|
        0 <= j < kids.len() && #[trigger] kids[j] == missing && !table.contains_key(missing)
            && forall|k: int| 0 <= k < j ==> table.contains_key(#[trigger] kids[k])
}

/// The table holds each of the boards `kids`.
pub open spec fn holds_all(table: Map<NodeIndex, i8>, kids: Seq<NodeIndex>) -> bool {
    forall|k: int| 0 <= k < kids.len() ==> table.contains_key(#[trigger] kids[k])
}

impl<C: Compilation> AI<C> {
    /// An engine for the game `rules`, with an empty table.
    pub fn new(rules: C) -> (ai: Self)
        ensures
            ai.rules == rules,
            ai.table@ == Map::<NodeIndex, i8>::empty(),
    {
        AI { rules, table: HashMap::new() }
    }

    /// Takes `table` as the table to play from.
    pub fn load(&mut self, table: HashMap<NodeIndex, i8>)
        ensures
            final(self).rules == old(self).rules,
            final(self).table == table,
    {
        self.table = table;
    }

    /// The board that the best move of `team` leads to from the board
    /// `state`: of the boards one move on, the one with the lowest value
    /// in the table. Of several such, one on which `team` has won goes
    /// first, then the lowest number.
    ///
    /// `NoLegalMove` where the game is over on `state`: a team has won or
    /// no cell is empty. `MissingNode` with the first board one move on
    /// that the table lacks, where it lacks one.
    pub fn get_move(&self, state: NodeIndex, team: u8) -> (chosen: Result<NodeIndex, CompileError>)
        requires
            self.rules.wf(),
            C::valid_state(self.rules.view().board_size, state),
            1 <= team <= 2,
        ensures
            ({
                let size = self.rules.view().board_size;
                let kids = C::children_of(size, state, team);
                let over = C::winner_of(size, state) != 0 || kids.len() == 0;
                match chosen {
                    Ok(board) => !over && holds_all(self.table@, kids) && is_best_move::<C>(
                        size,
                        self.table@,
                        team,
                        kids,
                        board,
                    ),
                    Err(CompileError::NoLegalMove) => over,
                    Err(CompileError::MissingNode(missing)) => !over && first_missing(
                        self.table@,
                        kids,
                        missing,
                    ),
                    Err(_) => false,
                }
            }),
    {
        let ghost size = self.rules.view().board_size;
        proof {
            self.rules.lemma_wf();
        }
        if self.rules.get_winner(&state) != 0 {
            return Err(CompileError::NoLegalMove);
        }
        let kids = self.rules.get_child_states(state, team);
        if kids.len() == 0 {
            return Err(CompileError::NoLegalMove);
        }
        let mut best: NodeIndex = kids[0];
        let mut best_value: i8 = 0;
        let mut best_wins: bool = false;
        let mut j: usize = 0;
        while j < kids.len()
            invariant
                j <= kids.len(),
                kids.len() > 0,
                self.rules.wf(),
                size == self.rules.view().board_size,
                C::valid_size(size),
                C::valid_state(size, state),
                C::winner_of(size, state) == 0,
                1 <= team <= 2,
                kids@ == C::children_of(size, state, team),
                forall|k: int| 0 <= k < j ==> self.table@.contains_key(#[trigger] kids@[k]),
                j > 0 ==> {
                    &&& exists|k: int| 0 <= k < j && kids@[k] == best
                    &&& best_value == self.table@[best]
                    &&& best_wins == (C::winner_of(size, best) == team)
                },
                forall|k: int|
                    0 <= k < j ==> #[trigger] kids@[k] == best || preferred::<C>(
                        size,
                        self.table@,
                        team,
                        best,
                        kids@[k],
                    ),
            decreases kids.len() - j,
        {
            let kid = kids[j];
            proof {
                assert(kids@.contains(kid));
                C::lemma_child_valid(size, state, team, kid);
            }
            let value: i8 = match self.table.get(&kid) {
                Some(value) => *value,
                None => {
                    proof {
                        assert(!self.table@.contains_key(kid));
                        assert(kids@[j as int] == kid);
                        assert(first_missing(self.table@, kids@, kid));
                    }
                    return Err(CompileError::MissingNode(kid));
                },
            };
            let wins = self.rules.get_winner(&kid) == team;
            if j == 0 || value < best_value || (value == best_value && wins && !best_wins) || (value
                == best_value && wins == best_wins && kid < best) {
                best = kid;
                best_value = value;
                best_wins = wins;
            }
            assert(kids@[j as int] == best || preferred::<C>(size, self.table@, team, best, kid));
            j = j + 1;
        }
        Ok(best)
    }
}

/// From a table that a compilation gave, the engine takes a move that wins
/// at once where there is one: the board it moves to is one on which the
/// team has won, and of those the one with the lowest number.
pub proof fn lemma_winning_move_taken<C: Compilation>(
    size: u8,
    table: Map<NodeIndex, i8>,
    state: NodeIndex,
    chosen: NodeIndex,
    winning: NodeIndex,
)
    requires
        C::valid_size(size),
        compiled::<C>(size, table),
        table.contains_key(state),
        !terminal::<C>(size, state),
        is_best_move::<C>(size, table, C::turn_of(size, state), moves::<C>(size, state), chosen),
        moves::<C>(size, state).contains(winning),
        C::winner_of(size, winning) == C::turn_of(size, state),
    ensures
        C::winner_of(size, chosen) == C::turn_of(size, state),
        chosen <= winning,
{
    let team = C::turn_of(size, state);
    let kids = moves::<C>(size, state);
    C::lemma_teams(size, state);
    C::lemma_child(size, state, winning);
    assert(sound_entry::<C>(size, table, state));
    let w = choose|w: int| 0 <= w < kids.len() && kids[w] == winning;
    assert(table.contains_key(kids[w]));
    assert(sound_entry::<C>(size, table, winning));
    assert(table[winning] == -1);
    let c = choose|c: int| 0 <= c < kids.len() && kids[c] == chosen;
    assert(table.contains_key(kids[c]));
    assert(kids[w] == chosen || preferred::<C>(size, table, team, chosen, kids[w]));
}

} // verus!
