//! The graph of a game: its boards, the moves between them, and what the
//! compiler has to keep true of its store and queues while it walks it.

use vstd::prelude::*;
use crate::codec::NodeIndex;
use crate::compilation::{Compilation, INITIAL_STATE};
use crate::node::{Node, Outcome};

verus! {

/// The boards that the team to move can reach in one move.
pub open spec fn moves<C: Compilation>(size: u8, id: NodeIndex) -> Seq<NodeIndex> {
    C::children_of(size, id, C::turn_of(size, id))
}

/// The game is over on this board: a team has won, or no move is left.
pub open spec fn terminal<C: Compilation>(size: u8, id: NodeIndex) -> bool {
    C::winner_of(size, id) != 0 || moves::<C>(size, id).len() == 0
}

/// One move of a game that goes on leads from `from` to `to`.
pub open spec fn step<C: Compilation>(size: u8, from: NodeIndex, to: NodeIndex) -> bool {
    !terminal::<C>(size, from) && moves::<C>(size, from).contains(to)
}

/// `path` is a game from the first board on: each board follows from the
/// one before it by one move.
pub open spec fn is_play<C: Compilation>(size: u8, path: Seq<NodeIndex>) -> bool {
    &&& path.len() > 0
    &&& path[0] == INITIAL_STATE
    &&& forall|k: int| 0 <= k < path.len() - 1 ==> step::<C>(size, #[trigger] path[k], path[k + 1])
}

/// Some game leads to the board `id`.
pub open spec fn reachable<C: Compilation>(size: u8, id: NodeIndex) -> bool {
    exists|path: Seq<NodeIndex>| #[trigger] is_play::<C>(size, path) && path.last() == id
}

/// How the board ends the game: won where a team holds a line, drawn where
/// no team does and no move is left, open else.
pub open spec fn outcome_of<C: Compilation>(size: u8, id: NodeIndex) -> Outcome {
    if C::winner_of(size, id) != 0 {
        Outcome::Won(C::winner_of(size, id))
    } else if moves::<C>(size, id).len() == 0 {
        Outcome::Draw
    } else {
        Outcome::Open
    }
}

/// What a finished game is worth to the team that would move next: 1 where
/// that team has won, -1 where the other has, 0 for a draw.
pub open spec fn terminal_value(winner: u8, team: u8) -> i8 {
    if winner == 0 {
        0
    } else if winner == team {
        1
    } else {
        (-1) as i8
    }
}

/// Each of the boards `kids` has a record with a value.
pub open spec fn ready(nodes: Map<NodeIndex, Node>, kids: Seq<NodeIndex>) -> bool {
    forall|k: int|
        0 <= k < kids.len() ==> nodes.contains_key(#[trigger] kids[k]) && nodes[kids[k]].scored
}

/// `value` is the best that the team to move can get by a move to one of
/// `kids`: the greatest of the values of those boards, each negated since
/// it is the other team's.
pub open spec fn is_best_reply(
    nodes: Map<NodeIndex, Node>,
    kids: Seq<NodeIndex>,
    value: i8,
) -> bool {
    &&& exists|k: int| 0 <= k < kids.len() && value == -nodes[#[trigger] kids[k]].value
    &&& forall|k: int| 0 <= k < kids.len() ==> value >= -nodes[#[trigger] kids[k]].value
}

/// The value in the record of `id` is right, given the values of the boards
/// one move on: the worth of the finished game on a board where the game is
/// over, the best reply elsewhere.
pub open spec fn sound_node<C: Compilation>(
    size: u8,
    nodes: Map<NodeIndex, Node>,
    id: NodeIndex,
) -> bool {
    if terminal::<C>(size, id) {
        nodes[id].value == terminal_value(C::winner_of(size, id), nodes[id].team)
    } else {
        &&& ready(nodes, moves::<C>(size, id))
        &&& is_best_reply(nodes, moves::<C>(size, id), nodes[id].value)
    }
}

/// Every game ends: some measure of a board gets smaller with each move of
/// a game.
pub open spec fn always_ends<C: Compilation>(size: u8) -> bool {
    exists|rank: spec_fn(NodeIndex) -> nat| #[trigger] decreasing::<C>(size, rank)
}

/// `rank` gets smaller with each move from a reachable board.
pub open spec fn decreasing<C: Compilation>(size: u8, rank: spec_fn(NodeIndex) -> nat) -> bool {
    forall|from: NodeIndex, to: NodeIndex|
        reachable::<C>(size, from) && #[trigger] step::<C>(size, from, to) ==> rank(to) < rank(
            from,
        )
}

/// The first board is reachable.
pub proof fn lemma_reachable_initial<C: Compilation>(size: u8)
    ensures
        reachable::<C>(size, INITIAL_STATE),
{
    let path = seq![INITIAL_STATE];
    assert(is_play::<C>(size, path));
    assert(path.last() == INITIAL_STATE);
}

/// One move on from a reachable board is a reachable board.
pub proof fn lemma_reachable_step<C: Compilation>(size: u8, from: NodeIndex, to: NodeIndex)
    requires
        reachable::<C>(size, from),
        step::<C>(size, from, to),
    ensures
        reachable::<C>(size, to),
{
    let path = choose|path: Seq<NodeIndex>| #[trigger]
        is_play::<C>(size, path) && path.last() == from;
    let longer = path.push(to);
    assert forall|k: int| 0 <= k < longer.len() - 1 implies step::<C>(
        size,
        #[trigger] longer[k],
        longer[k + 1],
    ) by {
        if k < path.len() - 1 {
            assert(longer[k] == path[k]);
            assert(longer[k + 1] == path[k + 1]);
        }
    }
    assert(is_play::<C>(size, longer));
    assert(longer.last() == to);
}

/// A reachable board is a board of the game.
pub proof fn lemma_reachable_valid<C: Compilation>(size: u8, id: NodeIndex)
    requires
        C::valid_size(size),
        reachable::<C>(size, id),
    ensures
        C::valid_state(size, id),
{
    let path = choose|path: Seq<NodeIndex>| #[trigger]
        is_play::<C>(size, path) && path.last() == id;
    lemma_play_valid::<C>(size, path, path.len() - 1);
}

/// Each board of a game is a board of the game's size.
proof fn lemma_play_valid<C: Compilation>(size: u8, path: Seq<NodeIndex>, k: int)
    requires
        C::valid_size(size),
        is_play::<C>(size, path),
        0 <= k < path.len(),
    ensures
        C::valid_state(size, path[k]),
    decreases k,
{
    if k == 0 {
        C::lemma_initial_state(size);
    } else {
        lemma_play_valid::<C>(size, path, k - 1);
        assert(step::<C>(size, path[k - 1], path[k - 1 + 1]));
        C::lemma_child(size, path[k - 1], path[k]);
    }
}

/// A set of boards that holds the first board and, with each of its boards
/// on which the game goes on, the boards one move on, holds every reachable
/// board.
pub proof fn lemma_closed_holds_reachable<C: Compilation>(
    size: u8,
    boards: Set<NodeIndex>,
    id: NodeIndex,
)
    requires
        boards.contains(INITIAL_STATE),
        forall|from: NodeIndex, to: NodeIndex|
            boards.contains(from) && #[trigger] step::<C>(size, from, to) ==> boards.contains(to),
        reachable::<C>(size, id),
    ensures
        boards.contains(id),
{
    let path = choose|path: Seq<NodeIndex>| #[trigger]
        is_play::<C>(size, path) && path.last() == id;
    lemma_closed_holds_play::<C>(size, boards, path, path.len() - 1);
}

/// Such a set holds each board of a game.
proof fn lemma_closed_holds_play<C: Compilation>(
    size: u8,
    boards: Set<NodeIndex>,
    path: Seq<NodeIndex>,
    k: int,
)
    requires
        boards.contains(INITIAL_STATE),
        forall|from: NodeIndex, to: NodeIndex|
            boards.contains(from) && #[trigger] step::<C>(size, from, to) ==> boards.contains(to),
        is_play::<C>(size, path),
        0 <= k < path.len(),
    ensures
        boards.contains(path[k]),
    decreases k,
{
    if k > 0 {
        lemma_closed_holds_play::<C>(size, boards, path, k - 1);
        assert(step::<C>(size, path[k - 1], path[k - 1 + 1]));
    }
}

/// `value` is the best that the team to move can get by a move to one of
/// `kids`, by the values of the table.
pub open spec fn is_best_entry(table: Map<NodeIndex, i8>, kids: Seq<NodeIndex>, value: i8) -> bool {
    &&& exists|k: int| 0 <= k < kids.len() && value == -table[#[trigger] kids[k]]
    &&& forall|k: int| 0 <= k < kids.len() ==> value >= -table[#[trigger] kids[k]]
}

/// The value of the board `id` in the table is right, given the values of
/// the boards one move on: the worth of the finished game, for the team
/// that would move next, on a board where the game is over; elsewhere the
/// best reply, each board one move on being in the table.
pub open spec fn sound_entry<C: Compilation>(
    size: u8,
    table: Map<NodeIndex, i8>,
    id: NodeIndex,
) -> bool {
    if terminal::<C>(size, id) {
        table[id] == terminal_value(C::winner_of(size, id), C::turn_of(size, id))
    } else {
        &&& forall|k: int|
            0 <= k < moves::<C>(size, id).len() ==> table.contains_key(
                #[trigger] moves::<C>(size, id)[k],
            )
        &&& is_best_entry(table, moves::<C>(size, id), table[id])
    }
}

/// The table is what a compilation gives: it holds the reachable boards,
/// all of them and no other, each with the value that best play of both
/// teams leads to, for the team that moves on it.
pub open spec fn compiled<C: Compilation>(size: u8, table: Map<NodeIndex, i8>) -> bool {
    &&& forall|id: NodeIndex| table.contains_key(id) <==> reachable::<C>(size, id)
    &&& forall|id: NodeIndex| #[trigger]
        table.contains_key(id) ==> {
            &&& C::valid_state(size, id)
            &&& -1 <= table[id] <= 1
            &&& sound_entry::<C>(size, table, id)
        }
}

/// In a game that always ends, two tables that a compilation may give
/// agree on the board `id`.
proof fn lemma_compiled_agree<C: Compilation>(
    size: u8,
    first: Map<NodeIndex, i8>,
    second: Map<NodeIndex, i8>,
    rank: spec_fn(NodeIndex) -> nat,
    id: NodeIndex,
    bound: nat,
)
    requires
        compiled::<C>(size, first),
        compiled::<C>(size, second),
        decreasing::<C>(size, rank),
        first.contains_key(id),
        rank(id) <= bound,
    ensures
        second.contains_key(id),
        first[id] == second[id],
    decreases bound,
{
    let kids = moves::<C>(size, id);
    assert(second.contains_key(id) <==> reachable::<C>(size, id));
    assert(sound_entry::<C>(size, first, id));
    assert(sound_entry::<C>(size, second, id));
    if !terminal::<C>(size, id) {
        assert forall|k: int| 0 <= k < kids.len() implies first[#[trigger] kids[k]]
            == second[kids[k]] by {
            assert(kids.contains(kids[k]));
            assert(step::<C>(size, id, kids[k]));
            assert(first.contains_key(kids[k]));
            lemma_compiled_agree::<C>(size, first, second, rank, kids[k], (bound - 1) as nat);
        }
        let a = choose|k: int| 0 <= k < kids.len() && first[id] == -first[#[trigger] kids[k]];
        let b = choose|k: int| 0 <= k < kids.len() && second[id] == -second[#[trigger] kids[k]];
        assert(first[id] >= -first[kids[b]]);
        assert(second[id] >= -second[kids[a]]);
    }
}

/// In a game that always ends, the table of the game is one: what a
/// compilation gives is fixed by the game alone.
pub proof fn lemma_compiled_unique<C: Compilation>(
    size: u8,
    first: Map<NodeIndex, i8>,
    second: Map<NodeIndex, i8>,
)
    requires
        compiled::<C>(size, first),
        compiled::<C>(size, second),
        always_ends::<C>(size),
    ensures
        first == second,
{
    let rank = choose|rank: spec_fn(NodeIndex) -> nat| #[trigger] decreasing::<C>(size, rank);
    assert forall|id: NodeIndex| first.contains_key(id) <==> second.contains_key(id) by {
        assert(first.contains_key(id) <==> reachable::<C>(size, id));
        assert(second.contains_key(id) <==> reachable::<C>(size, id));
    }
    assert forall|id: NodeIndex| first.contains_key(id) implies first[id] == second[id] by {
        lemma_compiled_agree::<C>(size, first, second, rank, id, rank(id));
    }
    assert(first =~= second);
}

} // verus!
