//! What a compilation has reached once its queues are empty: the store
//! holds the reachable boards, every value is right, and in a game that
//! always ends every board has its value.

use vstd::prelude::*;
use crate::codec::NodeIndex;
use crate::compilation::Compilation;
use crate::graph::{
    always_ends, compiled, decreasing, is_best_reply, lemma_closed_holds_reachable, moves,
    reachable, ready, step, terminal, terminal_value,
};
use crate::state::{
    finished_boards, finished_set, inv, scored_in_order, table_of, CompilerView,
};
use crate::steps::lemma_unscored_none;

verus! {

/// Throughout a compilation every board of the store is reachable.
pub proof fn lemma_store_reachable<C: Compilation>(v: CompilerView, id: NodeIndex)
    requires
        inv::<C>(v),
        v.nodes.contains_key(id),
    ensures
        reachable::<C>(v.size, id),
        C::valid_state(v.size, id),
        v.nodes[id].team == C::turn_of(v.size, id),
{
}

/// Once the queue is empty the store holds the reachable boards, all of
/// them and no other.
pub proof fn lemma_enumeration_exhaustive<C: Compilation>(v: CompilerView)
    requires
        inv::<C>(v),
        v.queue.len() == 0,
    ensures
        forall|id: NodeIndex| v.nodes.contains_key(id) <==> reachable::<C>(v.size, id),
{
    let boards = v.nodes.dom();
    assert forall|id: NodeIndex| reachable::<C>(v.size, id) implies v.nodes.contains_key(id) by {
        lemma_closed_holds_reachable::<C>(v.size, boards, id);
    }
}

/// Once the enumeration and the classification are through, the counters
/// say how many boards the store holds and on how many of them the game is
/// over.
pub proof fn lemma_counters_final<C: Compilation>(v: CompilerView)
    requires
        inv::<C>(v),
        v.queue.len() == 0,
        v.winners.len() == 0,
    ensures
        v.nodes_processed == v.nodes.len(),
        v.winners_processed == finished_boards::<C>(v).len(),
        v.nodes_scored <= v.nodes.len(),
        v.nodes_scored == v.nodes.len() <==> forall|id: NodeIndex| #[trigger]
            v.nodes.contains_key(id) ==> v.nodes[id].scored,
{
    assert(finished_boards::<C>(v) =~= finished_set::<C>(v));
    lemma_unscored_none(v.nodes);
}

/// Throughout a compilation every value of the store is right: on a
/// board where the game is over it is what the finished game is worth to
/// the team that would move next; elsewhere every board one move on has a
/// value, and the value is the best reply to those.
pub proof fn lemma_scoring_sound<C: Compilation>(v: CompilerView, id: NodeIndex)
    requires
        inv::<C>(v),
        v.nodes.contains_key(id),
        v.nodes[id].scored,
    ensures
        -1 <= v.nodes[id].value <= 1,
        terminal::<C>(v.size, id) ==> v.nodes[id].value == terminal_value(
            C::winner_of(v.size, id),
            C::turn_of(v.size, id),
        ),
        !terminal::<C>(v.size, id) ==> ready(v.nodes, moves::<C>(v.size, id)) && is_best_reply(
            v.nodes,
            moves::<C>(v.size, id),
            v.nodes[id].value,
        ),
{
}

/// Where every game ends and a board has no value, some board without a
/// value has values on all boards one move on.
proof fn lemma_some_board_ready<C: Compilation>(
    v: CompilerView,
    rank: spec_fn(NodeIndex) -> nat,
    id: NodeIndex,
    bound: nat,
) -> (found: NodeIndex)
    requires
        inv::<C>(v),
        v.queue.len() == 0,
        v.winners.len() == 0,
        decreasing::<C>(v.size, rank),
        v.nodes.contains_key(id),
        !v.nodes[id].scored,
        rank(id) <= bound,
    ensures
        v.nodes.contains_key(found),
        !v.nodes[found].scored,
        !terminal::<C>(v.size, found),
        ready(v.nodes, moves::<C>(v.size, found)),
    decreases bound,
{
    let kids = moves::<C>(v.size, id);
    if ready(v.nodes, kids) {
        id
    } else {
        let k = choose|k: int|
            0 <= k < kids.len() && !(v.nodes.contains_key(#[trigger] kids[k])
                && v.nodes[kids[k]].scored);
        assert(step::<C>(v.size, id, kids[k]));
        lemma_some_board_ready::<C>(v, rank, kids[k], (bound - 1) as nat)
    }
}

/// Where every game ends, scoring cannot come to a halt: while boards wait
/// to be scored, fewer were tried in vain than wait.
pub proof fn lemma_no_stall<C: Compilation>(v: CompilerView)
    requires
        inv::<C>(v),
        v.queue.len() == 0,
        v.winners.len() == 0,
        v.unscored.len() > 0,
        always_ends::<C>(v.size),
    ensures
        v.stalled < v.unscored.len(),
{
    if v.stalled >= v.unscored.len() {
        let last = v.unscored[v.unscored.len() - 1];
        let rank = choose|rank: spec_fn(NodeIndex) -> nat| #[trigger] decreasing::<C>(v.size, rank);
        let found = lemma_some_board_ready::<C>(v, rank, last, rank(last));
        let kids = moves::<C>(v.size, found);
        assert(v.nodes.contains_key(kids[0]) && v.nodes[kids[0]].scored);
    }
}

/// Where every game ends and no board waits in any queue, every board of
/// the store has a value.
pub proof fn lemma_all_scored<C: Compilation>(v: CompilerView)
    requires
        inv::<C>(v),
        v.queue.len() == 0,
        v.winners.len() == 0,
        v.unscored.len() == 0,
        always_ends::<C>(v.size),
    ensures
        forall|id: NodeIndex| #[trigger] v.nodes.contains_key(id) ==> v.nodes[id].scored,
{
    assert forall|id: NodeIndex| #[trigger] v.nodes.contains_key(id) implies v.nodes[id].scored by {
        if !v.nodes[id].scored {
            let rank = choose|rank: spec_fn(NodeIndex) -> nat| #[trigger]
                decreasing::<C>(v.size, rank);
            let found = lemma_some_board_ready::<C>(v, rank, id, rank(id));
            let kids = moves::<C>(v.size, found);
            assert(v.nodes.contains_key(kids[0]) && v.nodes[kids[0]].scored);
        }
    }
}

/// A compilation that has emptied the queue and given every board of the
/// store a value shows that every game ends.
pub proof fn lemma_scored_store_ends<C: Compilation>(v: CompilerView)
    requires
        inv::<C>(v),
        v.queue.len() == 0,
        forall|id: NodeIndex| #[trigger] v.nodes.contains_key(id) ==> v.nodes[id].scored,
    ensures
        always_ends::<C>(v.size),
{
    let when = choose|when: spec_fn(NodeIndex) -> nat| #[trigger] scored_in_order::<C>(v, when);
    lemma_enumeration_exhaustive::<C>(v);
    assert(decreasing::<C>(v.size, when));
}

/// Once the queue is empty and every board of the store has a value, the
/// values of the store are the table of the game.
pub proof fn lemma_table_compiled<C: Compilation>(v: CompilerView, table: Map<NodeIndex, i8>)
    requires
        inv::<C>(v),
        v.queue.len() == 0,
        table_of(v.nodes, table),
    ensures
        compiled::<C>(v.size, table),
{
    lemma_enumeration_exhaustive::<C>(v);
}

} // verus!
