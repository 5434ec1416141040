//! The state of a compilation as contracts see it: the store, the counters
//! and the queues; the invariant that every step keeps; and what each step
//! makes of the state.

use vstd::prelude::*;
use crate::codec::NodeIndex;
use crate::compilation::{Compilation, INITIAL_STATE};
use crate::graph::{moves, outcome_of, reachable, ready, sound_node, terminal, terminal_value};
use crate::node::{other_team, Node, Outcome};

verus! {

/// A compiler as contracts see it.
pub struct CompilerView {
    /// The number of rows, and of columns, of the board.
    pub size: u8,
    /// The store: the record of each board met so far.
    pub nodes: Map<NodeIndex, Node>,
    /// How many boards were taken from the queue and looked at.
    pub nodes_processed: nat,
    /// How many boards that end the game were scored.
    pub winners_processed: nat,
    /// How many boards were scored in all.
    pub nodes_scored: nat,
    /// The boards still to look at, each with the team that moves on it.
    pub queue: Seq<(NodeIndex, u8)>,
    /// The boards that end the game and have no value yet.
    pub winners: Seq<NodeIndex>,
    /// The boards to try to score next.
    pub unscored: Seq<NodeIndex>,
    /// How many boards at the back of `unscored` were tried in vain since a
    /// board was last scored.
    pub stalled: nat,
}

/// The board `id` waits in the queue.
pub open spec fn queued(queue: Seq<(NodeIndex, u8)>, id: NodeIndex) -> bool {
    exists|k: int| 0 <= k < queue.len() && (#[trigger] queue[k]).0 == id
}

/// The boards of the store that have no value yet.
pub open spec fn unscored_set(nodes: Map<NodeIndex, Node>) -> Set<NodeIndex> {
    nodes.dom().filter(|id: NodeIndex| !nodes[id].scored)
}

/// The store holds every board one move on from `id`.
pub open spec fn closed_at<C: Compilation>(
    size: u8,
    nodes: Map<NodeIndex, Node>,
    id: NodeIndex,
) -> bool {
    forall|k: int|
        0 <= k < moves::<C>(size, id).len() ==> nodes.contains_key(
            #[trigger] moves::<C>(size, id)[k],
        )
}

/// Some board one move on from `id` has a value.
pub open spec fn has_scored_child<C: Compilation>(
    size: u8,
    nodes: Map<NodeIndex, Node>,
    id: NodeIndex,
) -> bool {
    exists|k: int|
        0 <= k < moves::<C>(size, id).len() && nodes.contains_key(
            #[trigger] moves::<C>(size, id)[k],
        ) && nodes[moves::<C>(size, id)[k]].scored
}

/// What holds of each board `id` of the store.
pub open spec fn node_ok<C: Compilation>(v: CompilerView, id: NodeIndex) -> bool {
    let node = v.nodes[id];
    &&& C::valid_state(v.size, id)
    &&& node.team == C::turn_of(v.size, id)
    &&& reachable::<C>(v.size, id)
    &&& node.outcome == if queued(v.queue, id) {
        Outcome::Open
    } else {
        outcome_of::<C>(v.size, id)
    }
    &&& queued(v.queue, id) || terminal::<C>(v.size, id) || closed_at::<C>(v.size, v.nodes, id)
    &&& node.scored ==> -1 <= node.value <= 1 && sound_node::<C>(v.size, v.nodes, id)
    &&& terminal::<C>(v.size, id) && !queued(v.queue, id) && !node.scored ==> v.winners.contains(
        id,
    )
    &&& !terminal::<C>(v.size, id) && !node.scored && has_scored_child::<C>(v.size, v.nodes, id)
        ==> v.unscored.contains(id)
}

/// What holds of the queue of boards to look at: each is in the store with
/// the team that moves on it, none comes twice, and while one waits no
/// board has a value.
pub open spec fn queue_ok<C: Compilation>(v: CompilerView) -> bool {
    &&& forall|k: int|
        0 <= k < v.queue.len() ==> v.nodes.contains_key((#[trigger] v.queue[k]).0) && v.queue[k].1
            == C::turn_of(v.size, v.queue[k].0)
    &&& forall|j: int, k: int|
        0 <= j < k < v.queue.len() ==> (#[trigger] v.queue[j]).0 != (#[trigger] v.queue[k]).0
    &&& v.queue.len() > 0 ==> v.unscored.len() == 0 && forall|id: NodeIndex| #[trigger]
        v.nodes.contains_key(id) ==> !v.nodes[id].scored
}

/// What holds of the queue of finished games: each is in the store, ends
/// the game, was looked at and has no value; none comes twice.
pub open spec fn winners_ok<C: Compilation>(v: CompilerView) -> bool {
    &&& forall|k: int|
        0 <= k < v.winners.len() ==> {
            &&& v.nodes.contains_key(#[trigger] v.winners[k])
            &&& terminal::<C>(v.size, v.winners[k])
            &&& !queued(v.queue, v.winners[k])
            &&& !v.nodes[v.winners[k]].scored
        }
    &&& forall|j: int, k: int|
        0 <= j < k < v.winners.len() ==> #[trigger] v.winners[j] != #[trigger] v.winners[k]
}

/// What holds of the queue of boards to score: each is in the store, and
/// the last `stalled` of them have no value and cannot get one yet.
pub open spec fn unscored_ok<C: Compilation>(v: CompilerView) -> bool {
    &&& forall|k: int| 0 <= k < v.unscored.len() ==> v.nodes.contains_key(#[trigger] v.unscored[k])
    &&& v.stalled <= v.unscored.len()
    &&& forall|k: int|
        v.unscored.len() - v.stalled <= k < v.unscored.len() ==> {
            &&& !v.nodes[#[trigger] v.unscored[k]].scored
            &&& !ready(v.nodes, moves::<C>(v.size, v.unscored[k]))
        }
}

/// The boards of the store on which the game is over and that were looked
/// at.
pub open spec fn finished_set<C: Compilation>(v: CompilerView) -> Set<NodeIndex> {
    v.nodes.dom().filter(|id: NodeIndex| terminal::<C>(v.size, id) && !queued(v.queue, id))
}

/// The boards of the store on which the game is over.
pub open spec fn finished_boards<C: Compilation>(v: CompilerView) -> Set<NodeIndex> {
    v.nodes.dom().filter(|id: NodeIndex| terminal::<C>(v.size, id))
}

/// What the counters count: the boards looked at, with those that wait to
/// be, are the boards of the store; the finished games scored, with those
/// that wait to be, are the finished games looked at; the boards scored,
/// with those without a value, are the boards of the store.
pub open spec fn counters_ok<C: Compilation>(v: CompilerView) -> bool {
    &&& v.nodes.dom().finite()
    &&& v.nodes.len() <= usize::MAX
    &&& v.nodes_processed + v.queue.len() == v.nodes.len()
    &&& v.winners_processed + v.winners.len() == finished_set::<C>(v).len()
    &&& v.nodes_scored + unscored_set(v.nodes).len() == v.nodes.len()
}

/// `when` tells the order in which the boards got their values: a board
/// on which the game goes on got its value after each board one move on,
/// and no board later than the count of scored boards says.
pub open spec fn scored_in_order<C: Compilation>(
    v: CompilerView,
    when: spec_fn(NodeIndex) -> nat,
) -> bool {
    forall|id: NodeIndex|
        #[trigger] v.nodes.contains_key(id) && v.nodes[id].scored ==> {
            &&& when(id) <= v.nodes_scored
            &&& !terminal::<C>(v.size, id) ==> forall|k: int|
                0 <= k < moves::<C>(v.size, id).len() ==> when(
                    #[trigger] moves::<C>(v.size, id)[k],
                ) < when(id)
        }
}

/// The invariant of a compilation.
pub open spec fn inv<C: Compilation>(v: CompilerView) -> bool {
    &&& C::valid_size(v.size)
    &&& v.nodes.contains_key(INITIAL_STATE)
    &&& forall|id: NodeIndex| #[trigger] v.nodes.contains_key(id) ==> node_ok::<C>(v, id)
    &&& queue_ok::<C>(v)
    &&& winners_ok::<C>(v)
    &&& unscored_ok::<C>(v)
    &&& counters_ok::<C>(v)
    &&& exists|when: spec_fn(NodeIndex) -> nat| #[trigger] scored_in_order::<C>(v, when)
}

/// The state in which a compilation starts: the first board is in the
/// store and waits in the queue.
pub open spec fn initial_view(size: u8) -> CompilerView {
    CompilerView {
        size,
        nodes: Map::empty().insert(
            INITIAL_STATE,
            Node { team: 1, outcome: Outcome::Open, scored: false, value: 0 },
        ),
        nodes_processed: 0,
        winners_processed: 0,
        nodes_scored: 0,
        queue: seq![(INITIAL_STATE, 1u8)],
        winners: Seq::empty(),
        unscored: Seq::empty(),
        stalled: 0,
    }
}

/// The state after the first board of the queue, on which the game is
/// over, was recorded as such and passed on to be scored.
pub open spec fn after_record_terminal<C: Compilation>(pre: CompilerView) -> CompilerView {
    let id = pre.queue[0].0;
    CompilerView {
        nodes: pre.nodes.insert(
            id,
            Node { outcome: outcome_of::<C>(pre.size, id), ..pre.nodes[id] },
        ),
        queue: pre.queue.drop_first(),
        winners: pre.winners.push(id),
        nodes_processed: pre.nodes_processed + 1,
        ..pre
    }
}

/// The state after `child`, a board one move on from the first board of
/// the queue and new to the store, was put into the store and the queue.
pub open spec fn after_add_child(pre: CompilerView, child: NodeIndex) -> CompilerView {
    let team = other_team(pre.queue[0].1);
    CompilerView {
        nodes: pre.nodes.insert(
            child,
            Node { team, outcome: Outcome::Open, scored: false, value: 0 },
        ),
        queue: pre.queue.push((child, team)),
        ..pre
    }
}

/// The state after the first `count` of the boards `kids`, each one move
/// on from the first board of the queue, were met: those new to the store
/// were put into the store and the queue, in their order.
pub open spec fn after_children(pre: CompilerView, kids: Seq<NodeIndex>, count: nat) -> CompilerView
    decreases count,
{
    if count == 0 {
        pre
    } else {
        let before = after_children(pre, kids, (count - 1) as nat);
        let kid = kids[count - 1];
        if before.nodes.contains_key(kid) {
            before
        } else {
            after_add_child(before, kid)
        }
    }
}

/// The state after the first board of the queue, whose every move leads to
/// a board of the store, was taken from the queue.
pub open spec fn after_expand(pre: CompilerView) -> CompilerView {
    CompilerView {
        queue: pre.queue.drop_first(),
        nodes_processed: pre.nodes_processed + 1,
        ..pre
    }
}

/// The state after one step of the enumeration: the first board of the
/// queue is taken from it; where the game is over on it, it is recorded as
/// such and passed on to be scored; else the boards one move on that are
/// new to the store are put into the store and the queue.
pub open spec fn after_process<C: Compilation>(pre: CompilerView) -> CompilerView {
    if pre.queue.len() == 0 {
        pre
    } else if terminal::<C>(pre.size, pre.queue[0].0) {
        after_record_terminal::<C>(pre)
    } else {
        let kids = moves::<C>(pre.size, pre.queue[0].0);
        after_expand(after_children(pre, kids, kids.len()))
    }
}

/// What is left to do of the enumeration, as a number that each step makes
/// smaller.
pub open spec fn enumeration_left(v: CompilerView) -> int {
    2 * (usize::MAX - v.nodes.len()) + v.queue.len()
}

/// The boards from which a move may lead to the board `id` of the store.
pub open spec fn parents_of_node<C: Compilation>(v: CompilerView, id: NodeIndex) -> Seq<NodeIndex> {
    C::parents_of(v.size, id, other_team(v.nodes[id].team))
}

/// Every board of the store that has no value and from which one move
/// leads to `id` waits to be scored.
pub open spec fn parents_wait<C: Compilation>(v: CompilerView, id: NodeIndex) -> bool {
    forall|parent: NodeIndex|
        #[trigger] v.nodes.contains_key(parent) && !v.nodes[parent].scored && moves::<C>(
            v.size,
            parent,
        ).contains(id) ==> v.unscored.contains(parent)
}

/// The state after the count of boards tried in vain was set back to 0.
pub open spec fn after_reset_stall(pre: CompilerView) -> CompilerView {
    CompilerView { stalled: 0, ..pre }
}

/// The state after `parent` was put at the back of the boards to score.
pub open spec fn after_push_candidate(pre: CompilerView, parent: NodeIndex) -> CompilerView {
    CompilerView { unscored: pre.unscored.push(parent), stalled: 0, ..pre }
}

/// The state after the first `count` of the boards `parents` were looked
/// at: those of the store that have no value were put at the back of the
/// boards to score, in their order.
pub open spec fn after_candidates(
    pre: CompilerView,
    parents: Seq<NodeIndex>,
    count: nat,
) -> CompilerView
    decreases count,
{
    if count == 0 {
        pre
    } else {
        let before = after_candidates(pre, parents, (count - 1) as nat);
        let parent = parents[count - 1];
        if before.nodes.contains_key(parent) && !before.nodes[parent].scored {
            after_push_candidate(before, parent)
        } else {
            before
        }
    }
}

/// The state after the board `id` got the value `value`.
pub open spec fn with_value(pre: CompilerView, id: NodeIndex, value: i8) -> Map<NodeIndex, Node> {
    pre.nodes.insert(id, Node { scored: true, value, ..pre.nodes[id] })
}

/// The state after the first of the finished games got its value.
pub open spec fn after_score_terminal<C: Compilation>(pre: CompilerView) -> CompilerView {
    let id = pre.winners[0];
    CompilerView {
        nodes: with_value(
            pre,
            id,
            terminal_value(C::winner_of(pre.size, id), pre.nodes[id].team),
        ),
        winners: pre.winners.drop_first(),
        winners_processed: pre.winners_processed + 1,
        nodes_scored: pre.nodes_scored + 1,
        ..pre
    }
}

/// The state after one step of the classification: the first of the
/// finished games gets its value, and the boards of the store without a
/// value from which a move may lead to it are put at the back of the
/// boards to score.
pub open spec fn after_post_process<C: Compilation>(pre: CompilerView) -> CompilerView {
    if pre.winners.len() == 0 {
        pre
    } else {
        let parents = parents_of_node::<C>(pre, pre.winners[0]);
        after_score_terminal::<C>(
            after_candidates(after_reset_stall(pre), parents, parents.len()),
        )
    }
}

/// The greatest of the values of the first `count` of the boards `kids`,
/// each negated; -1 where `count` is 0.
pub open spec fn best_reply(nodes: Map<NodeIndex, Node>, kids: Seq<NodeIndex>, count: nat) -> int
    decreases count,
{
    if count == 0 {
        -1
    } else {
        let before = best_reply(nodes, kids, (count - 1) as nat);
        let here = -nodes[kids[count - 1]].value;
        if here > before {
            here
        } else {
            before
        }
    }
}

/// Scoring has come to a halt: boards wait to be scored, and each was
/// tried in vain since a board was last scored.
pub open spec fn halted(v: CompilerView) -> bool {
    0 < v.unscored.len() <= v.stalled
}

/// The state after the first of the boards to score, which has a value
/// already, was taken from them.
pub open spec fn after_drop_candidate(pre: CompilerView) -> CompilerView {
    CompilerView { unscored: pre.unscored.drop_first(), ..pre }
}

/// The state after the first of the boards to score, which cannot get a
/// value yet, was put at their back.
pub open spec fn after_requeue(pre: CompilerView) -> CompilerView {
    CompilerView {
        unscored: pre.unscored.drop_first().push(pre.unscored[0]),
        stalled: pre.stalled + 1,
        ..pre
    }
}

/// The state after the first of the boards to score got the value `value`.
pub open spec fn after_score_candidate(pre: CompilerView, value: i8) -> CompilerView {
    CompilerView {
        nodes: with_value(pre, pre.unscored[0], value),
        unscored: pre.unscored.drop_first(),
        nodes_scored: pre.nodes_scored + 1,
        ..pre
    }
}

/// The state after one step of the scoring, where it has not come to a
/// halt. The first of the boards to score is taken from them. Where it has
/// a value, nothing else is done. Where a board one move on has none, it
/// goes to the back. Else it gets the best reply as its value, and the
/// boards of the store without a value from which a move may lead to it
/// are put at the back.
pub open spec fn after_score_nodes<C: Compilation>(pre: CompilerView) -> CompilerView {
    if pre.unscored.len() == 0 || halted(pre) {
        pre
    } else {
        let id = pre.unscored[0];
        let kids = moves::<C>(pre.size, id);
        if pre.nodes[id].scored {
            after_drop_candidate(pre)
        } else if !ready(pre.nodes, kids) {
            after_requeue(pre)
        } else {
            let parents = parents_of_node::<C>(pre, id);
            after_score_candidate(
                after_candidates(after_reset_stall(pre), parents, parents.len()),
                best_reply(pre.nodes, kids, kids.len()) as i8,
            )
        }
    }
}

/// What is left to do of the scoring: the number of boards without a
/// value, and a number that each step makes smaller which leaves the first
/// as it is.
pub open spec fn scoring_left(v: CompilerView) -> (nat, int) {
    (unscored_set(v.nodes).len(), 2 * v.unscored.len() - v.stalled)
}

/// `after` has less left to do of the scoring than `before`.
pub open spec fn scoring_advanced(before: CompilerView, after: CompilerView) -> bool {
    let (boards, tries) = scoring_left(before);
    let (boards_after, tries_after) = scoring_left(after);
    boards_after < boards || (boards_after == boards && 0 <= tries_after < tries)
}

/// `table` holds the values of the records of `nodes`, each of which has
/// one.
pub open spec fn table_of(nodes: Map<NodeIndex, Node>, table: Map<NodeIndex, i8>) -> bool {
    &&& table.dom() == nodes.dom()
    &&& forall|id: NodeIndex| #[trigger]
        nodes.contains_key(id) ==> nodes[id].scored && table[id] == nodes[id].value
}

} // verus!
