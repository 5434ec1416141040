//! Why each step of a compilation keeps the invariant.

use vstd::prelude::*;
use crate::codec::NodeIndex;
use crate::compilation::{Compilation, INITIAL_STATE};
use crate::graph::{
    is_best_reply, lemma_reachable_initial, lemma_reachable_step, moves, ready, step, terminal,
    terminal_value,
};
use crate::node::{other_team, Node};
use crate::state::{
    after_add_child, after_drop_candidate, after_expand, after_push_candidate,
    after_record_terminal, after_requeue, after_reset_stall, after_score_candidate,
    after_score_terminal, best_reply, closed_at, finished_set, initial_view, inv, node_ok,
    parents_of_node, parents_wait, queued, scored_in_order, unscored_set, with_value,
    CompilerView,
};

verus! {

/// Without its first board the queue holds the boards it held but that one.
pub proof fn lemma_queued_drop_first(queue: Seq<(NodeIndex, u8)>, id: NodeIndex)
    requires
        queue.len() > 0,
        forall|j: int, k: int|
            0 <= j < k < queue.len() ==> (#[trigger] queue[j]).0 != (#[trigger] queue[k]).0,
    ensures
        queued(queue.drop_first(), id) <==> queued(queue, id) && id != queue[0].0,
{
    let rest = queue.drop_first();
    if queued(queue, id) && id != queue[0].0 {
        let k = choose|k: int| 0 <= k < queue.len() && (#[trigger] queue[k]).0 == id;
        assert(rest[k - 1].0 == id);
    }
}

/// With one more board the queue holds the boards it held and that one.
pub proof fn lemma_queued_push(queue: Seq<(NodeIndex, u8)>, item: (NodeIndex, u8), id: NodeIndex)
    ensures
        queued(queue.push(item), id) <==> queued(queue, id) || id == item.0,
{
    let more = queue.push(item);
    if queued(queue, id) {
        let k = choose|k: int| 0 <= k < queue.len() && (#[trigger] queue[k]).0 == id;
        assert(more[k].0 == id);
    }
    if id == item.0 {
        assert(more[queue.len() as int].0 == id);
    }
}

/// A record put in for a new board, without a value, adds that board to
/// the store and to its boards without a value.
pub proof fn lemma_unscored_set_insert(nodes: Map<NodeIndex, Node>, id: NodeIndex, node: Node)
    requires
        nodes.dom().finite(),
        !nodes.contains_key(id),
        !node.scored,
    ensures
        nodes.insert(id, node).dom().finite(),
        nodes.insert(id, node).len() == nodes.len() + 1,
        unscored_set(nodes.insert(id, node)).len() == unscored_set(nodes).len() + 1,
{
    let after = nodes.insert(id, node);
    assert(unscored_set(after) =~= unscored_set(nodes).insert(id));
}

/// A record changed without touching whether it has a value leaves the
/// boards of the store, and those without a value, as they were.
pub proof fn lemma_unscored_set_same(nodes: Map<NodeIndex, Node>, id: NodeIndex, node: Node)
    requires
        nodes.contains_key(id),
        node.scored == nodes[id].scored,
    ensures
        nodes.insert(id, node).dom() == nodes.dom(),
        unscored_set(nodes.insert(id, node)) == unscored_set(nodes),
{
}

/// A value given to a board that had none takes that board from the
/// boards without a value.
pub proof fn lemma_unscored_set_scored(nodes: Map<NodeIndex, Node>, id: NodeIndex, node: Node)
    requires
        nodes.dom().finite(),
        nodes.contains_key(id),
        !nodes[id].scored,
        node.scored,
    ensures
        nodes.insert(id, node).dom() == nodes.dom(),
        unscored_set(nodes).len() >= 1,
        unscored_set(nodes.insert(id, node)).len() == unscored_set(nodes).len() - 1,
{
    let after = nodes.insert(id, node);
    assert(unscored_set(after) =~= unscored_set(nodes).remove(id));
}

/// The boards without a value number none exactly where every board of
/// the store has a value.
pub proof fn lemma_unscored_none(nodes: Map<NodeIndex, Node>)
    requires
        nodes.dom().finite(),
    ensures
        unscored_set(nodes).len() == 0 <==> forall|id: NodeIndex| #[trigger]
            nodes.contains_key(id) ==> nodes[id].scored,
{
    if unscored_set(nodes).len() == 0 {
        assert forall|id: NodeIndex| #[trigger] nodes.contains_key(id) implies nodes[id].scored by {
            assert(!unscored_set(nodes).contains(id));
        }
    }
    if forall|id: NodeIndex| #[trigger] nodes.contains_key(id) ==> nodes[id].scored {
        assert(unscored_set(nodes) =~= Set::<NodeIndex>::empty());
    }
}

/// The finished games looked at are finitely many, and no more than the
/// boards of the store.
pub proof fn lemma_finished_set_finite<C: Compilation>(v: CompilerView)
    requires
        v.nodes.dom().finite(),
    ensures
        finished_set::<C>(v).finite(),
        finished_set::<C>(v).len() <= v.nodes.len(),
{
    v.nodes.dom().lemma_len_filter(
        |id: NodeIndex| terminal::<C>(v.size, id) && !queued(v.queue, id),
    );
}

/// A step that gives no board a value keeps the order of the values.
proof fn lemma_order_kept<C: Compilation>(pre: CompilerView, post: CompilerView)
    requires
        exists|when: spec_fn(NodeIndex) -> nat| #[trigger] scored_in_order::<C>(pre, when),
        post.size == pre.size,
        post.nodes_scored >= pre.nodes_scored,
        forall|id: NodeIndex|
            #[trigger] post.nodes.contains_key(id) && post.nodes[id].scored
                ==> pre.nodes.contains_key(id) && pre.nodes[id].scored,
    ensures
        exists|when: spec_fn(NodeIndex) -> nat| #[trigger] scored_in_order::<C>(post, when),
{
    let when = choose|when: spec_fn(NodeIndex) -> nat| #[trigger] scored_in_order::<C>(pre, when);
    assert(scored_in_order::<C>(post, when));
}

/// A value given to the board `id`, after each board one move on has got
/// one, goes last in the order of the values.
proof fn lemma_order_extended<C: Compilation>(
    pre: CompilerView,
    post: CompilerView,
    id: NodeIndex,
    value: i8,
)
    requires
        inv::<C>(pre),
        pre.nodes.contains_key(id),
        !pre.nodes[id].scored,
        !terminal::<C>(pre.size, id) ==> ready(pre.nodes, moves::<C>(pre.size, id)),
        post.size == pre.size,
        post.nodes_scored == pre.nodes_scored + 1,
        post.nodes == with_value(pre, id, value),
    ensures
        exists|when: spec_fn(NodeIndex) -> nat| #[trigger] scored_in_order::<C>(post, when),
{
    let before = choose|when: spec_fn(NodeIndex) -> nat| #[trigger]
        scored_in_order::<C>(pre, when);
    let last = (pre.nodes_scored + 1) as nat;
    let when = |x: NodeIndex|
        if x == id {
            last
        } else {
            before(x)
        };
    assert(scored_in_order::<C>(post, when));
}

/// The invariant holds when a compilation starts.
pub proof fn lemma_inv_initial<C: Compilation>(size: u8)
    requires
        C::valid_size(size),
    ensures
        inv::<C>(initial_view(size)),
{
    let v = initial_view(size);
    C::lemma_initial_state(size);
    lemma_reachable_initial::<C>(size);
    assert(v.queue[0].0 == INITIAL_STATE);
    assert(unscored_set(v.nodes) =~= set![INITIAL_STATE]);
    assert(finished_set::<C>(v) =~= Set::<NodeIndex>::empty());
    assert(scored_in_order::<C>(v, |id: NodeIndex| 0nat));
}

/// The invariant holds after a board on which the game is over was
/// recorded as such.
pub proof fn lemma_inv_record_terminal<C: Compilation>(pre: CompilerView)
    requires
        inv::<C>(pre),
        pre.queue.len() > 0,
        terminal::<C>(pre.size, pre.queue[0].0),
    ensures
        inv::<C>(after_record_terminal::<C>(pre)),
{
    let post = after_record_terminal::<C>(pre);
    let id = pre.queue[0].0;
    lemma_unscored_set_same(pre.nodes, id, post.nodes[id]);
    assert(finished_set::<C>(post) =~= finished_set::<C>(pre).insert(id)) by {
        assert forall|x: NodeIndex| queued(post.queue, x) <==> queued(pre.queue, x) && x != id by {
            lemma_queued_drop_first(pre.queue, x);
        }
    }
    lemma_finished_set_finite::<C>(pre);
    assert forall|x: NodeIndex| #[trigger] post.nodes.contains_key(x) implies node_ok::<C>(
        post,
        x,
    ) by {
        lemma_queued_drop_first(pre.queue, x);
        if x == id {
            assert(post.winners[pre.winners.len() as int] == id);
        } else if pre.winners.contains(x) {
            let k = choose|k: int| 0 <= k < pre.winners.len() && pre.winners[k] == x;
            assert(post.winners[k] == x);
        }
    }
    lemma_order_kept::<C>(pre, post);
}

/// The invariant holds after a board one move on from the first board of
/// the queue, new to the store, was put into the store and the queue.
pub proof fn lemma_inv_add_child<C: Compilation>(pre: CompilerView, child: NodeIndex)
    requires
        inv::<C>(pre),
        pre.queue.len() > 0,
        step::<C>(pre.size, pre.queue[0].0, child),
        !pre.nodes.contains_key(child),
        pre.nodes.len() + 1 <= usize::MAX,
    ensures
        inv::<C>(after_add_child(pre, child)),
{
    let post = after_add_child(pre, child);
    let id = pre.queue[0].0;
    let item = (child, other_team(pre.queue[0].1));
    C::lemma_child(pre.size, id, child);
    lemma_reachable_step::<C>(pre.size, id, child);
    lemma_unscored_set_insert(pre.nodes, child, post.nodes[child]);
    assert(finished_set::<C>(post) =~= finished_set::<C>(pre)) by {
        assert forall|x: NodeIndex| queued(post.queue, x) <==> queued(pre.queue, x) || x
            == child by {
            lemma_queued_push(pre.queue, item, x);
        }
    }
    assert forall|x: NodeIndex| #[trigger] post.nodes.contains_key(x) implies node_ok::<C>(
        post,
        x,
    ) by {
        lemma_queued_push(pre.queue, item, x);
    }
    lemma_order_kept::<C>(pre, post);
}

/// The invariant holds after a board whose every move leads to a board of
/// the store was taken from the queue.
pub proof fn lemma_inv_expand<C: Compilation>(pre: CompilerView)
    requires
        inv::<C>(pre),
        pre.queue.len() > 0,
        !terminal::<C>(pre.size, pre.queue[0].0),
        closed_at::<C>(pre.size, pre.nodes, pre.queue[0].0),
    ensures
        inv::<C>(after_expand(pre)),
{
    let post = after_expand(pre);
    let id = pre.queue[0].0;
    assert(finished_set::<C>(post) =~= finished_set::<C>(pre)) by {
        assert forall|x: NodeIndex| queued(post.queue, x) <==> queued(pre.queue, x) && x != id by {
            lemma_queued_drop_first(pre.queue, x);
        }
    }
    assert forall|x: NodeIndex| #[trigger] post.nodes.contains_key(x) implies node_ok::<C>(
        post,
        x,
    ) by {
        lemma_queued_drop_first(pre.queue, x);
    }
    lemma_order_kept::<C>(pre, post);
}

/// The invariant holds after the count of boards tried in vain was set
/// back to 0.
pub proof fn lemma_inv_reset_stall<C: Compilation>(pre: CompilerView)
    requires
        inv::<C>(pre),
    ensures
        inv::<C>(after_reset_stall(pre)),
{
    let post = after_reset_stall(pre);
    lemma_order_kept::<C>(pre, post);
}

/// The invariant holds after a board of the store was put at the back of
/// the boards to score.
pub proof fn lemma_inv_push_candidate<C: Compilation>(pre: CompilerView, parent: NodeIndex)
    requires
        inv::<C>(pre),
        pre.queue.len() == 0,
        pre.stalled == 0,
        pre.nodes.contains_key(parent),
    ensures
        inv::<C>(after_push_candidate(pre, parent)),
{
    let post = after_push_candidate(pre, parent);
    lemma_order_kept::<C>(pre, post);
    assert forall|x: NodeIndex| #[trigger] post.nodes.contains_key(x) implies node_ok::<C>(
        post,
        x,
    ) by {
        if pre.unscored.contains(x) {
            let k = choose|k: int| 0 <= k < pre.unscored.len() && pre.unscored[k] == x;
            assert(post.unscored[k] == x);
        }
    }
}

/// Every board of the store without a value from which a move leads to
/// `id` is among the boards that `parents_of_node` gives.
pub proof fn lemma_parents_listed<C: Compilation>(v: CompilerView, id: NodeIndex, parent: NodeIndex)
    requires
        inv::<C>(v),
        v.nodes.contains_key(id),
        v.nodes.contains_key(parent),
        moves::<C>(v.size, parent).contains(id),
    ensures
        parents_of_node::<C>(v, id).contains(parent),
{
    C::lemma_child(v.size, parent, id);
    C::lemma_teams(v.size, parent);
}

/// The invariant holds after the first of the finished games got its
/// value, the boards from which a move leads to it waiting to be scored.
/// Fewer boards were scored before than the store holds.
pub proof fn lemma_inv_score_terminal<C: Compilation>(pre: CompilerView)
    requires
        inv::<C>(pre),
        pre.queue.len() == 0,
        pre.winners.len() > 0,
        pre.stalled == 0,
        parents_wait::<C>(pre, pre.winners[0]),
    ensures
        inv::<C>(after_score_terminal::<C>(pre)),
        pre.nodes_scored < pre.nodes.len(),
        pre.winners_processed < pre.nodes.len(),
{
    lemma_finished_set_finite::<C>(pre);
    let post = after_score_terminal::<C>(pre);
    let id = pre.winners[0];
    let value = terminal_value(C::winner_of(pre.size, id), pre.nodes[id].team);
    lemma_order_extended::<C>(pre, post, id, value);
    lemma_unscored_set_scored(pre.nodes, id, post.nodes[id]);
    assert forall|y: NodeIndex| y != id && pre.winners.contains(y) implies post.winners.contains(
        y,
    ) by {
        let k = choose|k: int| 0 <= k < pre.winners.len() && pre.winners[k] == y;
        assert(post.winners[k - 1] == y);
    }
}

/// The best reply is among the negated values and no smaller than any.
pub proof fn lemma_best_reply(nodes: Map<NodeIndex, Node>, kids: Seq<NodeIndex>, count: nat)
    requires
        count <= kids.len(),
        forall|k: int| 0 <= k < count ==> -1 <= nodes[#[trigger] kids[k]].value <= 1,
    ensures
        -1 <= best_reply(nodes, kids, count) <= 1,
        forall|k: int|
            0 <= k < count ==> best_reply(nodes, kids, count) >= -nodes[#[trigger] kids[k]].value,
        count > 0 ==> exists|k: int|
            0 <= k < count && best_reply(nodes, kids, count) == -nodes[#[trigger] kids[k]].value,
    decreases count,
{
    if count > 0 {
        lemma_best_reply(nodes, kids, (count - 1) as nat);
        let last = count - 1;
    }
}

/// The invariant holds after a board that has a value was taken from the
/// boards to score.
pub proof fn lemma_inv_drop_candidate<C: Compilation>(pre: CompilerView)
    requires
        inv::<C>(pre),
        pre.stalled < pre.unscored.len(),
        pre.nodes[pre.unscored[0]].scored,
    ensures
        inv::<C>(after_drop_candidate(pre)),
{
    let post = after_drop_candidate(pre);
    lemma_order_kept::<C>(pre, post);
    assert forall|x: NodeIndex| #[trigger] post.nodes.contains_key(x) implies node_ok::<C>(
        post,
        x,
    ) by {
        if pre.unscored.contains(x) && !pre.nodes[x].scored {
            let k = choose|k: int| 0 <= k < pre.unscored.len() && pre.unscored[k] == x;
            assert(post.unscored[k - 1] == x);
        }
    }
}

/// The invariant holds after a board that cannot get a value yet went to
/// the back of the boards to score.
pub proof fn lemma_inv_requeue<C: Compilation>(pre: CompilerView)
    requires
        inv::<C>(pre),
        pre.stalled < pre.unscored.len(),
        !pre.nodes[pre.unscored[0]].scored,
        !ready(pre.nodes, moves::<C>(pre.size, pre.unscored[0])),
    ensures
        inv::<C>(after_requeue(pre)),
{
    let post = after_requeue(pre);
    lemma_order_kept::<C>(pre, post);
    let last = pre.unscored.len() - 1;
    assert forall|x: NodeIndex| #[trigger] post.nodes.contains_key(x) implies node_ok::<C>(
        post,
        x,
    ) by {
        if pre.unscored.contains(x) {
            let k = choose|k: int| 0 <= k < pre.unscored.len() && pre.unscored[k] == x;
            if k == 0 {
                assert(post.unscored[last] == x);
            } else {
                assert(post.unscored[k - 1] == x);
            }
        }
    }
}

/// The invariant holds after the first of the boards to score got the best
/// reply as its value, the boards from which a move leads to it waiting to
/// be scored. Fewer boards were scored before than the store holds.
pub proof fn lemma_inv_score_candidate<C: Compilation>(pre: CompilerView, value: i8)
    requires
        inv::<C>(pre),
        pre.queue.len() == 0,
        pre.winners.len() == 0,
        pre.unscored.len() > 0,
        pre.stalled == 0,
        !pre.nodes[pre.unscored[0]].scored,
        ready(pre.nodes, moves::<C>(pre.size, pre.unscored[0])),
        is_best_reply(pre.nodes, moves::<C>(pre.size, pre.unscored[0]), value),
        parents_wait::<C>(pre, pre.unscored[0]),
    ensures
        inv::<C>(after_score_candidate(pre, value)),
        pre.nodes_scored < pre.nodes.len(),
{
    let post = after_score_candidate(pre, value);
    let id = pre.unscored[0];
    lemma_order_extended::<C>(pre, post, id, value);
    lemma_unscored_set_scored(pre.nodes, id, post.nodes[id]);
    assert forall|y: NodeIndex| y != id && pre.unscored.contains(y) implies post.unscored.contains(
        y,
    ) by {
        let k = choose|k: int| 0 <= k < pre.unscored.len() && pre.unscored[k] == y;
        assert(post.unscored[k - 1] == y);
    }
}

} // verus!
