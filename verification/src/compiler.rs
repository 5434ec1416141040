//! The compiler: it walks every board of a game from the first board on,
//! finds the boards on which the game is over, and scores every board by
//! backward induction from those.

use vstd::prelude::*;
use std::collections::HashMap;
use std::collections::VecDeque;
use vstd::std_specs::hash::*;
use vstd::std_specs::iter::IteratorSpec;
use crate::codec::NodeIndex;
use crate::compilation::{Compilation, INITIAL_STATE};
use crate::graph::{always_ends, compiled, moves, reachable, ready, terminal};
use crate::node::{next_team, other_team, CompileError, Node, Outcome};
use crate::outcome::{
    lemma_all_scored, lemma_counters_final, lemma_enumeration_exhaustive, lemma_no_stall,
    lemma_scored_store_ends, lemma_table_compiled,
};
use crate::state::{
    after_candidates, after_children, after_post_process, after_process, after_push_candidate,
    after_score_nodes, best_reply, enumeration_left, finished_boards, halted, inv, node_ok,
    parents_of_node, parents_wait, scoring_advanced, scoring_left, table_of, CompilerView,
};
use crate::steps::{
    lemma_best_reply, lemma_inv_add_child, lemma_inv_drop_candidate, lemma_inv_expand,
    lemma_inv_initial, lemma_inv_push_candidate, lemma_inv_record_terminal, lemma_inv_requeue,
    lemma_inv_reset_stall, lemma_inv_score_candidate, lemma_inv_score_terminal,
    lemma_parents_listed, lemma_unscored_none,
};

verus! {

broadcast use vstd::std_specs::hash::group_hash_axioms;

/// A compilation under way: the game with its store, and the three queues
/// of boards that wait for the next step.
pub struct Compiler<C: Compilation> {
    /// The game and the store.
    pub compilation: C,
    /// The boards still to look at, each with the team that moves on it.
    pub queue: VecDeque<(NodeIndex, u8)>,
    /// The boards that end the game and have no value yet.
    pub winners: VecDeque<NodeIndex>,
    /// The boards to try to score next.
    pub unscored_nodes: VecDeque<NodeIndex>,
    /// How many boards at the back of `unscored_nodes` were tried in vain
    /// since a board was last scored.
    pub stalled: usize,
}

impl<C: Compilation> Compiler<C> {
    pub open spec fn view(&self) -> CompilerView {
        CompilerView {
            size: self.compilation.view().board_size,
            nodes: self.compilation.view().nodes,
            nodes_processed: self.compilation.view().nodes_processed,
            winners_processed: self.compilation.view().winners_processed,
            nodes_scored: self.compilation.view().nodes_scored,
            queue: self.queue@,
            winners: self.winners@,
            unscored: self.unscored_nodes@,
            stalled: self.stalled as nat,
        }
    }

    /// The compilation is in order: see `inv`.
    pub open spec fn inv(&self) -> bool {
        self.compilation.wf() && inv::<C>(self.view())
    }

    /// A compiler for the game `compilation`, with empty queues.
    pub fn new(compilation: C) -> (compiler: Self)
        ensures
            compiler.compilation == compilation,
            compiler.queue@ == Seq::<(NodeIndex, u8)>::empty(),
            compiler.winners@ == Seq::<NodeIndex>::empty(),
            compiler.unscored_nodes@ == Seq::<NodeIndex>::empty(),
            compiler.stalled == 0,
    {
        Compiler {
            compilation,
            queue: VecDeque::new(),
            winners: VecDeque::new(),
            unscored_nodes: VecDeque::new(),
            stalled: 0,
        }
    }

    /// Starts a compilation: puts the first board into the store and into
    /// the queue, with team 1 to move, and empties the other queues.
    /// `DuplicateNode` where the store holds the first board already:
    /// nothing is changed then. Started on a fresh store, the compilation
    /// is in order.
    pub fn init_compilation(&mut self) -> (done: Result<(), CompileError>)
        requires
            old(self).compilation.wf(),
        ensures
            final(self).compilation.wf(),
            match done {
                Ok(_) => {
                    &&& !old(self).view().nodes.contains_key(INITIAL_STATE)
                    &&& final(self).view() == (CompilerView {
                        nodes: old(self).view().nodes.insert(
                            INITIAL_STATE,
                            Node { team: 1, outcome: Outcome::Open, scored: false, value: 0 },
                        ),
                        queue: seq![(INITIAL_STATE, 1u8)],
                        winners: Seq::empty(),
                        unscored: Seq::empty(),
                        stalled: 0,
                        ..old(self).view()
                    })
                },
                Err(error) => {
                    &&& old(self).view().nodes.contains_key(INITIAL_STATE)
                    &&& error == CompileError::DuplicateNode(INITIAL_STATE)
                    &&& final(self).view() == old(self).view()
                },
            },
            old(self).compilation.view().is_fresh() ==> final(self).inv(),
    {
        match self.compilation.insert_node(INITIAL_STATE, Node::new(1)) {
            Ok(_) => {},
            Err(error) => {
                return Err(error);
            },
        }
        self.queue.clear();
        self.queue.push_back((INITIAL_STATE, 1));
        self.winners.clear();
        self.unscored_nodes.clear();
        self.stalled = 0;
        proof {
            self.compilation.lemma_wf();
            lemma_inv_initial::<C>(self.view().size);
        }
        Ok(())
    }

    /// One step of the enumeration: takes the first board from the queue.
    /// Where the game is over on it, records how and passes the board on
    /// to be scored. Else puts each board one move on that is new to the
    /// store into the store and at the back of the queue, with the other
    /// team to move. Does nothing where the queue is empty.
    pub fn process(&mut self) -> (done: Result<(), CompileError>)
        requires
            old(self).inv(),
        ensures
            done is Ok,
            final(self).inv(),
            final(self).view() == after_process::<C>(old(self).view()),
            final(self).view().size == old(self).view().size,
            forall|id: NodeIndex| #[trigger]
                old(self).view().nodes.contains_key(id) ==> final(self).view().nodes.contains_key(
                    id,
                ),
            old(self).queue@.len() > 0 ==> enumeration_left(final(self).view()) < enumeration_left(
                old(self).view(),
            ),
    {
        if self.queue.len() == 0 {
            return Ok(());
        }
        let ghost pre = self.view();
        let (id, team) = self.queue[0];
        proof {
            C::lemma_teams(pre.size, id);
        }
        let winner = self.compilation.get_winner(&id);
        let kids = self.compilation.get_child_states(id, team);
        if winner != 0 || kids.len() == 0 {
            let outcome = if winner != 0 {
                Outcome::Won(winner)
            } else {
                Outcome::Draw
            };
            match self.compilation.get_node_mut(id) {
                Ok(node) => {
                    node.outcome = outcome;
                },
                Err(error) => {
                    return Err(error);
                },
            }
            self.queue.pop_front();
            self.winners.push_back(id);
            self.compilation.inc_nodes_processed();
            proof {
                lemma_inv_record_terminal::<C>(pre);
            }
            return Ok(());
        }
        let other = next_team(team);
        let mut j: usize = 0;
        while j < kids.len()
            invariant
                j <= kids.len(),
                self.inv(),
                pre.queue.len() > 0,
                pre.queue[0] == (id, team),
                other == other_team(team),
                kids@ == moves::<C>(pre.size, id),
                !terminal::<C>(pre.size, id),
                self.view() == after_children(pre, kids@, j as nat),
                self.view().size == pre.size,
                self.view().queue.len() > 0,
                self.view().queue[0] == pre.queue[0],
                self.view().nodes_processed == pre.nodes_processed,
                self.view().nodes.len() - pre.nodes.len() == self.view().queue.len()
                    - pre.queue.len(),
                self.view().nodes.len() >= pre.nodes.len(),
                forall|x: NodeIndex| #[trigger]
                    pre.nodes.contains_key(x) ==> self.view().nodes.contains_key(x),
                forall|k: int| 0 <= k < j ==> self.view().nodes.contains_key(#[trigger] kids@[k]),
            decreases kids.len() - j,
        {
            let kid = kids[j];
            let ghost before = self.view();
            if !self.compilation.contains_node(&kid) {
                match self.compilation.insert_node(kid, Node::new(other)) {
                    Ok(_) => {},
                    Err(error) => {
                        return Err(error);
                    },
                }
                self.queue.push_back((kid, other));
                proof {
                    self.compilation.lemma_wf();
                    lemma_inv_add_child::<C>(before, kid);
                }
            }
            j = j + 1;
        }
        proof {
            lemma_inv_expand::<C>(self.view());
        }
        self.queue.pop_front();
        self.compilation.inc_nodes_processed();
        Ok(())
    }

    /// The record of the board `id`; `MissingNode` where the store has none.
    fn read_node(&mut self, id: NodeIndex) -> (found: Result<Node, CompileError>)
        requires
            old(self).compilation.wf(),
        ensures
            final(self).compilation.wf(),
            final(self).view() == old(self).view(),
            match found {
                Ok(node) => old(self).view().nodes.contains_key(id) && node == old(
                    self,
                ).view().nodes[id],
                Err(error) => !old(self).view().nodes.contains_key(id) && error
                    == CompileError::MissingNode(id),
            },
    {
        let found = match self.compilation.get_node_mut(id) {
            Ok(node) => Ok(*node),
            Err(error) => Err(error),
        };
        proof {
            assert(self.view().nodes =~= old(self).view().nodes);
        }
        found
    }

    /// Puts the boards of the store that have no value, and from which a
    /// move may lead to `id`, at the back of the boards to score.
    fn enqueue_parents(&mut self, id: NodeIndex, team: u8)
        requires
            old(self).inv(),
            old(self).queue@.len() == 0,
            old(self).stalled == 0,
            old(self).view().nodes.contains_key(id),
            team == old(self).view().nodes[id].team,
        ensures
            final(self).inv(),
            final(self).view() == after_candidates(
                old(self).view(),
                parents_of_node::<C>(old(self).view(), id),
                parents_of_node::<C>(old(self).view(), id).len(),
            ),
            final(self).view() == (CompilerView {
                unscored: final(self).view().unscored,
                ..old(self).view()
            }),
            final(self).view().unscored.len() >= old(self).view().unscored.len(),
            forall|k: int|
                0 <= k < old(self).view().unscored.len() ==> final(self).view().unscored[k] == old(
                    self,
                ).view().unscored[k],
            parents_wait::<C>(final(self).view(), id),
    {
        let ghost pre = self.view();
        let parents = self.compilation.get_parent_states(id, next_team(team));
        let mut j: usize = 0;
        while j < parents.len()
            invariant
                j <= parents.len(),
                self.inv(),
                parents@ == parents_of_node::<C>(pre, id),
                self.view() == after_candidates(pre, parents@, j as nat),
                self.view() == (CompilerView { unscored: self.view().unscored, ..pre }),
                pre.queue.len() == 0,
                pre.stalled == 0,
                self.view().unscored.len() >= pre.unscored.len(),
                forall|k: int|
                    0 <= k < pre.unscored.len() ==> self.view().unscored[k] == pre.unscored[k],
                forall|k: int|
                    0 <= k < j && pre.nodes.contains_key(#[trigger] parents@[k])
                        && !pre.nodes[parents@[k]].scored ==> self.view().unscored.contains(
                        parents@[k],
                    ),
            decreases parents.len() - j,
        {
            let parent = parents[j];
            let ghost before = self.view();
            match self.read_node(parent) {
                Ok(node) => {
                    if !node.scored {
                        self.unscored_nodes.push_back(parent);
                        proof {
                            lemma_inv_push_candidate::<C>(before, parent);
                            assert(self.view() == after_push_candidate(before, parent));
                            assert(self.view().unscored[before.unscored.len() as int] == parent);
                            let waiting = self.view().unscored;
                            assert forall|k: int|
                                0 <= k < j && pre.nodes.contains_key(#[trigger] parents@[k])
                                    && !pre.nodes[parents@[k]].scored implies waiting.contains(
                                parents@[k],
                            ) by {
                                let at = choose|at: int|
                                    0 <= at < before.unscored.len() && before.unscored[at]
                                        == parents@[k];
                                assert(waiting[at] == parents@[k]);
                            }
                        }
                    }
                },
                Err(_) => {},
            }
            j = j + 1;
        }
        proof {
            let post = self.view();
            assert forall|parent: NodeIndex|
                #[trigger] post.nodes.contains_key(parent) && !post.nodes[parent].scored
                    && moves::<C>(post.size, parent).contains(id) implies post.unscored.contains(
                parent,
            ) by {
                lemma_parents_listed::<C>(pre, id, parent);
                let k = choose|k: int| 0 <= k < parents@.len() && parents@[k] == parent;
                assert(pre.nodes.contains_key(parents@[k]));
            }
        }
    }

    /// One step of the classification: takes the first of the finished
    /// games and gives it its value for the team that would move next: 1
    /// where that team has won, -1 where the other has, 0 for a draw. The
    /// boards of the store without a value from which a move may lead to
    /// it are put at the back of the boards to score. Does nothing where
    /// no finished game waits.
    pub fn post_process(&mut self) -> (done: Result<(), CompileError>)
        requires
            old(self).inv(),
            old(self).queue@.len() == 0,
        ensures
            done is Ok,
            final(self).inv(),
            final(self).view() == after_post_process::<C>(old(self).view()),
            final(self).view().size == old(self).view().size,
            final(self).view().nodes.dom() == old(self).view().nodes.dom(),
            final(self).view().queue.len() == 0,
            old(self).winners@.len() > 0 ==> final(self).view().winners.len() + 1 == old(
                self,
            ).view().winners.len(),
    {
        if self.winners.len() == 0 {
            return Ok(());
        }
        let ghost pre = self.view();
        let id = self.winners[0];
        proof {
            lemma_inv_reset_stall::<C>(pre);
        }
        let team = match self.read_node(id) {
            Ok(node) => node.team,
            Err(error) => {
                return Err(error);
            },
        };
        let winner = self.compilation.get_winner(&id);
        self.stalled = 0;
        self.enqueue_parents(id, team);
        let ghost listed = self.view();
        let value: i8 = if winner == 0 {
            0
        } else if winner == team {
            1
        } else {
            -1
        };
        proof {
            lemma_inv_score_terminal::<C>(listed);
        }
        match self.compilation.get_node_mut(id) {
            Ok(node) => {
                node.value = value;
                node.scored = true;
            },
            Err(error) => {
                return Err(error);
            },
        }
        self.winners.pop_front();
        self.compilation.inc_winners_processed();
        self.compilation.inc_nodes_scored();
        Ok(())
    }

    /// One step of the scoring: takes the first of the boards to score.
    /// Where it has a value already, nothing else is done. Where a board
    /// one move on has no value yet, it goes to the back of the boards to
    /// score. Else its value is the greatest of the values of the boards
    /// one move on, each negated: what the team to move gets by its best
    /// move; and the boards of the store without a value from which a move
    /// may lead to it are put at the back. Does nothing where no board
    /// waits. `NonConvergence` where boards wait and each of them was
    /// tried in vain since a board was last scored: nothing is changed
    /// then. That does not happen in a game that always ends.
    pub fn score_nodes(&mut self) -> (done: Result<(), CompileError>)
        requires
            old(self).inv(),
            old(self).queue@.len() == 0,
            old(self).winners@.len() == 0,
        ensures
            final(self).inv(),
            final(self).view().size == old(self).view().size,
            final(self).view().nodes.dom() == old(self).view().nodes.dom(),
            final(self).view().queue.len() == 0,
            final(self).view().winners.len() == 0,
            match done {
                Ok(_) => {
                    &&& !halted(old(self).view())
                    &&& final(self).view() == after_score_nodes::<C>(old(self).view())
                    &&& old(self).view().unscored.len() > 0 ==> scoring_advanced(
                        old(self).view(),
                        final(self).view(),
                    )
                },
                Err(error) => {
                    &&& halted(old(self).view())
                    &&& error == CompileError::NonConvergence
                    &&& final(self).view() == old(self).view()
                },
            },
            always_ends::<C>(old(self).view().size) ==> done is Ok,
    {
        if self.unscored_nodes.len() == 0 {
            return Ok(());
        }
        let ghost pre = self.view();
        if self.stalled >= self.unscored_nodes.len() {
            proof {
                if always_ends::<C>(pre.size) {
                    lemma_no_stall::<C>(pre);
                }
            }
            return Err(CompileError::NonConvergence);
        }
        let id = self.unscored_nodes[0];
        proof {
            C::lemma_teams(pre.size, id);
        }
        let node = match self.read_node(id) {
            Ok(node) => node,
            Err(error) => {
                return Err(error);
            },
        };
        if node.scored {
            self.unscored_nodes.pop_front();
            proof {
                lemma_inv_drop_candidate::<C>(pre);
            }
            return Ok(());
        }
        let kids = self.compilation.get_child_states(id, node.team);
        let mut best: i8 = -1;
        let mut all_scored = true;
        let mut j: usize = 0;
        while j < kids.len() && all_scored
            invariant
                j <= kids.len(),
                self.inv(),
                self.view() == pre,
                kids@ == moves::<C>(pre.size, id),
                all_scored ==> best == best_reply(pre.nodes, kids@, j as nat),
                all_scored ==> forall|k: int|
                    0 <= k < j ==> pre.nodes.contains_key(#[trigger] kids@[k])
                        && pre.nodes[kids@[k]].scored,
                !all_scored ==> !ready(pre.nodes, kids@),
            decreases kids.len() - j, all_scored as int,
        {
            let kid = kids[j];
            match self.read_node(kid) {
                Ok(kid_node) => {
                    if kid_node.scored {
                        proof {
                            assert(pre.nodes.contains_key(kid));
                            assert(node_ok::<C>(pre, kid));
                            assert forall|k: int| 0 <= k < j implies -1
                                <= pre.nodes[#[trigger] kids@[k]].value <= 1 by {
                                assert(pre.nodes.contains_key(kids@[k]));
                                assert(node_ok::<C>(pre, kids@[k]));
                            }
                            lemma_best_reply(pre.nodes, kids@, j as nat);
                        }
                        let reply: i8 = -kid_node.value;
                        if reply > best {
                            best = reply;
                        }
                        j = j + 1;
                    } else {
                        all_scored = false;
                    }
                },
                Err(_) => {
                    all_scored = false;
                },
            }
        }
        if !all_scored {
            self.unscored_nodes.pop_front();
            self.unscored_nodes.push_back(id);
            self.stalled = self.stalled + 1;
            proof {
                lemma_inv_requeue::<C>(pre);
            }
            return Ok(());
        }
        proof {
            lemma_best_reply(pre.nodes, kids@, kids@.len());
            lemma_inv_reset_stall::<C>(pre);
        }
        self.stalled = 0;
        self.enqueue_parents(id, node.team);
        let ghost listed = self.view();
        proof {
            lemma_inv_score_candidate::<C>(listed, best);
        }
        match self.compilation.get_node_mut(id) {
            Ok(node) => {
                node.value = best;
                node.scored = true;
            },
            Err(error) => {
                return Err(error);
            },
        }
        self.unscored_nodes.pop_front();
        self.compilation.inc_nodes_scored();
        Ok(())
    }

    /// Runs the three phases in their order, each until its queue is
    /// empty: the enumeration, the classification of the finished games,
    /// the scoring. The store then holds the reachable boards, all of them
    /// and no other. Succeeds exactly where every game ends; every board of
    /// the store has its value then. `NonConvergence` where the scoring
    /// comes to a halt, or ends with a board that has no value.
    pub fn compile(&mut self) -> (done: Result<(), CompileError>)
        requires
            old(self).inv(),
        ensures
            final(self).inv(),
            final(self).view().size == old(self).view().size,
            final(self).view().queue.len() == 0,
            final(self).view().winners.len() == 0,
            forall|id: NodeIndex|
                final(self).view().nodes.contains_key(id) <==> reachable::<C>(
                    old(self).view().size,
                    id,
                ),
            final(self).view().nodes_processed == final(self).view().nodes.len(),
            final(self).view().winners_processed == finished_boards::<C>(final(self).view()).len(),
            match done {
                Ok(_) => {
                    let nodes = final(self).view().nodes;
                    &&& final(self).view().unscored.len() == 0
                    &&& forall|id: NodeIndex| #[trigger] nodes.contains_key(id) ==> nodes[id].scored
                },
                Err(error) => {
                    let nodes = final(self).view().nodes;
                    &&& error == CompileError::NonConvergence
                    &&& exists|id: NodeIndex| #[trigger] nodes.contains_key(id) && !nodes[id].scored
                },
            },
            done is Ok <==> always_ends::<C>(old(self).view().size),
    {
        let ghost size = self.view().size;
        while self.queue.len() != 0
            invariant
                self.inv(),
                self.view().size == size,
                size == old(self).view().size,
            decreases enumeration_left(self.view()),
        {
            match self.process() {
                Ok(_) => {},
                Err(error) => {
                    return Err(error);
                },
            }
        }
        while self.winners.len() != 0
            invariant
                self.inv(),
                self.view().size == size,
                size == old(self).view().size,
                self.view().queue.len() == 0,
            decreases self.view().winners.len(),
        {
            match self.post_process() {
                Ok(_) => {},
                Err(error) => {
                    return Err(error);
                },
            }
        }
        while self.unscored_nodes.len() != 0
            invariant
                self.inv(),
                self.view().size == size,
                size == old(self).view().size,
                self.view().queue.len() == 0,
                self.view().winners.len() == 0,
            decreases scoring_left(self.view()).0, scoring_left(self.view()).1,
        {
            match self.score_nodes() {
                Ok(_) => {},
                Err(error) => {
                    proof {
                        let v = self.view();
                        let last = v.unscored[v.unscored.len() - 1];
                        assert(v.nodes.contains_key(last) && !v.nodes[last].scored);
                        lemma_enumeration_exhaustive::<C>(v);
                        lemma_counters_final::<C>(v);
                    }
                    return Err(error);
                },
            }
        }
        proof {
            let v = self.view();
            lemma_enumeration_exhaustive::<C>(v);
            lemma_counters_final::<C>(v);
            lemma_unscored_none(v.nodes);
            if always_ends::<C>(size) {
                lemma_all_scored::<C>(v);
            }
            if forall|id: NodeIndex| #[trigger] v.nodes.contains_key(id) ==> v.nodes[id].scored {
                lemma_scored_store_ends::<C>(v);
            }
        }
        if self.compilation.get_nodes_scored() != self.compilation.get_nodes_processed() {
            return Err(CompileError::NonConvergence);
        }
        Ok(())
    }

    /// The table of the values of the store: for each board its value.
    /// `NonConvergence` where a board of the store has no value. After a
    /// compilation that has emptied the queue the table is that of the
    /// game.
    pub fn export(&self) -> (exported: Result<HashMap<NodeIndex, i8>, CompileError>)
        requires
            self.compilation.wf(),
        ensures
            match exported {
                Ok(table) => {
                    &&& table_of(self.view().nodes, table@)
                    &&& self.inv() && self.view().queue.len() == 0 ==> compiled::<C>(
                        self.view().size,
                        table@,
                    )
                },
                Err(error) => {
                    let nodes = self.view().nodes;
                    &&& error == CompileError::NonConvergence
                    &&& exists|id: NodeIndex| #[trigger] nodes.contains_key(id) && !nodes[id].scored
                },
            },
    {
        let nodes = self.compilation.get_cloned_map();
        let mut table: HashMap<NodeIndex, i8> = HashMap::new();
        let ghost all = spec_hash_map_iter(&nodes).remaining();
        for entry in it: nodes.iter()
            invariant
                it.seq() == all,
                all == spec_hash_map_iter(&nodes).remaining(),
                nodes@ == self.view().nodes,
                forall|id: NodeIndex| #[trigger]
                    table@.contains_key(id) ==> nodes@.contains_key(id) && nodes@[id].scored
                        && table@[id] == nodes@[id].value,
                forall|j: int| 0 <= j < it.index() ==> table@.contains_key(*(#[trigger] all[j]).0),
        {
            let (id, node) = entry;
            if !node.scored {
                assert(self.view().nodes.contains_key(*id) && !self.view().nodes[*id].scored);
                return Err(CompileError::NonConvergence);
            }
            table.insert(*id, node.value);
        }
        proof {
            assert(table@.dom() =~= nodes@.dom());
            if self.inv() && self.view().queue.len() == 0 {
                lemma_table_compiled::<C>(self.view(), table@);
            }
        }
        Ok(table)
    }
}

/// Compiles the game `compilation`, whose store is empty and whose
/// counters are 0: the table of the game. Succeeds exactly where every game
/// ends; `NonConvergence` else.
pub fn compile_table<C: Compilation>(compilation: C) -> (exported: Result<
    HashMap<NodeIndex, i8>,
    CompileError,
>)
    requires
        compilation.wf(),
        compilation.view().is_fresh(),
    ensures
        match exported {
            Ok(table) => compiled::<C>(compilation.view().board_size, table@),
            Err(error) => error == CompileError::NonConvergence,
        },
        exported is Ok <==> always_ends::<C>(compilation.view().board_size),
{
    let mut compiler = Compiler::new(compilation);
    match compiler.init_compilation() {
        Ok(_) => {},
        Err(error) => {
            return Err(error);
        },
    }
    match compiler.compile() {
        Ok(_) => {},
        Err(error) => {
            return Err(error);
        },
    }
    compiler.export()
}

} // verus!
