use std::collections::{HashMap, HashSet, VecDeque};
use tictactoe::codec::{decode, encode, NodeIndex};
use tictactoe::compilation::{Compilation, TTTCompilation};
use tictactoe::compiler::{compile_table, Compiler};
use tictactoe::node::{CompileError, Node, Outcome};
use tictactoe::rules::get_winner;

fn compiled() -> Compiler<TTTCompilation> {
    let mut compiler = Compiler::new(TTTCompilation::new());
    assert_eq!(compiler.init_compilation(), Ok(()));
    assert_eq!(compiler.compile(), Ok(()));
    compiler
}

/// The team that moves on a board: team 1 where both have as many marks.
fn mover(id: NodeIndex) -> u8 {
    let marks = decode(id, 9).iter().filter(|mark| **mark != 0).count();
    if marks % 2 == 0 {
        1
    } else {
        2
    }
}

#[test]
fn new_compiler_has_empty_queues() {
    let compiler = Compiler::new(TTTCompilation::new());
    assert_eq!(compiler.queue.len(), 0);
    assert_eq!(compiler.winners.len(), 0);
    assert_eq!(compiler.unscored_nodes.len(), 0);
    assert_eq!(compiler.stalled, 0);
    assert_eq!(compiler.compilation.nodes.len(), 0);
}

#[test]
fn start_puts_the_first_board_in_store_and_queue() {
    let mut compiler = Compiler::new(TTTCompilation::new());
    assert_eq!(compiler.init_compilation(), Ok(()));
    assert_eq!(compiler.queue, VecDeque::from(vec![(0u128, 1u8)]));
    assert_eq!(compiler.winners.len(), 0);
    assert_eq!(compiler.unscored_nodes.len(), 0);
    assert_eq!(compiler.compilation.nodes.len(), 1);
    assert_eq!(compiler.compilation.nodes[&0], Node::new(1));
}

#[test]
fn second_start_is_refused() {
    let mut compiler = Compiler::new(TTTCompilation::new());
    assert_eq!(compiler.init_compilation(), Ok(()));
    assert_eq!(compiler.process(), Ok(()));
    assert_eq!(compiler.init_compilation(), Err(CompileError::DuplicateNode(0)));
    assert_eq!(compiler.queue.len(), 9);
    assert_eq!(compiler.compilation.nodes.len(), 10);
}

#[test]
fn first_step_meets_the_nine_children() {
    let mut compiler = Compiler::new(TTTCompilation::new());
    compiler.init_compilation().unwrap();
    assert_eq!(compiler.process(), Ok(()));
    let expected: Vec<(NodeIndex, u8)> =
        vec![1, 3, 9, 27, 81, 243, 729, 2187, 6561].into_iter().map(|id| (id, 2)).collect();
    assert_eq!(compiler.queue, VecDeque::from(expected));
    assert_eq!(compiler.compilation.get_nodes_processed(), 1);
    assert_eq!(compiler.compilation.nodes.len(), 10);
    assert_eq!(compiler.compilation.nodes[&81], Node::new(2));
    assert_eq!(compiler.winners.len(), 0);
}

#[test]
fn second_step_meets_eight_children_of_the_first_child() {
    let mut compiler = Compiler::new(TTTCompilation::new());
    compiler.init_compilation().unwrap();
    compiler.process().unwrap();
    compiler.process().unwrap();
    assert_eq!(compiler.queue.len(), 16);
    assert_eq!(compiler.queue[0], (3, 2));
    assert_eq!(compiler.queue[8], (1 + 6, 1));
    assert_eq!(compiler.compilation.nodes.len(), 18);
    assert_eq!(compiler.compilation.get_nodes_processed(), 2);
}

#[test]
fn boards_met_twice_are_stored_once() {
    let mut compiler = Compiler::new(TTTCompilation::new());
    compiler.init_compilation().unwrap();
    // The first board, its nine children, and the children of 1 and of 3.
    for _ in 0..3 {
        compiler.process().unwrap();
    }
    // 1 leads to 1 + 2 * 3^i for eight cells; 3 leads to 3 + 2 * 3^i for
    // eight cells: sixteen boards, all different.
    assert_eq!(compiler.compilation.nodes.len(), 10 + 16);
    while compiler.queue.len() != 0 && compiler.queue[0].1 == 2 {
        compiler.process().unwrap();
    }
    // Two marks of different teams on nine cells: 9 * 8 boards.
    assert_eq!(compiler.compilation.nodes.len(), 10 + 72);
    while compiler.queue.len() != 0 && compiler.queue[0].1 == 1 {
        compiler.process().unwrap();
    }
    // Two marks of team 1 and one of team 2: 36 * 7 boards, each met twice.
    assert_eq!(compiler.compilation.nodes.len(), 10 + 72 + 252);
}

#[test]
fn steps_on_empty_queues_do_nothing() {
    let mut compiler = compiled();
    let before = compiler.compilation.get_cloned_map();
    assert_eq!(compiler.process(), Ok(()));
    assert_eq!(compiler.post_process(), Ok(()));
    assert_eq!(compiler.score_nodes(), Ok(()));
    assert_eq!(compiler.compilation.get_cloned_map(), before);
    assert_eq!(compiler.compilation.get_nodes_processed(), 5478);
    assert_eq!(compiler.compilation.get_winners_processed(), 958);
    assert_eq!(compiler.compilation.get_nodes_scored(), 5478);
}

#[test]
fn three_by_three_has_5478_boards() {
    let compiler = compiled();
    assert_eq!(compiler.compilation.get_nodes_processed(), 5478);
    assert_eq!(compiler.compilation.get_winners_processed(), 958);
    assert_eq!(compiler.compilation.get_nodes_scored(), 5478);
    assert_eq!(compiler.compilation.get_cloned_map().len(), 5478);
    assert_eq!(compiler.queue.len(), 0);
    assert_eq!(compiler.winners.len(), 0);
    assert_eq!(compiler.unscored_nodes.len(), 0);
}

#[test]
fn enumeration_alone_finds_every_board_and_scores_none() {
    let mut compiler = Compiler::new(TTTCompilation::new());
    compiler.init_compilation().unwrap();
    while compiler.queue.len() != 0 {
        compiler.process().unwrap();
    }
    assert_eq!(compiler.compilation.nodes.len(), 5478);
    assert_eq!(compiler.compilation.get_nodes_processed(), 5478);
    assert_eq!(compiler.winners.len(), 958);
    assert_eq!(compiler.compilation.get_nodes_scored(), 0);
    assert!(compiler.compilation.nodes.values().all(|node| !node.scored));
    assert_eq!(compiler.export(), Err(CompileError::NonConvergence));
}

#[test]
fn classification_scores_the_finished_games_only() {
    let mut compiler = Compiler::new(TTTCompilation::new());
    compiler.init_compilation().unwrap();
    while compiler.queue.len() != 0 {
        compiler.process().unwrap();
    }
    while compiler.winners.len() != 0 {
        compiler.post_process().unwrap();
    }
    assert_eq!(compiler.compilation.get_winners_processed(), 958);
    assert_eq!(compiler.compilation.get_nodes_scored(), 958);
    for (id, node) in compiler.compilation.nodes.iter() {
        assert_eq!(node.scored, node.outcome != Outcome::Open, "board {}", id);
    }
    assert!(compiler.unscored_nodes.len() > 0);
}

#[test]
fn finished_games_are_626_wins_316_losses_16_draws() {
    let compiler = compiled();
    let nodes = compiler.compilation.get_cloned_map();
    assert_eq!(nodes.values().filter(|node| node.outcome == Outcome::Won(1)).count(), 626);
    assert_eq!(nodes.values().filter(|node| node.outcome == Outcome::Won(2)).count(), 316);
    assert_eq!(nodes.values().filter(|node| node.outcome == Outcome::Draw).count(), 16);
    assert_eq!(nodes.values().filter(|node| node.outcome == Outcome::Open).count(), 4520);
}

#[test]
fn store_is_what_play_from_the_first_board_reaches() {
    // Walks the game by hand: from each board on which the game goes on,
    // each empty cell gives a board.
    let mut seen: HashSet<NodeIndex> = HashSet::new();
    let mut stack: Vec<NodeIndex> = vec![0];
    seen.insert(0);
    while let Some(id) = stack.pop() {
        if get_winner(&id, 3) != 0 {
            continue;
        }
        let board = decode(id, 9);
        let team = mover(id);
        for cell in 0..9 {
            if board[cell] == 0 {
                let mut next = board.clone();
                next[cell] = team;
                let child = encode(&next);
                if seen.insert(child) {
                    stack.push(child);
                }
            }
        }
    }
    let compiler = compiled();
    let stored: HashSet<NodeIndex> = compiler.compilation.nodes.keys().cloned().collect();
    assert_eq!(stored, seen);
}

#[test]
fn boards_out_of_reach_are_not_stored() {
    let table = compile_table(TTTCompilation::new()).unwrap();
    // Three marks of team 1 and none of team 2.
    assert!(!table.contains_key(&13));
    // Team 2 has moved after team 1 had won.
    assert!(!table.contains_key(&encode(&[1, 1, 1, 2, 2, 2, 0, 0, 0])));
    // Team 2 has moved first.
    assert!(!table.contains_key(&2));
    // Not a board of nine cells.
    assert!(!table.contains_key(&19683));
}

#[test]
fn every_record_names_the_team_to_move_and_the_outcome() {
    let compiler = compiled();
    for (id, node) in compiler.compilation.nodes.iter() {
        assert_eq!(node.team, mover(*id));
        let winner = get_winner(id, 3);
        let full = decode(*id, 9).iter().all(|mark| *mark != 0);
        let expected = if winner != 0 {
            Outcome::Won(winner)
        } else if full {
            Outcome::Draw
        } else {
            Outcome::Open
        };
        assert_eq!(node.outcome, expected);
    }
}

#[test]
fn every_value_is_the_worth_of_the_end_or_the_best_reply() {
    let compiler = compiled();
    let nodes = &compiler.compilation.nodes;
    for (id, node) in nodes.iter() {
        assert!(node.scored);
        let winner = get_winner(id, 3);
        let children = compiler.compilation.get_child_states(*id, node.team);
        if winner != 0 {
            assert_eq!(node.value, if winner == node.team { 1 } else { -1 });
        } else if children.is_empty() {
            assert_eq!(node.value, 0);
        } else {
            let best = children.iter().map(|child| -nodes[child].value).max().unwrap();
            assert_eq!(node.value, best);
        }
    }
}

#[test]
fn table_holds_the_values_of_the_store() {
    let compiler = compiled();
    let table = compiler.export().unwrap();
    assert_eq!(table.len(), 5478);
    for (id, node) in compiler.compilation.nodes.iter() {
        assert_eq!(table[id], node.value);
    }
}

#[test]
fn first_board_is_a_draw() {
    let table = compile_table(TTTCompilation::new()).unwrap();
    assert_eq!(table.len(), 5478);
    assert_eq!(table[&0], 0);
    for child in [1u128, 3, 9, 27, 81, 243, 729, 2187, 6561] {
        assert_eq!(table[&child], 0);
    }
}

#[test]
fn known_boards_have_known_values() {
    let table = compile_table(TTTCompilation::new()).unwrap();
    // Team 1 has filled the top row: a loss for team 2, which would move.
    assert_eq!(table[&encode(&[1, 1, 1, 2, 2, 0, 0, 0, 0])], -1);
    // Team 1 moves and can fill the top row.
    assert_eq!(table[&encode(&[1, 1, 0, 2, 2, 0, 0, 0, 0])], 1);
    // Team 2 moves and cannot stop both threats of team 1.
    assert_eq!(table[&encode(&[1, 2, 1, 0, 1, 0, 0, 2, 0])], -1);
    // A full board without a line.
    assert_eq!(table[&encode(&[1, 2, 1, 1, 2, 2, 2, 1, 1])], 0);
    // Team 2 has filled the middle column with its third mark.
    assert_eq!(table[&encode(&[1, 2, 1, 0, 2, 0, 1, 2, 0])], -1);
}

#[test]
fn two_by_two_is_won_by_the_team_that_starts() {
    let mut rules = TTTCompilation::new();
    rules.set_board_size(2);
    let table = compile_table(rules).unwrap();
    assert_eq!(table[&0], 1);
    assert_eq!(table[&1], -1);
    // Team 1 holds two cells of four: every pair is a line.
    assert_eq!(table[&(1 + 6 + 9)], -1);
    // One board, four of one mark, twelve of two, twelve won with three.
    assert_eq!(table.len(), 1 + 4 + 12 + 12);
}

#[test]
fn one_cell_is_won_at_once() {
    let mut rules = TTTCompilation::new();
    rules.set_board_size(1);
    let table = compile_table(rules).unwrap();
    let mut expected: HashMap<NodeIndex, i8> = HashMap::new();
    expected.insert(0, 1);
    expected.insert(1, -1);
    assert_eq!(table, expected);
}

#[test]
fn board_without_cells_is_a_draw() {
    let mut rules = TTTCompilation::new();
    rules.set_board_size(0);
    let mut compiler = Compiler::new(rules);
    compiler.init_compilation().unwrap();
    assert_eq!(compiler.compile(), Ok(()));
    assert_eq!(compiler.compilation.nodes.len(), 1);
    assert_eq!(
        compiler.compilation.nodes[&0],
        Node { team: 1, outcome: Outcome::Draw, scored: true, value: 0 }
    );
}
