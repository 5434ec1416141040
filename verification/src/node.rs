//! The records that the compiler keeps of each board, and what can go wrong
//! while it works.

use vstd::prelude::*;
use std::collections::HashMap;
use crate::codec::NodeIndex;

verus! {

/// How a board ends the game, if it does.
#[derive(Clone, Copy, Debug, PartialEq, Eq, Structural)]
pub enum Outcome {
    /// The game goes on, or the board is not classified yet.
    Open,
    /// The team that holds a line.
    Won(u8),
    /// No move is left and no team holds a line.
    Draw,
}

/// What the compiler knows of one board.
#[derive(Clone, Copy, Debug, PartialEq, Eq, Structural)]
pub struct Node {
    /// The team that moves next on this board.
    pub team: u8,
    /// How the board ends the game; `Open` until the board is classified.
    pub outcome: Outcome,
    /// Whether `value` is set.
    pub scored: bool,
    /// The result of best play for `team`: 1 for a win, -1 for a loss, 0
    /// for a draw.
    pub value: i8,
}

/// The store of the compiler: the record of each board it has met.
pub type NodeMap = HashMap<NodeIndex, Node>;

/// Why a compilation or a query stopped.
#[derive(Clone, Copy, Debug, PartialEq, Eq, Structural)]
pub enum CompileError {
    /// A record was to be inserted for a board that has one.
    DuplicateNode(NodeIndex),
    /// A record was asked of a board that has none.
    MissingNode(NodeIndex),
    /// Scoring went once round its queue and could score nothing.
    NonConvergence,
    /// A move was asked on a board that has none left.
    NoLegalMove,
}

/// The team that moves after `team`.
pub open spec fn other_team(team: u8) -> u8 {
    if team == 1 {
        2
    } else {
        1
    }
}

/// The team that moves after `team`.
pub fn next_team(team: u8) -> (next: u8)
    ensures
        next == other_team(team),
{
    if team == 1 {
        2
    } else {
        1
    }
}

impl Node {
    /// The record of a board that was just met: `team` moves next, nothing
    /// else is known.
    pub fn new(team: u8) -> (node: Node)
        ensures
            node == (Node { team, outcome: Outcome::Open, scored: false, value: 0 }),
    {
        Node { team, outcome: Outcome::Open, scored: false, value: 0 }
    }
}

} // verus!
