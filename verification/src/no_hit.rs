//! The vocabulary of the no-damage route search: the actions it tries, the
//! limits it works within and what it reports.

use vstd::prelude::*;

use crate::entity::Direction;
use crate::game::Intent;

verus! {

/// One step of a route: a move or waiting a turn.
#[derive(Clone, Copy, Debug, PartialEq, Eq, Structural)]
pub enum NoHitAction {
    Move(Direction),
    Wait,
}

/// What the search found.
#[derive(Clone, Debug, PartialEq, Eq)]
pub struct NoHitAnalysis {
    /// Whether a route reaches the exit without the player losing health.
    pub possible: bool,
    /// Such a route, when one was found.
    pub route: Option<Vec<NoHitAction>>,
    /// How many game states were expanded.
    pub explored_states: usize,
    /// Whether a limit cut the search short.
    pub truncated: bool,
}

/// The limits of the search.
#[derive(Clone, Copy, Debug, PartialEq, Eq, Structural)]
pub struct NoHitOptions {
    pub max_states: usize,
    pub max_depth: usize,
}

impl Default for NoHitOptions {
    /// Fifty thousand states, two hundred steps deep.
    fn default() -> (o: NoHitOptions)
        ensures
            o == (NoHitOptions { max_states: 50000, max_depth: 200 }),
    {
        NoHitOptions { max_states: 50000, max_depth: 200 }
    }
}

impl NoHitAction {
    /// The player intent that performs this action.
    pub fn intent(self) -> (i: Intent)
        ensures
            i == match self {
                NoHitAction::Move(d) => Intent::Move(d),
                NoHitAction::Wait => Intent::Wait,
            },
    {
        match self {
            NoHitAction::Move(direction) => Intent::Move(direction),
            NoHitAction::Wait => Intent::Wait,
        }
    }
}

} // verus!
