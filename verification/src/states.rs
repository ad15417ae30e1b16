//! Transitions between game screens.

use vstd::prelude::*;

verus! {

/// Basic state transitions, for games that pass no data between screens.
#[derive(Debug, Clone, Copy, PartialEq, Eq, Structural)]
pub enum Transition {
    /// Stay in the current state.
    Stay,
    /// Push a new state on top of the current one.
    Push,
    /// Pop the current state.
    Pop,
    /// Replace the current state.
    Switch,
    /// Leave the game.
    Quit,
}

} // verus!
