//! The turn-state machine that schedules the engines' callers: the host
//! loop runs the world systems and reads input, while the decision of which
//! phase follows which is pure and lives here.

use vstd::prelude::*;

verus! {

/// The phase of the turn loop.
#[derive(PartialEq, Eq, Structural, Copy, Clone, Debug)]
pub enum RunState {
    AwaitingInput,
    PreRun,
    PlayerTurn,
    MonsterTurn,
}

impl RunState {
    /// The phase that follows this one in a tick. The setup phase and the
    /// monster turn hand control back to the player; the player's turn hands
    /// it to the monsters; waiting for input holds until a key arrives.
    pub fn advance(self, had_input: bool) -> (r: RunState)
        ensures
            r == (match self {
                RunState::PreRun => RunState::AwaitingInput,
                RunState::AwaitingInput => if had_input {
                    RunState::PlayerTurn
                } else {
                    RunState::AwaitingInput
                },
                RunState::PlayerTurn => RunState::MonsterTurn,
                RunState::MonsterTurn => RunState::AwaitingInput,
            }),
    {
        match self {
            RunState::PreRun => RunState::AwaitingInput,
            RunState::AwaitingInput => {
                if had_input {
                    RunState::PlayerTurn
                } else {
                    RunState::AwaitingInput
                }
            },
            RunState::PlayerTurn => RunState::MonsterTurn,
            RunState::MonsterTurn => RunState::AwaitingInput,
        }
    }
}

} // verus!
