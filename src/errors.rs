use vstd::prelude::*;

verus! {

/// Failures that the simulation reports. Per-tick failures never abort a
/// tick; only construction-time ones stop a match before it starts.
#[derive(Debug, Clone, PartialEq, Eq)]
pub enum GameError {
    CannotMoveHere(usize),
    NotFoundCell,
    InvalidInput(String),
    PlayerIsDead,
    InvalidAnimation,
    GenerateIdError,
    IsStunned,
}

} // verus!
