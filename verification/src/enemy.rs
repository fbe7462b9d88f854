//! Kinds of enemy behaviour.

use vstd::prelude::*;

verus! {

/// How an enemy behaves towards the player.
#[derive(Clone, Copy, Debug, PartialEq, Eq, Structural)]
pub enum EnemyType {
    /// Hunts the player.
    Hunter,
    /// Runs away from the player.
    Fugitive,
    /// Heads for the exit.
    Seeker,
}

impl Default for EnemyType {
    fn default() -> (t: Self)
        ensures
            t == EnemyType::Hunter,
    {
        EnemyType::Hunter
    }
}

} // verus!
