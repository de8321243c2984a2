//! The messages shown to the player.
use vstd::prelude::*;

verus! {

/// The messages sent for the player to read, oldest first.
pub struct GameLog {
    pub entries: Vec<String>,
}

} // verus!
