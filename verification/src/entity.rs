//! Living entities.

use vstd::prelude::*;

verus! {

/// A living entity and its health.
#[derive(Debug, Clone)]
pub struct Entity {
    pub health: u16,
    pub max_health: u16,
}

impl Entity {
    /// An entity at full health.
    pub fn new(max_health: u16) -> (e: Self)
        ensures
            e.health == max_health,
            e.max_health == max_health,
    {
        Entity { health: max_health, max_health }
    }
}

} // verus!
