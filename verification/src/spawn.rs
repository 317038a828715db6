//! What the generator asks the spawner to put on a cell.

use vstd::prelude::*;
use crate::tiles::{TileKind, spec_blocks_movement};
use crate::mob::MobKind;
use crate::items::ItemKind;

verus! {

/// One placement: a tile, a mob, or a pickup item.
#[derive(Clone, Copy, Debug, PartialEq, Eq, Structural)]
pub enum Spawn {
    Tile(TileKind),
    Mob(MobKind),
    Item(ItemKind),
}

/// Whether the spawned entity blocks movement: mobs always do, items never,
/// tiles according to their kind.
pub open spec fn spec_spawn_blocks_movement(s: Spawn) -> bool {
    match s {
        Spawn::Tile(tk) => spec_blocks_movement(tk),
        Spawn::Mob(_) => true,
        Spawn::Item(_) => false,
    }
}

impl Spawn {
    pub fn blocks_movement(&self) -> (r: bool)
        ensures
            r == spec_spawn_blocks_movement(*self),
    {
        match self {
            Spawn::Tile(tk) => tk.blocks_movement(),
            Spawn::Mob(_) => true,
            Spawn::Item(_) => false,
        }
    }
}

} // verus!
