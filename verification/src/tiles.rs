//! Tile kinds and the sparse tile map written by the generator.

use vstd::prelude::*;
use std::collections::HashMap;
use crate::geometry::Pos;
use crate::grid::{key_of, lemma_key_injective};

verus! {

broadcast use vstd::std_specs::hash::group_hash_axioms;

#[derive(Clone, Copy, Debug, PartialEq, Eq, Structural)]
pub enum TileKind {
    Wall,
    Door,
    Bush,
    Tree,
    Crate,
    ShippingContainer,
}

/// Tiles that a walker cannot enter.
pub open spec fn spec_blocks_movement(k: TileKind) -> bool {
    match k {
        TileKind::Wall | TileKind::Tree | TileKind::ShippingContainer => true,
        TileKind::Bush | TileKind::Crate | TileKind::Door => false,
    }
}

/// Tiles that line of sight cannot pass: every tile kind.
pub open spec fn spec_blocks_sight(k: TileKind) -> bool {
    match k {
        TileKind::Wall
        | TileKind::Tree
        | TileKind::ShippingContainer
        | TileKind::Bush
        | TileKind::Crate
        | TileKind::Door => true,
    }
}

impl TileKind {
    pub fn blocks_movement(&self) -> (r: bool)
        ensures
            r == spec_blocks_movement(*self),
    {
        match self {
            TileKind::Wall | TileKind::Tree | TileKind::ShippingContainer => true,
            TileKind::Bush | TileKind::Crate | TileKind::Door => false,
        }
    }

    pub fn blocks_sight(&self) -> (r: bool)
        ensures
            r == spec_blocks_sight(*self),
    {
        true
    }
}

/// A cell content a walker may enter: empty floor or a non-blocking tile.
pub open spec fn tile_walkable(t: Option<TileKind>) -> bool {
    match t {
        None => true,
        Some(k) => !spec_blocks_movement(k),
    }
}

/// A cell content line of sight passes through.
pub open spec fn tile_transparent(t: Option<TileKind>) -> bool {
    match t {
        None => true,
        Some(k) => !spec_blocks_sight(k),
    }
}

/// A sparse map from cell to optional tile, with a default for cells never
/// written (the generator starts from solid wall).
pub struct TileMap {
    m: HashMap<u64, Option<TileKind>>,
    default: Option<TileKind>,
}

impl TileMap {
    pub closed spec fn spec_default(self) -> Option<TileKind> {
        self.default
    }

    /// The tile at a cell: what was last written there, or the default.
    pub closed spec fn tile_at(self, p: Pos) -> Option<TileKind> {
        if self.m@.contains_key(key_of(p)) {
            self.m@[key_of(p)]
        } else {
            self.default
        }
    }

    pub fn new(default: Option<TileKind>) -> (r: TileMap)
        ensures
            r.spec_default() == default,
            forall|p: Pos| r.tile_at(p) == default,
    {
        TileMap { m: HashMap::new(), default }
    }

    pub fn get(&self, p: Pos) -> (r: Option<TileKind>)
        ensures
            r == self.tile_at(p),
    {
        match self.m.get(&crate::grid::encode_key(p)) {
            Some(t) => *t,
            None => self.default,
        }
    }

    pub fn set(&mut self, p: Pos, t: Option<TileKind>)
        ensures
            final(self).spec_default() == old(self).spec_default(),
            final(self).tile_at(p) == t,
            forall|q: Pos| q != p ==> final(self).tile_at(q) == old(self).tile_at(q),
    {
        self.m.insert(crate::grid::encode_key(p), t);
        proof {
            assert forall|q: Pos| q != p implies self.tile_at(q) == old(self).tile_at(q) by {
                lemma_key_injective(q, p);
            }
        }
    }

    /// Write `t` over every cell of the rectangle.
    pub fn set_rect(&mut self, rect: crate::geometry::Rect, t: Option<TileKind>)
        requires
            rect.wf(),
        ensures
            final(self).spec_default() == old(self).spec_default(),
            forall|q: Pos| rect.spec_contains(q) ==> final(self).tile_at(q) == t,
            forall|q: Pos| !rect.spec_contains(q) ==> final(self).tile_at(q) == old(self).tile_at(
                q,
            ),
    {
        let cells = rect.cells();
        let mut i: usize = 0;
        while i < cells.len()
            invariant
                rect.wf(),
                i <= cells@.len(),
                forall|k: int| 0 <= k < cells@.len() ==> rect.spec_contains(#[trigger] cells@[k]),
                forall|q: Pos| rect.spec_contains(q) ==> cells@.contains(q),
                forall|k1: int, k2: int| 0 <= k1 < k2 < cells@.len() ==> cells@[k1] != cells@[k2],
                self.spec_default() == old(self).spec_default(),
                forall|k: int| 0 <= k < i ==> self.tile_at(#[trigger] cells@[k]) == t,
                forall|q: Pos|
                    !rect.spec_contains(q) ==> self.tile_at(q) == old(self).tile_at(q),
                forall|q: Pos|
                    rect.spec_contains(q) && self.tile_at(q) != old(self).tile_at(q)
                        ==> self.tile_at(q) == t,
            decreases cells@.len() - i,
        {
            self.set(cells[i], t);
            i = i + 1;
        }
        proof {
            assert forall|q: Pos| rect.spec_contains(q) implies self.tile_at(q) == t by {
                assert(cells@.contains(q));
                let k = choose|k: int| 0 <= k < cells@.len() && cells@[k] == q;
                assert(self.tile_at(cells@[k]) == t);
            }
        }
    }
}

} // verus!
