//! The per-tick spatial indices: occupancy, blocked-for-movement cells,
//! blocked-for-sight cells and the player's visibility set. All four are
//! derived state, rebuilt from scratch from the live entity list once per
//! tick and never patched incrementally.

use vstd::prelude::*;
use crate::geometry::Pos;
use crate::grid::CellSet;
use crate::fov::{calculate_fov, fov_visible};

verus! {

/// The view radius used for the player's visibility set.
pub const PLAYER_VIEW_RADIUS: i32 = 99;

/// One position-bearing entity, as the index rebuild sees it.
#[derive(Clone, Copy, Debug, PartialEq, Eq, Structural)]
pub struct EntityRec {
    pub id: u64,
    pub pos: Pos,
    pub blocks_movement: bool,
    pub blocks_sight: bool,
}

/// Cell-to-entity occupancy, rebuilt each tick.
pub struct OccupancyMap {
    pub entries: Vec<(Pos, u64)>,
}

impl OccupancyMap {
    /// Entity `id` stands on cell `p`.
    pub open spec fn occupied_by(self, p: Pos, id: u64) -> bool {
        self.entries@.contains((p, id))
    }

    /// The ids of the entities on one cell.
    pub fn get(&self, p: Pos) -> (r: Vec<u64>)
        ensures
            forall|id: u64| r@.contains(id) <==> self.occupied_by(p, id),
    {
        let mut r: Vec<u64> = Vec::new();
        let mut i: usize = 0;
        while i < self.entries.len()
            invariant
                i <= self.entries@.len(),
                forall|id: u64|
                    r@.contains(id) <==> (exists|k: int|
                        0 <= k < i && #[trigger] self.entries@[k] == (p, id)),
            decreases self.entries@.len() - i,
        {
            let (q, id) = self.entries[i];
            let ghost r0 = r@;
            if q == p {
                r.push(id);
            }
            proof {
                assert forall|id2: u64|
                    r@.contains(id2) <==> (exists|k: int|
                        0 <= k < i + 1 && #[trigger] self.entries@[k] == (p, id2)) by {
                    if r@.contains(id2) {
                        let t = choose|t: int| 0 <= t < r@.len() && r@[t] == id2;
                        if t < r0.len() {
                            assert(r0[t] == id2);
                            assert(r0.contains(id2));
                            let k = choose|k: int|
                                0 <= k < i && #[trigger] self.entries@[k] == (p, id2);
                        } else {
                            assert(self.entries@[i as int] == (p, id2));
                        }
                    }
                    if exists|k: int| 0 <= k < i + 1 && #[trigger] self.entries@[k] == (p, id2) {
                        let k = choose|k: int|
                            0 <= k < i + 1 && #[trigger] self.entries@[k] == (p, id2);
                        if k < i {
                            assert(r0.contains(id2));
                            let t = choose|t: int| 0 <= t < r0.len() && r0[t] == id2;
                            assert(r@[t] == id2);
                        } else {
                            assert(q == p && id == id2);
                            assert(r@[r@.len() - 1] == id2);
                        }
                    }
                }
            }
            i = i + 1;
        }
        proof {
            assert forall|id: u64|
                r@.contains(id) <==> self.occupied_by(p, id) by {
                if self.occupied_by(p, id) {
                    let k = choose|k: int|
                        0 <= k < self.entries@.len() && self.entries@[k] == (p, id);
                    assert(exists|k2: int|
                        0 <= k2 < self.entries@.len() && #[trigger] self.entries@[k2] == (p, id));
                }
            }
        }
        r
    }

    /// The ids of the entities within a square of the given radius around
    /// `center`.
    pub fn get_nearby(&self, center: Pos, radius: i32) -> (r: Vec<u64>)
        requires
            center.in_bounds(),
            0 <= radius <= 1000,
        ensures
            forall|k: int|
                0 <= k < r@.len() ==> near_entry(*self, center, radius as int, #[trigger] r@[k]),
    {
        let mut r: Vec<u64> = Vec::new();
        let mut i: usize = 0;
        while i < self.entries.len()
            invariant
                center.in_bounds(),
                0 <= radius <= 1000,
                i <= self.entries@.len(),
                forall|k: int|
                    0 <= k < r@.len() ==> near_entry(*self, center, radius as int,
                        #[trigger] r@[k],
                    ),
            decreases self.entries@.len() - i,
        {
            let (q, id) = self.entries[i];
            let dx: i64 = (q.x as i64) - (center.x as i64);
            let dy: i64 = (q.y as i64) - (center.y as i64);
            let ax: i64 = if dx >= 0 { dx } else { -dx };
            let ay: i64 = if dy >= 0 { dy } else { -dy };
            let cheb: i64 = if ax >= ay { ax } else { ay };
            if cheb <= radius as i64 {
                let ghost r0 = r@;
                r.push(id);
                proof {
                    assert(near_entry(*self, center, radius as int, id)) by {
                        assert((#[trigger] self.entries@[i as int]).1 == id
                            && crate::geometry::chebyshev(self.entries@[i as int].0, center)
                            <= radius);
                    }
                    assert forall|k: int|
                        0 <= k < r@.len() implies near_entry(*self, center, radius as int,
                        #[trigger] r@[k]) by {
                        if k < r0.len() {
                            assert(r@[k] == r0[k]);
                        } else {
                            assert(r@[k] == id);
                        }
                    }
                }
            }
            i = i + 1;
        }
        r
    }
}

/// Some entity with this id stands within the radius of the centre.
pub open spec fn near_entry(m: OccupancyMap, center: Pos, radius: int, id: u64) -> bool {
    exists|e: int|
        0 <= e < m.entries@.len() && (#[trigger] m.entries@[e]).1 == id
            && crate::geometry::chebyshev(m.entries@[e].0, center) <= radius
}

/// Rebuild the occupancy index: one entry per entity, at its cell.
pub fn update_occupancy(entities: &Vec<EntityRec>) -> (r: OccupancyMap)
    ensures
        forall|p: Pos, id: u64|
            r.occupied_by(p, id) <==> (exists|i: int|
                0 <= i < entities@.len() && (#[trigger] entities@[i]).pos == p && entities@[i].id
                    == id),
{
    let mut entries: Vec<(Pos, u64)> = Vec::new();
    let mut i: usize = 0;
    while i < entities.len()
        invariant
            i <= entities@.len(),
            entries@.len() == i,
            forall|k: int|
                0 <= k < i ==> entries@[k] == ((#[trigger] entities@[k]).pos, entities@[k].id),
        decreases entities@.len() - i,
    {
        let e = entities[i];
        entries.push((e.pos, e.id));
        i = i + 1;
    }
    let r = OccupancyMap { entries };
    proof {
        assert forall|p: Pos, id: u64|
            r.occupied_by(p, id) <==> (exists|i2: int|
                0 <= i2 < entities@.len() && (#[trigger] entities@[i2]).pos == p
                    && entities@[i2].id == id) by {
            if r.occupied_by(p, id) {
                let k = choose|k: int| 0 <= k < r.entries@.len() && r.entries@[k] == (p, id);
                assert((#[trigger] entities@[k]).pos == p && entities@[k].id == id);
            }
            if exists|i2: int|
                0 <= i2 < entities@.len() && (#[trigger] entities@[i2]).pos == p
                    && entities@[i2].id == id {
                let k = choose|k: int|
                    0 <= k < entities@.len() && (#[trigger] entities@[k]).pos == p
                        && entities@[k].id == id;
                assert(r.entries@[k] == (p, id));
                assert(r.entries@.contains((p, id)));
            }
        }
    }
    r
}

/// Rebuild the movement-blocking set: the cells of entities flagged as
/// blocking movement.
pub fn update_walkability(entities: &Vec<EntityRec>) -> (r: CellSet)
    ensures
        forall|p: Pos|
            r.cells().contains(p) <==> (exists|i: int|
                0 <= i < entities@.len() && (#[trigger] entities@[i]).blocks_movement
                    && entities@[i].pos == p),
{
    let mut r = CellSet::new();
    let mut i: usize = 0;
    while i < entities.len()
        invariant
            i <= entities@.len(),
            forall|p: Pos|
                r.cells().contains(p) <==> (exists|k: int|
                    0 <= k < i && (#[trigger] entities@[k]).blocks_movement && entities@[k].pos
                        == p),
        decreases entities@.len() - i,
    {
        let e = entities[i];
        if e.blocks_movement {
            r.insert(e.pos);
        }
        proof {
            assert forall|p: Pos|
                r.cells().contains(p) <==> (exists|k: int|
                    0 <= k < i + 1 && (#[trigger] entities@[k]).blocks_movement && entities@[k].pos
                        == p) by {
                if r.cells().contains(p) {
                    if e.blocks_movement && p == e.pos {
                        assert((#[trigger] entities@[i as int]).blocks_movement
                            && entities@[i as int].pos == p);
                    } else {
                        let k = choose|k: int|
                            0 <= k < i && (#[trigger] entities@[k]).blocks_movement
                                && entities@[k].pos == p;
                    }
                }
            }
        }
        i = i + 1;
    }
    r
}

/// Rebuild the sight-blocking set: the cells of entities flagged as blocking
/// line of sight.
pub fn update_visibility(entities: &Vec<EntityRec>) -> (r: CellSet)
    ensures
        forall|p: Pos|
            r.cells().contains(p) <==> (exists|i: int|
                0 <= i < entities@.len() && (#[trigger] entities@[i]).blocks_sight
                    && entities@[i].pos == p),
{
    let mut r = CellSet::new();
    let mut i: usize = 0;
    while i < entities.len()
        invariant
            i <= entities@.len(),
            forall|p: Pos|
                r.cells().contains(p) <==> (exists|k: int|
                    0 <= k < i && (#[trigger] entities@[k]).blocks_sight && entities@[k].pos == p),
        decreases entities@.len() - i,
    {
        let e = entities[i];
        if e.blocks_sight {
            r.insert(e.pos);
        }
        proof {
            assert forall|p: Pos|
                r.cells().contains(p) <==> (exists|k: int|
                    0 <= k < i + 1 && (#[trigger] entities@[k]).blocks_sight && entities@[k].pos
                        == p) by {
                if r.cells().contains(p) {
                    if e.blocks_sight && p == e.pos {
                        assert((#[trigger] entities@[i as int]).blocks_sight
                            && entities@[i as int].pos == p);
                    } else {
                        let k = choose|k: int|
                            0 <= k < i && (#[trigger] entities@[k]).blocks_sight
                                && entities@[k].pos == p;
                    }
                }
            }
        }
        i = i + 1;
    }
    r
}

/// Rebuild the player's visibility set: the cells the player's radial field
/// of view reaches against the current sight-blocking set.
pub fn update_player_visibility(player_pos: Pos, sight_blocked: &CellSet) -> (r: CellSet)
    requires
        -500_000 <= player_pos.x <= 500_000,
        -500_000 <= player_pos.y <= 500_000,
    ensures
        forall|p: Pos|
            r.cells().contains(p) <==> fov_visible(
                player_pos,
                p,
                PLAYER_VIEW_RADIUS as int,
                sight_blocked.cells(),
            ),
{
    calculate_fov(player_pos, PLAYER_VIEW_RADIUS, sight_blocked)
}

} // verus!
