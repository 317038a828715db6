//! The level generator: cellular-automata cave carving and box-yard
//! scattering with a connectivity guarantee (an accepted region always joins
//! its left edge to its right edge through walkable cells; a capped number of
//! failed attempts falls back to clearing the region), the shared populate
//! primitive that assigns requested placements to distinct free cells, and
//! the zone composer that lays the themed regions out left to right.

use vstd::prelude::*;
use crate::geometry::{Pos, Rect, cardinal_adjacent};
use crate::grid::{BitGrid, CellSet};
use crate::flood::{flood, flood_reaches, is_flood_path, lemma_flood_reaches_along, lemma_seed_reached};
use crate::tiles::{TileMap, TileKind, tile_walkable, tile_transparent};
use crate::rng::{rand_ratio, choose_multiple, lemma_sample_distinct, distinct_seq};
use crate::spawn::Spawn;
use crate::bsp::BspSplitOpts;
use crate::mob::MobKind;
use crate::items::ItemKind;

verus! {

/// Attempts before the carver gives up and clears the whole region.
pub const MAX_CARVE_ATTEMPTS: usize = 64;

/// The neighbour of `p` at the given offset.
pub open spec fn nbr(p: Pos, dx: int, dy: int) -> Pos {
    Pos { x: (p.x + dx) as i32, y: (p.y + dy) as i32 }
}

/// How many of the eight neighbours of `p` are not walkable in `g` (cells
/// outside the grid's rectangle count as not walkable).
pub open spec fn dead_neighbors(g: BitGrid, p: Pos) -> int {
    (if !g.at(nbr(p, -1, -1)) {
        1int
    } else {
        0int
    }) + (if !g.at(nbr(p, 0, -1)) {
        1int
    } else {
        0int
    }) + (if !g.at(nbr(p, 1, -1)) {
        1int
    } else {
        0int
    }) + (if !g.at(nbr(p, -1, 0)) {
        1int
    } else {
        0int
    }) + (if !g.at(nbr(p, 1, 0)) {
        1int
    } else {
        0int
    }) + (if !g.at(nbr(p, -1, 1)) {
        1int
    } else {
        0int
    }) + (if !g.at(nbr(p, 0, 1)) {
        1int
    } else {
        0int
    }) + (if !g.at(nbr(p, 1, 1)) {
        1int
    } else {
        0int
    })
}

fn count_dead_neighbors(g: &BitGrid, p: Pos) -> (r: u32)
    requires
        g.wf(),
        p.in_bounds(),
    ensures
        r == dead_neighbors(*g, p),
{
    let mut c: u32 = 0;
    if !g.get(Pos { x: p.x - 1, y: p.y - 1 }) {
        c = c + 1;
    }
    if !g.get(Pos { x: p.x, y: p.y - 1 }) {
        c = c + 1;
    }
    if !g.get(Pos { x: p.x + 1, y: p.y - 1 }) {
        c = c + 1;
    }
    if !g.get(Pos { x: p.x - 1, y: p.y }) {
        c = c + 1;
    }
    if !g.get(Pos { x: p.x + 1, y: p.y }) {
        c = c + 1;
    }
    if !g.get(Pos { x: p.x - 1, y: p.y + 1 }) {
        c = c + 1;
    }
    if !g.get(Pos { x: p.x, y: p.y + 1 }) {
        c = c + 1;
    }
    if !g.get(Pos { x: p.x + 1, y: p.y + 1 }) {
        c = c + 1;
    }
    c
}

/// Random initial automaton state: each cell of the region walkable with
/// probability `noise_num / noise_den`; a certain ratio fills the region, an
/// impossible one leaves it empty.
fn ca_seed(rect: Rect, noise_num: u32, noise_den: u32, rng: &mut rand::rngs::ThreadRng) -> (r:
    BitGrid)
    requires
        rect.wf(),
        rect.area() <= 100_000_000,
        1 <= noise_den,
        noise_num <= noise_den,
    ensures
        r.wf(),
        r.rect() == rect,
        noise_num == noise_den ==> forall|p: Pos| rect.spec_contains(p) ==> #[trigger] r.at(p),
        noise_num == 0 ==> forall|p: Pos| !(#[trigger] r.at(p)),
{
    let mut g = BitGrid::new(rect);
    let cells = rect.cells();
    let mut i: usize = 0;
    while i < cells.len()
        invariant
            rect.wf(),
            1 <= noise_den,
            noise_num <= noise_den,
            i <= cells@.len(),
            forall|k: int| 0 <= k < cells@.len() ==> rect.spec_contains(#[trigger] cells@[k]),
            forall|q: Pos| rect.spec_contains(q) ==> cells@.contains(q),
            g.wf(),
            g.rect() == rect,
            noise_num == noise_den ==> forall|k: int| 0 <= k < i ==> g.at(#[trigger] cells@[k]),
            noise_num == 0 ==> forall|p: Pos| !(#[trigger] g.at(p)),
        decreases cells@.len() - i,
    {
        if rand_ratio(rng, noise_num, noise_den) {
            g.set(cells[i], true);
        }
        i = i + 1;
    }
    proof {
        if noise_num == noise_den {
            assert forall|p: Pos| rect.spec_contains(p) implies #[trigger] g.at(p) by {
                assert(cells@.contains(p));
                let k = choose|k: int| 0 <= k < cells@.len() && cells@[k] == p;
            }
        }
    }
    g
}

/// Two grids hold the same cells over the same rectangle.
pub open spec fn grids_equal(a: BitGrid, b: BitGrid) -> bool {
    a.rect() == b.rect() && (forall|p: Pos| #[trigger] a.at(p) == b.at(p))
}

/// `next` is one synchronous smoothing pass over `prev`: a cell survives
/// exactly when it lies in the region and has one to four dead neighbours.
pub open spec fn is_ca_step(prev: BitGrid, next: BitGrid) -> bool {
    next.rect() == prev.rect() && (forall|p: Pos|
        #[trigger] next.at(p) <==> (prev.rect().spec_contains(p) && 1 <= dead_neighbors(prev, p)
            <= 4))
}

/// `result` is exactly `n` synchronous smoothing passes after `seed`.
pub open spec fn ca_run(seed: BitGrid, result: BitGrid, n: nat) -> bool
    decreases n,
{
    if n == 0 {
        grids_equal(seed, result)
    } else {
        exists|mid: BitGrid| ca_run(seed, mid, (n - 1) as nat) && #[trigger] is_ca_step(mid, result)
    }
}

/// One synchronous smoothing pass: a cell is walkable in the result exactly
/// when it lies in the region and has between one and four dead neighbours in
/// the previous state.
fn ca_step(prev: &BitGrid) -> (r: BitGrid)
    requires
        prev.wf(),
    ensures
        r.wf(),
        r.rect() == prev.rect(),
        forall|p: Pos|
            r.at(p) <==> (prev.rect().spec_contains(p) && 1 <= dead_neighbors(*prev, p) <= 4),
{
    let rect = prev.rect_of();
    let mut g = BitGrid::new(rect);
    let cells = rect.cells();
    let mut i: usize = 0;
    while i < cells.len()
        invariant
            prev.wf(),
            rect == prev.rect(),
            i <= cells@.len(),
            forall|k: int| 0 <= k < cells@.len() ==> rect.spec_contains(#[trigger] cells@[k]),
            forall|k: int| 0 <= k < cells@.len() ==> (#[trigger] cells@[k]).in_bounds(),
            forall|q: Pos| rect.spec_contains(q) ==> cells@.contains(q),
            forall|k1: int, k2: int| 0 <= k1 < k2 < cells@.len() ==> cells@[k1] != cells@[k2],
            g.wf(),
            g.rect() == rect,
            forall|k: int|
                0 <= k < i ==> (g.at(#[trigger] cells@[k]) <==> 1 <= dead_neighbors(
                    *prev,
                    cells@[k],
                ) <= 4),
            forall|q: Pos| g.at(q) ==> (exists|k: int| 0 <= k < i && cells@[k] == q),
        decreases cells@.len() - i,
    {
        let p = cells[i];
        let d = count_dead_neighbors(prev, p);
        if 1 <= d && d <= 4 {
            g.set(p, true);
        }
        proof {
            assert forall|q: Pos| g.at(q) implies (exists|k: int|
                0 <= k < i + 1 && cells@[k] == q) by {
                if q != p {
                    let k = choose|k: int| 0 <= k < i && cells@[k] == q;
                    assert(0 <= k < i + 1 && cells@[k] == q);
                } else {
                    assert(cells@[i as int] == q);
                }
            }
        }
        i = i + 1;
    }
    proof {
        assert forall|p: Pos|
            g.at(p) <==> (rect.spec_contains(p) && 1 <= dead_neighbors(*prev, p) <= 4) by {
            if rect.spec_contains(p) {
                assert(cells@.contains(p));
                let k = choose|k: int| 0 <= k < cells@.len() && cells@[k] == p;
                assert(g.at(cells@[k]) <==> 1 <= dead_neighbors(*prev, cells@[k]) <= 4);
            }
        }
    }
    g
}

/// Run the automaton: a random seeding followed by the given number of
/// smoothing passes. The result is exactly `iterations` synchronous passes of
/// the one-to-four-dead-neighbours rule over some seed of the region; a
/// certain noise ratio pins the seed full, an impossible one pins it empty.
pub fn ca_gen(
    rect: Rect,
    iterations: usize,
    noise_num: u32,
    noise_den: u32,
    rng: &mut rand::rngs::ThreadRng,
) -> (r: BitGrid)
    requires
        rect.wf(),
        rect.area() <= 100_000_000,
        1 <= noise_den,
        noise_num <= noise_den,
    ensures
        r.wf(),
        r.rect() == rect,
        exists|seed: BitGrid|
            {
                &&& #[trigger] ca_run(seed, r, iterations as nat)
                &&& seed.wf()
                &&& seed.rect() == rect
                &&& (noise_num == noise_den ==> forall|p: Pos|
                    rect.spec_contains(p) ==> #[trigger] seed.at(p))
                &&& (noise_num == 0 ==> forall|p: Pos| !(#[trigger] seed.at(p)))
            },
{
    let mut g = ca_seed(rect, noise_num, noise_den, rng);
    let ghost seed0 = g;
    proof {
        assert(ca_run(seed0, g, 0));
    }
    let mut it: usize = 0;
    while it < iterations
        invariant
            g.wf(),
            g.rect() == rect,
            it <= iterations,
            seed0.wf(),
            seed0.rect() == rect,
            ca_run(seed0, g, it as nat),
        decreases iterations - it,
    {
        let ghost g_prev = g;
        g = ca_step(&g);
        proof {
            assert(is_ca_step(g_prev, g));
            assert(ca_run(seed0, g, (it + 1) as nat));
        }
        it = it + 1;
    }
    proof {
        assert(ca_run(seed0, g, iterations as nat));
    }
    g
}

/// A walk along walkable cells of the region, from its left edge to its
/// right edge, stepping cardinally.
pub open spec fn tiles_path(tiles: TileMap, rect: Rect, path: Seq<Pos>) -> bool {
    &&& path.len() >= 1
    &&& path[0].x == rect.x1
    &&& path.last().x == rect.x2
    &&& (forall|i: int| 0 <= i < path.len() ==> rect.spec_contains(#[trigger] path[i]))
    &&& (forall|i: int| 1 <= i < path.len() ==> cardinal_adjacent(path[i - 1], #[trigger] path[i]))
    &&& (forall|i: int| 0 <= i < path.len() ==> tile_walkable(tiles.tile_at(#[trigger] path[i])))
}

/// The region's left edge is joined to its right edge through walkable cells.
#[verifier::opaque]
pub open spec fn region_connected(tiles: TileMap, rect: Rect) -> bool {
    exists|path: Seq<Pos>| tiles_path(tiles, rect, path)
}

/// A region stays edge-to-edge connected when every walkable cell of it
/// stays walkable.
pub proof fn lemma_region_connected_monotone(t1: TileMap, t2: TileMap, rect: Rect)
    requires
        region_connected(t1, rect),
        forall|q: Pos|
            rect.spec_contains(q) && tile_walkable(t1.tile_at(q)) ==> tile_walkable(
                #[trigger] t2.tile_at(q),
            ),
    ensures
        region_connected(t2, rect),
{
    reveal(region_connected);
    let path = choose|path: Seq<Pos>| tiles_path(t1, rect, path);
    assert forall|i: int| 0 <= i < path.len() implies tile_walkable(
        t2.tile_at(#[trigger] path[i]),
    ) by {
        assert(rect.spec_contains(path[i]) && tile_walkable(t1.tile_at(path[i])));
    }
    assert(tiles_path(t2, rect, path));
}

/// The kind assigned at any flat position is one of the requested kinds.
proof fn lemma_kind_at_member(s: Seq<(usize, Spawn)>, a: int)
    requires
        0 <= a < total_requested(s),
    ensures
        exists|g: int| 0 <= g < s.len() && spec_kind_at(s, a) == (#[trigger] s[g]).1,
    decreases s.len(),
{
    if s.len() == 0 {
    } else if a < s[0].0 {
        assert(spec_kind_at(s, a) == s[0].1);
    } else {
        lemma_kind_at_member(s.skip(1), a - s[0].0);
        let g = choose|g: int|
            0 <= g < s.skip(1).len() && spec_kind_at(s.skip(1), a - s[0].0) == (#[trigger] s.skip(
                1,
            )[g]).1;
        assert(s.skip(1)[g] == s[g + 1]);
        assert(spec_kind_at(s, a) == (s[g + 1]).1);
    }
}

/// A connecting wall between two rooms inside a bound lies inside the bound
/// itself.
proof fn lemma_wall_in_bound(a: Rect, b: Rect, bound: Rect)
    requires
        bound.x1 <= a.x1 && a.x2 <= bound.x2 && bound.y1 <= a.y1 && a.y2 <= bound.y2,
        bound.x1 <= b.x1 && b.x2 <= bound.x2 && bound.y1 <= b.y1 && b.y2 <= bound.y2,
        a.x1 <= a.x2 && a.y1 <= a.y2,
        b.x1 <= b.x2 && b.y1 <= b.y2,
    ensures
        crate::bsp::spec_connecting_wall(a, b) matches Some(w) ==> bound.x1 <= w.x1 && w.x2
            <= bound.x2 && bound.y1 <= w.y1 && w.y2 <= bound.y2,
{
}

/// Carve the reached cells of an accepted automaton state into the tile map.
fn carve_reached(tiles: &mut TileMap, rect: Rect, reach: &BitGrid)
    requires
        rect.wf(),
        reach.wf(),
        reach.rect() == rect,
    ensures
        final(tiles).spec_default() == old(tiles).spec_default(),
        forall|q: Pos| reach.at(q) ==> final(tiles).tile_at(q) is None,
        forall|q: Pos| !reach.at(q) ==> final(tiles).tile_at(q) == old(tiles).tile_at(q),
{
    let cells = rect.cells();
    let mut i: usize = 0;
    while i < cells.len()
        invariant
            rect.wf(),
            reach.wf(),
            reach.rect() == rect,
            i <= cells@.len(),
            forall|k: int| 0 <= k < cells@.len() ==> rect.spec_contains(#[trigger] cells@[k]),
            forall|q: Pos| rect.spec_contains(q) ==> cells@.contains(q),
            forall|k1: int, k2: int| 0 <= k1 < k2 < cells@.len() ==> cells@[k1] != cells@[k2],
            tiles.spec_default() == old(tiles).spec_default(),
            forall|k: int|
                0 <= k < i && reach.at(#[trigger] cells@[k]) ==> tiles.tile_at(cells@[k]) is None,
            forall|q: Pos| !reach.at(q) ==> tiles.tile_at(q) == old(tiles).tile_at(q),
        decreases cells@.len() - i,
    {
        if reach.get(cells[i]) {
            tiles.set(cells[i], None);
        }
        i = i + 1;
    }
    proof {
        assert forall|q: Pos| reach.at(q) implies tiles.tile_at(q) is None by {
            assert(rect.spec_contains(q));
            assert(cells@.contains(q));
            let k = choose|k: int| 0 <= k < cells@.len() && cells@[k] == q;
        }
    }
}

/// Carve an organic cave into the region: run the automaton, flood from the
/// left edge, and accept only a state whose flood reaches the right edge;
/// after too many rejected attempts, clear the whole region instead. Either
/// way the final region joins its left edge to its right edge.
pub fn carve_cave(
    tiles: &mut TileMap,
    rect: Rect,
    iterations: usize,
    noise_num: u32,
    noise_den: u32,
    rng: &mut rand::rngs::ThreadRng,
)
    requires
        rect.wf(),
        rect.area() <= 100_000_000,
        1 <= noise_den,
        noise_num <= noise_den,
    ensures
        final(tiles).spec_default() == old(tiles).spec_default(),
        forall|q: Pos| !rect.spec_contains(q) ==> final(tiles).tile_at(q) == old(tiles).tile_at(q),
        forall|q: Pos|
            final(tiles).tile_at(q) != old(tiles).tile_at(q) ==> final(tiles).tile_at(q) is None,
        region_connected(*final(tiles), rect),
        forall|q: Pos|
            q.x == rect.x1 && rect.y1 <= q.y <= rect.y2 ==> (#[trigger] final(tiles).tile_at(
                q,
            )) is None,
{
    let ledge_rect = rect.left_edge();
    let seeds = ledge_rect.cells();
    let redge_rect = rect.right_edge();
    let redge = redge_rect.cells();
    proof {
        assert forall|k: int| 0 <= k < seeds@.len() implies #[trigger] seeds@[k].x == rect.x1
            && rect.spec_contains(seeds@[k]) by {
            assert(ledge_rect.spec_contains(seeds@[k]));
        }
        assert forall|t: int| 0 <= t < redge@.len() implies #[trigger] redge@[t].x == rect.x2
            && rect.spec_contains(redge@[t]) by {
            assert(redge_rect.spec_contains(redge@[t]));
        }
    }
    let mut attempts: usize = 0;
    while attempts < MAX_CARVE_ATTEMPTS
        invariant
            rect.wf(),
            rect.area() <= 100_000_000,
            1 <= noise_den,
            noise_num <= noise_den,
            *tiles == *old(tiles),
            forall|k: int| 0 <= k < seeds@.len() ==> rect.spec_contains(#[trigger] seeds@[k]),
            forall|k: int| 0 <= k < seeds@.len() ==> #[trigger] seeds@[k].x == rect.x1,
            forall|k: int| 0 <= k < redge@.len() ==> #[trigger] redge@[k].x == rect.x2,
            forall|k: int| 0 <= k < redge@.len() ==> rect.spec_contains(#[trigger] redge@[k]),
            ledge_rect == (Rect { x1: rect.x1, y1: rect.y1, x2: rect.x1, y2: rect.y2 }),
            forall|q: Pos| ledge_rect.spec_contains(q) ==> seeds@.contains(q),
        decreases MAX_CARVE_ATTEMPTS - attempts,
    {
        let walkable = ca_gen(rect, iterations, noise_num, noise_den, rng);
        let reach = flood(&seeds, &walkable);
        let mut hit: Option<Pos> = None;
        let mut k: usize = 0;
        while k < redge.len()
            invariant
                reach.wf(),
                k <= redge@.len(),
                forall|t: int| 0 <= t < redge@.len() ==> #[trigger] redge@[t].x == rect.x2,
                hit matches Some(p) ==> reach.at(p) && p.x == rect.x2,
            decreases redge@.len() - k,
        {
            if reach.get(redge[k]) {
                hit = Some(redge[k]);
            }
            k = k + 1;
        }
        if let Some(re) = hit {
            carve_reached(tiles, rect, &reach);
            proof {
                reveal(crate::flood::flood_reaches);
                let path = choose|path: Seq<Pos>|
                    is_flood_path(walkable, seeds@, path) && path.last() == re;
                assert forall|i: int| 0 <= i < path.len() implies reach.at(#[trigger] path[i]) by {
                    lemma_flood_reaches_along(walkable, seeds@, path, i);
                }
                assert forall|i: int| 0 <= i < path.len() implies rect.spec_contains(
                    #[trigger] path[i],
                ) && tile_walkable(tiles.tile_at(path[i])) by {
                    assert(reach.at(path[i]));
                }
                assert(path[0].x == rect.x1) by {
                    assert(seeds@.contains(path[0]));
                    let t = choose|t: int| 0 <= t < seeds@.len() && seeds@[t] == path[0];
                    assert(seeds@[t].x == rect.x1);
                }
                assert(path.last().x == rect.x2);
                assert(tiles_path(*tiles, rect, path));
                assert(region_connected(*tiles, rect)) by {
                    reveal(region_connected);
                }
                assert forall|q: Pos|
                    q.x == rect.x1 && rect.y1 <= q.y <= rect.y2 implies (#[trigger] tiles.tile_at(
                    q,
                )) is None by {
                    assert(ledge_rect.spec_contains(q));
                    assert(seeds@.contains(q));
                    let t = choose|t: int| 0 <= t < seeds@.len() && seeds@[t] == q;
                    lemma_seed_reached(walkable, seeds@, t);
                    assert(reach.at(q));
                }
                assert forall|q: Pos| !rect.spec_contains(q) implies tiles.tile_at(q) == old(
                    tiles,
                ).tile_at(q) by {
                    assert(!reach.at(q));
                }
                assert forall|q: Pos|
                    tiles.tile_at(q) != old(tiles).tile_at(q) implies tiles.tile_at(
                    q,
                ) is None by {
                    if !reach.at(q) {
                        assert(tiles.tile_at(q) == old(tiles).tile_at(q));
                    }
                }
            }
            return;
        }
        attempts = attempts + 1;
    }
    clear_region(tiles, rect);
    proof {
        assert forall|q: Pos|
            tiles.tile_at(q) != old(tiles).tile_at(q) implies tiles.tile_at(q) is None by {
            if !rect.spec_contains(q) {
                assert(tiles.tile_at(q) == old(tiles).tile_at(q));
            }
        }
        assert forall|q: Pos|
            q.x == rect.x1 && rect.y1 <= q.y <= rect.y2 implies (#[trigger] tiles.tile_at(
            q,
        )) is None by {
            assert(rect.spec_contains(q));
        }
    }
}

/// Clear the whole region to floor; the row along its top edge then joins
/// the left edge to the right edge.
pub fn clear_region(tiles: &mut TileMap, rect: Rect)
    requires
        rect.wf(),
    ensures
        final(tiles).spec_default() == old(tiles).spec_default(),
        forall|q: Pos| rect.spec_contains(q) ==> final(tiles).tile_at(q) is None,
        forall|q: Pos| !rect.spec_contains(q) ==> final(tiles).tile_at(q) == old(tiles).tile_at(q),
        region_connected(*final(tiles), rect),
{
    tiles.set_rect(rect, None);
    proof {
        lemma_cleared_region_connected(*tiles, rect);
    }
}

/// A region whose cells are all walkable joins its left edge to its right
/// edge along any row.
proof fn lemma_cleared_region_connected(tiles: TileMap, rect: Rect)
    requires
        rect.wf(),
        forall|q: Pos| rect.spec_contains(q) ==> tile_walkable(tiles.tile_at(q)),
    ensures
        region_connected(tiles, rect),
{
    let w = rect.spec_width() as nat;
    let path = Seq::new(w, |i: int| Pos { x: (rect.x1 + i) as i32, y: rect.y1 });
    assert(path[0].x == rect.x1);
    assert(path.len() == rect.spec_width());
    assert(path.last() == path[path.len() - 1]);
    assert(path[path.len() - 1] == (Pos {
        x: (rect.x1 + (rect.spec_width() - 1)) as i32,
        y: rect.y1,
    }));
    assert(rect.x1 + (rect.spec_width() - 1) == rect.x2);
    assert((rect.x1 + (rect.spec_width() - 1)) as i32 == rect.x2);
    assert(path.last().x == rect.x2);
    assert forall|i: int| 0 <= i < path.len() implies rect.spec_contains(#[trigger] path[i])
        && tile_walkable(tiles.tile_at(path[i])) by {
        assert(path[i] == (Pos { x: (rect.x1 + i) as i32, y: rect.y1 }));
        assert((rect.x1 + i) as i32 == rect.x1 + i);
        assert(rect.spec_contains(path[i]));
    }
    assert forall|i: int| 1 <= i < path.len() implies cardinal_adjacent(
        path[i - 1],
        #[trigger] path[i],
    ) by {
        assert(path[i] == (Pos { x: (rect.x1 + i) as i32, y: rect.y1 }));
        assert(path[i - 1] == (Pos { x: (rect.x1 + i - 1) as i32, y: rect.y1 }));
        assert(path[i].x == rect.x1 + i && path[i - 1].x == rect.x1 + i - 1);
    }
    assert(tiles_path(tiles, rect, path));
    assert(region_connected(tiles, rect)) by {
        reveal(region_connected);
    }
}

/// Scatter large boxes over the region's interior, keeping its outer columns
/// open, and accept only a layout whose left edge floods to its right edge;
/// after too many rejected attempts, clear the region instead. Accepted
/// layouts carve open cells to floor and boxed cells to shipping containers.
pub fn carve_boxyard(tiles: &mut TileMap, rect: Rect, rng: &mut rand::rngs::ThreadRng)
    requires
        rect.wf(),
        rect.area() <= 100_000_000,
        rect.x1 + 1 <= rect.x2 - 1,
        -500_000 <= rect.x1,
        rect.x2 <= 500_000,
        -500_000 <= rect.y1,
        rect.y2 <= 500_000,
    ensures
        final(tiles).spec_default() == old(tiles).spec_default(),
        forall|q: Pos| !rect.spec_contains(q) ==> final(tiles).tile_at(q) == old(tiles).tile_at(q),
        region_connected(*final(tiles), rect),
{
    let boxes_zone = Rect { x1: rect.x1 + 1, y1: rect.y1, x2: rect.x2 - 1, y2: rect.y2 };
    let ledge_rect = rect.left_edge();
    let seeds = ledge_rect.cells();
    let redge_rect = rect.right_edge();
    let redge = redge_rect.cells();
    proof {
        assert forall|k: int| 0 <= k < seeds@.len() implies #[trigger] seeds@[k].x == rect.x1
            && rect.spec_contains(seeds@[k]) by {
            assert(ledge_rect.spec_contains(seeds@[k]));
        }
        assert forall|t: int| 0 <= t < redge@.len() implies #[trigger] redge@[t].x == rect.x2
            && rect.spec_contains(redge@[t]) by {
            assert(redge_rect.spec_contains(redge@[t]));
        }
    }
    let mut attempts: usize = 0;
    while attempts < MAX_CARVE_ATTEMPTS
        invariant
            rect.wf(),
            rect.area() <= 100_000_000,
            boxes_zone == (Rect {
                x1: (rect.x1 + 1) as i32,
                y1: rect.y1,
                x2: (rect.x2 - 1) as i32,
                y2: rect.y2,
            }),
            boxes_zone.wf(),
            -500_000 <= rect.x1,
            rect.x2 <= 500_000,
            -500_000 <= rect.y1,
            rect.y2 <= 500_000,
            *tiles == *old(tiles),
            forall|k: int| 0 <= k < seeds@.len() ==> rect.spec_contains(#[trigger] seeds@[k]),
            forall|k: int| 0 <= k < seeds@.len() ==> #[trigger] seeds@[k].x == rect.x1,
            forall|k: int| 0 <= k < redge@.len() ==> #[trigger] redge@[k].x == rect.x2,
        decreases MAX_CARVE_ATTEMPTS - attempts,
    {
        let mut walkable = BitGrid::new(rect);
        let cells = rect.cells();
        let mut i: usize = 0;
        while i < cells.len()
            invariant
                rect.wf(),
                i <= cells@.len(),
                forall|k: int| 0 <= k < cells@.len() ==> rect.spec_contains(#[trigger] cells@[k]),
                forall|q: Pos| rect.spec_contains(q) ==> cells@.contains(q),
                walkable.wf(),
                walkable.rect() == rect,
                forall|k: int| 0 <= k < i ==> walkable.at(#[trigger] cells@[k]),
            decreases cells@.len() - i,
        {
            walkable.set(cells[i], true);
            i = i + 1;
        }
        proof {
            assert forall|q: Pos| rect.spec_contains(q) implies walkable.at(q) by {
                assert(cells@.contains(q));
                let k = choose|k: int| 0 <= k < cells@.len() && cells@[k] == q;
            }
        }
        let mut b: usize = 0;
        while b < 80
            invariant
                rect.wf(),
                boxes_zone == (Rect {
                    x1: (rect.x1 + 1) as i32,
                    y1: rect.y1,
                    x2: (rect.x2 - 1) as i32,
                    y2: rect.y2,
                }),
                boxes_zone.wf(),
                -500_000 <= rect.x1,
                rect.x2 <= 500_000,
                -500_000 <= rect.y1,
                rect.y2 <= 500_000,
                walkable.wf(),
                walkable.rect() == rect,
                forall|q: Pos| q.x == rect.x1 && rect.spec_contains(q) ==> walkable.at(q),
                forall|q: Pos| q.x == rect.x2 && rect.spec_contains(q) ==> walkable.at(q),
            decreases 80 - b,
        {
            let center = rand_cell(rng, boxes_zone);
            let bw = crate::rng::rand_range(rng, 1, 9);
            let bh = crate::rng::rand_range(rng, 1, 9);
            let box_rect = Rect::new_centered(center, bw, bh);
            if let Some(clipped) = box_rect.intersect(&boxes_zone) {
                let bcells = clipped.cells();
                let mut t: usize = 0;
                while t < bcells.len()
                    invariant
                        rect.wf(),
                        t <= bcells@.len(),
                        forall|k: int|
                            0 <= k < bcells@.len() ==> clipped.spec_contains(#[trigger] bcells@[k]),
                        forall|q: Pos| clipped.spec_contains(q) ==> boxes_zone.spec_contains(q),
                        boxes_zone.x1 == rect.x1 + 1,
                        boxes_zone.x2 == rect.x2 - 1,
                        walkable.wf(),
                        walkable.rect() == rect,
                        forall|q: Pos| q.x == rect.x1 && rect.spec_contains(q) ==> walkable.at(q),
                        forall|q: Pos| q.x == rect.x2 && rect.spec_contains(q) ==> walkable.at(q),
                    decreases bcells@.len() - t,
                {
                    let p = bcells[t];
                    if walkable.get(p) {
                        walkable.set(p, false);
                    }
                    t = t + 1;
                }
            }
            b = b + 1;
        }
        let reach = flood(&seeds, &walkable);
        let mut hit: Option<Pos> = None;
        let mut k: usize = 0;
        while k < redge.len()
            invariant
                reach.wf(),
                k <= redge@.len(),
                forall|t: int| 0 <= t < redge@.len() ==> #[trigger] redge@[t].x == rect.x2,
                hit matches Some(p) ==> reach.at(p) && p.x == rect.x2,
            decreases redge@.len() - k,
        {
            if reach.get(redge[k]) {
                hit = Some(redge[k]);
            }
            k = k + 1;
        }
        if let Some(re) = hit {
            // Open cells become floor; boxed cells become shipping containers.
            let cells2 = rect.cells();
            let mut i: usize = 0;
            while i < cells2.len()
                invariant
                    rect.wf(),
                    walkable.wf(),
                    walkable.rect() == rect,
                    i <= cells2@.len(),
                    forall|k2: int|
                        0 <= k2 < cells2@.len() ==> rect.spec_contains(#[trigger] cells2@[k2]),
                    forall|q: Pos| rect.spec_contains(q) ==> cells2@.contains(q),
                    forall|k1: int, k2: int|
                        0 <= k1 < k2 < cells2@.len() ==> cells2@[k1] != cells2@[k2],
                    tiles.spec_default() == old(tiles).spec_default(),
                    forall|k2: int|
                        0 <= k2 < i && walkable.at(#[trigger] cells2@[k2]) ==> tiles.tile_at(
                            cells2@[k2],
                        ) is None,
                    forall|q: Pos|
                        !rect.spec_contains(q) ==> tiles.tile_at(q) == old(tiles).tile_at(q),
                decreases cells2@.len() - i,
            {
                let p = cells2[i];
                if walkable.get(p) {
                    tiles.set(p, None);
                } else {
                    tiles.set(p, Some(TileKind::ShippingContainer));
                }
                i = i + 1;
            }
            proof {
                assert forall|q: Pos| walkable.at(q) implies tiles.tile_at(q) is None by {
                    assert(rect.spec_contains(q));
                    assert(cells2@.contains(q));
                    let k2 = choose|k2: int| 0 <= k2 < cells2@.len() && cells2@[k2] == q;
                }
                reveal(crate::flood::flood_reaches);
                let path = choose|path: Seq<Pos>|
                    is_flood_path(walkable, seeds@, path) && path.last() == re;
                assert forall|i2: int| 0 <= i2 < path.len() implies rect.spec_contains(
                    #[trigger] path[i2],
                ) && tile_walkable(tiles.tile_at(path[i2])) by {
                    if i2 == 0 {
                        assert(seeds@.contains(path[0]));
                        let t = choose|t: int| 0 <= t < seeds@.len() && seeds@[t] == path[0];
                        assert(rect.spec_contains(seeds@[t]) && seeds@[t].x == rect.x1);
                        assert(walkable.at(path[0]));
                    } else {
                        assert(walkable.at(path[i2]));
                    }
                }
                assert(path[0].x == rect.x1) by {
                    assert(seeds@.contains(path[0]));
                    let t = choose|t: int| 0 <= t < seeds@.len() && seeds@[t] == path[0];
                    assert(seeds@[t].x == rect.x1);
                }
                assert(path.last().x == rect.x2);
                assert(tiles_path(*tiles, rect, path));
                assert(region_connected(*tiles, rect)) by {
                    reveal(region_connected);
                }
            }
            return;
        }
        attempts = attempts + 1;
    }
    clear_region(tiles, rect);
}

/// Steps a drunk walk may take before it gives up on reaching its goal.
pub const DRUNK_STEP_CAP: usize = 100_000;

/// Carve a wavy corridor from `start` toward `end`: each step either follows
/// the nearest cardinal direction toward the goal or, with probability
/// `waviness_num / waviness_den`, wanders one random cardinal step; steps
/// leaving the bounding rectangle are skipped. Only cells inside the bound
/// change, and every changed cell holds `tile` afterwards. Returns whether
/// the walk reached `end` within its step cap; a reached end cell distinct
/// from the start holds `tile`.
pub fn carve_line_drunk(
    tiles: &mut TileMap,
    start: Pos,
    end: Pos,
    rng: &mut rand::rngs::ThreadRng,
    waviness_num: u32,
    waviness_den: u32,
    tile: Option<TileKind>,
    bound: Rect,
) -> (reached: bool)
    requires
        start.in_bounds(),
        end.in_bounds(),
        bound.wf(),
        1 <= waviness_den,
        waviness_num <= waviness_den,
    ensures
        final(tiles).spec_default() == old(tiles).spec_default(),
        forall|q: Pos|
            #![trigger final(tiles).tile_at(q)]
            final(tiles).tile_at(q) != old(tiles).tile_at(q) ==> bound.spec_contains(q)
                && final(tiles).tile_at(q) == tile,
        reached && start != end ==> final(tiles).tile_at(end) == tile,
{
    let ghost tstart = *tiles;
    let mut pos = start;
    let mut steps: usize = 0;
    while steps < DRUNK_STEP_CAP
        invariant
            start.in_bounds(),
            end.in_bounds(),
            bound.wf(),
            1 <= waviness_den,
            waviness_num <= waviness_den,
            pos == start || bound.spec_contains(pos),
            pos == start || tiles.tile_at(pos) == tile,
            pos.in_bounds(),
            tiles.spec_default() == tstart.spec_default(),
            forall|q: Pos|
                tiles.tile_at(q) != tstart.tile_at(q) ==> bound.spec_contains(q)
                    && tiles.tile_at(q) == tile,
        decreases DRUNK_STEP_CAP - steps,
    {
        if pos.x == end.x && pos.y == end.y {
            break;
        }
        let next = if rand_ratio(rng, waviness_num, waviness_den) {
            let nbrs = crate::geometry::cardinal_neighbors(pos);
            nbrs[crate::rng::rand_index(rng, 4)]
        } else {
            crate::fov::step_exec(pos, end)
        };
        if bound.contains(next) {
            let ghost t0 = *tiles;
            pos = next;
            tiles.set(pos, tile);
            proof {
                assert forall|q: Pos|
                    tiles.tile_at(q) != tstart.tile_at(q) implies bound.spec_contains(q)
                    && tiles.tile_at(q) == tile by {
                    if q != pos {
                        assert(tiles.tile_at(q) == t0.tile_at(q));
                    }
                }
            }
        }
        steps = steps + 1;
    }
    pos.x == end.x && pos.y == end.y
}

/// Clear wavy corridors through a forest room: each entrance grows one cell
/// inward, and every pair of interior entrances, plus the room's centre, is
/// joined by a drunk walk of carved floor.
pub fn gen_forest_room(
    tiles: &mut TileMap,
    rng: &mut rand::rngs::ThreadRng,
    entrances: &Vec<Pos>,
    rect: Rect,
)
    requires
        rect.wf(),
        forall|k: int| 0 <= k < entrances@.len() ==> (#[trigger] entrances@[k]).in_bounds(),
    ensures
        final(tiles).spec_default() == old(tiles).spec_default(),
        forall|q: Pos|
            final(tiles).tile_at(q) != old(tiles).tile_at(q) ==> rect.spec_contains(q)
                && final(tiles).tile_at(q) is None,
{
    let mut interior: Vec<Pos> = Vec::new();
    let mut k: usize = 0;
    while k < entrances.len()
        invariant
            rect.wf(),
            forall|t: int| 0 <= t < entrances@.len() ==> (#[trigger] entrances@[t]).in_bounds(),
            k <= entrances@.len(),
            forall|t: int| 0 <= t < interior@.len() ==> (#[trigger] interior@[t]).in_bounds(),
        decreases entrances@.len() - k,
    {
        let nbrs = crate::geometry::cardinal_neighbors(entrances[k]);
        let mut n: usize = 0;
        while n < nbrs.len()
            invariant
                rect.wf(),
                n <= nbrs@.len(),
                forall|t: int| 0 <= t < interior@.len() ==> (#[trigger] interior@[t]).in_bounds(),
            decreases nbrs@.len() - n,
        {
            let q = nbrs[n];
            if rect.contains(q) && crate::pathfind::in_bounds_exec(q) {
                interior.push(q);
            }
            n = n + 1;
        }
        k = k + 1;
    }
    let center = rect.center();
    proof {
        assert(center.in_bounds());
    }
    let ghost tmid = *tiles;
    let mut a: usize = 0;
    while a < interior.len()
        invariant
            rect.wf(),
            center.in_bounds(),
            forall|t: int| 0 <= t < interior@.len() ==> (#[trigger] interior@[t]).in_bounds(),
            a <= interior@.len(),
            tiles.spec_default() == tmid.spec_default(),
            forall|q: Pos|
                tiles.tile_at(q) != tmid.tile_at(q) ==> rect.spec_contains(q)
                    && tiles.tile_at(q) is None,
        decreases interior@.len() - a,
    {
        let mut b: usize = 0;
        while b < interior.len()
            invariant
                rect.wf(),
                center.in_bounds(),
                forall|t: int| 0 <= t < interior@.len() ==> (#[trigger] interior@[t]).in_bounds(),
                a < interior@.len(),
                b <= interior@.len(),
                tiles.spec_default() == tmid.spec_default(),
                forall|q: Pos|
                    tiles.tile_at(q) != tmid.tile_at(q) ==> rect.spec_contains(q)
                        && tiles.tile_at(q) is None,
            decreases interior@.len() - b,
        {
            let ghost tprev = *tiles;
            let _ = carve_line_drunk(tiles, interior[a], interior[b], rng, 3, 10, None, rect);
            proof {
                assert forall|q: Pos|
                    tiles.tile_at(q) != tmid.tile_at(q) implies rect.spec_contains(q)
                    && tiles.tile_at(q) is None by {
                    if tiles.tile_at(q) != tprev.tile_at(q) {
                        assert(tiles.tile_at(q) == None::<TileKind>);
                    }
                }
            }
            b = b + 1;
        }
        let ghost tprev2 = *tiles;
        let _ = carve_line_drunk(tiles, interior[a], center, rng, 3, 10, None, rect);
        proof {
            assert forall|q: Pos|
                tiles.tile_at(q) != tmid.tile_at(q) implies rect.spec_contains(q)
                && tiles.tile_at(q) is None by {
                if tiles.tile_at(q) != tprev2.tile_at(q) {
                    assert(tiles.tile_at(q) == None::<TileKind>);
                }
            }
        }
        a = a + 1;
    }
}

/// A uniformly random cell of the region whose tile does not block
/// movement, if the region has any.
pub fn get_random_empty_tile(
    tiles: &TileMap,
    rect: Rect,
    rng: &mut rand::rngs::ThreadRng,
) -> (r: Option<Pos>)
    requires
        rect.wf(),
    ensures
        r matches Some(p) ==> rect.spec_contains(p) && tile_walkable(tiles.tile_at(p)),
        r is None ==> forall|p: Pos|
            rect.spec_contains(p) ==> !tile_walkable(tiles.tile_at(p)),
{
    let cells = rect.cells();
    let mut open: Vec<Pos> = Vec::new();
    let mut i: usize = 0;
    while i < cells.len()
        invariant
            rect.wf(),
            i <= cells@.len(),
            forall|k: int| 0 <= k < cells@.len() ==> rect.spec_contains(#[trigger] cells@[k]),
            forall|q: Pos| rect.spec_contains(q) ==> cells@.contains(q),
            forall|a: int|
                0 <= a < open@.len() ==> rect.spec_contains(#[trigger] open@[a]) && tile_walkable(
                    tiles.tile_at(open@[a]),
                ),
            forall|t: int|
                0 <= t < i && tile_walkable(tiles.tile_at(#[trigger] cells@[t]))
                    ==> open@.contains(cells@[t]),
        decreases cells@.len() - i,
    {
        let p = cells[i];
        let walkable = match tiles.get(p) {
            None => true,
            Some(k) => !k.blocks_movement(),
        };
        if walkable {
            let ghost o0 = open@;
            open.push(p);
            proof {
                assert(open@[open@.len() - 1] == p);
                assert forall|t: int|
                    0 <= t < i + 1 && tile_walkable(
                        tiles.tile_at(#[trigger] cells@[t]),
                    ) implies open@.contains(cells@[t]) by {
                    if t < i && tile_walkable(tiles.tile_at(cells@[t])) {
                        let u = choose|u: int| 0 <= u < o0.len() && o0[u] == cells@[t];
                        assert(open@[u] == cells@[t]);
                    }
                }
            }
        }
        i = i + 1;
    }
    if open.len() == 0 {
        proof {
            assert forall|p: Pos|
                rect.spec_contains(p) implies !tile_walkable(tiles.tile_at(p)) by {
                assert(cells@.contains(p));
                let t = choose|t: int| 0 <= t < cells@.len() && cells@[t] == p;
            }
        }
        None
    } else {
        Some(open[crate::rng::rand_index(rng, open.len())])
    }
}

/// A uniformly random cell of the rectangle.
pub fn rand_cell(rng: &mut rand::rngs::ThreadRng, rect: Rect) -> (r: Pos)
    requires
        rect.wf(),
    ensures
        rect.spec_contains(r),
{
    let x = crate::rng::rand_range(rng, rect.x1, rect.x2 + 1);
    let y = crate::rng::rand_range(rng, rect.y1, rect.y2 + 1);
    Pos { x, y }
}

/// The generator's working state: the tile map under construction and the
/// mob/item placements decided so far, with the set of cells they occupy.
pub struct Mapgen {
    pub rng: rand::rngs::ThreadRng,
    pub tiles: TileMap,
    pub mob_spawns: Vec<(Pos, MobKind)>,
    pub item_spawns: Vec<(Pos, ItemKind)>,
    pub spawn_cells: CellSet,
}

impl Mapgen {
    /// The occupied-cell set mirrors exactly the recorded mob and item
    /// placements.
    pub open spec fn wf(self) -> bool {
        spawn_record_ok(self.spawn_cells.cells(), self.mob_spawns@, self.item_spawns@)
    }

    /// A cell the populator may use: inside the region, holding neither a
    /// movement-blocking nor a sight-blocking tile, and not already holding a
    /// mob or item placement.
    pub open spec fn free_cell(self, rect: Rect, p: Pos) -> bool {
        &&& rect.spec_contains(p)
        &&& tile_walkable(self.tiles.tile_at(p))
        &&& tile_transparent(self.tiles.tile_at(p))
        &&& !self.spawn_cells.cells().contains(p)
    }

    /// How many free cells the region holds.
    pub open spec fn free_count(self, rect: Rect) -> int {
        Set::new(|p: Pos| self.free_cell(rect, p)).len() as int
    }

    pub fn new(default: Option<TileKind>) -> (r: Mapgen)
        ensures
            r.wf(),
            r.tiles.spec_default() == default,
            forall|p: Pos| r.tiles.tile_at(p) == default,
            r.mob_spawns@.len() == 0,
            r.item_spawns@.len() == 0,
            forall|p: Pos| !r.spawn_cells.cells().contains(p),
    {
        let r = Mapgen {
            rng: crate::rng::new_rng(),
            tiles: TileMap::new(default),
            mob_spawns: Vec::new(),
            item_spawns: Vec::new(),
            spawn_cells: CellSet::new(),
        };
        r
    }

    /// Record one placement: a tile goes into the tile map; a mob or item is
    /// appended to its list and its cell marked occupied.
    fn apply_one(&mut self, pos: Pos, sp: Spawn)
        requires
            old(self).wf(),
        ensures
            final(self).wf(),
            final(self).tiles.spec_default() == old(self).tiles.spec_default(),
            forall|q: Pos| q != pos ==> final(self).tiles.tile_at(q) == old(self).tiles.tile_at(q),
            sp matches Spawn::Tile(k) ==> final(self).tiles.tile_at(pos) == Some(k),
            !(sp is Tile) ==> final(self).tiles == old(self).tiles,
            sp matches Spawn::Mob(m) ==> final(self).mob_spawns@ == old(self).mob_spawns@.push(
                (pos, m),
            ),
            !(sp is Mob) ==> final(self).mob_spawns@ == old(self).mob_spawns@,
            sp matches Spawn::Item(it) ==> final(self).item_spawns@ == old(self).item_spawns@.push(
                (pos, it),
            ),
            !(sp is Item) ==> final(self).item_spawns@ == old(self).item_spawns@,
            sp is Tile ==> final(self).spawn_cells.cells() == old(self).spawn_cells.cells(),
            !(sp is Tile) ==> final(self).spawn_cells.cells() == old(
                self,
            ).spawn_cells.cells().insert(pos),
    {
        match sp {
            Spawn::Tile(k) => {
                self.tiles.set(pos, Some(k));
            },
            Spawn::Mob(m) => {
                self.mob_spawns.push((pos, m));
                self.spawn_cells.insert(pos);
                proof {
                    lemma_spawn_record_push(
                        old(self).spawn_cells.cells(),
                        old(self).mob_spawns@,
                        old(self).item_spawns@,
                        self.mob_spawns@,
                        self.item_spawns@,
                        pos,
                    );
                }
            },
            Spawn::Item(it) => {
                self.item_spawns.push((pos, it));
                self.spawn_cells.insert(pos);
                proof {
                    lemma_spawn_record_sym(
                        old(self).spawn_cells.cells(),
                        old(self).mob_spawns@,
                        old(self).item_spawns@,
                    );
                    lemma_spawn_record_push(
                        old(self).spawn_cells.cells(),
                        old(self).item_spawns@,
                        old(self).mob_spawns@,
                        self.item_spawns@,
                        self.mob_spawns@,
                        pos,
                    );
                    lemma_spawn_record_sym(
                        self.spawn_cells.cells(),
                        self.item_spawns@,
                        self.mob_spawns@,
                    );
                }
            },
        }
    }
}

/// The occupied-cell set holds exactly the positions of the two record
/// lists.
pub open spec fn spawn_record_ok<A, B>(
    cells: Set<Pos>,
    one: Seq<(Pos, A)>,
    two: Seq<(Pos, B)>,
) -> bool {
    forall|p: Pos|
        cells.contains(p) <==> ((exists|i: int| 0 <= i < one.len() && (#[trigger] one[i]).0 == p)
            || (exists|i: int| 0 <= i < two.len() && (#[trigger] two[i]).0 == p))
}

/// No two recorded placements share a cell: mob cells are pairwise distinct,
/// item cells are pairwise distinct, and no mob cell is an item cell.
pub open spec fn spawns_distinct(mobs: Seq<(Pos, MobKind)>, items: Seq<(Pos, ItemKind)>) -> bool {
    &&& (forall|i: int, j: int|
        0 <= i < j < mobs.len() ==> (#[trigger] mobs[i]).0 != (#[trigger] mobs[j]).0)
    &&& (forall|i: int, j: int|
        0 <= i < j < items.len() ==> (#[trigger] items[i]).0 != (#[trigger] items[j]).0)
    &&& (forall|i: int, j: int|
        0 <= i < mobs.len() && 0 <= j < items.len() ==> (#[trigger] mobs[i]).0 != (
        #[trigger] items[j]).0)
}

/// Appending a record on a cell the occupied set does not hold keeps the
/// records pairwise distinct.
proof fn lemma_spawns_distinct_push_mob(
    cells: Set<Pos>,
    mobs0: Seq<(Pos, MobKind)>,
    items0: Seq<(Pos, ItemKind)>,
    mobs1: Seq<(Pos, MobKind)>,
    pos: Pos,
    m: MobKind,
)
    requires
        spawn_record_ok(cells, mobs0, items0),
        spawns_distinct(mobs0, items0),
        !cells.contains(pos),
        mobs1 == mobs0.push((pos, m)),
    ensures
        spawns_distinct(mobs1, items0),
{
    assert forall|i: int, j: int|
        0 <= i < j < mobs1.len() implies (#[trigger] mobs1[i]).0 != (#[trigger] mobs1[j]).0 by {
        if j == mobs1.len() - 1 {
            assert(mobs1[i] == mobs0[i]);
            assert(cells.contains(mobs0[i].0)) by {
                assert(0 <= i < mobs0.len() && (mobs0[i]).0 == mobs0[i].0);
            }
        } else {
            assert(mobs1[i] == mobs0[i] && mobs1[j] == mobs0[j]);
        }
    }
    assert forall|i: int, j: int|
        0 <= i < mobs1.len() && 0 <= j < items0.len() implies (#[trigger] mobs1[i]).0 != (
    #[trigger] items0[j]).0 by {
        if i == mobs1.len() - 1 {
            assert(cells.contains(items0[j].0)) by {
                assert(0 <= j < items0.len() && (items0[j]).0 == items0[j].0);
            }
        } else {
            assert(mobs1[i] == mobs0[i]);
        }
    }
}

/// The mirror of the push lemma, for item records.
proof fn lemma_spawns_distinct_push_item(
    cells: Set<Pos>,
    mobs0: Seq<(Pos, MobKind)>,
    items0: Seq<(Pos, ItemKind)>,
    items1: Seq<(Pos, ItemKind)>,
    pos: Pos,
    it: ItemKind,
)
    requires
        spawn_record_ok(cells, mobs0, items0),
        spawns_distinct(mobs0, items0),
        !cells.contains(pos),
        items1 == items0.push((pos, it)),
    ensures
        spawns_distinct(mobs0, items1),
{
    assert forall|i: int, j: int|
        0 <= i < j < items1.len() implies (#[trigger] items1[i]).0 != (#[trigger] items1[j]).0 by {
        if j == items1.len() - 1 {
            assert(items1[i] == items0[i]);
            assert(cells.contains(items0[i].0)) by {
                assert(0 <= i < items0.len() && (items0[i]).0 == items0[i].0);
            }
        } else {
            assert(items1[i] == items0[i] && items1[j] == items0[j]);
        }
    }
    assert forall|i: int, j: int|
        0 <= i < mobs0.len() && 0 <= j < items1.len() implies (#[trigger] mobs0[i]).0 != (
    #[trigger] items1[j]).0 by {
        if j == items1.len() - 1 {
            assert(cells.contains(mobs0[i].0)) by {
                assert(0 <= i < mobs0.len() && (mobs0[i]).0 == mobs0[i].0);
            }
        } else {
            assert(items1[j] == items0[j]);
        }
    }
}

/// The record relation does not depend on the order of the two lists.
proof fn lemma_spawn_record_sym<A, B>(cells: Set<Pos>, one: Seq<(Pos, A)>, two: Seq<(Pos, B)>)
    requires
        spawn_record_ok(cells, one, two),
    ensures
        spawn_record_ok(cells, two, one),
{
}

/// Pushing a record for `pos` onto one list and inserting `pos` into the
/// occupied set keeps the set equal to the positions of both lists.
proof fn lemma_spawn_record_push<A, B>(
    cells0: Set<Pos>,
    grown0: Seq<(Pos, A)>,
    other: Seq<(Pos, B)>,
    grown1: Seq<(Pos, A)>,
    other1: Seq<(Pos, B)>,
    pos: Pos,
)
    requires
        spawn_record_ok(cells0, grown0, other),
        grown1.len() == grown0.len() + 1,
        forall|i: int| 0 <= i < grown0.len() ==> grown1[i] == grown0[i],
        grown1[grown0.len() as int].0 == pos,
        other1 == other,
    ensures
        spawn_record_ok(cells0.insert(pos), grown1, other1),
{
    assert forall|p: Pos|
        cells0.insert(pos).contains(p) <==> ((exists|i: int|
            0 <= i < grown1.len() && (#[trigger] grown1[i]).0 == p) || (exists|i: int|
            0 <= i < other1.len() && (#[trigger] other1[i]).0 == p)) by {
        if p == pos {
            assert(grown1[grown0.len() as int].0 == p);
        } else {
            if cells0.contains(p) {
                if exists|i: int| 0 <= i < grown0.len() && (#[trigger] grown0[i]).0 == p {
                    let i = choose|i: int| 0 <= i < grown0.len() && (#[trigger] grown0[i]).0 == p;
                    assert(grown1[i].0 == p);
                }
            }
            if exists|i: int| 0 <= i < grown1.len() && (#[trigger] grown1[i]).0 == p {
                let i = choose|i: int| 0 <= i < grown1.len() && (#[trigger] grown1[i]).0 == p;
                assert(i < grown0.len());
                assert(grown0[i].0 == p);
            }
        }
    }
}

/// The kind of the `a`-th placement when the request list is laid out flat:
/// `count` copies of each kind, in list order.
pub open spec fn spec_kind_at(s: Seq<(usize, Spawn)>, a: int) -> Spawn
    decreases s.len(),
{
    if s.len() == 0 {
        Spawn::Tile(TileKind::Wall)
    } else if a < s[0].0 {
        s[0].1
    } else {
        spec_kind_at(s.skip(1), a - s[0].0)
    }
}

proof fn lemma_kind_at_in_group(s: Seq<(usize, Spawn)>, g: int, a: int)
    requires
        0 <= g < s.len(),
        total_requested(s.take(g)) <= a < total_requested(s.take(g)) + s[g].0,
    ensures
        spec_kind_at(s, a) == s[g].1,
    decreases g,
{
    if g == 0 {
        assert(s.take(0) =~= Seq::<(usize, Spawn)>::empty());
    } else {
        assert(s.take(g)[0] == s[0]);
        assert(s.take(g).skip(1) =~= s.skip(1).take(g - 1));
        lemma_total_nonneg(s.skip(1).take(g - 1));
        assert(total_requested(s.take(g)) == s[0].0 + total_requested(s.skip(1).take(g - 1)));
        assert(a >= s[0].0);
        lemma_kind_at_in_group(s.skip(1), g - 1, a - s[0].0);
        assert(s.skip(1)[g - 1] == s[g]);
    }
}

/// Total number of placements a request list asks for.
pub open spec fn total_requested(s: Seq<(usize, Spawn)>) -> int
    decreases s.len(),
{
    if s.len() == 0 {
        0
    } else {
        s[0].0 + total_requested(s.skip(1))
    }
}

proof fn lemma_total_nonneg(s: Seq<(usize, Spawn)>)
    ensures
        total_requested(s) >= 0,
    decreases s.len(),
{
    if s.len() > 0 {
        lemma_total_nonneg(s.skip(1));
    }
}

proof fn lemma_total_split(s: Seq<(usize, Spawn)>, g: int)
    requires
        0 <= g <= s.len(),
    ensures
        total_requested(s) == total_requested(s.take(g)) + total_requested(s.skip(g)),
    decreases g,
{
    if g == 0 {
        assert(s.take(0) =~= Seq::<(usize, Spawn)>::empty());
        assert(s.skip(0) =~= s);
    } else {
        lemma_total_split(s.skip(1), g - 1);
        assert(s.take(g).skip(1) =~= s.skip(1).take(g - 1));
        assert(s.skip(g) =~= s.skip(1).skip(g - 1));
        assert(s.take(g)[0] == s[0]);
        assert(s.take(g).len() == g);
        assert(total_requested(s.take(g)) == s[0].0 + total_requested(s.skip(1).take(g - 1)));
    }
}

proof fn lemma_total_take_step(s: Seq<(usize, Spawn)>, g: int)
    requires
        0 <= g < s.len(),
    ensures
        total_requested(s.take(g + 1)) == total_requested(s.take(g)) + s[g].0,
        0 <= total_requested(s.take(g)),
        total_requested(s.take(g + 1)) <= total_requested(s),
    decreases s.len(),
{
    lemma_total_split(s, g);
    lemma_total_split(s, g + 1);
    lemma_total_nonneg(s.take(g));
    lemma_total_nonneg(s.skip(g + 1));
    assert(s.skip(g)[0] == s[g]);
    assert(s.skip(g).skip(1) =~= s.skip(g + 1));
    assert(total_requested(s.skip(g)) == s[g].0 + total_requested(s.skip(g + 1)));
}

impl Mapgen {
    /// Every free cell of the region, without repetition.
    fn collect_free(&self, rect: Rect) -> (free: Vec<Pos>)
        requires
            rect.wf(),
        ensures
            distinct_seq(free@),
            forall|a: int| 0 <= a < free@.len() ==> self.free_cell(rect, #[trigger] free@[a]),
            forall|p: Pos| self.free_cell(rect, p) ==> free@.contains(p),
    {
        let cells = rect.cells();
        let mut free: Vec<Pos> = Vec::new();
        let mut i: usize = 0;
        while i < cells.len()
            invariant
                rect.wf(),
                i <= cells@.len(),
                forall|k: int| 0 <= k < cells@.len() ==> rect.spec_contains(#[trigger] cells@[k]),
                forall|k1: int, k2: int| 0 <= k1 < k2 < cells@.len() ==> cells@[k1] != cells@[k2],
                forall|a: int| 0 <= a < free@.len() ==> self.free_cell(rect, #[trigger] free@[a]),
                forall|a: int|
                    0 <= a < free@.len() ==> (exists|t: int|
                        0 <= t < i && cells@[t] == #[trigger] free@[a]),
                distinct_seq(free@),
                forall|q: Pos| rect.spec_contains(q) ==> cells@.contains(q),
                forall|t: int|
                    0 <= t < i && self.free_cell(rect, #[trigger] cells@[t]) ==> free@.contains(
                        cells@[t],
                    ),
            decreases cells@.len() - i,
        {
            let p = cells[i];
            let t = self.tiles.get(p);
            let passable = match t {
                None => true,
                Some(k) => !k.blocks_movement() && !k.blocks_sight(),
            };
            let is_free = passable && !self.spawn_cells.contains(p);
            if is_free {
                let ghost f0 = free@;
                free.push(p);
                proof {
                    assert(free@[free@.len() - 1] == p);
                    assert forall|t: int|
                        0 <= t < i + 1 && self.free_cell(rect, #[trigger] cells@[t])
                            implies free@.contains(cells@[t]) by {
                        if t < i && self.free_cell(rect, cells@[t]) {
                            let u = choose|u: int| 0 <= u < f0.len() && f0[u] == cells@[t];
                            assert(free@[u] == cells@[t]);
                        }
                    }
                    assert forall|a: int, b: int|
                        0 <= a < b < free@.len() implies free@[a] != free@[b] by {
                        if b == free@.len() - 1 {
                            let t = choose|t: int| 0 <= t < i && cells@[t] == f0[a];
                            assert(cells@[t] != cells@[i as int]);
                        }
                    }
                    assert forall|a: int|
                        0 <= a < free@.len() implies (exists|t: int|
                        0 <= t < i + 1 && cells@[t] == #[trigger] free@[a]) by {
                        if a < f0.len() {
                            let t = choose|t: int| 0 <= t < i && cells@[t] == f0[a];
                            assert(0 <= t < i + 1 && cells@[t] == free@[a]);
                        } else {
                            assert(cells@[i as int] == free@[a]);
                        }
                    }
                }
            }
            proof {
                if !is_free {
                    assert(!self.free_cell(rect, p));
                }
            }
            i = i + 1;
        }
        proof {
            assert forall|p: Pos| self.free_cell(rect, p) implies free@.contains(p) by {
                assert(rect.spec_contains(p));
                assert(cells@.contains(p));
                let t = choose|t: int| 0 <= t < cells@.len() && cells@[t] == p;
            }
        }
        free
    }

    /// Populate a region: gather its free cells, draw a random sample of them
    /// without replacement, and hand the requested placements the sampled
    /// cells in order. No two placements of one call share a cell, and every
    /// assigned cell was free before the call. When the region has fewer free
    /// cells than requested, the surplus requests are dropped.
    pub fn populate(&mut self, rect: Rect, spawns: &Vec<(usize, Spawn)>) -> (placed: Vec<
        (Pos, Spawn),
    >)
        requires
            old(self).wf(),
            rect.wf(),
        ensures
            final(self).wf(),
            forall|a: int, b: int| 0 <= a < b < placed@.len() ==> placed@[a].0 != placed@[b].0,
            forall|a: int|
                0 <= a < placed@.len() ==> old(self).free_cell(rect, (#[trigger] placed@[a]).0),
            placed@.len() <= total_requested(spawns@),
            total_requested(spawns@) <= 1_000_000_000 && total_requested(spawns@) <= old(
                self,
            ).free_count(rect) ==> placed@.len() == total_requested(spawns@),
            total_requested(spawns@) <= 1_000_000_000 && total_requested(spawns@) > old(
                self,
            ).free_count(rect) ==> placed@.len() == old(self).free_count(rect),
            forall|a: int|
                0 <= a < placed@.len() ==> (#[trigger] placed@[a]).1 == spec_kind_at(spawns@, a),
            final(self).tiles.spec_default() == old(self).tiles.spec_default(),
            forall|q: Pos|
                !(exists|a: int|
                    0 <= a < placed@.len() && (#[trigger] placed@[a]).0 == q && placed@[a].1
                        is Tile) ==> final(self).tiles.tile_at(q) == old(self).tiles.tile_at(q),
            forall|a: int|
                0 <= a < placed@.len() ==> ((#[trigger] placed@[a]).1 matches Spawn::Tile(k)
                    ==> final(self).tiles.tile_at(placed@[a].0) == Some(k)),
            spawns_distinct(old(self).mob_spawns@, old(self).item_spawns@) ==> spawns_distinct(
                final(self).mob_spawns@,
                final(self).item_spawns@,
            ),
            forall|a: int|
                0 <= a < placed@.len() ==> ((#[trigger] placed@[a]).1 matches Spawn::Mob(m)
                    ==> final(self).mob_spawns@.contains((placed@[a].0, m))),
            forall|a: int|
                0 <= a < placed@.len() ==> ((#[trigger] placed@[a]).1 matches Spawn::Item(it)
                    ==> final(self).item_spawns@.contains((placed@[a].0, it))),
            final(self).mob_spawns@.len() >= old(self).mob_spawns@.len(),
            forall|i: int|
                0 <= i < old(self).mob_spawns@.len() ==> final(self).mob_spawns@[i] == old(
                    self,
                ).mob_spawns@[i],
            forall|i: int|
                old(self).mob_spawns@.len() <= i < final(self).mob_spawns@.len() ==> (exists|a: int|
                    0 <= a < placed@.len() && placed@[a] == (
                        (#[trigger] final(self).mob_spawns@[i]).0,
                        Spawn::Mob(final(self).mob_spawns@[i].1),
                    )),
            final(self).item_spawns@.len() >= old(self).item_spawns@.len(),
            forall|i: int|
                0 <= i < old(self).item_spawns@.len() ==> final(self).item_spawns@[i] == old(
                    self,
                ).item_spawns@[i],
            forall|i: int|
                old(self).item_spawns@.len() <= i < final(self).item_spawns@.len() ==> (exists|
                    a: int,
                |
                    0 <= a < placed@.len() && placed@[a] == (
                        (#[trigger] final(self).item_spawns@[i]).0,
                        Spawn::Item(final(self).item_spawns@[i].1),
                    )),
    {
        let free = self.collect_free(rect);
        let mut total: usize = 0;
        let mut g: usize = 0;
        proof {
            assert(spawns@.take(0) =~= Seq::<(usize, Spawn)>::empty());
            lemma_total_nonneg(spawns@);
        }
        while g < spawns.len()
            invariant
                g <= spawns@.len(),
                total <= total_requested(spawns@.take(g as int)),
                total <= 1_000_000_000,
                total <= total_requested(spawns@),
                total_requested(spawns@) <= 1_000_000_000 ==> total == total_requested(
                    spawns@.take(g as int),
                ),
            decreases spawns@.len() - g,
        {
            proof {
                lemma_total_take_step(spawns@, g as int);
                lemma_total_split(spawns@, g + 1);
                lemma_total_nonneg(spawns@.skip(g + 1));
            }
            let cnt = spawns[g].0;
            if cnt > 1_000_000_000 - total {
                total = 1_000_000_000;
            } else {
                total = total + cnt;
            }
            g = g + 1;
        }
        proof {
            assert(spawns@.take(spawns@.len() as int) =~= spawns@);
        }
        let ghost self0 = *self;
        let chosen = choose_multiple(&mut self.rng, &free, total);
        proof {
            lemma_sample_distinct(free@, chosen@);
        }
        let mut placed: Vec<(Pos, Spawn)> = Vec::new();
        let mut next: usize = 0;
        let mut g: usize = 0;
        let ghost mut attempted: int = 0;
        proof {
            assert(spawns@.take(0) =~= Seq::<(usize, Spawn)>::empty());
        }
        while g < spawns.len()
            invariant
                self.wf(),
                rect.wf(),
                next == placed@.len(),
                next <= chosen@.len(),
                attempted == total_requested(spawns@.take(g as int)),
                attempted <= chosen@.len() ==> placed@.len() == attempted,
                attempted > chosen@.len() ==> placed@.len() == chosen@.len(),
                chosen@.len() <= total,
                total <= total_requested(spawns@),
                distinct_seq(chosen@),
                forall|a: int| 0 <= a < chosen@.len() ==> free@.contains(#[trigger] chosen@[a]),
                forall|a: int|
                    0 <= a < free@.len() ==> self0.free_cell(rect, #[trigger] free@[a]),
                self0 == *old(self),
                g <= spawns@.len(),
                forall|a: int| 0 <= a < placed@.len() ==> (#[trigger] placed@[a]).0 == chosen@[a],
                forall|a: int|
                    0 <= a < placed@.len() ==> (#[trigger] placed@[a]).1 == spec_kind_at(
                        spawns@,
                        a,
                    ),
                self.mob_spawns@.len() >= self0.mob_spawns@.len(),
                forall|i: int|
                    0 <= i < self0.mob_spawns@.len() ==> self.mob_spawns@[i]
                        == self0.mob_spawns@[i],
                forall|i: int|
                    self0.mob_spawns@.len() <= i < self.mob_spawns@.len() ==> (exists|a: int|
                        0 <= a < placed@.len() && placed@[a] == (
                            (#[trigger] self.mob_spawns@[i]).0,
                            Spawn::Mob(self.mob_spawns@[i].1),
                        )),
                self.item_spawns@.len() >= self0.item_spawns@.len(),
                forall|i: int|
                    0 <= i < self0.item_spawns@.len() ==> self.item_spawns@[i]
                        == self0.item_spawns@[i],
                forall|i: int|
                    self0.item_spawns@.len() <= i < self.item_spawns@.len() ==> (exists|a: int|
                        0 <= a < placed@.len() && placed@[a] == (
                            (#[trigger] self.item_spawns@[i]).0,
                            Spawn::Item(self.item_spawns@[i].1),
                        )),
                self.tiles.spec_default() == self0.tiles.spec_default(),
                forall|q: Pos|
                    !(exists|a: int|
                        0 <= a < placed@.len() && (#[trigger] placed@[a]).0 == q && placed@[a].1
                            is Tile) ==> self.tiles.tile_at(q) == self0.tiles.tile_at(q),
                spawns_distinct(self0.mob_spawns@, self0.item_spawns@) ==> spawns_distinct(
                    self.mob_spawns@,
                    self.item_spawns@,
                ),
                forall|p: Pos|
                    self.spawn_cells.cells().contains(p) ==> self0.spawn_cells.cells().contains(p)
                        || (exists|a: int|
                        0 <= a < placed@.len() && (#[trigger] placed@[a]).0 == p),
                forall|a: int|
                    0 <= a < placed@.len() ==> ((#[trigger] placed@[a]).1 matches Spawn::Tile(k)
                        ==> self.tiles.tile_at(placed@[a].0) == Some(k)),
                forall|a: int|
                    0 <= a < placed@.len() ==> ((#[trigger] placed@[a]).1 matches Spawn::Mob(m)
                        ==> self.mob_spawns@.contains((placed@[a].0, m))),
                forall|a: int|
                    0 <= a < placed@.len() ==> ((#[trigger] placed@[a]).1 matches Spawn::Item(
                        it,
                    ) ==> self.item_spawns@.contains((placed@[a].0, it))),
            decreases spawns@.len() - g,
        {
            proof {
                lemma_total_take_step(spawns@, g as int);
            }
            let count = spawns[g].0;
            let sp = spawns[g].1;
            let mut c: usize = 0;
            while c < count
                invariant
                    self.wf(),
                    rect.wf(),
                    next == placed@.len(),
                    next <= chosen@.len(),
                    count == spawns@[g as int].0,
                    attempted == total_requested(spawns@.take(g as int)) + c,
                    attempted <= chosen@.len() ==> placed@.len() == attempted,
                    attempted > chosen@.len() ==> placed@.len() == chosen@.len(),
                    chosen@.len() <= total,
                    total <= total_requested(spawns@),
                    distinct_seq(chosen@),
                    forall|a: int| 0 <= a < chosen@.len() ==> free@.contains(#[trigger] chosen@[a]),
                    forall|a: int|
                        0 <= a < free@.len() ==> self0.free_cell(rect, #[trigger] free@[a]),
                    self0 == *old(self),
                    g < spawns@.len(),
                    sp == spawns@[g as int].1,
                    c <= count,
                    forall|a: int|
                        0 <= a < placed@.len() ==> (#[trigger] placed@[a]).0 == chosen@[a],
                    forall|a: int|
                        0 <= a < placed@.len() ==> (#[trigger] placed@[a]).1 == spec_kind_at(
                            spawns@,
                            a,
                        ),
                    self.mob_spawns@.len() >= self0.mob_spawns@.len(),
                    forall|i: int|
                        0 <= i < self0.mob_spawns@.len() ==> self.mob_spawns@[i]
                            == self0.mob_spawns@[i],
                    forall|i: int|
                        self0.mob_spawns@.len() <= i < self.mob_spawns@.len() ==> (exists|a: int|
                            0 <= a < placed@.len() && placed@[a] == (
                                (#[trigger] self.mob_spawns@[i]).0,
                                Spawn::Mob(self.mob_spawns@[i].1),
                            )),
                    self.item_spawns@.len() >= self0.item_spawns@.len(),
                    forall|i: int|
                        0 <= i < self0.item_spawns@.len() ==> self.item_spawns@[i]
                            == self0.item_spawns@[i],
                    forall|i: int|
                        self0.item_spawns@.len() <= i < self.item_spawns@.len() ==> (exists|a: int|
                            0 <= a < placed@.len() && placed@[a] == (
                                (#[trigger] self.item_spawns@[i]).0,
                                Spawn::Item(self.item_spawns@[i].1),
                            )),
                    self.tiles.spec_default() == self0.tiles.spec_default(),
                    forall|q: Pos|
                        !(exists|a: int|
                            0 <= a < placed@.len() && (#[trigger] placed@[a]).0 == q
                                && placed@[a].1 is Tile) ==> self.tiles.tile_at(q)
                            == self0.tiles.tile_at(q),
                    spawns_distinct(self0.mob_spawns@, self0.item_spawns@) ==> spawns_distinct(
                        self.mob_spawns@,
                        self.item_spawns@,
                    ),
                    forall|p: Pos|
                        self.spawn_cells.cells().contains(p) ==> self0.spawn_cells.cells().contains(
                            p,
                        ) || (exists|a: int|
                            0 <= a < placed@.len() && (#[trigger] placed@[a]).0 == p),
                    forall|a: int|
                        0 <= a < placed@.len() ==> ((#[trigger] placed@[a]).1 matches Spawn::Tile(
                            k,
                        ) ==> self.tiles.tile_at(placed@[a].0) == Some(k)),
                    forall|a: int|
                        0 <= a < placed@.len() ==> ((#[trigger] placed@[a]).1 matches Spawn::Mob(m)
                            ==> self.mob_spawns@.contains((placed@[a].0, m))),
                    forall|a: int|
                        0 <= a < placed@.len() ==> ((#[trigger] placed@[a]).1
                            matches Spawn::Item(it) ==> self.item_spawns@.contains(
                            (placed@[a].0, it),
                        )),
                decreases count - c,
            {
                if next < chosen.len() {
                    let pos = chosen[next];
                    let ghost placed0 = placed@;
                    let ghost mobs0 = self.mob_spawns@;
                    let ghost items0 = self.item_spawns@;
                    let ghost cells_pre = self.spawn_cells.cells();
                    proof {
                        // The sampled cell carries no record yet: it was free
                        // at the start and differs from every cell this call
                        // has already used.
                        assert(!cells_pre.contains(pos)) by {
                            if cells_pre.contains(pos) {
                                if !self0.spawn_cells.cells().contains(pos) {
                                    let a = choose|a: int|
                                        0 <= a < placed0.len() && (#[trigger] placed0[a]).0 == pos;
                                    assert(placed0[a].0 == chosen@[a]);
                                } else {
                                    assert(free@.contains(chosen@[next as int]));
                                    let t = choose|t: int|
                                        0 <= t < free@.len() && free@[t] == chosen@[next as int];
                                    assert(self0.free_cell(rect, free@[t]));
                                }
                            }
                        }
                    }
                    self.apply_one(pos, sp);
                    placed.push((pos, sp));
                    next = next + 1;
                    proof {
                        if spawns_distinct(self0.mob_spawns@, self0.item_spawns@) {
                            match sp {
                                Spawn::Tile(_) => {},
                                Spawn::Mob(m) => {
                                    lemma_spawns_distinct_push_mob(
                                        cells_pre,
                                        mobs0,
                                        items0,
                                        self.mob_spawns@,
                                        pos,
                                        m,
                                    );
                                },
                                Spawn::Item(it) => {
                                    lemma_spawns_distinct_push_item(
                                        cells_pre,
                                        mobs0,
                                        items0,
                                        self.item_spawns@,
                                        pos,
                                        it,
                                    );
                                },
                            }
                        }
                        assert forall|p: Pos|
                            self.spawn_cells.cells().contains(p) implies self0.spawn_cells.cells()
                            .contains(p) || (exists|a: int|
                            0 <= a < placed@.len() && (#[trigger] placed@[a]).0 == p) by {
                            if p == pos {
                                assert(placed@[placed@.len() - 1].0 == p);
                            } else if cells_pre.contains(p)
                                && !self0.spawn_cells.cells().contains(p) {
                                let a = choose|a: int|
                                    0 <= a < placed0.len() && (#[trigger] placed0[a]).0 == p;
                                assert(placed@[a].0 == p);
                            }
                        }
                        lemma_populate_step(
                            placed0,
                            placed@,
                            chosen@,
                            mobs0,
                            self.mob_spawns@,
                            items0,
                            self.item_spawns@,
                            pos,
                            sp,
                        );
                        assert(placed@[placed@.len() - 1] == (pos, sp));
                        assert forall|q: Pos|
                            !(exists|a: int|
                                0 <= a < placed@.len() && (#[trigger] placed@[a]).0 == q
                                    && placed@[a].1 is Tile) implies self.tiles.tile_at(q)
                            == self0.tiles.tile_at(q) by {
                            assert(!(sp is Tile && q == pos));
                            assert(!(exists|a: int|
                                0 <= a < placed0.len() && (#[trigger] placed0[a]).0 == q
                                    && placed0[a].1 is Tile)) by {
                                if exists|a: int|
                                    0 <= a < placed0.len() && (#[trigger] placed0[a]).0 == q
                                        && placed0[a].1 is Tile {
                                    let a = choose|a: int|
                                        0 <= a < placed0.len() && (#[trigger] placed0[a]).0 == q
                                            && placed0[a].1 is Tile;
                                    assert(placed@[a].0 == q && placed@[a].1 is Tile);
                                }
                            }
                            if sp is Tile {
                                assert(q != pos);
                            }
                        }
                        assert forall|a: int|
                            0 <= a < placed@.len() implies ((#[trigger] placed@[a]).1
                            matches Spawn::Tile(k) ==> self.tiles.tile_at(placed@[a].0) == Some(
                            k,
                        )) by {
                            if a < placed0.len() {
                                assert(placed@[a] == placed0[a]);
                                assert(placed@[a].0 == chosen@[a]);
                                assert(placed@[a].0 != pos);
                            }
                        }
                        assert(placed0.len() == attempted);
                        lemma_kind_at_in_group(spawns@, g as int, attempted);
                        assert forall|a: int|
                            0 <= a < placed@.len() implies (#[trigger] placed@[a]).1
                            == spec_kind_at(spawns@, a) by {
                            if a < placed0.len() {
                                assert(placed@[a] == placed0[a]);
                            } else {
                                assert(placed@[a] == (pos, sp));
                            }
                        }
                        assert(placed@[placed@.len() - 1] == (pos, sp));
                        assert forall|i: int|
                            self0.mob_spawns@.len() <= i < self.mob_spawns@.len() implies (exists|
                            a: int,
                        |
                            0 <= a < placed@.len() && placed@[a] == (
                                (#[trigger] self.mob_spawns@[i]).0,
                                Spawn::Mob(self.mob_spawns@[i].1),
                            )) by {
                            if i < mobs0.len() {
                                assert(self.mob_spawns@[i] == mobs0[i]);
                                let a = choose|a: int|
                                    0 <= a < placed0.len() && placed0[a] == (
                                        mobs0[i].0,
                                        Spawn::Mob(mobs0[i].1),
                                    );
                                assert(placed@[a] == placed0[a]);
                            } else {
                                assert(sp matches Spawn::Mob(m) && self.mob_spawns@[i] == (
                                pos,
                                m,
                                ));
                                assert(placed@[placed@.len() - 1] == (
                                    self.mob_spawns@[i].0,
                                    Spawn::Mob(self.mob_spawns@[i].1),
                                ));
                            }
                        }
                        assert forall|i: int|
                            self0.item_spawns@.len() <= i < self.item_spawns@.len() implies (exists|
                            a: int,
                        |
                            0 <= a < placed@.len() && placed@[a] == (
                                (#[trigger] self.item_spawns@[i]).0,
                                Spawn::Item(self.item_spawns@[i].1),
                            )) by {
                            if i < items0.len() {
                                assert(self.item_spawns@[i] == items0[i]);
                                let a = choose|a: int|
                                    0 <= a < placed0.len() && placed0[a] == (
                                        items0[i].0,
                                        Spawn::Item(items0[i].1),
                                    );
                                assert(placed@[a] == placed0[a]);
                            } else {
                                assert(sp matches Spawn::Item(it) && self.item_spawns@[i] == (
                                pos,
                                it,
                                ));
                                assert(placed@[placed@.len() - 1] == (
                                    self.item_spawns@[i].0,
                                    Spawn::Item(self.item_spawns@[i].1),
                                ));
                            }
                        }
                    }
                }
                proof {
                    attempted = attempted + 1;
                }
                c = c + 1;
            }
            g = g + 1;
        }
        proof {
            assert(spawns@.take(spawns@.len() as int) =~= spawns@);
            lemma_total_nonneg(spawns@);
            if total_requested(spawns@) <= 1_000_000_000 {
                // The free list enumerates the free set exactly once, so its
                // length is the free-cell count.
                let fs = Set::new(|p: Pos| self0.free_cell(rect, p));
                assert(free@.to_set() =~= fs) by {
                    assert forall|p: Pos| free@.to_set().contains(p) <==> fs.contains(p) by {
                        if free@.contains(p) {
                            let a = choose|a: int| 0 <= a < free@.len() && free@[a] == p;
                            assert(self0.free_cell(rect, free@[a]));
                        }
                    }
                }
                assert(free@.no_duplicates()) by {
                    assert forall|a: int, b: int|
                        0 <= a < free@.len() && 0 <= b < free@.len() && a != b implies free@[a]
                        != free@[b] by {
                        if a < b {
                            assert(free@[a] != free@[b]);
                        } else {
                            assert(free@[b] != free@[a]);
                        }
                    }
                }
                free@.unique_seq_to_set();
                assert(free@.len() == self0.free_count(rect));
            }
            assert forall|a: int, b: int|
                0 <= a < b < placed@.len() implies placed@[a].0 != placed@[b].0 by {
                assert(placed@[a].0 == chosen@[a] && placed@[b].0 == chosen@[b]);
            }
            assert forall|a: int| 0 <= a < placed@.len() implies old(self).free_cell(
                rect,
                (#[trigger] placed@[a]).0,
            ) by {
                assert(free@.contains(chosen@[a]));
                let t = choose|t: int| 0 <= t < free@.len() && free@[t] == chosen@[a];
                assert(self0.free_cell(rect, free@[t]));
            }
        }
        placed
    }
}

/// One placement step keeps the per-entry bookkeeping: the new entry sits at
/// the sampled cell, and mob/item effects survive later pushes.
proof fn lemma_populate_step(
    placed0: Seq<(Pos, Spawn)>,
    placed1: Seq<(Pos, Spawn)>,
    chosen: Seq<Pos>,
    mobs0: Seq<(Pos, MobKind)>,
    mobs1: Seq<(Pos, MobKind)>,
    items0: Seq<(Pos, ItemKind)>,
    items1: Seq<(Pos, ItemKind)>,
    pos: Pos,
    sp: Spawn,
)
    requires
        placed1 == placed0.push((pos, sp)),
        placed0.len() < chosen.len(),
        chosen[placed0.len() as int] == pos,
        forall|a: int| 0 <= a < placed0.len() ==> (#[trigger] placed0[a]).0 == chosen[a],
        mobs1.len() >= mobs0.len(),
        forall|i: int| 0 <= i < mobs0.len() ==> mobs1[i] == mobs0[i],
        items1.len() >= items0.len(),
        forall|i: int| 0 <= i < items0.len() ==> items1[i] == items0[i],
        sp matches Spawn::Mob(m) ==> mobs1.len() == mobs0.len() + 1 && mobs1.last() == (pos, m),
        sp matches Spawn::Item(it) ==> items1.len() == items0.len() + 1 && items1.last() == (
            pos,
            it,
        ),
        forall|a: int|
            0 <= a < placed0.len() ==> ((#[trigger] placed0[a]).1 matches Spawn::Mob(m)
                ==> mobs0.contains((placed0[a].0, m))),
        forall|a: int|
            0 <= a < placed0.len() ==> ((#[trigger] placed0[a]).1 matches Spawn::Item(it)
                ==> items0.contains((placed0[a].0, it))),
    ensures
        forall|a: int| 0 <= a < placed1.len() ==> (#[trigger] placed1[a]).0 == chosen[a],
        forall|a: int|
            0 <= a < placed1.len() ==> ((#[trigger] placed1[a]).1 matches Spawn::Mob(m)
                ==> mobs1.contains((placed1[a].0, m))),
        forall|a: int|
            0 <= a < placed1.len() ==> ((#[trigger] placed1[a]).1 matches Spawn::Item(it)
                ==> items1.contains((placed1[a].0, it))),
{
    assert forall|a: int| 0 <= a < placed1.len() implies (#[trigger] placed1[a]).0 == chosen[a] by {
        if a < placed0.len() {
            assert(placed1[a] == placed0[a]);
        } else {
            assert(placed1[a] == (pos, sp));
        }
    }
    assert forall|a: int|
        0 <= a < placed1.len() && (#[trigger] placed1[a]).1 is Mob implies (placed1[a].1
        matches Spawn::Mob(m) ==> mobs1.contains((placed1[a].0, m))) by {
        if a < placed0.len() {
            assert(placed1[a] == placed0[a]);
            if placed0[a].1 is Mob {
                let m = placed0[a].1->Mob_0;
                assert(mobs0.contains((placed0[a].0, m)));
                let i = choose|i: int| 0 <= i < mobs0.len() && mobs0[i] == (placed0[a].0, m);
                assert(mobs1[i] == (placed1[a].0, m));
            }
        } else {
            assert(placed1[a] == (pos, sp));
            if sp is Mob {
                assert(mobs1[mobs1.len() - 1] == (pos, sp->Mob_0));
            }
        }
    }
    assert forall|a: int|
        0 <= a < placed1.len() && (#[trigger] placed1[a]).1 is Item implies (placed1[a].1
        matches Spawn::Item(it) ==> items1.contains((placed1[a].0, it))) by {
        if a < placed0.len() {
            assert(placed1[a] == placed0[a]);
            if placed0[a].1 is Item {
                let it = placed0[a].1->Item_0;
                assert(items0.contains((placed0[a].0, it)));
                let i = choose|i: int| 0 <= i < items0.len() && items0[i] == (placed0[a].0, it);
                assert(items1[i] == (placed1[a].0, it));
            }
        } else {
            assert(placed1[a] == (pos, sp));
            if sp is Item {
                assert(items1[items1.len() - 1] == (pos, sp->Item_0));
            }
        }
    }
}


/// What a finished generation hands to the spawner: one placement list, the
/// finished tile map, and the named zone rectangles, left to right.
pub struct MapgenResult {
    pub placements: Vec<(Pos, Spawn)>,
    pub tiles: TileMap,
    pub zones: Vec<Rect>,
}

/// A zone together with its one-cell tree border above and below.
pub open spec fn in_zone_band(zone: Rect, q: Pos) -> bool {
    zone.x1 <= q.x <= zone.x2 && zone.y1 - 1 <= q.y <= zone.y2 + 1
}

/// How one generation pass may grow the record lists: append-only, with
/// every new record inside the pass's region, and pairwise-distinct records
/// preserved.
pub open spec fn pass_records_ok(pre: Mapgen, post: Mapgen, rect: Rect) -> bool {
    &&& post.mob_spawns@.len() >= pre.mob_spawns@.len()
    &&& (forall|i: int|
        0 <= i < pre.mob_spawns@.len() ==> post.mob_spawns@[i] == pre.mob_spawns@[i])
    &&& (forall|i: int|
        pre.mob_spawns@.len() <= i < post.mob_spawns@.len() ==> rect.spec_contains(
            (#[trigger] post.mob_spawns@[i]).0,
        ))
    &&& post.item_spawns@.len() >= pre.item_spawns@.len()
    &&& (forall|i: int|
        0 <= i < pre.item_spawns@.len() ==> post.item_spawns@[i] == pre.item_spawns@[i])
    &&& (forall|i: int|
        pre.item_spawns@.len() <= i < post.item_spawns@.len() ==> rect.spec_contains(
            (#[trigger] post.item_spawns@[i]).0,
        ))
    &&& (spawns_distinct(pre.mob_spawns@, pre.item_spawns@) ==> spawns_distinct(
        post.mob_spawns@,
        post.item_spawns@,
    ))
}

/// One populate call over a region is a record-respecting pass: new records
/// sit on cells that were free in the region, and walkable cells of the
/// region stay walkable when the requested tiles are all walkable kinds.
proof fn lemma_pass_populate(
    pre: Mapgen,
    post: Mapgen,
    rect: Rect,
    spawns: Seq<(usize, Spawn)>,
    placed: Seq<(Pos, Spawn)>,
)
    requires
        forall|a: int| 0 <= a < placed.len() ==> pre.free_cell(rect, (#[trigger] placed[a]).0),
        placed.len() <= total_requested(spawns),
        forall|a: int| 0 <= a < placed.len() ==> (#[trigger] placed[a]).1 == spec_kind_at(
            spawns,
            a,
        ),
        forall|q: Pos|
            !(exists|a: int|
                0 <= a < placed.len() && (#[trigger] placed[a]).0 == q && placed[a].1 is Tile)
                ==> post.tiles.tile_at(q) == pre.tiles.tile_at(q),
        forall|a: int|
            0 <= a < placed.len() ==> ((#[trigger] placed[a]).1 matches Spawn::Tile(k)
                ==> post.tiles.tile_at(placed[a].0) == Some(k)),
        post.mob_spawns@.len() >= pre.mob_spawns@.len(),
        forall|i: int|
            0 <= i < pre.mob_spawns@.len() ==> post.mob_spawns@[i] == pre.mob_spawns@[i],
        forall|i: int|
            pre.mob_spawns@.len() <= i < post.mob_spawns@.len() ==> (exists|a: int|
                0 <= a < placed.len() && placed[a] == (
                    (#[trigger] post.mob_spawns@[i]).0,
                    Spawn::Mob(post.mob_spawns@[i].1),
                )),
        post.item_spawns@.len() >= pre.item_spawns@.len(),
        forall|i: int|
            0 <= i < pre.item_spawns@.len() ==> post.item_spawns@[i] == pre.item_spawns@[i],
        forall|i: int|
            pre.item_spawns@.len() <= i < post.item_spawns@.len() ==> (exists|a: int|
                0 <= a < placed.len() && placed[a] == (
                    (#[trigger] post.item_spawns@[i]).0,
                    Spawn::Item(post.item_spawns@[i].1),
                )),
        spawns_distinct(pre.mob_spawns@, pre.item_spawns@) ==> spawns_distinct(
            post.mob_spawns@,
            post.item_spawns@,
        ),
        forall|g: int|
            0 <= g < spawns.len() ==> ((#[trigger] spawns[g]).1 matches Spawn::Tile(k)
                ==> !crate::tiles::spec_blocks_movement(k)),
        region_connected(pre.tiles, rect),
    ensures
        pass_records_ok(pre, post, rect),
        region_connected(post.tiles, rect),
        forall|q: Pos|
            post.tiles.tile_at(q) != pre.tiles.tile_at(q) ==> rect.spec_contains(q),
{
    assert forall|i: int|
        pre.mob_spawns@.len() <= i < post.mob_spawns@.len() implies rect.spec_contains(
        (#[trigger] post.mob_spawns@[i]).0,
    ) by {
        let a = choose|a: int|
            0 <= a < placed.len() && placed[a] == (
                post.mob_spawns@[i].0,
                Spawn::Mob(post.mob_spawns@[i].1),
            );
        assert(pre.free_cell(rect, placed[a].0));
    }
    assert forall|i: int|
        pre.item_spawns@.len() <= i < post.item_spawns@.len() implies rect.spec_contains(
        (#[trigger] post.item_spawns@[i]).0,
    ) by {
        let a = choose|a: int|
            0 <= a < placed.len() && placed[a] == (
                post.item_spawns@[i].0,
                Spawn::Item(post.item_spawns@[i].1),
            );
        assert(pre.free_cell(rect, placed[a].0));
    }
    assert forall|q: Pos|
        post.tiles.tile_at(q) != pre.tiles.tile_at(q) implies rect.spec_contains(q) by {
        let a = choose|a: int|
            0 <= a < placed.len() && (#[trigger] placed[a]).0 == q && placed[a].1 is Tile;
        assert(pre.free_cell(rect, placed[a].0));
    }
    assert forall|q: Pos|
        rect.spec_contains(q) && tile_walkable(pre.tiles.tile_at(q)) implies tile_walkable(
        #[trigger] post.tiles.tile_at(q),
    ) by {
        if post.tiles.tile_at(q) != pre.tiles.tile_at(q) {
            let a = choose|a: int|
                0 <= a < placed.len() && (#[trigger] placed[a]).0 == q && placed[a].1 is Tile;
            lemma_total_nonneg(spawns);
            lemma_kind_at_member(spawns, a);
            let g = choose|g: int|
                0 <= g < spawns.len() && spec_kind_at(spawns, a) == (#[trigger] spawns[g]).1;
            assert(placed[a].1 == spawns[g].1);
            assert(placed[a].1 matches Spawn::Tile(k) ==> post.tiles.tile_at(q) == Some(k)
                && !crate::tiles::spec_blocks_movement(k));
        }
    }
    lemma_region_connected_monotone(pre.tiles, post.tiles, rect);
}

/// The record part of one populate call: append-only lists whose new
/// entries sit on cells that were free in the region, with distinctness
/// preserved and tiles changed only inside the region.
proof fn lemma_populate_records(
    pre: Mapgen,
    post: Mapgen,
    rect: Rect,
    spawns: Seq<(usize, Spawn)>,
    placed: Seq<(Pos, Spawn)>,
)
    requires
        forall|a: int| 0 <= a < placed.len() ==> pre.free_cell(rect, (#[trigger] placed[a]).0),
        forall|q: Pos|
            !(exists|a: int|
                0 <= a < placed.len() && (#[trigger] placed[a]).0 == q && placed[a].1 is Tile)
                ==> post.tiles.tile_at(q) == pre.tiles.tile_at(q),
        post.mob_spawns@.len() >= pre.mob_spawns@.len(),
        forall|i: int|
            0 <= i < pre.mob_spawns@.len() ==> post.mob_spawns@[i] == pre.mob_spawns@[i],
        forall|i: int|
            pre.mob_spawns@.len() <= i < post.mob_spawns@.len() ==> (exists|a: int|
                0 <= a < placed.len() && placed[a] == (
                    (#[trigger] post.mob_spawns@[i]).0,
                    Spawn::Mob(post.mob_spawns@[i].1),
                )),
        post.item_spawns@.len() >= pre.item_spawns@.len(),
        forall|i: int|
            0 <= i < pre.item_spawns@.len() ==> post.item_spawns@[i] == pre.item_spawns@[i],
        forall|i: int|
            pre.item_spawns@.len() <= i < post.item_spawns@.len() ==> (exists|a: int|
                0 <= a < placed.len() && placed[a] == (
                    (#[trigger] post.item_spawns@[i]).0,
                    Spawn::Item(post.item_spawns@[i].1),
                )),
        spawns_distinct(pre.mob_spawns@, pre.item_spawns@) ==> spawns_distinct(
            post.mob_spawns@,
            post.item_spawns@,
        ),
    ensures
        pass_records_ok(pre, post, rect),
        forall|q: Pos|
            post.tiles.tile_at(q) != pre.tiles.tile_at(q) ==> rect.spec_contains(q),
{
    assert forall|i: int|
        pre.mob_spawns@.len() <= i < post.mob_spawns@.len() implies rect.spec_contains(
        (#[trigger] post.mob_spawns@[i]).0,
    ) by {
        let a = choose|a: int|
            0 <= a < placed.len() && placed[a] == (
                post.mob_spawns@[i].0,
                Spawn::Mob(post.mob_spawns@[i].1),
            );
        assert(pre.free_cell(rect, placed[a].0));
    }
    assert forall|i: int|
        pre.item_spawns@.len() <= i < post.item_spawns@.len() implies rect.spec_contains(
        (#[trigger] post.item_spawns@[i]).0,
    ) by {
        let a = choose|a: int|
            0 <= a < placed.len() && placed[a] == (
                post.item_spawns@[i].0,
                Spawn::Item(post.item_spawns@[i].1),
            );
        assert(pre.free_cell(rect, placed[a].0));
    }
    assert forall|q: Pos|
        post.tiles.tile_at(q) != pre.tiles.tile_at(q) implies rect.spec_contains(q) by {
        let a = choose|a: int|
            0 <= a < placed.len() && (#[trigger] placed[a]).0 == q && placed[a].1 is Tile;
        assert(pre.free_cell(rect, placed[a].0));
    }
}

/// A pass confined to an inner region is also confined to any region that
/// holds it.
proof fn lemma_pass_records_widen(pre: Mapgen, post: Mapgen, inner: Rect, outer: Rect)
    requires
        pass_records_ok(pre, post, inner),
        outer.x1 <= inner.x1 && inner.x2 <= outer.x2 && outer.y1 <= inner.y1 && inner.y2
            <= outer.y2,
    ensures
        pass_records_ok(pre, post, outer),
{
}

/// Two record-respecting passes over one region compose.
proof fn lemma_pass_records_compose(a: Mapgen, b: Mapgen, c: Mapgen, rect: Rect)
    requires
        pass_records_ok(a, b, rect),
        pass_records_ok(b, c, rect),
    ensures
        pass_records_ok(a, c, rect),
{
    assert forall|i: int|
        a.mob_spawns@.len() <= i < c.mob_spawns@.len() implies rect.spec_contains(
        (#[trigger] c.mob_spawns@[i]).0,
    ) by {
        if i < b.mob_spawns@.len() {
            assert(c.mob_spawns@[i] == b.mob_spawns@[i]);
        }
    }
    assert forall|i: int|
        a.item_spawns@.len() <= i < c.item_spawns@.len() implies rect.spec_contains(
        (#[trigger] c.item_spawns@[i]).0,
    ) by {
        if i < b.item_spawns@.len() {
            assert(c.item_spawns@[i] == b.item_spawns@[i]);
        }
    }
}

/// A connecting wall is itself a well-formed rectangle.
pub proof fn lemma_wall_wf(a: Rect, b: Rect)
    requires
        a.wf(),
        b.wf(),
    ensures
        crate::bsp::spec_connecting_wall(a, b) matches Some(w) ==> w.wf(),
{
}

impl Mapgen {
    /// The field: open ground with sparse bushes, walled by trees on its
    /// top, left and bottom edges. Only cells of the field change, and no
    /// mob or item is recorded.
    fn gen_field(&mut self, rect: Rect)
        requires
            old(self).wf(),
            rect.wf(),
        ensures
            final(self).wf(),
            final(self).tiles.spec_default() == old(self).tiles.spec_default(),
            forall|q: Pos|
                final(self).tiles.tile_at(q) != old(self).tiles.tile_at(q) ==> rect.spec_contains(
                    q,
                ),
            final(self).mob_spawns@ == old(self).mob_spawns@,
            final(self).item_spawns@ == old(self).item_spawns@,
            final(self).spawn_cells == old(self).spawn_cells,
    {
        let ghost tstart = self.tiles;
        let cells = rect.cells();
        let mut i: usize = 0;
        while i < cells.len()
            invariant
                self.wf(),
                rect.wf(),
                self.tiles.spec_default() == tstart.spec_default(),
                self.mob_spawns@ == old(self).mob_spawns@,
                self.item_spawns@ == old(self).item_spawns@,
                self.spawn_cells == old(self).spawn_cells,
                i <= cells@.len(),
                forall|k: int| 0 <= k < cells@.len() ==> rect.spec_contains(#[trigger] cells@[k]),
                forall|q: Pos|
                    self.tiles.tile_at(q) != tstart.tile_at(q) ==> rect.spec_contains(q),
            decreases cells@.len() - i,
        {
            let t = if rand_ratio(&mut self.rng, 1, 10) {
                Some(TileKind::Bush)
            } else {
                None
            };
            self.tiles.set(cells[i], t);
            i = i + 1;
        }
        let ghost t1 = self.tiles;
        self.tiles.set_rect(rect.top_edge(), Some(TileKind::Tree));
        let ghost t2 = self.tiles;
        self.tiles.set_rect(rect.left_edge(), Some(TileKind::Tree));
        let ghost t3 = self.tiles;
        self.tiles.set_rect(rect.bottom_edge(), Some(TileKind::Tree));
        proof {
            assert forall|q: Pos|
                self.tiles.tile_at(q) != old(self).tiles.tile_at(q) implies rect.spec_contains(
                q,
            ) by {
                if !rect.spec_contains(q) {
                    assert(!(Rect { x1: rect.x1, y1: rect.y1, x2: rect.x2, y2: rect.y1 })
                        .spec_contains(q));
                    assert(!(Rect { x1: rect.x1, y1: rect.y1, x2: rect.x1, y2: rect.y2 })
                        .spec_contains(q));
                    assert(!(Rect { x1: rect.x1, y1: rect.y2, x2: rect.x2, y2: rect.y2 })
                        .spec_contains(q));
                    assert(t1.tile_at(q) == tstart.tile_at(q));
                    assert(t2.tile_at(q) == t1.tile_at(q));
                    assert(t3.tile_at(q) == t2.tile_at(q));
                    assert(self.tiles.tile_at(q) == t3.tile_at(q));
                }
            }
        }
    }

    /// A forest: tree borders above and below, an automaton-carved cave and a
    /// population of mobs and pickups. The carved region joins its left edge
    /// to its right edge, tiles change only in the bordered band, and every
    /// new mob or item record lands inside the region.
    fn gen_forest(&mut self, rect: Rect, spawns: &Vec<(usize, Spawn)>)
        requires
            old(self).wf(),
            rect.wf(),
            rect.area() <= 100_000_000,
            -500_000 <= rect.y1 - 1,
            rect.y2 + 1 <= 500_000,
            forall|g: int|
                0 <= g < spawns@.len() ==> ((#[trigger] spawns@[g]).1 matches Spawn::Tile(k)
                    ==> !crate::tiles::spec_blocks_movement(k)),
        ensures
            final(self).wf(),
            final(self).tiles.spec_default() == old(self).tiles.spec_default(),
            region_connected(final(self).tiles, rect),
            forall|q: Pos|
                final(self).tiles.tile_at(q) != old(self).tiles.tile_at(q) ==> rect.x1 <= q.x
                    <= rect.x2 && rect.y1 - 1 <= q.y <= rect.y2 + 1,
            pass_records_ok(*old(self), *final(self), rect),
    {
        let ghost t0 = self.tiles;
        self.tiles.set_rect(rect.expand_y(1), Some(TileKind::Tree));
        let ghost t1 = self.tiles;
        carve_cave(&mut self.tiles, rect, 100, 4, 5, &mut self.rng);
        let ghost pre = *self;
        let placed = self.populate(rect, spawns);
        proof {
            lemma_pass_populate(pre, *self, rect, spawns@, placed@);
            assert forall|q: Pos|
                self.tiles.tile_at(q) != t0.tile_at(q) implies rect.x1 <= q.x <= rect.x2 && rect.y1
                - 1 <= q.y <= rect.y2 + 1 by {
                if !(rect.x1 <= q.x <= rect.x2 && rect.y1 - 1 <= q.y <= rect.y2 + 1) {
                    assert(!rect.spec_contains(q));
                    assert(!(Rect {
                        x1: rect.x1,
                        y1: (rect.y1 - 1) as i32,
                        x2: rect.x2,
                        y2: (rect.y2 + 1) as i32,
                    }).spec_contains(q));
                    assert(t1.tile_at(q) == t0.tile_at(q));
                    assert(pre.tiles.tile_at(q) == t1.tile_at(q));
                    assert(self.tiles.tile_at(q) == pre.tiles.tile_at(q));
                }
            }
        }
    }

    /// The railyard: wide open ground obscured by large shipping containers,
    /// with a flood-checked route from its left edge to its right edge.
    /// Tiles change only inside the region, and every new mob or item record
    /// lands inside it.
    fn gen_railyard(&mut self, rect: Rect, spawns: &Vec<(usize, Spawn)>)
        requires
            old(self).wf(),
            rect.wf(),
            rect.area() <= 100_000_000,
            rect.x1 + 1 <= rect.x2 - 1,
            -500_000 <= rect.x1,
            rect.x2 <= 500_000,
            -500_000 <= rect.y1,
            rect.y2 <= 500_000,
            forall|g: int|
                0 <= g < spawns@.len() ==> ((#[trigger] spawns@[g]).1 matches Spawn::Tile(k)
                    ==> !crate::tiles::spec_blocks_movement(k)),
        ensures
            final(self).wf(),
            final(self).tiles.spec_default() == old(self).tiles.spec_default(),
            region_connected(final(self).tiles, rect),
            forall|q: Pos|
                final(self).tiles.tile_at(q) != old(self).tiles.tile_at(q) ==> rect.spec_contains(
                    q,
                ),
            pass_records_ok(*old(self), *final(self), rect),
    {
        let ghost t0 = self.tiles;
        carve_boxyard(&mut self.tiles, rect, &mut self.rng);
        let ghost pre = *self;
        let placed = self.populate(rect, spawns);
        proof {
            lemma_pass_populate(pre, *self, rect, spawns@, placed@);
            assert forall|q: Pos|
                self.tiles.tile_at(q) != t0.tile_at(q) implies rect.spec_contains(q) by {
                if !rect.spec_contains(q) {
                    assert(pre.tiles.tile_at(q) == t0.tile_at(q));
                    assert(self.tiles.tile_at(q) == pre.tiles.tile_at(q));
                }
            }
        }
    }

    /// Carve one interior of rooms out of a solid block: clear each room,
    /// scatter a few crates, and cut one door through the connecting wall of
    /// each spatially adjacent room pair. Tiles change only inside the bound
    /// that holds every room, and no record is touched.
    fn carve_rooms(&mut self, graph: &crate::roomgraph::RoomGraph, crate_num: u32, bound: Rect)
        requires
            old(self).wf(),
            graph.wf(),
            crate_num <= 50,
            bound.wf(),
            forall|i: int|
                0 <= i < graph.n() ==> bound.x1 <= (#[trigger] graph.rooms@[i]).x1
                    && graph.rooms@[i].x2 <= bound.x2 && bound.y1 <= graph.rooms@[i].y1
                    && graph.rooms@[i].y2 <= bound.y2,
        ensures
            final(self).wf(),
            final(self).tiles.spec_default() == old(self).tiles.spec_default(),
            forall|q: Pos|
                final(self).tiles.tile_at(q) != old(self).tiles.tile_at(q) ==> bound.spec_contains(
                    q,
                ),
            final(self).mob_spawns@ == old(self).mob_spawns@,
            final(self).item_spawns@ == old(self).item_spawns@,
            final(self).spawn_cells == old(self).spawn_cells,
    {
        let ghost tstart = self.tiles;
        let n = graph.len();
        let mut i: usize = 0;
        while i < n
            invariant
                self.wf(),
                self.tiles.spec_default() == old(self).tiles.spec_default(),
                self.mob_spawns@ == old(self).mob_spawns@,
                self.item_spawns@ == old(self).item_spawns@,
                self.spawn_cells == old(self).spawn_cells,
                graph.wf(),
                n == graph.n(),
                crate_num <= 50,
                bound.wf(),
                forall|i2: int|
                    0 <= i2 < graph.n() ==> bound.x1 <= (#[trigger] graph.rooms@[i2]).x1
                        && graph.rooms@[i2].x2 <= bound.x2 && bound.y1 <= graph.rooms@[i2].y1
                        && graph.rooms@[i2].y2 <= bound.y2,
                forall|q: Pos|
                    self.tiles.tile_at(q) != tstart.tile_at(q) ==> bound.spec_contains(q),
            decreases n - i,
        {
            let room = graph.room_at(i);
            proof {
                assert(bound.x1 <= graph.rooms@[i as int].x1);
            }
            self.tiles.set_rect(room, None);
            proof {
                assert forall|q: Pos|
                    self.tiles.tile_at(q) != tstart.tile_at(q) implies bound.spec_contains(q) by {
                    if !room.spec_contains(q) {
                    }
                }
            }
            let rcells = room.cells();
            let mut c: usize = 0;
            while c < rcells.len()
                invariant
                    self.wf(),
                    self.tiles.spec_default() == old(self).tiles.spec_default(),
                    self.mob_spawns@ == old(self).mob_spawns@,
                    self.item_spawns@ == old(self).item_spawns@,
                    self.spawn_cells == old(self).spawn_cells,
                    c <= rcells@.len(),
                    crate_num <= 50,
                    bound.wf(),
                    forall|k: int|
                        0 <= k < rcells@.len() ==> bound.spec_contains(#[trigger] rcells@[k]),
                    forall|q: Pos|
                        self.tiles.tile_at(q) != tstart.tile_at(q) ==> bound.spec_contains(q),
                decreases rcells@.len() - c,
            {
                if rand_ratio(&mut self.rng, crate_num, 50) {
                    self.tiles.set(rcells[c], Some(TileKind::Crate));
                }
                c = c + 1;
            }
            let adjs = graph.find_spatially_adjacent(i);
            let mut a: usize = 0;
            while a < adjs.len()
                invariant
                    self.wf(),
                    self.tiles.spec_default() == old(self).tiles.spec_default(),
                    self.mob_spawns@ == old(self).mob_spawns@,
                    self.item_spawns@ == old(self).item_spawns@,
                    self.spawn_cells == old(self).spawn_cells,
                    graph.wf(),
                    n == graph.n(),
                    i < n,
                    room == graph.rooms@[i as int],
                    a <= adjs@.len(),
                    bound.wf(),
                    forall|i2: int|
                        0 <= i2 < graph.n() ==> bound.x1 <= (#[trigger] graph.rooms@[i2]).x1
                            && graph.rooms@[i2].x2 <= bound.x2 && bound.y1 <= graph.rooms@[i2].y1
                            && graph.rooms@[i2].y2 <= bound.y2,
                    forall|k: int|
                        0 <= k < adjs@.len() ==> #[trigger] adjs@[k] < graph.n()
                            && crate::bsp::rooms_adjacent(
                            graph.rooms@[i as int],
                            graph.rooms@[adjs@[k] as int],
                        ),
                    forall|q: Pos|
                        self.tiles.tile_at(q) != tstart.tile_at(q) ==> bound.spec_contains(q),
                decreases adjs@.len() - a,
            {
                let j = adjs[a];
                let other = graph.room_at(j);
                // Cut each shared wall once, from the lexicographically
                // smaller room.
                if room.x1 < other.x1 || (room.x1 == other.x1 && room.y1 < other.y1) {
                    proof {
                        lemma_wall_wf(room, other);
                        lemma_wall_in_bound(room, other, bound);
                    }
                    match crate::bsp::get_connecting_wall(room, other) {
                        Some(wall) => {
                            let door = rand_cell(&mut self.rng, wall);
                            self.tiles.set(door, Some(TileKind::Door));
                        },
                        None => {
                            proof {
                                assert(false);
                            }
                        },
                    }
                }
                a = a + 1;
            }
            i = i + 1;
        }
    }

    /// Doors from boundary rooms of a building through its outer wall. Tiles
    /// change only inside the building, and no record is touched.
    fn cut_exterior_doors(&mut self, graph: &crate::roomgraph::RoomGraph, building: Rect)
        requires
            old(self).wf(),
            graph.wf(),
            building.wf(),
            forall|i: int|
                0 <= i < graph.n() ==> building.x1 <= (#[trigger] graph.rooms@[i]).x1
                    && graph.rooms@[i].x2 <= building.x2 && building.y1 <= graph.rooms@[i].y1
                    && graph.rooms@[i].y2 <= building.y2,
        ensures
            final(self).wf(),
            final(self).tiles.spec_default() == old(self).tiles.spec_default(),
            forall|q: Pos|
                final(self).tiles.tile_at(q) != old(self).tiles.tile_at(q)
                    ==> building.spec_contains(q),
            final(self).mob_spawns@ == old(self).mob_spawns@,
            final(self).item_spawns@ == old(self).item_spawns@,
            final(self).spawn_cells == old(self).spawn_cells,
    {
        let ghost tstart = self.tiles;
        let n = graph.len();
        let mut i: usize = 0;
        while i < n
            invariant
                self.wf(),
                self.tiles.spec_default() == old(self).tiles.spec_default(),
                self.mob_spawns@ == old(self).mob_spawns@,
                self.item_spawns@ == old(self).item_spawns@,
                self.spawn_cells == old(self).spawn_cells,
                graph.wf(),
                building.wf(),
                n == graph.n(),
                forall|i2: int|
                    0 <= i2 < graph.n() ==> building.x1 <= (#[trigger] graph.rooms@[i2]).x1
                        && graph.rooms@[i2].x2 <= building.x2 && building.y1
                        <= graph.rooms@[i2].y1 && graph.rooms@[i2].y2 <= building.y2,
                forall|q: Pos|
                    self.tiles.tile_at(q) != tstart.tile_at(q) ==> building.spec_contains(q),
            decreases n - i,
        {
            let room = graph.room_at(i);
            proof {
                assert(building.x1 <= graph.rooms@[i as int].x1);
            }
            if room.x1 == building.x1 + 1 {
                let y = crate::rng::rand_range(&mut self.rng, room.y1, room.y2 + 1);
                self.tiles.set(Pos { x: room.x1 - 1, y }, Some(TileKind::Door));
            } else if room.x2 == building.x2 - 1 {
                let y = crate::rng::rand_range(&mut self.rng, room.y1, room.y2 + 1);
                self.tiles.set(Pos { x: room.x2 + 1, y }, Some(TileKind::Door));
            } else if room.y1 == building.y1 + 1 {
                let x = crate::rng::rand_range(&mut self.rng, room.x1, room.x2 + 1);
                self.tiles.set(Pos { x, y: room.y1 - 1 }, Some(TileKind::Door));
            } else if room.y2 == building.y2 - 1 {
                let x = crate::rng::rand_range(&mut self.rng, room.x1, room.x2 + 1);
                self.tiles.set(Pos { x, y: room.y2 + 1 }, Some(TileKind::Door));
            }
            i = i + 1;
        }
    }

    /// The warehouse: a cleared yard holding one solid building, split into
    /// rooms by binary space partitioning, with interior and exterior doors,
    /// a room keeping the sculpture and a shotgun, and a population of
    /// hiders and ammunition. Tiles change only in the zone and its one-cell
    /// tree border, and every new record lands inside the zone.
    fn gen_warehouse(&mut self, zone: Rect, spawns: &Vec<(usize, Spawn)>)
        requires
            old(self).wf(),
            zone.wf(),
            zone.x1 + 5 <= zone.x2 - 1,
            zone.x1 + 5 + 2 <= zone.x2 - 1 - 2,
            zone.y1 + 2 <= zone.y2 - 2,
            -500_000 <= zone.y1 - 1,
            zone.y2 + 1 <= 500_000,
        ensures
            final(self).wf(),
            final(self).tiles.spec_default() == old(self).tiles.spec_default(),
            forall|q: Pos|
                final(self).tiles.tile_at(q) != old(self).tiles.tile_at(q) ==> in_zone_band(
                    zone,
                    q,
                ),
            pass_records_ok(*old(self), *final(self), zone),
    {
        let ghost t0 = self.tiles;
        self.tiles.set_rect(zone.expand_y(1), Some(TileKind::Tree));
        self.tiles.set_rect(zone, None);
        let building = Rect { x1: zone.x1 + 5, y1: zone.y1, x2: zone.x2 - 1, y2: zone.y2 };
        self.tiles.set_rect(building, Some(TileKind::Wall));
        proof {
            assert forall|q: Pos|
                self.tiles.tile_at(q) != t0.tile_at(q) implies in_zone_band(zone, q) by {
                if !in_zone_band(zone, q) {
                    assert(!(Rect {
                        x1: zone.x1,
                        y1: (zone.y1 - 1) as i32,
                        x2: zone.x2,
                        y2: (zone.y2 + 1) as i32,
                    }).spec_contains(q));
                    assert(!zone.spec_contains(q));
                    assert(!building.spec_contains(q));
                }
            }
        }
        let opts = BspSplitOpts { min_width: 5, min_height: 5, max_width: 11, max_height: 11 };
        let interior = building.shrink(1);
        let tree = crate::bsp::gen_bsp_tree(interior, opts, &mut self.rng);
        let ghost treeg = tree;
        let mut graph = crate::roomgraph::into_room_graph(tree);
        graph.add_extra_loops(4, &mut self.rng);
        proof {
            assert forall|i: int|
                0 <= i < graph.n() implies interior.x1 <= (#[trigger] graph.rooms@[i]).x1
                && graph.rooms@[i].x2 <= interior.x2 && interior.y1 <= graph.rooms@[i].y1
                && graph.rooms@[i].y2 <= interior.y2 by {
                assert(graph.rooms@.contains(graph.rooms@[i]));
                assert(crate::bsp::tree_rooms(treeg).contains(graph.rooms@[i]));
            }
        }
        self.carve_rooms(&graph, 1, interior);
        self.cut_exterior_doors(&graph, building);
        proof {
            assert forall|q: Pos|
                self.tiles.tile_at(q) != t0.tile_at(q) implies in_zone_band(zone, q) by {
                if !in_zone_band(zone, q) {
                    assert(!interior.spec_contains(q));
                    assert(!building.spec_contains(q));
                }
            }
        }
        let ghost mid = *self;
        if let Some(room_idx) = graph.choose_room(&mut self.rng) {
            let room = graph.room_at(room_idx);
            let mut special: Vec<(usize, Spawn)> = Vec::new();
            special.push((1, Spawn::Mob(MobKind::Sculpture)));
            special.push(
                (
                    1,
                    Spawn::Item(
                        ItemKind::Gun(
                            crate::items::GunType::Shotgun,
                            crate::items::GunType::Shotgun.get_info().max_load,
                        ),
                    ),
                ),
            );
            proof {
                assert(graph.rooms@[room_idx as int].wf());
            }
            let ghost pre1 = *self;
            let placed1 = self.populate(room, &special);
            proof {
                lemma_populate_records(pre1, *self, room, special@, placed1@);
                lemma_pass_records_widen(pre1, *self, room, zone);
                assert forall|q: Pos|
                    self.tiles.tile_at(q) != t0.tile_at(q) implies in_zone_band(zone, q) by {
                    if !in_zone_band(zone, q) {
                        assert(!room.spec_contains(q));
                        assert(self.tiles.tile_at(q) == pre1.tiles.tile_at(q));
                    }
                }
            }
        }
        let ghost pre2 = *self;
        let placed2 = self.populate(building, spawns);
        proof {
            lemma_populate_records(pre2, *self, building, spawns@, placed2@);
            lemma_pass_records_widen(pre2, *self, building, zone);
            assert(pass_records_ok(*old(self), mid, zone));
            assert(pass_records_ok(mid, pre2, zone));
            lemma_pass_records_compose(mid, pre2, *self, zone);
            lemma_pass_records_compose(*old(self), mid, *self, zone);
            assert forall|q: Pos|
                self.tiles.tile_at(q) != t0.tile_at(q) implies in_zone_band(zone, q) by {
                if !in_zone_band(zone, q) {
                    assert(!building.spec_contains(q));
                    assert(self.tiles.tile_at(q) == pre2.tiles.tile_at(q));
                }
            }
        }
    }

    /// The boss arena: a small building split into rooms with doors, then
    /// partially ruined, with a cleared centre holding the eyeball and a
    /// population of wraiths. Tiles change only inside the arena, every new
    /// record lands inside it, and the eyeball stands at its centre.
    fn gen_boss_arena(&mut self, rect: Rect)
        requires
            old(self).wf(),
            rect.wf(),
            rect.x1 + 2 <= rect.x2 - 2,
            rect.y1 + 2 <= rect.y2 - 2,
            -500_000 <= rect.x1,
            rect.x2 <= 500_000,
            -500_000 <= rect.y1,
            rect.y2 <= 500_000,
            !old(self).spawn_cells.cells().contains(rect.spec_center()),
        ensures
            final(self).wf(),
            final(self).tiles.spec_default() == old(self).tiles.spec_default(),
            forall|q: Pos|
                final(self).tiles.tile_at(q) != old(self).tiles.tile_at(q) ==> rect.spec_contains(
                    q,
                ),
            pass_records_ok(*old(self), *final(self), rect),
            final(self).mob_spawns@.contains((rect.spec_center(), MobKind::Eyeball)),
    {
        let ghost t0 = self.tiles;
        let opts = BspSplitOpts { min_width: 3, min_height: 3, max_width: 8, max_height: 8 };
        let tree = crate::bsp::gen_bsp_tree(rect, opts, &mut self.rng);
        let ghost treeg = tree;
        let graph = crate::roomgraph::into_room_graph(tree);
        proof {
            assert forall|i2: int|
                0 <= i2 < graph.n() implies rect.x1 <= (#[trigger] graph.rooms@[i2]).x1
                && graph.rooms@[i2].x2 <= rect.x2 && rect.y1 <= graph.rooms@[i2].y1
                && graph.rooms@[i2].y2 <= rect.y2 by {
                assert(graph.rooms@.contains(graph.rooms@[i2]));
                assert(crate::bsp::tree_rooms(treeg).contains(graph.rooms@[i2]));
            }
        }
        let n = graph.len();
        let mut i: usize = 0;
        while i < n
            invariant
                self.wf(),
                self.tiles.spec_default() == old(self).tiles.spec_default(),
                self.mob_spawns@ == old(self).mob_spawns@,
                self.item_spawns@ == old(self).item_spawns@,
                self.spawn_cells == old(self).spawn_cells,
                graph.wf(),
                n == graph.n(),
                rect.wf(),
                forall|i2: int|
                    0 <= i2 < graph.n() ==> rect.x1 <= (#[trigger] graph.rooms@[i2]).x1
                        && graph.rooms@[i2].x2 <= rect.x2 && rect.y1 <= graph.rooms@[i2].y1
                        && graph.rooms@[i2].y2 <= rect.y2,
                forall|q: Pos|
                    self.tiles.tile_at(q) != t0.tile_at(q) ==> rect.spec_contains(q),
            decreases n - i,
        {
            let room = graph.room_at(i);
            proof {
                assert(rect.x1 <= graph.rooms@[i as int].x1);
            }
            self.tiles.set_rect(room, None);
            proof {
                assert forall|q: Pos|
                    self.tiles.tile_at(q) != t0.tile_at(q) implies rect.spec_contains(q) by {
                    if !room.spec_contains(q) {
                    }
                }
            }
            let adjs = graph.adj_of(i);
            let adjs_len = adjs.len();
            let mut a: usize = 0;
            while a < adjs_len
                invariant
                    self.wf(),
                    self.tiles.spec_default() == old(self).tiles.spec_default(),
                    self.mob_spawns@ == old(self).mob_spawns@,
                    self.item_spawns@ == old(self).item_spawns@,
                    self.spawn_cells == old(self).spawn_cells,
                    graph.wf(),
                    n == graph.n(),
                    i < n,
                    room == graph.rooms@[i as int],
                    a <= graph.adj@[i as int]@.len(),
                    adjs_len == graph.adj@[i as int]@.len(),
                    rect.wf(),
                    forall|i2: int|
                        0 <= i2 < graph.n() ==> rect.x1 <= (#[trigger] graph.rooms@[i2]).x1
                            && graph.rooms@[i2].x2 <= rect.x2 && rect.y1 <= graph.rooms@[i2].y1
                            && graph.rooms@[i2].y2 <= rect.y2,
                    forall|q: Pos|
                        self.tiles.tile_at(q) != t0.tile_at(q) ==> rect.spec_contains(q),
                decreases adjs_len - a,
            {
                let j = graph.adj_of(i)[a];
                proof {
                    assert(graph.has_edge(i as int, j as int)) by {
                        assert(crate::roomgraph::edge_in(graph.adj@, i as int, j as int));
                    }
                }
                let other = graph.room_at(j);
                if room.x1 < other.x1 || (room.x1 == other.x1 && room.y1 < other.y1) {
                    proof {
                        lemma_wall_wf(room, other);
                        lemma_wall_in_bound(room, other, rect);
                    }
                    match crate::bsp::get_connecting_wall(room, other) {
                        Some(wall) => {
                            let door = rand_cell(&mut self.rng, wall);
                            self.tiles.set(door, Some(TileKind::Door));
                        },
                        None => {
                            proof {
                                assert(false);
                            }
                        },
                    }
                }
                a = a + 1;
            }
            if room.x1 == rect.x1 + 1 {
                let y = crate::rng::rand_range(&mut self.rng, room.y1, room.y2 + 1);
                self.tiles.set(Pos { x: room.x1 - 1, y }, Some(TileKind::Door));
            }
            i = i + 1;
        }
        // Ruin the arena a little.
        let cells = rect.cells();
        let mut c: usize = 0;
        while c < cells.len()
            invariant
                self.wf(),
                self.tiles.spec_default() == old(self).tiles.spec_default(),
                self.mob_spawns@ == old(self).mob_spawns@,
                self.item_spawns@ == old(self).item_spawns@,
                self.spawn_cells == old(self).spawn_cells,
                c <= cells@.len(),
                rect.wf(),
                forall|k: int| 0 <= k < cells@.len() ==> rect.spec_contains(#[trigger] cells@[k]),
                forall|q: Pos|
                    self.tiles.tile_at(q) != t0.tile_at(q) ==> rect.spec_contains(q),
            decreases cells@.len() - c,
        {
            if rand_ratio(&mut self.rng, 1, 5) {
                self.tiles.set(cells[c], None);
            }
            c = c + 1;
        }
        // Clear out the centre and stand the boss there.
        let center = rect.center();
        let center_rect = match Rect::new_centered(center, 8, 8).intersect(&rect) {
            Some(cr) => cr,
            None => {
                proof {
                    assert(false);
                }
                rect
            },
        };
        self.tiles.set_rect(center_rect, None);
        proof {
            assert(center_rect.spec_contains(center));
            assert(self.tiles.tile_at(center) is None);
        }
        let center_cell = Rect { x1: center.x, y1: center.y, x2: center.x, y2: center.y };
        let mut boss_seed: Vec<(usize, Spawn)> = Vec::new();
        boss_seed.push((1, Spawn::Mob(MobKind::Eyeball)));
        let ghost pre1 = *self;
        let placed1 = self.populate(center_cell, &boss_seed);
        proof {
            lemma_boss_seed_placed(pre1, *self, center_cell, boss_seed@, placed1@, center);
            lemma_populate_records(pre1, *self, center_cell, boss_seed@, placed1@);
            lemma_pass_records_widen(pre1, *self, center_cell, rect);
            assert forall|q: Pos|
                self.tiles.tile_at(q) != t0.tile_at(q) implies rect.spec_contains(q) by {
                if !rect.spec_contains(q) {
                    assert(!center_cell.spec_contains(q));
                    assert(self.tiles.tile_at(q) == pre1.tiles.tile_at(q));
                }
            }
        }
        let mut boss_spawns: Vec<(usize, Spawn)> = Vec::new();
        boss_spawns.push((10, Spawn::Mob(MobKind::Wraith)));
        let ghost pre2 = *self;
        let placed2 = self.populate(rect, &boss_spawns);
        proof {
            lemma_populate_records(pre2, *self, rect, boss_spawns@, placed2@);
            assert(pass_records_ok(*old(self), pre1, rect));
            lemma_pass_records_compose(*old(self), pre1, pre2, rect);
            lemma_pass_records_compose(*old(self), pre2, *self, rect);
            assert(self.mob_spawns@.contains((rect.spec_center(), MobKind::Eyeball))) by {
                let k = choose|k: int|
                    0 <= k < pre2.mob_spawns@.len() && pre2.mob_spawns@[k] == (
                        rect.spec_center(),
                        MobKind::Eyeball,
                    );
                assert(self.mob_spawns@[k] == pre2.mob_spawns@[k]);
            }
            assert forall|q: Pos|
                self.tiles.tile_at(q) != t0.tile_at(q) implies rect.spec_contains(q) by {
                if !rect.spec_contains(q) {
                    assert(self.tiles.tile_at(q) == pre2.tiles.tile_at(q));
                }
            }
        }
    }
}

/// The single-cell populate that stands the boss at the arena's centre: the
/// centre is the only free cell of its one-cell region, so exactly the boss
/// record is added there.
proof fn lemma_boss_seed_placed(
    pre: Mapgen,
    post: Mapgen,
    cell: Rect,
    spawns: Seq<(usize, Spawn)>,
    placed: Seq<(Pos, Spawn)>,
    center: Pos,
)
    requires
        cell == (Rect { x1: center.x, y1: center.y, x2: center.x, y2: center.y }),
        spawns =~= seq![(1usize, Spawn::Mob(MobKind::Eyeball))],
        pre.free_cell(cell, center),
        total_requested(spawns) <= 1_000_000_000 && total_requested(spawns) <= pre.free_count(
            cell,
        ) ==> placed.len() == total_requested(spawns),
        forall|a: int| 0 <= a < placed.len() ==> pre.free_cell(cell, (#[trigger] placed[a]).0),
        forall|a: int| 0 <= a < placed.len() ==> (#[trigger] placed[a]).1 == spec_kind_at(
            spawns,
            a,
        ),
        forall|a: int|
            0 <= a < placed.len() ==> ((#[trigger] placed[a]).1 matches Spawn::Mob(m)
                ==> post.mob_spawns@.contains((placed[a].0, m))),
    ensures
        post.mob_spawns@.contains((center, MobKind::Eyeball)),
{
    assert(spawns.skip(1) =~= Seq::<(usize, Spawn)>::empty());
    assert(spawns[0] == (1usize, Spawn::Mob(MobKind::Eyeball)));
    assert(total_requested(Seq::<(usize, Spawn)>::empty()) == 0);
    assert(total_requested(spawns) == spawns[0].0 + total_requested(spawns.skip(1)));
    assert(total_requested(spawns) == 1);
    let fs = Set::new(|p: Pos| pre.free_cell(cell, p));
    assert(fs =~= Set::<Pos>::empty().insert(center)) by {
        assert forall|p: Pos| fs.contains(p) <==> Set::<Pos>::empty().insert(center).contains(
            p,
        ) by {
            if fs.contains(p) {
                assert(cell.spec_contains(p));
                assert(p == center);
            }
        }
    }
    assert(fs.len() == 1);
    assert(pre.free_count(cell) == 1);
    assert(placed.len() == 1);
    assert(placed[0].1 == spec_kind_at(spawns, 0));
    assert(spec_kind_at(spawns, 0) == Spawn::Mob(MobKind::Eyeball));
    assert(placed[0].0 == center);
    assert(placed[0].1 matches Spawn::Mob(m) ==> post.mob_spawns@.contains((placed[0].0, m)));
}

/// Flatten a finished generation: one placement for every non-empty tile of
/// the band, then one per recorded mob and item. Non-tile placements keep
/// the records' pairwise-distinct cells, and every record becomes a
/// placement.
#[verifier::rlimit(100)]
fn flatten_placements(mg: &Mapgen, band: Rect) -> (placements: Vec<(Pos, Spawn)>)
    requires
        band.wf(),
        spawns_distinct(mg.mob_spawns@, mg.item_spawns@),
        forall|i: int|
            0 <= i < mg.mob_spawns@.len() ==> band.spec_contains(
                (#[trigger] mg.mob_spawns@[i]).0,
            ),
        forall|i: int|
            0 <= i < mg.item_spawns@.len() ==> band.spec_contains(
                (#[trigger] mg.item_spawns@[i]).0,
            ),
    ensures
        forall|k: int|
            0 <= k < placements@.len() ==> band.spec_contains((#[trigger] placements@[k]).0),
        forall|a: int, b: int|
            0 <= a < b < placements@.len() && !((#[trigger] placements@[a]).1 is Tile) && !((
            #[trigger] placements@[b]).1 is Tile) ==> placements@[a].0 != placements@[b].0,
        forall|i: int|
            0 <= i < mg.mob_spawns@.len() ==> placements@.contains(
                ((#[trigger] mg.mob_spawns@[i]).0, Spawn::Mob(mg.mob_spawns@[i].1)),
            ),
        placements@.len() >= mg.mob_spawns@.len(),
{
    let mut placements: Vec<(Pos, Spawn)> = Vec::new();
    let bcells = band.cells();
    let mut i: usize = 0;
    while i < bcells.len()
        invariant
            i <= bcells@.len(),
            band.wf(),
            forall|k: int| 0 <= k < bcells@.len() ==> band.spec_contains(#[trigger] bcells@[k]),
            forall|k: int|
                0 <= k < placements@.len() ==> (#[trigger] placements@[k]).1 is Tile
                    && band.spec_contains(placements@[k].0),
        decreases bcells@.len() - i,
    {
        if let Some(k) = mg.tiles.get(bcells[i]) {
            placements.push((bcells[i], Spawn::Tile(k)));
        }
        i = i + 1;
    }
    let ghost t_len = placements@.len();
    let mut i: usize = 0;
    while i < mg.mob_spawns.len()
        invariant
            i <= mg.mob_spawns@.len(),
            band.wf(),
            placements@.len() == t_len + i,
            forall|k: int|
                0 <= k < t_len ==> (#[trigger] placements@[k]).1 is Tile && band.spec_contains(
                    placements@[k].0,
                ),
            forall|k: int|
                t_len <= k < placements@.len() ==> #[trigger] placements@[k] == (
                    mg.mob_spawns@[k - t_len].0,
                    Spawn::Mob(mg.mob_spawns@[k - t_len].1),
                ),
        decreases mg.mob_spawns@.len() - i,
    {
        let (p, m) = mg.mob_spawns[i];
        placements.push((p, Spawn::Mob(m)));
        i = i + 1;
    }
    let ghost mob_cnt = mg.mob_spawns@.len();
    let mut i: usize = 0;
    while i < mg.item_spawns.len()
        invariant
            i <= mg.item_spawns@.len(),
            band.wf(),
            placements@.len() == t_len + mob_cnt + i,
            mob_cnt == mg.mob_spawns@.len(),
            forall|k: int|
                0 <= k < t_len ==> (#[trigger] placements@[k]).1 is Tile && band.spec_contains(
                    placements@[k].0,
                ),
            forall|k: int|
                t_len <= k < t_len + mob_cnt ==> #[trigger] placements@[k] == (
                    mg.mob_spawns@[k - t_len].0,
                    Spawn::Mob(mg.mob_spawns@[k - t_len].1),
                ),
            forall|k: int|
                t_len + mob_cnt <= k < placements@.len() ==> #[trigger] placements@[k] == (
                    mg.item_spawns@[k - t_len - mob_cnt].0,
                    Spawn::Item(mg.item_spawns@[k - t_len - mob_cnt].1),
                ),
        decreases mg.item_spawns@.len() - i,
    {
        let (p, it) = mg.item_spawns[i];
        placements.push((p, Spawn::Item(it)));
        i = i + 1;
    }
    proof {
        assert forall|j: int|
            0 <= j < mg.mob_spawns@.len() implies placements@.contains(
            ((#[trigger] mg.mob_spawns@[j]).0, Spawn::Mob(mg.mob_spawns@[j].1)),
        ) by {
            assert(placements@[t_len + j] == (mg.mob_spawns@[j].0, Spawn::Mob(
                mg.mob_spawns@[j].1,
            )));
        }
        assert forall|a: int, b: int|
            0 <= a < b < placements@.len() && !((#[trigger] placements@[a]).1 is Tile) && !((
            #[trigger] placements@[b]).1 is Tile) implies placements@[a].0 != placements@[b].0 by {
            if a >= t_len && b >= t_len {
                if b < t_len + mob_cnt {
                    assert(mg.mob_spawns@[a - t_len].0 != mg.mob_spawns@[b - t_len].0);
                } else if a < t_len + mob_cnt {
                    assert(mg.mob_spawns@[a - t_len].0 != mg.item_spawns@[b - t_len - mob_cnt].0);
                } else {
                    assert(mg.item_spawns@[a - t_len - mob_cnt].0 != mg.item_spawns@[b - t_len
                        - mob_cnt].0);
                }
            }
        }
    }
    placements
}

/// Every record present after the railyard pass lies in one of the four
/// populated zones, all left of the boss arena.
proof fn lemma_records_before(
    m1: Mapgen,
    m2: Mapgen,
    m3: Mapgen,
    m4: Mapgen,
    forest: Rect,
    warehouse_zone: Rect,
    forest2: Rect,
    railyard: Rect,
)
    requires
        pass_records_ok(m1, m2, warehouse_zone),
        pass_records_ok(m2, m3, forest2),
        pass_records_ok(m3, m4, railyard),
        forall|i: int|
            0 <= i < m1.mob_spawns@.len() ==> forest.spec_contains(
                (#[trigger] m1.mob_spawns@[i]).0,
            ),
        forall|i: int|
            0 <= i < m1.item_spawns@.len() ==> forest.spec_contains(
                (#[trigger] m1.item_spawns@[i]).0,
            ),
    ensures
        forall|i: int|
            0 <= i < m4.mob_spawns@.len() ==> forest.spec_contains(
                (#[trigger] m4.mob_spawns@[i]).0,
            ) || warehouse_zone.spec_contains(m4.mob_spawns@[i].0) || forest2.spec_contains(
                m4.mob_spawns@[i].0,
            ) || railyard.spec_contains(m4.mob_spawns@[i].0),
        forall|i: int|
            0 <= i < m4.item_spawns@.len() ==> forest.spec_contains(
                (#[trigger] m4.item_spawns@[i]).0,
            ) || warehouse_zone.spec_contains(m4.item_spawns@[i].0) || forest2.spec_contains(
                m4.item_spawns@[i].0,
            ) || railyard.spec_contains(m4.item_spawns@[i].0),
{
    assert forall|i: int|
        0 <= i < m4.mob_spawns@.len() implies forest.spec_contains(
        (#[trigger] m4.mob_spawns@[i]).0,
    ) || warehouse_zone.spec_contains(m4.mob_spawns@[i].0) || forest2.spec_contains(
        m4.mob_spawns@[i].0,
    ) || railyard.spec_contains(m4.mob_spawns@[i].0) by {
        if i < m1.mob_spawns@.len() {
            assert(m4.mob_spawns@[i] == m3.mob_spawns@[i] && m3.mob_spawns@[i]
                == m2.mob_spawns@[i] && m2.mob_spawns@[i] == m1.mob_spawns@[i]);
        } else if i < m2.mob_spawns@.len() {
            assert(m4.mob_spawns@[i] == m3.mob_spawns@[i] && m3.mob_spawns@[i]
                == m2.mob_spawns@[i]);
        } else if i < m3.mob_spawns@.len() {
            assert(m4.mob_spawns@[i] == m3.mob_spawns@[i]);
        }
    }
    assert forall|i: int|
        0 <= i < m4.item_spawns@.len() implies forest.spec_contains(
        (#[trigger] m4.item_spawns@[i]).0,
    ) || warehouse_zone.spec_contains(m4.item_spawns@[i].0) || forest2.spec_contains(
        m4.item_spawns@[i].0,
    ) || railyard.spec_contains(m4.item_spawns@[i].0) by {
        if i < m1.item_spawns@.len() {
            assert(m4.item_spawns@[i] == m3.item_spawns@[i] && m3.item_spawns@[i]
                == m2.item_spawns@[i] && m2.item_spawns@[i] == m1.item_spawns@[i]);
        } else if i < m2.item_spawns@.len() {
            assert(m4.item_spawns@[i] == m3.item_spawns@[i] && m3.item_spawns@[i]
                == m2.item_spawns@[i]);
        } else if i < m3.item_spawns@.len() {
            assert(m4.item_spawns@[i] == m3.item_spawns@[i]);
        }
    }
}

/// Run the passes left of the boss arena: the field, the first forest, the
/// warehouse, the second forest and the railyard, at their fixed layout
/// coordinates.
#[verifier::rlimit(100)]
fn build_left() -> (r: (Mapgen, Rect, Rect, Rect, Rect, Rect))
    ensures
        r.1 == (Rect { x1: -8i32, y1: -12i32, x2: 7i32, y2: 11i32 }),
        r.2 == (Rect { x1: 8i32, y1: -12i32, x2: 67i32, y2: 11i32 }),
        r.3 == (Rect { x1: 68i32, y1: -18i32, x2: 127i32, y2: 17i32 }),
        r.4 == (Rect { x1: 128i32, y1: -22i32, x2: 187i32, y2: 21i32 }),
        r.5 == (Rect { x1: 188i32, y1: -22i32, x2: 247i32, y2: 21i32 }),
        r.0.wf(),
        region_connected(r.0.tiles, r.2),
        region_connected(r.0.tiles, r.4),
        region_connected(r.0.tiles, r.5),
        spawns_distinct(r.0.mob_spawns@, r.0.item_spawns@),
        forall|i: int|
            0 <= i < r.0.mob_spawns@.len() ==> r.2.spec_contains(
                (#[trigger] r.0.mob_spawns@[i]).0,
            ) || r.3.spec_contains(r.0.mob_spawns@[i].0) || r.4.spec_contains(
                r.0.mob_spawns@[i].0,
            ) || r.5.spec_contains(r.0.mob_spawns@[i].0),
        forall|i: int|
            0 <= i < r.0.item_spawns@.len() ==> r.2.spec_contains(
                (#[trigger] r.0.item_spawns@[i]).0,
            ) || r.3.spec_contains(r.0.item_spawns@[i].0) || r.4.spec_contains(
                r.0.item_spawns@[i].0,
            ) || r.5.spec_contains(r.0.item_spawns@[i].0),
{
    let mut mg = Mapgen::new(Some(TileKind::Wall));
    let start = Pos { x: 0, y: 0 };
    let field = Rect::new_centered(start, 16, 24);
    let forest = Rect::new_centered(start, 60, 24).shift_right_of(field);
    let warehouse_zone = Rect::new_centered(start, 60, 36).shift_right_of(forest);
    let forest2 = Rect::new_centered(start, 60, 44).shift_right_of(warehouse_zone);
    let railyard = Rect::new_centered(start, 60, 44).shift_right_of(forest2);
    proof {
        assert(spawns_distinct(mg.mob_spawns@, mg.item_spawns@));
    }

    mg.gen_field(field);

    let mut forest_spawns: Vec<(usize, Spawn)> = Vec::new();
    forest_spawns.push((15, Spawn::Mob(MobKind::Zombie)));
    forest_spawns.push((10, Spawn::Item(ItemKind::Ammo(crate::items::GunType::Pistol, 15))));
    mg.gen_forest(forest, &forest_spawns);
    let ghost m1 = mg;

    let mut wh_spawns: Vec<(usize, Spawn)> = Vec::new();
    wh_spawns.push((20, Spawn::Mob(MobKind::Hider)));
    wh_spawns.push((7, Spawn::Item(ItemKind::Ammo(crate::items::GunType::Pistol, 15))));
    wh_spawns.push((7, Spawn::Item(ItemKind::Ammo(crate::items::GunType::Shotgun, 4))));
    wh_spawns.push((1, Spawn::Item(ItemKind::Gun(crate::items::GunType::Shotgun, 4))));
    mg.gen_warehouse(warehouse_zone, &wh_spawns);
    let ghost m2 = mg;
    proof {
        assert forall|q: Pos|
            forest.spec_contains(q) && tile_walkable(m1.tiles.tile_at(q)) implies tile_walkable(
            #[trigger] m2.tiles.tile_at(q),
        ) by {
            assert(!in_zone_band(warehouse_zone, q));
            assert(m2.tiles.tile_at(q) == m1.tiles.tile_at(q));
        }
        lemma_region_connected_monotone(m1.tiles, m2.tiles, forest);
    }

    let mut f2_spawns: Vec<(usize, Spawn)> = Vec::new();
    f2_spawns.push((75, Spawn::Tile(TileKind::Bush)));
    f2_spawns.push((30, Spawn::Mob(MobKind::Hider)));
    f2_spawns.push((30, Spawn::Mob(MobKind::Wraith)));
    f2_spawns.push((1, Spawn::Mob(MobKind::Sculpture)));
    f2_spawns.push((6, Spawn::Item(ItemKind::Ammo(crate::items::GunType::Pistol, 15))));
    f2_spawns.push((6, Spawn::Item(ItemKind::Ammo(crate::items::GunType::Shotgun, 15))));
    mg.gen_forest(forest2, &f2_spawns);
    let ghost m3 = mg;
    proof {
        assert forall|q: Pos|
            forest.spec_contains(q) && tile_walkable(m2.tiles.tile_at(q)) implies tile_walkable(
            #[trigger] m3.tiles.tile_at(q),
        ) by {
            assert(!(forest2.x1 <= q.x <= forest2.x2));
            assert(m3.tiles.tile_at(q) == m2.tiles.tile_at(q));
        }
        lemma_region_connected_monotone(m2.tiles, m3.tiles, forest);
    }

    let mut ry_spawns: Vec<(usize, Spawn)> = Vec::new();
    ry_spawns.push((11, Spawn::Mob(MobKind::Wraith)));
    ry_spawns.push((11, Spawn::Mob(MobKind::KoolAidMan)));
    ry_spawns.push((11, Spawn::Mob(MobKind::Zombie)));
    ry_spawns.push((7, Spawn::Item(ItemKind::Ammo(crate::items::GunType::Pistol, 15))));
    ry_spawns.push((7, Spawn::Item(ItemKind::Ammo(crate::items::GunType::Shotgun, 2))));
    ry_spawns.push((1, Spawn::Item(ItemKind::Gun(crate::items::GunType::Shotgun, 2))));
    mg.gen_railyard(railyard, &ry_spawns);
    let ghost m4 = mg;
    proof {
        assert forall|q: Pos|
            (forest.spec_contains(q) || forest2.spec_contains(q)) && tile_walkable(
                m3.tiles.tile_at(q),
            ) implies tile_walkable(#[trigger] m4.tiles.tile_at(q)) by {
            assert(!railyard.spec_contains(q));
            assert(m4.tiles.tile_at(q) == m3.tiles.tile_at(q));
        }
        lemma_region_connected_monotone(m3.tiles, m4.tiles, forest);
        lemma_region_connected_monotone(m3.tiles, m4.tiles, forest2);
        lemma_records_before(m1, m2, m3, m4, forest, warehouse_zone, forest2, railyard);
    }
    (mg, field, forest, warehouse_zone, forest2, railyard)
}

/// Lay the themed zones out left to right and run every generation pass;
/// the returned state holds the finished tile map and records, and the zone
/// list. Each carved zone joins its left edge to its right edge, every
/// record lies in one of the populated zones, no two records share a cell,
/// and the boss stands at the final zone's centre.
#[verifier::rlimit(100)]
fn build_zones() -> (r: (Mapgen, Vec<Rect>))
    ensures
        r.1@.len() == 6,
        forall|i: int| 0 <= i < 6 ==> (#[trigger] r.1@[i]).wf(),
        forall|i: int| 1 <= i < 6 ==> (#[trigger] r.1@[i]).x1 == r.1@[i - 1].x2 + 1,
        r.1@[0].spec_width() == 16 && r.1@[0].spec_height() == 24,
        r.1@[1].spec_width() == 60 && r.1@[1].spec_height() == 24,
        r.1@[2].spec_width() == 60 && r.1@[2].spec_height() == 36,
        r.1@[3].spec_width() == 60 && r.1@[3].spec_height() == 44,
        r.1@[4].spec_width() == 60 && r.1@[4].spec_height() == 44,
        r.1@[5].spec_width() == 20 && r.1@[5].spec_height() == 20,
        r.1@[0].x1 == -8 && r.1@[0].y1 == -12,
        forall|i: int| 1 <= i < 6 ==> (#[trigger] r.1@[i]).y1 >= -22 && r.1@[i].y2 <= 21,
        region_connected(r.0.tiles, r.1@[1]),
        region_connected(r.0.tiles, r.1@[3]),
        region_connected(r.0.tiles, r.1@[4]),
        spawns_distinct(r.0.mob_spawns@, r.0.item_spawns@),
        r.0.mob_spawns@.contains((r.1@[5].spec_center(), MobKind::Eyeball)),
        forall|i: int|
            0 <= i < r.0.mob_spawns@.len() ==> in_some_zone(r.1@, (#[trigger] r.0.mob_spawns@[i]).0),
        forall|i: int|
            0 <= i < r.0.item_spawns@.len() ==> in_some_zone(
                r.1@,
                (#[trigger] r.0.item_spawns@[i]).0,
            ),
{
    let (mg, field, forest, warehouse_zone, forest2, railyard) = build_left();
    let mut mg = mg;
    let boss = Rect { x1: 248, y1: -10, x2: 267, y2: 9 };
    let ghost m4 = mg;
    proof {
        // Every record so far lies left of the boss arena, so its centre is
        // unoccupied.
        assert(boss.spec_center() == (Pos { x: 257i32, y: -1i32 }));
        assert(!mg.spawn_cells.cells().contains(boss.spec_center()));
    }
    mg.gen_boss_arena(boss);
    let ghost m5 = mg;
    proof {
        assert forall|q: Pos|
            (forest.spec_contains(q) || forest2.spec_contains(q) || railyard.spec_contains(q))
                && tile_walkable(m4.tiles.tile_at(q)) implies tile_walkable(
            #[trigger] m5.tiles.tile_at(q),
        ) by {
            assert(!boss.spec_contains(q));
            assert(m5.tiles.tile_at(q) == m4.tiles.tile_at(q));
        }
        lemma_region_connected_monotone(m4.tiles, m5.tiles, forest);
        lemma_region_connected_monotone(m4.tiles, m5.tiles, forest2);
        lemma_region_connected_monotone(m4.tiles, m5.tiles, railyard);
    }
    let mut zones: Vec<Rect> = Vec::new();
    zones.push(field);
    zones.push(forest);
    zones.push(warehouse_zone);
    zones.push(forest2);
    zones.push(railyard);
    zones.push(boss);
    proof {
        assert(mg.mob_spawns@.contains((boss.spec_center(), MobKind::Eyeball)));
        assert forall|i: int|
            0 <= i < mg.mob_spawns@.len() implies in_some_zone(
            zones@,
            (#[trigger] mg.mob_spawns@[i]).0,
        ) by {
            assert(zones@[1] == forest && zones@[2] == warehouse_zone && zones@[3] == forest2
                && zones@[4] == railyard && zones@[5] == boss);
            if i < m4.mob_spawns@.len() {
                assert(mg.mob_spawns@[i] == m4.mob_spawns@[i]);
            } else {
                assert(boss.spec_contains(mg.mob_spawns@[i].0));
            }
        }
        assert forall|i: int|
            0 <= i < mg.item_spawns@.len() implies in_some_zone(
            zones@,
            (#[trigger] mg.item_spawns@[i]).0,
        ) by {
            assert(zones@[1] == forest && zones@[2] == warehouse_zone && zones@[3] == forest2
                && zones@[4] == railyard && zones@[5] == boss);
            if i < m4.item_spawns@.len() {
                assert(mg.item_spawns@[i] == m4.item_spawns@[i]);
            } else {
                assert(boss.spec_contains(mg.item_spawns@[i].0));
            }
        }
    }
    (mg, zones)
}

/// The cell lies inside one of the populated zones./// The cell lies inside one of the populated zones.
pub open spec fn in_some_zone(zones: Seq<Rect>, p: Pos) -> bool {
    exists|z: int| 1 <= z < zones.len() && (#[trigger] zones[z]).spec_contains(p)
}

/// Build the whole level: themed zones laid out left to right, each carved
/// and populated, handed off as a flat placement list plus the finished tile
/// map and the zone rectangles for gameplay triggers. The list is never
/// empty; the boss stands at the final zone's centre; no two mob or item
/// placements share a cell; every placement lies in the level band; and each
/// carved zone still joins its left edge to its right edge.
#[verifier::rlimit(100)]
pub fn gen_map() -> (r: MapgenResult)
    ensures
        r.zones@.len() == 6,
        forall|i: int| 0 <= i < 6 ==> (#[trigger] r.zones@[i]).wf(),
        forall|i: int| 1 <= i < 6 ==> (#[trigger] r.zones@[i]).x1 == r.zones@[i - 1].x2 + 1,
        r.zones@[0].spec_width() == 16 && r.zones@[0].spec_height() == 24,
        r.zones@[1].spec_width() == 60 && r.zones@[1].spec_height() == 24,
        r.zones@[2].spec_width() == 60 && r.zones@[2].spec_height() == 36,
        r.zones@[3].spec_width() == 60 && r.zones@[3].spec_height() == 44,
        r.zones@[4].spec_width() == 60 && r.zones@[4].spec_height() == 44,
        r.zones@[5].spec_width() == 20 && r.zones@[5].spec_height() == 20,
        r.placements@.len() >= 1,
        r.placements@.contains((r.zones@[5].spec_center(), Spawn::Mob(MobKind::Eyeball))),
        forall|a: int, b: int|
            0 <= a < b < r.placements@.len() && !((#[trigger] r.placements@[a]).1 is Tile) && !((
            #[trigger] r.placements@[b]).1 is Tile) ==> r.placements@[a].0 != r.placements@[b].0,
        forall|k: int|
            0 <= k < r.placements@.len() ==> (Rect {
                x1: r.zones@[0].x1,
                y1: -25i32,
                x2: r.zones@[5].x2,
                y2: 25i32,
            }).spec_contains((#[trigger] r.placements@[k]).0),
        region_connected(r.tiles, r.zones@[1]),
        region_connected(r.tiles, r.zones@[3]),
        region_connected(r.tiles, r.zones@[4]),
{
    let (mg, zones) = build_zones();
    let band = Rect { x1: zones[0].x1, y1: -25, x2: zones[5].x2, y2: 25 };
    proof {
        assert forall|i: int|
            0 <= i < mg.mob_spawns@.len() implies band.spec_contains(
            (#[trigger] mg.mob_spawns@[i]).0,
        ) by {
            let z = choose|z: int| 1 <= z < zones@.len() && (#[trigger] zones@[z]).spec_contains(
                mg.mob_spawns@[i].0,
            );
            lemma_zone_in_band(zones@, band, z);
        }
        assert forall|i: int|
            0 <= i < mg.item_spawns@.len() implies band.spec_contains(
            (#[trigger] mg.item_spawns@[i]).0,
        ) by {
            let z = choose|z: int| 1 <= z < zones@.len() && (#[trigger] zones@[z]).spec_contains(
                mg.item_spawns@[i].0,
            );
            lemma_zone_in_band(zones@, band, z);
        }
    }
    let placements = flatten_placements(&mg, band);
    proof {
        let bk = choose|bk: int|
            0 <= bk < mg.mob_spawns@.len() && mg.mob_spawns@[bk] == (
                zones@[5].spec_center(),
                MobKind::Eyeball,
            );
        assert(placements@.contains((zones@[5].spec_center(), Spawn::Mob(MobKind::Eyeball))));
        assert(placements@.len() >= 1);
    }
    MapgenResult { placements, tiles: mg.tiles, zones }
}

/// Every zone fits in the level band: the zones abut left to right between
/// the first zone's left edge and the last zone's right edge, and no zone
/// leaves the band's rows.
proof fn lemma_zone_in_band(zones: Seq<Rect>, band: Rect, z: int)
    requires
        zones.len() == 6,
        forall|i: int| 0 <= i < 6 ==> (#[trigger] zones[i]).wf(),
        forall|i: int| 1 <= i < 6 ==> (#[trigger] zones[i]).x1 == zones[i - 1].x2 + 1,
        zones[0].spec_height() == 24,
        zones[1].spec_height() == 24,
        zones[2].spec_height() == 36,
        zones[3].spec_height() == 44,
        zones[4].spec_height() == 44,
        zones[5].spec_height() == 20,
        zones[0].y1 == -12,
        forall|i: int| 1 <= i < 6 ==> (#[trigger] zones[i]).y1 >= -22 && zones[i].y2 <= 21,
        band == (Rect { x1: zones[0].x1, y1: -25i32, x2: zones[5].x2, y2: 25i32 }),
        1 <= z < 6,
    ensures
        forall|p: Pos| (#[trigger] zones[z].spec_contains(p)) ==> band.spec_contains(p),
{
    assert(zones[1].x1 == zones[0].x2 + 1);
    assert(zones[2].x1 == zones[1].x2 + 1);
    assert(zones[3].x1 == zones[2].x2 + 1);
    assert(zones[4].x1 == zones[3].x2 + 1);
    assert(zones[5].x1 == zones[4].x2 + 1);
}

} // verus!
