//! Grid pathfinding: weighted A* search toward a goal cell, and a
//! breadth-first hiding-spot search, both through the `pathfinding` crate.
//!
//! The goal cell is always a legal destination even when it is blocked, so a
//! pursuer can path onto its target's cell; every other step must avoid the
//! blocked set. Candidates whose Chebyshev distance from the goal exceeds the
//! distance bound are discarded, which bounds the search. The absence of a
//! path is an ordinary `None`, never an error.

use vstd::prelude::*;
use crate::geometry::{Pos, COORD_LIMIT, cardinal_adjacent, cardinal_neighbors, chebyshev, dist_sq, manhattan, abs_int};
use crate::grid::CellSet;

verus! {

/// Breadth-first hiding-spot searches stop after this many cells.
pub const HIDE_SEARCH_CAP: usize = 100_000;

pub fn in_bounds_exec(p: Pos) -> (r: bool)
    ensures
        r == p.in_bounds(),
{
    -COORD_LIMIT <= p.x && p.x <= COORD_LIMIT && -COORD_LIMIT <= p.y && p.y <= COORD_LIMIT
}

/// One legal search step: a cardinal move to an in-range cell that is either
/// the goal itself or unblocked, and within the Chebyshev distance bound of
/// the goal.
pub open spec fn step_ok(a: Pos, b: Pos, dest: Pos, max_distance: int, blocked: Set<Pos>) -> bool {
    &&& cardinal_adjacent(a, b)
    &&& b.in_bounds()
    &&& (b == dest || !blocked.contains(b))
    &&& chebyshev(b, dest) <= max_distance
}

/// A path the search may return: from `start` to `dest` through legal steps.
pub open spec fn valid_path(
    path: Seq<Pos>,
    start: Pos,
    dest: Pos,
    max_distance: int,
    blocked: Set<Pos>,
) -> bool {
    &&& path.len() >= 1
    &&& path[0] == start
    &&& path.last() == dest
    &&& (forall|i: int|
        1 <= i < path.len() ==> step_ok(path[i - 1], #[trigger] path[i], dest, max_distance,
            blocked,
        ))
}

/// The legal successors of `p`, each with unit step cost.
fn successors_of(p: Pos, dest: Pos, max_distance: i32, blocked: &CellSet) -> (r: Vec<(Pos, i64)>)
    requires
        p.in_bounds(),
        dest.in_bounds(),
        0 <= max_distance <= 100_000,
    ensures
        forall|k: int|
            0 <= k < r@.len() ==> step_ok(p, (#[trigger] r@[k]).0, dest, max_distance as int,
                blocked.cells(),
            ) && r@[k].1 == 1,
        forall|q: Pos|
            step_ok(p, q, dest, max_distance as int, blocked.cells()) ==> (exists|k: int|
                0 <= k < r@.len() && (#[trigger] r@[k]).0 == q),
{
    let nbrs = cardinal_neighbors(p);
    let mut r: Vec<(Pos, i64)> = Vec::new();
    let mut k: usize = 0;
    while k < nbrs.len()
        invariant
            p.in_bounds(),
            dest.in_bounds(),
            0 <= max_distance <= 100_000,
            k <= nbrs@.len(),
            forall|t: int| 0 <= t < nbrs@.len() ==> cardinal_adjacent(p, #[trigger] nbrs@[t]),
            forall|t: int|
                0 <= t < r@.len() ==> step_ok(p, (#[trigger] r@[t]).0, dest, max_distance as int,
                    blocked.cells(),
                ) && r@[t].1 == 1,
            forall|t: int|
                0 <= t < k && step_ok(p, #[trigger] nbrs@[t], dest, max_distance as int,
                    blocked.cells(),
                ) ==> (exists|u: int| 0 <= u < r@.len() && (#[trigger] r@[u]).0 == nbrs@[t]),
        decreases nbrs@.len() - k,
    {
        let nb = nbrs[k];
        if in_bounds_exec(nb) {
            let passable = nb == dest || !blocked.contains(nb);
            let dx: i64 = (nb.x as i64) - (dest.x as i64);
            let dy: i64 = (nb.y as i64) - (dest.y as i64);
            let axd: i64 = if dx >= 0 { dx } else { -dx };
            let ayd: i64 = if dy >= 0 { dy } else { -dy };
            let cheb: i64 = if axd >= ayd { axd } else { ayd };
            if passable && cheb <= max_distance as i64 {
                let ghost r0 = r@;
                r.push((nb, 1));
                proof {
                    assert(r@[r@.len() - 1].0 == nb);
                    assert forall|t: int|
                        0 <= t < k + 1 && step_ok(p, #[trigger] nbrs@[t], dest,
                            max_distance as int, blocked.cells()) implies (exists|u: int|
                        0 <= u < r@.len() && (#[trigger] r@[u]).0 == nbrs@[t]) by {
                        if t < k && step_ok(p, nbrs@[t], dest, max_distance as int,
                            blocked.cells()) {
                            let u = choose|u: int| 0 <= u < r0.len() && r0[u].0 == nbrs@[t];
                            assert(r@[u].0 == nbrs@[t]);
                        }
                    }
                }
            }
        }
        k = k + 1;
    }
    proof {
        assert forall|q: Pos|
            step_ok(p, q, dest, max_distance as int, blocked.cells()) implies (exists|u: int|
            0 <= u < r@.len() && (#[trigger] r@[u]).0 == q) by {
            assert(nbrs@.contains(q));
            let t = choose|t: int| 0 <= t < nbrs@.len() && nbrs@[t] == q;
        }
    }
    r
}

/// Whether the search reached its goal cell.
fn is_goal(p: Pos, dest: Pos) -> (r: bool)
    ensures
        r == (p == dest),
{
    p.x == dest.x && p.y == dest.y
}

/// The search order heuristic: squared distance to the goal plus a penalty
/// for cells the mob prefers to avoid.
fn path_heuristic(p: Pos, dest: Pos, avoid: &CellSet, soft_avoid: &CellSet) -> (r: i64)
    requires
        p.in_bounds(),
        dest.in_bounds(),
    ensures
        r == dist_sq(p, dest) + if avoid.cells().contains(p) {
            99int
        } else if soft_avoid.cells().contains(p) {
            1int
        } else {
            0int
        },
{
    let d = crate::geometry::dist_squared(p, dest);
    proof {
        assert(0 <= d <= 20_000_000_000_000) by (nonlinear_arith)
            requires
                d == (p.x - dest.x) * (p.x - dest.x) + (dest.y - p.y) * (dest.y - p.y),
                -2_000_000 <= p.x - dest.x <= 2_000_000,
                -2_000_000 <= dest.y - p.y <= 2_000_000,
        ;
    }
    if avoid.contains(p) {
        d + 99
    } else if soft_avoid.contains(p) {
        d + 1
    } else {
        d
    }
}

/// Relies on pathfinding::directed::astar::astar: when it returns a path,
/// the path starts at the start node, every later node comes from the
/// successor list of its predecessor, and the last node satisfies the success
/// test; when it returns nothing, no such node chain exists. Shortness of the
/// path is not relied upon, since the heuristic passed here may overestimate.
/// The search explores only the start and returned successors, all within the
/// coordinate range the successor function needs.
#[verifier::external_body]
fn astar_search(
    start: Pos,
    dest: Pos,
    max_distance: i32,
    blocked: &CellSet,
    avoid: &CellSet,
    soft_avoid: &CellSet,
) -> (r: Option<Vec<Pos>>)
    requires
        start.in_bounds(),
        dest.in_bounds(),
        0 <= max_distance <= 100_000,
    ensures
        r matches Some(path) ==> valid_path(path@, start, dest, max_distance as int,
            blocked.cells(),
        ),
        r is None ==> !(exists|path: Seq<Pos>|
            valid_path(path, start, dest, max_distance as int, blocked.cells())),
{
    pathfinding::directed::astar::astar(
        &start,
        |p: &Pos| successors_of(*p, dest, max_distance, blocked),
        |p: &Pos| path_heuristic(*p, dest, avoid, soft_avoid),
        |p: &Pos| is_goal(*p, dest),
    ).map(|pc| pc.0)
}

/// Weighted A* from `start` to `dest`, at unit cost per step, pruned by the
/// blocked set (except at the goal itself) and by the distance bound, with
/// avoid sets shaping the search order. Returns the path including both
/// endpoints, or `None` exactly when no legal path exists.
pub fn path(
    start: Pos,
    dest: Pos,
    max_distance: i32,
    blocked: &CellSet,
    avoid: &CellSet,
    soft_avoid: &CellSet,
) -> (r: Option<Vec<Pos>>)
    requires
        start.in_bounds(),
        dest.in_bounds(),
        0 <= max_distance <= 100_000,
    ensures
        r matches Some(p) ==> valid_path(p@, start, dest, max_distance as int, blocked.cells())
            && p@[0] == start && p@.last() == dest,
        r is None ==> !(exists|p: Seq<Pos>|
            valid_path(p, start, dest, max_distance as int, blocked.cells())),
{
    astar_search(start, dest, max_distance, blocked, avoid, soft_avoid)
}

/// Any legal path is at least as long as the straight-line walk: one more
/// cell than the Manhattan distance between its endpoints.
pub proof fn lemma_path_min_length(
    path: Seq<Pos>,
    start: Pos,
    dest: Pos,
    max_distance: int,
    blocked: Set<Pos>,
)
    requires
        valid_path(path, start, dest, max_distance, blocked),
    ensures
        path.len() >= manhattan(start, dest) + 1,
    decreases path.len(),
{
    if path.len() == 1 {
        assert(start == dest);
    } else {
        let rest = path.skip(1);
        assert(rest[0] == path[1]);
        assert(rest.last() == path.last());
        assert forall|i: int|
            1 <= i < rest.len() implies step_ok(rest[i - 1], #[trigger] rest[i], dest,
            max_distance, blocked) by {
            assert(rest[i] == path[i + 1] && rest[i - 1] == path[i]);
        }
        assert(step_ok(path[0], path[1], dest, max_distance, blocked));
        lemma_path_min_length(rest, path[1], dest, max_distance, blocked);
        assert(manhattan(path[1], dest) >= manhattan(start, dest) - 1);
    }
}

/// On an open grid, with the distance bound at least the true distance, a
/// straight walk of exactly the Manhattan length is legal, so the search owes
/// a path.
pub proof fn lemma_open_grid_path_exists(
    start: Pos,
    dest: Pos,
    max_distance: int,
    blocked: Set<Pos>,
)
    requires
        start.in_bounds(),
        dest.in_bounds(),
        forall|q: Pos| !blocked.contains(q),
        chebyshev(start, dest) <= max_distance,
    ensures
        exists|path: Seq<Pos>|
            valid_path(path, start, dest, max_distance, blocked) && path.len() == manhattan(
                start,
                dest,
            ) + 1,
{
    let dx = dest.x - start.x;
    let dy = dest.y - start.y;
    let ax = abs_int(dx);
    let sx: int = if dx >= 0 {
        1
    } else {
        -1
    };
    let sy: int = if dy >= 0 {
        1
    } else {
        -1
    };
    let m = manhattan(start, dest);
    let path = Seq::new((m + 1) as nat, |i: int| straight_cell(start, dest, i));
    assert(path[0] == start) by {
        assert(straight_cell(start, dest, 0) == (Pos { x: (start.x + sx * 0) as i32, y: start.y }));
        assert(sx * 0 == 0) by (nonlinear_arith);
    }
    assert(path.last() == dest) by {
        assert(path[m as int] == straight_cell(start, dest, m));
        if m <= ax {
            assert(abs_int(dy) == 0 && m == ax);
            assert(dy == 0);
            assert(sx * ax == dx) by (nonlinear_arith)
                requires
                    ax == abs_int(dx),
                    sx == (if dx >= 0 {
                        1int
                    } else {
                        -1int
                    }),
            ;
            assert(start.x + sx * m == dest.x);
            assert((start.x + sx * m) as i32 == dest.x);
            assert(straight_cell(start, dest, m) == dest);
        } else {
            assert(sy * (m - ax) == dy) by (nonlinear_arith)
                requires
                    m == ax + abs_int(dy),
                    sy == (if dy >= 0 {
                        1int
                    } else {
                        -1int
                    }),
            ;
            assert(start.y + sy * (m - ax) == dest.y);
            assert((start.y + sy * (m - ax)) as i32 == dest.y);
            assert(straight_cell(start, dest, m) == dest);
        }
    }
    assert forall|i: int| 1 <= i < path.len() implies step_ok(path[i - 1], #[trigger] path[i],
        dest, max_distance, blocked) by {
        lemma_straight_step(start, dest, i, path[i - 1], path[i], max_distance);
    }
    assert(valid_path(path, start, dest, max_distance, blocked));
}

/// One step of the straight walk is legal: adjacent, in range, and no
/// farther from the goal than the start is, axis by axis.
#[verifier::rlimit(60)]
proof fn lemma_straight_step(start: Pos, dest: Pos, i: int, a: Pos, b: Pos, max_distance: int)
    requires
        start.in_bounds(),
        dest.in_bounds(),
        chebyshev(start, dest) <= max_distance,
        1 <= i <= manhattan(start, dest),
        a == straight_cell(start, dest, i - 1),
        b == straight_cell(start, dest, i),
    ensures
        cardinal_adjacent(a, b),
        b.in_bounds(),
        chebyshev(b, dest) <= max_distance,
{
    let dx = dest.x - start.x;
    let dy = dest.y - start.y;
    let ax = abs_int(dx);
    let ay = abs_int(dy);
    let sx: int = if dx >= 0 {
        1
    } else {
        -1
    };
    let sy: int = if dy >= 0 {
        1
    } else {
        -1
    };
    assert(0 <= ax <= 2_000_000 && 0 <= ay <= 2_000_000);
    assert(i <= ax + ay);
    if i <= ax {
        // Both cells lie on the x leg.
        assert(0 <= sx * (i - 1) <= dx || dx <= sx * (i - 1) <= 0) by (nonlinear_arith)
            requires
                sx == (if dx >= 0 {
                    1int
                } else {
                    -1int
                }),
                0 <= i - 1 <= abs_int(dx),
                ax == abs_int(dx),
        ;
        assert(0 <= sx * i <= dx || dx <= sx * i <= 0) by (nonlinear_arith)
            requires
                sx == (if dx >= 0 {
                    1int
                } else {
                    -1int
                }),
                0 <= i <= abs_int(dx),
        ;
        assert(-2_000_000 <= start.x + sx * (i - 1) <= 2_000_000);
        assert(-2_000_000 <= start.x + sx * i <= 2_000_000);
        assert(a.x == start.x + sx * (i - 1) && a.y == start.y);
        assert(b.x == start.x + sx * i && b.y == start.y);
        assert(-1_000_000 <= b.x <= 1_000_000);
        assert(manhattan(a, b) == abs_int(sx * i - sx * (i - 1)));
        assert(sx * i - sx * (i - 1) == sx) by (nonlinear_arith);
        assert(manhattan(a, b) == 1);
        // The walk never moves past the goal on either axis.
        assert(abs_int(b.x - dest.x) <= abs_int(start.x - dest.x));
        assert(abs_int(b.y - dest.y) == abs_int(start.y - dest.y));
        assert(chebyshev(b, dest) <= chebyshev(start, dest));
    } else {
        // `b` lies on the y leg; `a` is either the corner or also on it.
        assert(0 <= sy * (i - ax) <= dy || dy <= sy * (i - ax) <= 0) by (nonlinear_arith)
            requires
                sy == (if dy >= 0 {
                    1int
                } else {
                    -1int
                }),
                0 <= i - ax <= abs_int(dy),
        ;
        assert(-2_000_000 <= start.y + sy * (i - ax) <= 2_000_000);
        assert(b.x == dest.x && b.y == start.y + sy * (i - ax));
        assert(-1_000_000 <= b.y <= 1_000_000);
        if i - 1 <= ax {
            assert(i - 1 == ax);
            assert(sx * ax == dx) by (nonlinear_arith)
                requires
                    ax == abs_int(dx),
                    sx == (if dx >= 0 {
                        1int
                    } else {
                        -1int
                    }),
            ;
            assert(a.x == start.x + sx * ax && a.y == start.y);
            assert(a.x == dest.x);
            assert(sy * (i - ax) == sy) by (nonlinear_arith)
                requires
                    i - ax == 1,
            ;
            assert(b.y == start.y + sy);
            assert(manhattan(a, b) == 1);
        } else {
            assert(0 <= sy * (i - 1 - ax) <= dy || dy <= sy * (i - 1 - ax) <= 0)
                by (nonlinear_arith)
                requires
                    sy == (if dy >= 0 {
                        1int
                    } else {
                        -1int
                    }),
                    0 <= i - 1 - ax <= abs_int(dy),
            ;
            assert(-2_000_000 <= start.y + sy * (i - 1 - ax) <= 2_000_000);
            assert(a.x == dest.x && a.y == start.y + sy * (i - 1 - ax));
            assert(sy * (i - ax) - sy * (i - 1 - ax) == sy) by (nonlinear_arith);
            assert(manhattan(a, b) == abs_int(sy * (i - ax) - sy * (i - 1 - ax)));
            assert(manhattan(a, b) == 1);
        }
        assert(abs_int(b.x - dest.x) == 0);
        assert(abs_int(b.y - dest.y) <= abs_int(start.y - dest.y));
        assert(chebyshev(b, dest) <= chebyshev(start, dest));
    }
}

/// The cell reached after `i` steps of the straight walk from `start` to
/// `dest`: first along x, then along y.
pub open spec fn straight_cell(start: Pos, dest: Pos, i: int) -> Pos {
    let dx = dest.x - start.x;
    let dy = dest.y - start.y;
    let ax = abs_int(dx);
    let sx: int = if dx >= 0 {
        1
    } else {
        -1
    };
    let sy: int = if dy >= 0 {
        1
    } else {
        -1
    };
    if i <= ax {
        Pos { x: (start.x + sx * i) as i32, y: start.y }
    } else {
        Pos { x: dest.x, y: (start.y + sy * (i - ax)) as i32 }
    }
}

/// One step a fleeing mob may take: cardinal, in range, unblocked.
pub open spec fn hide_step(a: Pos, b: Pos, walk_blocked: Set<Pos>) -> bool {
    cardinal_adjacent(a, b) && b.in_bounds() && !walk_blocked.contains(b)
}

/// A walk from `start` to `p` through unblocked cells.
pub open spec fn is_hide_path(path: Seq<Pos>, start: Pos, p: Pos, walk_blocked: Set<Pos>) -> bool {
    &&& path.len() >= 1
    &&& path[0] == start
    &&& path.last() == p
    &&& (forall|i: int|
        1 <= i < path.len() ==> hide_step(path[i - 1], #[trigger] path[i], walk_blocked))
}

/// A cell reachable from `start` through unblocked steps (the start itself
/// included).
pub open spec fn hide_reachable(walk_blocked: Set<Pos>, start: Pos, p: Pos) -> bool {
    exists|path: Seq<Pos>| is_hide_path(path, start, p, walk_blocked)
}

/// No sight-blocking cell has a strictly shorter unblocked walk from `start`
/// than `p` has: `p` is a nearest spot in breadth-first order.
pub open spec fn nearest_hidden(
    p: Pos,
    start: Pos,
    walk_blocked: Set<Pos>,
    sight_blocked: Set<Pos>,
) -> bool {
    forall|q: Pos, qp: Seq<Pos>|
        #[trigger] is_hide_path(qp, start, q, walk_blocked) && sight_blocked.contains(q)
            ==> (exists|pp: Seq<Pos>|
            is_hide_path(pp, start, p, walk_blocked) && pp.len() <= qp.len())
}

/// The unblocked cardinal neighbours of `p`.
fn unblocked_neighbors(p: Pos, walk_blocked: &CellSet) -> (r: Vec<Pos>)
    requires
        p.in_bounds(),
    ensures
        forall|k: int|
            0 <= k < r@.len() ==> hide_step(p, #[trigger] r@[k], walk_blocked.cells()),
{
    let nbrs = cardinal_neighbors(p);
    let mut r: Vec<Pos> = Vec::new();
    let mut k: usize = 0;
    while k < nbrs.len()
        invariant
            p.in_bounds(),
            k <= nbrs@.len(),
            forall|t: int| 0 <= t < nbrs@.len() ==> cardinal_adjacent(p, #[trigger] nbrs@[t]),
            forall|t: int|
                0 <= t < r@.len() ==> hide_step(p, #[trigger] r@[t], walk_blocked.cells()),
        decreases nbrs@.len() - k,
    {
        let nb = nbrs[k];
        if in_bounds_exec(nb) && !walk_blocked.contains(nb) {
            r.push(nb);
        }
        k = k + 1;
    }
    r
}

/// Relies on pathfinding::directed::bfs::bfs_reach: it yields the nodes
/// reachable from the start through the successor function in breadth-first
/// order, the start itself first. So anything found satisfies the predicate
/// and is reachable; the first match is one at minimal walk distance, so no
/// sight-blocking cell has a strictly shorter unblocked walk; and a
/// sight-blocking start is itself returned at once. The walk is capped to
/// keep the search bounded on open ground; when nothing is found within the
/// cap, nothing more is promised.
#[verifier::external_body]
fn bfs_find_hidden(
    start: Pos,
    walk_blocked: &CellSet,
    sight_blocked: &CellSet,
    cap: usize,
) -> (r: Option<Pos>)
    requires
        start.in_bounds(),
        cap >= 1,
    ensures
        r matches Some(p) ==> sight_blocked.cells().contains(p) && hide_reachable(
            walk_blocked.cells(),
            start,
            p,
        ) && nearest_hidden(p, start, walk_blocked.cells(), sight_blocked.cells()),
        sight_blocked.cells().contains(start) ==> r == Some(start),
{
    pathfinding::directed::bfs::bfs_reach(start, |p: &Pos| unblocked_neighbors(*p, walk_blocked))
        .take(cap)
        .find(|p: &Pos| sight_blocked.contains(*p))
}

/// Breadth-first search from `source` over unblocked cells for a nearest
/// cell that blocks sight: where a stealthy mob flees to. A source already in
/// cover is its own hiding spot, so `None` means in particular that the
/// source stands exposed.
pub fn find_hiding_spot(source: Pos, walk_blocked: &CellSet, sight_blocked: &CellSet) -> (r:
    Option<Pos>)
    requires
        source.in_bounds(),
    ensures
        r matches Some(p) ==> sight_blocked.cells().contains(p) && hide_reachable(
            walk_blocked.cells(),
            source,
            p,
        ) && nearest_hidden(p, source, walk_blocked.cells(), sight_blocked.cells()),
        sight_blocked.cells().contains(source) ==> r == Some(source),
        r is None ==> !sight_blocked.cells().contains(source),
{
    bfs_find_hidden(source, walk_blocked, sight_blocked, HIDE_SEARCH_CAP)
}

} // verus!
