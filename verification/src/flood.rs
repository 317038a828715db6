//! Flood fill: reachability from a set of seed cells through walkable cells,
//! stepping only in the four cardinal directions.
//!
//! A seed counts as reached whether or not it is itself walkable; every later
//! cell of a path must be walkable.

use vstd::prelude::*;
use crate::geometry::{Pos, Rect, cardinal_adjacent, cardinal_neighbors};
use crate::grid::BitGrid;

verus! {

/// A witness path for reachability: starts at a seed, then moves one cardinal
/// step at a time through walkable cells.
pub open spec fn is_flood_path(walkable: BitGrid, seeds: Seq<Pos>, path: Seq<Pos>) -> bool {
    &&& path.len() >= 1
    &&& seeds.contains(path[0])
    &&& forall|i: int|
        1 <= i < path.len() ==> cardinal_adjacent(path[i - 1], #[trigger] path[i])
            && walkable.at(path[i])
}

/// A cell is reached by the flood when some witness path ends there.
#[verifier::opaque]
pub open spec fn flood_reaches(walkable: BitGrid, seeds: Seq<Pos>, p: Pos) -> bool {
    exists|path: Seq<Pos>| is_flood_path(walkable, seeds, path) && path.last() == p
}

pub proof fn lemma_seed_reached(walkable: BitGrid, seeds: Seq<Pos>, i: int)
    requires
        0 <= i < seeds.len(),
    ensures
        flood_reaches(walkable, seeds, seeds[i]),
{
    reveal(flood_reaches);
    let path = seq![seeds[i]];
    assert(is_flood_path(walkable, seeds, path) && path.last() == seeds[i]);
}

pub proof fn lemma_flood_step(walkable: BitGrid, seeds: Seq<Pos>, p: Pos, q: Pos)
    requires
        flood_reaches(walkable, seeds, p),
        cardinal_adjacent(p, q),
        walkable.at(q),
    ensures
        flood_reaches(walkable, seeds, q),
{
    reveal(flood_reaches);
    let path = choose|path: Seq<Pos>| is_flood_path(walkable, seeds, path) && path.last() == p;
    let ext = path.push(q);
    assert(ext[0] == path[0]);
    assert forall|i: int|
        1 <= i < ext.len() implies cardinal_adjacent(ext[i - 1], #[trigger] ext[i]) && walkable.at(
        ext[i],
    ) by {
        if i < path.len() {
            assert(ext[i] == path[i] && ext[i - 1] == path[i - 1]);
        } else {
            assert(ext[i] == q && ext[i - 1] == path.last());
        }
    }
    assert(is_flood_path(walkable, seeds, ext) && ext.last() == q);
}

/// Every cell along a witness path is itself reached.
pub proof fn lemma_flood_reaches_along(
    walkable: BitGrid,
    seeds: Seq<Pos>,
    path: Seq<Pos>,
    i: int,
)
    requires
        is_flood_path(walkable, seeds, path),
        0 <= i < path.len(),
    ensures
        flood_reaches(walkable, seeds, path[i]),
{
    reveal(flood_reaches);
    let prefix = path.take(i + 1);
    assert(prefix[0] == path[0]);
    assert forall|k: int|
        1 <= k < prefix.len() implies cardinal_adjacent(prefix[k - 1], #[trigger] prefix[k])
        && walkable.at(prefix[k]) by {
        assert(prefix[k] == path[k] && prefix[k - 1] == path[k - 1]);
        assert(cardinal_adjacent(path[k - 1], path[k]) && walkable.at(path[k]));
    }
    assert(is_flood_path(walkable, seeds, prefix) && prefix.last() == path[i]);
}

/// Whatever a longer sequence with the same prefix does not contain, the
/// prefix does not contain either.
proof fn lemma_not_contains_prefix(s_old: Seq<Pos>, s_new: Seq<Pos>, p: Pos)
    requires
        s_new.len() >= s_old.len(),
        forall|k: int| 0 <= k < s_old.len() ==> s_new[k] == s_old[k],
        !s_new.contains(p),
    ensures
        !s_old.contains(p),
{
    if s_old.contains(p) {
        let k = choose|k: int| 0 <= k < s_old.len() && s_old[k] == p;
        assert(s_new[k] == p);
    }
}

/// The fill is complete against a grid that is closed under walkable steps.
proof fn lemma_flood_complete(walkable: BitGrid, seeds: Seq<Pos>, visited: BitGrid, path: Seq<Pos>)
    requires
        is_flood_path(walkable, seeds, path),
        forall|i: int| 0 <= i < seeds.len() ==> visited.at(#[trigger] seeds[i]),
        forall|p: Pos, q: Pos|
            visited.at(p) && #[trigger] cardinal_adjacent(p, q) && walkable.at(q) ==> visited.at(q),
    ensures
        visited.at(path.last()),
    decreases path.len(),
{
    if path.len() == 1 {
        let i = choose|i: int| 0 <= i < seeds.len() && seeds[i] == path[0];
        assert(visited.at(seeds[i]));
    } else {
        let front = path.drop_last();
        assert(is_flood_path(walkable, seeds, front));
        lemma_flood_complete(walkable, seeds, visited, front);
        assert(cardinal_adjacent(path[path.len() - 2], path.last()));
        assert(visited.at(front.last()));
    }
}

/// Visit every walkable neighbour of `p` that is not yet visited, pushing the
/// newly visited cells.
fn flood_expand(
    walkable: &BitGrid,
    visited: &mut BitGrid,
    stack: &mut Vec<Pos>,
    p: Pos,
    Ghost(seeds): Ghost<Seq<Pos>>,
)
    requires
        walkable.wf(),
        old(visited).wf(),
        old(visited).rect() == walkable.rect(),
        old(visited).at(p),
        forall|q: Pos| old(visited).at(q) ==> flood_reaches(*walkable, seeds, q),
        forall|k: int| 0 <= k < old(stack)@.len() ==> old(visited).at(#[trigger] old(stack)@[k]),
    ensures
        final(visited).wf(),
        final(visited).rect() == walkable.rect(),
        forall|q: Pos| old(visited).at(q) ==> final(visited).at(q),
        forall|q: Pos|
            #[trigger] cardinal_adjacent(p, q) && walkable.at(q) ==> final(visited).at(q),
        forall|q: Pos| final(visited).at(q) ==> flood_reaches(*walkable, seeds, q),
        forall|k: int| 0 <= k < final(stack)@.len() ==> final(visited).at(#[trigger] final(stack)@[k]),
        final(stack)@.len() >= old(stack)@.len(),
        forall|k: int| 0 <= k < old(stack)@.len() ==> final(stack)@[k] == old(stack)@[k],
        forall|q: Pos|
            final(visited).at(q) && !old(visited).at(q) ==> final(stack)@.contains(q),
        final(visited).count() >= old(visited).count(),
        final(stack)@.len() > old(stack)@.len() ==> final(visited).count() > old(visited).count(),
{
    proof {
        assert(p.in_bounds());
    }
    let nbrs = cardinal_neighbors(p);
    let ghost stack_in = stack@;
    let ghost count_in = visited.count();
    let mut j: usize = 0;
    while j < nbrs.len()
        invariant
            walkable.wf(),
            visited.wf(),
            visited.rect() == walkable.rect(),
            j <= nbrs@.len(),
            forall|k: int| 0 <= k < nbrs@.len() ==> cardinal_adjacent(p, #[trigger] nbrs@[k]),
            visited.at(p),
            forall|q: Pos| old(visited).at(q) ==> visited.at(q),
            forall|k: int| 0 <= k < j ==> (walkable.at(#[trigger] nbrs@[k]) ==> visited.at(nbrs@[k])),
            forall|q: Pos| visited.at(q) ==> flood_reaches(*walkable, seeds, q),
            forall|k: int| 0 <= k < stack@.len() ==> visited.at(#[trigger] stack@[k]),
            stack@.len() >= stack_in.len(),
            forall|k: int| 0 <= k < stack_in.len() ==> stack@[k] == stack_in[k],
            forall|q: Pos| visited.at(q) && !old(visited).at(q) ==> stack@.contains(q),
            visited.count() >= count_in,
            stack@.len() > stack_in.len() ==> visited.count() > count_in,
        decreases nbrs@.len() - j,
    {
        let q = nbrs[j];
        if walkable.get(q) && !visited.get(q) {
            proof {
                assert(visited.at(p));
                lemma_flood_step(*walkable, seeds, p, q);
            }
            let ghost st1 = stack@;
            visited.set(q, true);
            stack.push(q);
            proof {
                assert(stack@[stack@.len() - 1] == q);
                assert forall|q2: Pos|
                    visited.at(q2) && !old(visited).at(q2) implies stack@.contains(q2) by {
                    if q2 != q {
                        let k = choose|k: int| 0 <= k < st1.len() && st1[k] == q2;
                        assert(stack@[k] == q2);
                    }
                }
            }
        }
        j = j + 1;
    }
    proof {
        assert forall|q: Pos|
            #[trigger] cardinal_adjacent(p, q) && walkable.at(q) implies visited.at(q) by {
            assert(nbrs@.contains(q));
            let k = choose|k: int| 0 <= k < nbrs@.len() && nbrs@[k] == q;
            assert(visited.at(nbrs@[k]));
        }
    }
}

/// Compute the set of cells reached by the flood, as a grid over the walkable
/// grid's rectangle. All seeds must lie in that rectangle.
#[verifier::rlimit(60)]
pub fn flood(seeds: &Vec<Pos>, walkable: &BitGrid) -> (r: BitGrid)
    requires
        walkable.wf(),
        forall|i: int| 0 <= i < seeds@.len() ==> walkable.rect().spec_contains(#[trigger] seeds@[i]),
    ensures
        r.wf(),
        r.rect() == walkable.rect(),
        forall|p: Pos| r.at(p) <==> flood_reaches(*walkable, seeds@, p),
{
    let rect: Rect = walkable.rect_of();
    let mut visited: BitGrid = BitGrid::new(rect);
    let mut stack: Vec<Pos> = Vec::new();
    let mut i: usize = 0;
    while i < seeds.len()
        invariant
            walkable.wf(),
            rect == walkable.rect(),
            forall|k: int| 0 <= k < seeds@.len() ==> rect.spec_contains(#[trigger] seeds@[k]),
            i <= seeds@.len(),
            visited.wf(),
            visited.rect() == rect,
            forall|k: int| 0 <= k < i ==> visited.at(#[trigger] seeds@[k]),
            forall|p: Pos| visited.at(p) ==> flood_reaches(*walkable, seeds@, p),
            forall|k: int| 0 <= k < stack@.len() ==> visited.at(#[trigger] stack@[k]),
            forall|p: Pos| visited.at(p) ==> stack@.contains(p),
        decreases seeds@.len() - i,
    {
        let s = seeds[i];
        if !visited.get(s) {
            let ghost st0 = stack@;
            visited.set(s, true);
            stack.push(s);
            proof {
                lemma_seed_reached(*walkable, seeds@, i as int);
                assert(stack@[stack@.len() - 1] == s);
                assert forall|p: Pos| visited.at(p) implies stack@.contains(p) by {
                    if p != s {
                        let k = choose|k: int| 0 <= k < st0.len() && st0[k] == p;
                        assert(stack@[k] == p);
                    }
                }
            }
        }
        i = i + 1;
    }
    while stack.len() > 0
        invariant
            walkable.wf(),
            rect == walkable.rect(),
            visited.wf(),
            visited.rect() == rect,
            forall|k: int| 0 <= k < seeds@.len() ==> visited.at(#[trigger] seeds@[k]),
            forall|p: Pos| visited.at(p) ==> flood_reaches(*walkable, seeds@, p),
            forall|k: int| 0 <= k < stack@.len() ==> visited.at(#[trigger] stack@[k]),
            forall|p: Pos, q: Pos|
                visited.at(p) && !stack@.contains(p) && #[trigger] cardinal_adjacent(p, q)
                    && walkable.at(q) ==> visited.at(q),
        decreases rect.area() - visited.count(), stack@.len(),
    {
        proof {
            visited.lemma_count_bounds();
        }
        let ghost stack0 = stack@;
        let p = stack.pop().unwrap();
        proof {
            assert(visited.at(p)) by {
                assert(stack0[stack0.len() - 1] == p);
            }
        }
        let ghost visited0 = visited;
        let ghost stack1 = stack@;
        flood_expand(walkable, &mut visited, &mut stack, p, Ghost(seeds@));
        proof {
            visited.lemma_count_bounds();
            assert forall|p2: Pos, q: Pos|
                visited.at(p2) && !stack@.contains(p2) && #[trigger] cardinal_adjacent(p2, q)
                    && walkable.at(q) implies visited.at(q) by {
                if p2 != p {
                    if visited0.at(p2) {
                        // An already-visited cell off the stack: the closure
                        // property before this iteration still applies.
                        lemma_not_contains_prefix(stack1, stack@, p2);
                        assert(!stack0.contains(p2)) by {
                            if stack0.contains(p2) {
                                let k = choose|k: int|
                                    0 <= k < stack0.len() && stack0[k] == p2;
                                assert(k < stack0.len() - 1);
                                assert(stack1[k] == p2);
                            }
                        }
                        assert(visited0.at(q));
                    } else {
                        // Newly visited cells sit on the stack.
                        assert(stack@.contains(p2));
                    }
                }
            }
        }
    }
    proof {
        assert forall|p: Pos, q: Pos|
            visited.at(p) && #[trigger] cardinal_adjacent(p, q) && walkable.at(q)
                implies visited.at(q) by {
            assert(!stack@.contains(p));
        }
        reveal(flood_reaches);
        assert forall|p: Pos| visited.at(p) <==> flood_reaches(*walkable, seeds@, p) by {
            if flood_reaches(*walkable, seeds@, p) {
                let path = choose|path: Seq<Pos>|
                    is_flood_path(*walkable, seeds@, path) && path.last() == p;
                lemma_flood_complete(*walkable, seeds@, visited, path);
            }
        }
    }
    visited
}

} // verus!
