//! The room adjacency graph built from a BSP tree, connected by
//! construction: merging two subtree graphs adds exactly one bridge edge
//! between a pair of rooms that face each other across the split wall.

use vstd::prelude::*;
use crate::geometry::Rect;
use crate::bsp::{BspTree, get_connecting_wall, rooms_adjacent, tree_rooms, tree_wf};

verus! {

/// `j` occurs in the adjacency list of `i`.
pub open spec fn edge_in(adj: Seq<Vec<usize>>, i: int, j: int) -> bool {
    &&& 0 <= i < adj.len()
    &&& exists|k: int| 0 <= k < adj[i]@.len() && #[trigger] adj[i]@[k] as int == j
}

/// Total length of all adjacency lists: twice the number of undirected
/// edges.
pub open spec fn edge_total(adj: Seq<Vec<usize>>) -> int
    decreases adj.len(),
{
    if adj.len() == 0 {
        0
    } else {
        edge_total(adj.drop_last()) + adj.last()@.len()
    }
}

proof fn lemma_edge_total_push(adj: Seq<Vec<usize>>, v: Vec<usize>)
    ensures
        edge_total(adj.push(v)) == edge_total(adj) + v@.len(),
{
    assert(adj.push(v).drop_last() =~= adj);
}

proof fn lemma_edge_total_update(adj: Seq<Vec<usize>>, i: int, v: Vec<usize>)
    requires
        0 <= i < adj.len(),
    ensures
        edge_total(adj.update(i, v)) == edge_total(adj) - adj[i]@.len() + v@.len(),
    decreases adj.len(),
{
    let t = adj.update(i, v);
    if i == adj.len() - 1 {
        assert(t.drop_last() =~= adj.drop_last());
    } else {
        assert(t.drop_last() =~= adj.drop_last().update(i, v));
        lemma_edge_total_update(adj.drop_last(), i, v);
    }
}

/// `l1` is `l2` with every index raised by `d`.
pub open spec fn shifted_list(l1: Seq<usize>, l2: Seq<usize>, d: int) -> bool {
    l1.len() == l2.len() && (forall|u: int| 0 <= u < l1.len() ==> #[trigger] l1[u] as int == l2[u]
        + d)
}

/// A room graph: rooms by index, and an undirected adjacency structure kept
/// as mirrored directed lists.
pub struct RoomGraph {
    pub rooms: Vec<Rect>,
    pub adj: Vec<Vec<usize>>,
}

impl RoomGraph {
    pub open spec fn n(self) -> int {
        self.rooms@.len() as int
    }

    pub open spec fn has_edge(self, i: int, j: int) -> bool {
        edge_in(self.adj@, i, j)
    }

    /// Well-formed: one list per room, lists hold valid indices, edges are
    /// mirrored, and every edge joins spatially adjacent rooms.
    pub open spec fn wf(self) -> bool {
        &&& self.adj@.len() == self.rooms@.len()
        &&& (forall|i: int| 0 <= i < self.n() ==> (#[trigger] self.rooms@[i]).wf())
        &&& (forall|i: int, j: int|
            #[trigger] self.has_edge(i, j) ==> 0 <= j < self.n() && self.has_edge(j, i)
                && rooms_adjacent(self.rooms@[i], self.rooms@[j]))
    }

    /// An index path through graph edges.
    pub open spec fn is_path(self, p: Seq<int>) -> bool {
        &&& p.len() >= 1
        &&& (forall|k: int| 0 <= k < p.len() ==> 0 <= #[trigger] p[k] < self.n())
        &&& (forall|k: int| 1 <= k < p.len() ==> self.has_edge(p[k - 1], #[trigger] p[k]))
    }

    /// Some path leads from room `i` to room `j`.
    #[verifier::opaque]
    pub open spec fn reachable(self, i: int, j: int) -> bool {
        exists|p: Seq<int>| self.is_path(p) && p[0] == i && p.last() == j
    }

    /// Every room reaches every other room.
    pub open spec fn connected(self) -> bool {
        forall|i: int, j: int|
            0 <= i < self.n() && 0 <= j < self.n() ==> #[trigger] self.reachable(i, j)
    }

    pub fn len(&self) -> (r: usize)
        ensures
            r == self.n(),
    {
        self.rooms.len()
    }

    pub fn room_at(&self, i: usize) -> (r: Rect)
        requires
            i < self.n(),
        ensures
            r == self.rooms@[i as int],
    {
        self.rooms[i]
    }

    /// The graph edges of room `i`, as room indices.
    pub fn adj_of(&self, i: usize) -> (r: &Vec<usize>)
        requires
            self.wf(),
            i < self.n(),
        ensures
            r@ == self.adj@[i as int]@,
            forall|k: int| 0 <= k < r@.len() ==> self.has_edge(i as int, #[trigger] r@[k] as int),
    {
        proof {
            assert forall|k: int|
                0 <= k < self.adj@[i as int]@.len() implies self.has_edge(
                i as int,
                #[trigger] self.adj@[i as int]@[k] as int,
            ) by {
                assert(edge_in(self.adj@, i as int, self.adj@[i as int]@[k] as int));
            }
        }
        &self.adj[i]
    }

    /// The indices of all rooms that lie across a one-cell wall from room
    /// `i`, whether or not the graph holds an edge to them.
    pub fn find_spatially_adjacent(&self, i: usize) -> (r: Vec<usize>)
        requires
            self.wf(),
            i < self.n(),
        ensures
            forall|k: int|
                0 <= k < r@.len() ==> #[trigger] r@[k] < self.n() && rooms_adjacent(
                    self.rooms@[i as int],
                    self.rooms@[r@[k] as int],
                ),
    {
        let mut out: Vec<usize> = Vec::new();
        let mut j: usize = 0;
        while j < self.rooms.len()
            invariant
                self.wf(),
                i < self.n(),
                j <= self.n(),
                forall|k: int|
                    0 <= k < out@.len() ==> #[trigger] out@[k] < self.n() && rooms_adjacent(
                        self.rooms@[i as int],
                        self.rooms@[out@[k] as int],
                    ),
            decreases self.n() - j,
        {
            if j != i {
                if get_connecting_wall(self.rooms[i], self.rooms[j]).is_some() {
                    out.push(j);
                }
            }
            j = j + 1;
        }
        out
    }

    /// Add the mirrored edge between two spatially adjacent rooms.
    pub fn add_connection(&mut self, i: usize, j: usize)
        requires
            old(self).wf(),
            i < old(self).n(),
            j < old(self).n(),
            rooms_adjacent(old(self).rooms@[i as int], old(self).rooms@[j as int]),
        ensures
            final(self).wf(),
            final(self).rooms@ == old(self).rooms@,
            final(self).has_edge(i as int, j as int),
            forall|a: int, b: int| old(self).has_edge(a, b) ==> final(self).has_edge(a, b),
            forall|a: int, b: int|
                #[trigger] final(self).has_edge(a, b) ==> old(self).has_edge(a, b) || (a == i as int
                    && b == j as int) || (a == j as int && b == i as int),
            old(self).connected() ==> final(self).connected(),
            final(self).adj@.len() == old(self).adj@.len(),
            forall|a: int|
                0 <= a < old(self).adj@.len() && a != i as int && a != j as int
                    ==> final(self).adj@[a]@ == old(self).adj@[a]@,
            i != j ==> final(self).adj@[i as int]@ == old(self).adj@[i as int]@.push(j),
            i != j ==> final(self).adj@[j as int]@ == old(self).adj@[j as int]@.push(i),
            i == j ==> final(self).adj@[i as int]@ == old(self).adj@[i as int]@.push(j).push(i),
            edge_total(final(self).adj@) == edge_total(old(self).adj@) + 2,
    {
        let ghost g0 = *self;
        let list_i = &mut self.adj[i];
        list_i.push(j);
        let ghost g_mid = *self;
        let list_j = &mut self.adj[j];
        list_j.push(i);
        proof {
            lemma_push_edges(g0, *self, i, j);
            if g0.connected() {
                lemma_superset_connected(g0, *self);
            }
            lemma_edge_total_update(g0.adj@, i as int, g_mid.adj@[i as int]);
            lemma_edge_total_update(g_mid.adj@, j as int, self.adj@[j as int]);
        }
    }
}

/// After mirror-pushing `j` into list `i` and `i` into list `j`, the edges
/// are the old ones plus the mirrored pair, and well-formedness carries over.
proof fn lemma_push_edges(g0: RoomGraph, g1: RoomGraph, iu: usize, ju: usize)
    requires
        g0.wf(),
        iu < g0.n(),
        ju < g0.n(),
        rooms_adjacent(g0.rooms@[iu as int], g0.rooms@[ju as int]),
        g1.rooms@ == g0.rooms@,
        g1.adj@.len() == g0.adj@.len(),
        iu != ju ==> g1.adj@[iu as int]@ == g0.adj@[iu as int]@.push(ju),
        iu != ju ==> g1.adj@[ju as int]@ == g0.adj@[ju as int]@.push(iu),
        iu == ju ==> g1.adj@[iu as int]@ == g0.adj@[iu as int]@.push(ju).push(iu),
        forall|a: int|
            0 <= a < g1.adj@.len() && a != iu as int && a != ju as int ==> g1.adj@[a]@
                == g0.adj@[a]@,
    ensures
        g1.wf(),
        g1.has_edge(iu as int, ju as int),
        g1.has_edge(ju as int, iu as int),
        forall|a: int, b: int| g0.has_edge(a, b) ==> g1.has_edge(a, b),
        forall|a: int, b: int|
            #[trigger] g1.has_edge(a, b) ==> g0.has_edge(a, b) || (a == iu as int && b == ju as int)
                || (a == ju as int && b == iu as int),
{
    let i = iu as int;
    let j = ju as int;
    assert forall|a: int, b: int| g0.has_edge(a, b) implies g1.has_edge(a, b) by {
        let k = choose|k: int| 0 <= k < g0.adj@[a]@.len() && g0.adj@[a]@[k] as int == b;
        assert(g1.adj@[a]@[k] as int == b);
    }
    assert forall|a: int, b: int| #[trigger] g1.has_edge(a, b) implies g0.has_edge(a, b) || (a == i
        && b == j) || (a == j && b == i) by {
        let k = choose|k: int| 0 <= k < g1.adj@[a]@.len() && g1.adj@[a]@[k] as int == b;
        if a != i && a != j {
            assert(g0.adj@[a]@[k] as int == b);
        } else if k < g0.adj@[a]@.len() {
            assert(g1.adj@[a]@[k] == g0.adj@[a]@[k]);
            assert(g0.adj@[a]@[k] as int == b);
        } else if i != j {
            if a == i {
                assert(g1.adj@[a]@[k] == ju);
            } else {
                assert(g1.adj@[a]@[k] == iu);
            }
        } else {
            if k == g0.adj@[a]@.len() {
                assert(g1.adj@[a]@[k] == ju);
            } else {
                assert(g1.adj@[a]@[k] == iu);
            }
        }
    }
    assert(g1.has_edge(i, j)) by {
        if i != j {
            let k = g0.adj@[i]@.len() as int;
            assert(g1.adj@[i]@[k] == ju);
        } else {
            let k = g1.adj@[i]@.len() - 1;
            assert(g1.adj@[i]@[k] == iu);
        }
    }
    assert(g1.has_edge(j, i)) by {
        if i != j {
            let k = g0.adj@[j]@.len() as int;
            assert(g1.adj@[j]@[k] == iu);
        } else {
            let k = g1.adj@[i]@.len() - 1;
            assert(g1.adj@[i]@[k] == iu);
        }
    }
    assert forall|a: int, b: int| #[trigger] g1.has_edge(a, b) implies 0 <= b < g1.n()
        && g1.has_edge(b, a) && rooms_adjacent(g1.rooms@[a], g1.rooms@[b]) by {
        if g0.has_edge(a, b) {
            assert(g1.has_edge(b, a));
        } else {
            crate::bsp::lemma_adjacent_sym(g0.rooms@[i], g0.rooms@[j]);
        }
    }
}

/// A graph with the same rooms and at least the edges of a connected graph is
/// connected.
proof fn lemma_superset_connected(g0: RoomGraph, g1: RoomGraph)
    requires
        g0.connected(),
        g1.n() == g0.n(),
        forall|a: int, b: int| g0.has_edge(a, b) ==> g1.has_edge(a, b),
    ensures
        g1.connected(),
{
    assert forall|i: int, j: int| 0 <= i < g1.n() && 0 <= j < g1.n() implies #[trigger] g1
        .reachable(i, j) by {
        reveal(RoomGraph::reachable);
        assert(g0.reachable(i, j));
        let p = choose|p: Seq<int>| g0.is_path(p) && p[0] == i && p.last() == j;
        assert(g1.is_path(p));
    }
}

/// A single room reaches itself.
proof fn lemma_single_connected(g: RoomGraph)
    requires
        g.n() == 1,
    ensures
        g.connected(),
{
    assert forall|i: int, j: int| 0 <= i < g.n() && 0 <= j < g.n() implies #[trigger] g.reachable(
        i,
        j,
    ) by {
        reveal(RoomGraph::reachable);
        let p = seq![0int];
        assert(g.is_path(p) && p[0] == i && p.last() == j);
    }
}

/// Reachability concatenates across a shared room.
proof fn lemma_reach_trans(g: RoomGraph, i: int, j: int, k: int)
    requires
        g.reachable(i, j),
        g.reachable(j, k),
    ensures
        g.reachable(i, k),
{
    reveal(RoomGraph::reachable);
    let p1 = choose|p: Seq<int>| g.is_path(p) && p[0] == i && p.last() == j;
    let p2 = choose|p: Seq<int>| g.is_path(p) && p[0] == j && p.last() == k;
    let p = p1 + p2.skip(1);
    assert(p.len() == p1.len() + p2.len() - 1);
    assert forall|t: int| 1 <= t < p.len() implies g.has_edge(p[t - 1], #[trigger] p[t]) by {
        if t < p1.len() {
            assert(p[t] == p1[t] && p[t - 1] == p1[t - 1]);
        } else if t == p1.len() {
            assert(p[t] == p2[1] && p[t - 1] == p1.last());
            assert(g.has_edge(p2[0], p2[1]));
        } else {
            assert(p[t] == p2[t - p1.len() + 1] && p[t - 1] == p2[t - p1.len()]);
        }
    }
    assert(p[0] == i && p.last() == k);
    assert(g.is_path(p));
}

/// An edge gives reachability both ways.
proof fn lemma_reach_edge(g: RoomGraph, i: int, j: int)
    requires
        g.wf(),
        0 <= i < g.n(),
        g.has_edge(i, j),
    ensures
        g.reachable(i, j),
{
    reveal(RoomGraph::reachable);
    let p = seq![i, j];
    assert(g.is_path(p) && p[0] == i && p.last() == j);
}

/// Reachability in a subgraph carries into a larger graph whose edges embed
/// the subgraph's at an index offset.
proof fn lemma_reach_embed(gsub: RoomGraph, g: RoomGraph, i: int, j: int, d: int)
    requires
        gsub.reachable(i, j),
        0 <= d,
        d + gsub.n() <= g.n(),
        forall|a: int, b: int| gsub.has_edge(a, b) ==> #[trigger] g.has_edge(a + d, b + d),
    ensures
        g.reachable(i + d, j + d),
{
    reveal(RoomGraph::reachable);
    let p = choose|p: Seq<int>| gsub.is_path(p) && p[0] == i && p.last() == j;
    let q = p.map(|_k: int, v: int| v + d);
    assert(q.len() == p.len());
    assert forall|k: int| 1 <= k < q.len() implies g.has_edge(q[k - 1], #[trigger] q[k]) by {
        assert(gsub.has_edge(p[k - 1], p[k]));
        assert(g.has_edge(p[k - 1] + d, p[k] + d));
    }
    assert(g.is_path(q) && q[0] == i + d && q.last() == j + d);
}

/// The first pair of rooms, one from each list, that face each other across a
/// one-cell wall.
fn find_bridge(a: &Vec<Rect>, b: &Vec<Rect>) -> (r: (usize, usize))
    requires
        forall|k: int| 0 <= k < a@.len() ==> (#[trigger] a@[k]).wf(),
        forall|k: int| 0 <= k < b@.len() ==> (#[trigger] b@[k]).wf(),
        exists|i: int, j: int|
            0 <= i < a@.len() && 0 <= j < b@.len() && #[trigger] rooms_adjacent(a@[i], b@[j]),
    ensures
        r.0 < a@.len(),
        r.1 < b@.len(),
        rooms_adjacent(a@[r.0 as int], b@[r.1 as int]),
{
    let mut i: usize = 0;
    while i < a.len()
        invariant
            forall|k: int| 0 <= k < a@.len() ==> (#[trigger] a@[k]).wf(),
            forall|k: int| 0 <= k < b@.len() ==> (#[trigger] b@[k]).wf(),
            i <= a@.len(),
            forall|k: int, t: int|
                0 <= k < i && 0 <= t < b@.len() ==> !(#[trigger] rooms_adjacent(a@[k], b@[t])),
        decreases a@.len() - i,
    {
        let mut j: usize = 0;
        while j < b.len()
            invariant
                forall|k: int| 0 <= k < a@.len() ==> (#[trigger] a@[k]).wf(),
                forall|k: int| 0 <= k < b@.len() ==> (#[trigger] b@[k]).wf(),
                i < a@.len(),
                j <= b@.len(),
                forall|t: int| 0 <= t < j ==> !(#[trigger] rooms_adjacent(a@[i as int], b@[t])),
            decreases b@.len() - j,
        {
            if get_connecting_wall(a[i], b[j]).is_some() {
                return (i, j);
            }
            j = j + 1;
        }
        i = i + 1;
    }
    proof {
        let (i0, j0) = choose|i0: int, j0: int|
            0 <= i0 < a@.len() && 0 <= j0 < b@.len() && #[trigger] rooms_adjacent(a@[i0], b@[j0]);
        assert(false);
    }
    (0, 0)
}

/// The merged graph holds the first graph's edges unchanged, the second
/// graph's edges shifted past the first's rooms, and exactly one new
/// undirected bridge edge between the adjacent pair `(bi, bj)`; every
/// adjacency list other than the bridged two is untouched.
pub open spec fn merged_with_bridge(
    g1: RoomGraph,
    g2: RoomGraph,
    r: RoomGraph,
    bi: int,
    bj: int,
) -> bool {
    let n1 = g1.n();
    &&& 0 <= bi < n1
    &&& 0 <= bj < g2.n()
    &&& rooms_adjacent(g1.rooms@[bi], g2.rooms@[bj])
    &&& (forall|x: int, y: int|
        #![trigger r.has_edge(x, y)]
        r.has_edge(x, y) <==> (g1.has_edge(x, y) || (n1 <= x && n1 <= y && g2.has_edge(
            x - n1,
            y - n1,
        )) || (x == bi && y == n1 + bj) || (x == n1 + bj && y == bi)))
    &&& r.adj@.len() == n1 + g2.n()
    &&& (forall|a: int| 0 <= a < n1 && a != bi ==> #[trigger] r.adj@[a]@ == g1.adj@[a]@)
    &&& (forall|a: int|
        n1 <= a < n1 + g2.n() && a != n1 + bj ==> shifted_list(
            #[trigger] r.adj@[a]@,
            g2.adj@[a - n1]@,
            n1,
        ))
    &&& r.adj@[bi]@ == g1.adj@[bi]@.push((n1 + bj) as usize)
    &&& r.adj@[n1 + bj]@.len() == g2.adj@[bj]@.len() + 1
    &&& shifted_list(r.adj@[n1 + bj]@.drop_last(), g2.adj@[bj]@, n1)
    &&& r.adj@[n1 + bj]@.last() == bi as usize
}

/// Union of two connected graphs, plus one bridge edge between a pair of
/// rooms that face each other across a wall; the rooms of the second graph
/// follow those of the first.
pub fn merge_bridged(g1: RoomGraph, g2: RoomGraph) -> (r: RoomGraph)
    requires
        g1.wf(),
        g2.wf(),
        g1.connected(),
        g2.connected(),
        g1.n() >= 1,
        g2.n() >= 1,
        exists|i: int, j: int|
            0 <= i < g1.n() && 0 <= j < g2.n() && #[trigger] rooms_adjacent(
                g1.rooms@[i],
                g2.rooms@[j],
            ),
    ensures
        r.wf(),
        r.connected(),
        r.rooms@ == g1.rooms@ + g2.rooms@,
        edge_total(r.adj@) == edge_total(g1.adj@) + edge_total(g2.adj@) + 2,
        exists|bi: int, bj: int| #[trigger] merged_with_bridge(g1, g2, r, bi, bj),
{
    let (bi, bj) = find_bridge(&g1.rooms, &g2.rooms);
    let n1 = g1.rooms.len();
    let RoomGraph { rooms: mut rooms, adj: mut adj } = g1;
    let ghost g1g = RoomGraph { rooms: rooms, adj: adj };
    let mut k: usize = 0;
    while k < g2.rooms.len()
        invariant
            k <= g2.rooms@.len(),
            rooms@ == g1g.rooms@ + g2.rooms@.take(k as int),
        decreases g2.rooms@.len() - k,
    {
        rooms.push(g2.rooms[k]);
        proof {
            assert(g2.rooms@.take(k + 1) =~= g2.rooms@.take(k as int).push(g2.rooms@[k as int]));
            assert(rooms@ =~= g1g.rooms@ + g2.rooms@.take(k + 1));
        }
        k = k + 1;
    }
    proof {
        assert(g2.rooms@.take(g2.rooms@.len() as int) =~= g2.rooms@);
        assert(rooms@ =~= g1g.rooms@ + g2.rooms@);
    }
    let total = rooms.len();
    proof {
        assert(g2.adj@.take(0) =~= Seq::<Vec<usize>>::empty());
    }
    let mut k: usize = 0;
    while k < g2.adj.len()
        invariant
            n1 == g1g.n(),
            total == g1g.n() + g2.n(),
            g2.wf(),
            k <= g2.adj@.len(),
            g2.adj@.len() == g2.n(),
            adj@.len() == n1 + k,
            forall|t: int| 0 <= t < n1 ==> adj@[t] == g1g.adj@[t],
            forall|t: int, u: int|
                n1 <= t < n1 + k && 0 <= u < adj@[t]@.len() ==> #[trigger] adj@[t]@[u] as int
                    == g2.adj@[t - n1]@[u] as int + n1,
            forall|t: int| n1 <= t < n1 + k ==> adj@[t]@.len() == g2.adj@[t - n1]@.len(),
            edge_total(adj@) == edge_total(g1g.adj@) + edge_total(g2.adj@.take(k as int)),
        decreases g2.adj@.len() - k,
    {
        let src_len = g2.adj[k].len();
        let mut list: Vec<usize> = Vec::new();
        let mut u: usize = 0;
        while u < src_len
            invariant
                g2.wf(),
                k < g2.adj@.len(),
                g2.adj@.len() == g2.n(),
                total == n1 + g2.n(),
                src_len == g2.adj@[k as int]@.len(),
                u <= src_len,
                list@.len() == u,
                forall|t: int|
                    0 <= t < u ==> #[trigger] list@[t] as int == g2.adj@[k as int]@[t] as int + n1,
            decreases src_len - u,
        {
            let v = g2.adj[k][u];
            proof {
                assert(g2.has_edge(k as int, g2.adj@[k as int]@[u as int] as int));
            }
            list.push(v + n1);
            u = u + 1;
        }
        let ghost adj0 = adj@;
        adj.push(list);
        proof {
            lemma_edge_total_push(adj0, list);
            assert(g2.adj@.take(k + 1).drop_last() =~= g2.adj@.take(k as int));
            assert(g2.adj@.take(k + 1).last() == g2.adj@[k as int]);
        }
        k = k + 1;
    }
    proof {
        assert(g2.adj@.take(g2.adj@.len() as int) =~= g2.adj@);
        assert(g2.adj@.take(0) =~= Seq::<Vec<usize>>::empty());
    }
    let mut g = RoomGraph { rooms, adj };
    proof {
        lemma_merge_edges(g1g, g2, g, n1 as int);
    }
    let ghost g_pre = g;
    g.add_connection(bi, n1 + bj);
    proof {
        let ghost gf = g;
        let n1i = n1 as int;
        assert forall|x: int, y: int| #![trigger gf.has_edge(x, y)]
            gf.has_edge(x, y) <==> (g1g.has_edge(x, y) || (n1i <= x && n1i <= y && g2.has_edge(
            x - n1i,
            y - n1i,
        )) || (x == bi as int && y == n1i + bj as int) || (x == n1i + bj as int && y
            == bi as int)) by {
            if gf.has_edge(x, y) {
                if g_pre.has_edge(x, y) {
                    if x < n1i {
                        assert(g1g.has_edge(x, y));
                    } else {
                        assert(g2.has_edge(x - n1i, y - n1i));
                    }
                }
            }
            if g1g.has_edge(x, y) {
                assert(g_pre.has_edge(x, y));
                assert(gf.has_edge(x, y));
            }
            if n1i <= x && n1i <= y && g2.has_edge(x - n1i, y - n1i) {
                assert(g_pre.has_edge((x - n1i) + n1i, (y - n1i) + n1i));
                assert(gf.has_edge(x, y));
            }
            if x == bi as int && y == n1i + bj as int {
                assert(gf.has_edge(x, y));
            }
            if x == n1i + bj as int && y == bi as int {
                assert(gf.has_edge(y, x) && gf.wf());
            }
        }
        assert(merged_with_bridge(g1g, g2, gf, bi as int, bj as int)) by {
            assert(gf.adj@[bi as int]@ == g1g.adj@[bi as int]@.push((n1i + bj as int) as usize));
            assert(gf.adj@[n1i + bj as int]@.drop_last() =~= g_pre.adj@[n1i + bj as int]@);
        }
        assert forall|a: int, b: int| g1g.has_edge(a, b) implies #[trigger] gf.has_edge(
            a + 0,
            b + 0,
        ) by {
            assert(gf.has_edge(a, b));
        }
        assert forall|i: int, j: int|
            0 <= i < gf.n() && 0 <= j < gf.n() implies #[trigger] gf.reachable(i, j) by {
            let bii = bi as int;
            let bjj = n1 as int + bj as int;
            lemma_reach_edge(gf, bii, bjj);
            lemma_reach_edge(gf, bjj, bii);
            if i < n1 as int && j < n1 as int {
                lemma_reach_embed(g1g, gf, i, j, 0);
            } else if i >= n1 as int && j >= n1 as int {
                lemma_reach_embed(g2, gf, i - n1 as int, j - n1 as int, n1 as int);
            } else if i < n1 as int {
                lemma_reach_embed(g1g, gf, i, bii, 0);
                lemma_reach_embed(g2, gf, bjj - n1 as int, j - n1 as int, n1 as int);
                lemma_reach_trans(gf, i, bii, bjj);
                lemma_reach_trans(gf, i, bjj, j);
            } else {
                lemma_reach_embed(g2, gf, i - n1 as int, bjj - n1 as int, n1 as int);
                lemma_reach_embed(g1g, gf, bii, j, 0);
                lemma_reach_trans(gf, i, bjj, bii);
                lemma_reach_trans(gf, i, bii, j);
            }
        }
    }
    g
}

/// Edges of the freshly concatenated adjacency structure: the first graph's
/// edges unchanged, the second graph's shifted by the first's size.
proof fn lemma_merge_edges(g1: RoomGraph, g2: RoomGraph, g: RoomGraph, n1: int)
    requires
        g1.wf(),
        g2.wf(),
        n1 == g1.n(),
        g.rooms@ == g1.rooms@ + g2.rooms@,
        g.adj@.len() == n1 + g2.n(),
        forall|t: int| 0 <= t < n1 ==> g.adj@[t] == g1.adj@[t],
        forall|t: int, u: int|
            n1 <= t < g.adj@.len() && 0 <= u < g.adj@[t]@.len() ==> #[trigger] g.adj@[t]@[u] as int
                == g2.adj@[t - n1]@[u] as int + n1,
        forall|t: int| n1 <= t < g.adj@.len() ==> g.adj@[t]@.len() == g2.adj@[t - n1]@.len(),
    ensures
        g.wf(),
        forall|a: int, b: int| g1.has_edge(a, b) ==> #[trigger] g.has_edge(a, b),
        forall|a: int, b: int|
            g2.has_edge(a, b) ==> #[trigger] g.has_edge(a + n1, b + n1),
        forall|a: int, b: int|
            #[trigger] g.has_edge(a, b) ==> (a < n1 && g1.has_edge(a, b)) || (n1 <= a && n1 <= b
                && g2.has_edge(a - n1, b - n1)),
{
    assert forall|a: int, b: int| #[trigger] g.has_edge(a, b) implies (a < n1 && g1.has_edge(a, b))
        || (n1 <= a && n1 <= b && g2.has_edge(a - n1, b - n1)) by {
        let k = choose|k: int| 0 <= k < g.adj@[a]@.len() && g.adj@[a]@[k] as int == b;
        if a < n1 {
            assert(g1.adj@[a]@[k] as int == b);
            assert(g1.has_edge(a, b));
        } else {
            assert(g2.adj@[a - n1]@[k] as int == b - n1);
            assert(g2.has_edge(a - n1, b - n1));
            assert(0 <= b - n1) by {
                assert(g2.has_edge(a - n1, b - n1));
            }
        }
    }
    assert forall|a: int, b: int| g1.has_edge(a, b) implies #[trigger] g.has_edge(a, b) by {
        let k = choose|k: int| 0 <= k < g1.adj@[a]@.len() && g1.adj@[a]@[k] as int == b;
        assert(g.adj@[a]@[k] as int == b);
    }
    assert forall|a: int, b: int| g2.has_edge(a, b) implies #[trigger] g.has_edge(
        a + n1,
        b + n1,
    ) by {
        let k = choose|k: int| 0 <= k < g2.adj@[a]@.len() && g2.adj@[a]@[k] as int == b;
        assert(g.adj@[a + n1]@[k] as int == b + n1);
    }
    assert forall|a: int, b: int| #[trigger] g.has_edge(a, b) implies 0 <= b < g.n()
        && g.has_edge(b, a) && rooms_adjacent(g.rooms@[a], g.rooms@[b]) by {
        let k = choose|k: int| 0 <= k < g.adj@[a]@.len() && g.adj@[a]@[k] as int == b;
        if a < n1 {
            assert(g1.adj@[a]@[k] as int == b);
            assert(g1.has_edge(a, b));
            assert(g.has_edge(b, a));
            assert(g.rooms@[a] == g1.rooms@[a] && g.rooms@[b] == g1.rooms@[b]);
        } else {
            assert(g2.adj@[a - n1]@[k] as int == b - n1);
            assert(g2.has_edge(a - n1, b - n1));
            assert(g.has_edge((b - n1) + n1, (a - n1) + n1));
            assert(g.rooms@[a] == g2.rooms@[a - n1] && g.rooms@[b] == g2.rooms@[b - n1]);
        }
    }
}

/// Reduce a BSP tree to its room graph: a leaf is a single room; a split is
/// the union of its subtrees' graphs plus exactly one bridge edge across the
/// split. The result is connected by construction, and carrying one bridge
/// per split it stays tree-shaped: the adjacency lists hold two entries per
/// bridge, one more bridge than splits never appearing.
pub fn into_room_graph(t: BspTree) -> (r: RoomGraph)
    requires
        tree_wf(t),
    ensures
        r.wf(),
        r.connected(),
        r.n() >= 1,
        forall|rm: Rect| r.rooms@.contains(rm) <==> tree_rooms(t).contains(rm),
        edge_total(r.adj@) == 2 * (r.n() - 1),
    decreases t,
{
    let ghost tg = t;
    match t {
        BspTree::Room(rect) => {
            let mut rooms: Vec<Rect> = Vec::new();
            rooms.push(rect);
            let mut adj: Vec<Vec<usize>> = Vec::new();
            adj.push(Vec::new());
            let g = RoomGraph { rooms, adj };
            proof {
                assert forall|a: int, b: int| !(#[trigger] g.has_edge(a, b)) by {
                    if g.has_edge(a, b) {
                        let k = choose|k: int|
                            0 <= k < g.adj@[a]@.len() && g.adj@[a]@[k] as int == b;
                    }
                }
                assert(edge_total(Seq::<Vec<usize>>::empty()) == 0);
                assert(g.adj@.drop_last() =~= Seq::<Vec<usize>>::empty());
                assert(g.adj@.last()@.len() == 0);
                assert(g.adj@.len() == 1);
                assert(edge_total(g.adj@) == edge_total(g.adj@.drop_last())
                    + g.adj@.last()@.len());
                assert(edge_total(g.adj@) == 0);
                lemma_single_connected(g);
                assert(g.rooms@.contains(rect)) by {
                    assert(g.rooms@[0] == rect);
                }
                assert forall|rm: Rect|
                    g.rooms@.contains(rm) <==> tree_rooms(tg).contains(rm) by {
                    if g.rooms@.contains(rm) {
                        let k = choose|k: int| 0 <= k < g.rooms@.len() && g.rooms@[k] == rm;
                        assert(rm == rect);
                    }
                }
            }
            g
        },
        BspTree::Split(a, b) => {
            let ghost ta = *a;
            let ghost tb = *b;
            let ga = into_room_graph(*a);
            let gb = into_room_graph(*b);
            proof {
                let (r1, r2) = choose|r1: Rect, r2: Rect|
                    tree_rooms(ta).contains(r1) && tree_rooms(tb).contains(r2) && rooms_adjacent(
                        r1,
                        r2,
                    );
                assert(ga.rooms@.contains(r1) && gb.rooms@.contains(r2));
                let i = choose|i: int| 0 <= i < ga.rooms@.len() && ga.rooms@[i] == r1;
                let j = choose|j: int| 0 <= j < gb.rooms@.len() && gb.rooms@[j] == r2;
                assert(0 <= i < ga.n() && 0 <= j < gb.n() && rooms_adjacent(
                    ga.rooms@[i],
                    gb.rooms@[j],
                ));
            }
            let ghost gav = ga;
            let ghost gbv = gb;
            let g = merge_bridged(ga, gb);
            proof {
                assert forall|rm: Rect|
                    g.rooms@.contains(rm) <==> tree_rooms(tg).contains(rm) by {
                    if g.rooms@.contains(rm) {
                        let k = choose|k: int| 0 <= k < g.rooms@.len() && g.rooms@[k] == rm;
                        if k < gav.rooms@.len() {
                            assert(gav.rooms@[k] == rm);
                            assert(gav.rooms@.contains(rm));
                        } else {
                            assert(gbv.rooms@[k - gav.rooms@.len()] == rm);
                            assert(gbv.rooms@.contains(rm));
                        }
                    }
                    if tree_rooms(tg).contains(rm) {
                        if tree_rooms(ta).contains(rm) {
                            assert(gav.rooms@.contains(rm));
                            let k = choose|k: int|
                                0 <= k < gav.rooms@.len() && gav.rooms@[k] == rm;
                            assert(g.rooms@[k] == rm);
                        } else {
                            assert(gbv.rooms@.contains(rm));
                            let k = choose|k: int|
                                0 <= k < gbv.rooms@.len() && gbv.rooms@[k] == rm;
                            assert(g.rooms@[gav.rooms@.len() + k] == rm);
                        }
                    }
                }
            }
            g
        },
    }
}

impl RoomGraph {
    /// A uniformly random room index, if the graph has any room.
    pub fn choose_room(&self, rng: &mut rand::rngs::ThreadRng) -> (r: Option<usize>)
        ensures
            r matches Some(i) ==> i < self.n(),
            self.n() >= 1 <==> r is Some,
    {
        if self.rooms.len() == 0 {
            None
        } else {
            Some(crate::rng::rand_index(rng, self.rooms.len()))
        }
    }

    /// Pick random room pairs and connect each pair that faces each other
    /// across a one-cell wall, adding occasional cycles to the tree-shaped
    /// graph.
    pub fn add_extra_loops(&mut self, num_loops: usize, rng: &mut rand::rngs::ThreadRng)
        requires
            old(self).wf(),
            old(self).connected(),
            old(self).n() >= 1,
        ensures
            final(self).wf(),
            final(self).connected(),
            final(self).rooms@ == old(self).rooms@,
    {
        let mut t: usize = 0;
        while t < num_loops
            invariant
                self.wf(),
                self.connected(),
                self.rooms@ == old(self).rooms@,
                self.n() >= 1,
            decreases num_loops - t,
        {
            let i = crate::rng::rand_index(rng, self.rooms.len());
            let j = crate::rng::rand_index(rng, self.rooms.len());
            if get_connecting_wall(self.rooms[i], self.rooms[j]).is_some() {
                self.add_connection(i, j);
            }
            t = t + 1;
        }
    }
}

} // verus!
