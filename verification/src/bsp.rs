//! Binary space partitioning: recursive splitting of a rectangle into rooms,
//! and the room adjacency graph merged bottom-up from the split tree.
//!
//! The graph is connected by construction: each split bridges its two
//! subtrees with exactly one edge between a pair of rooms that face each
//! other across the one-cell wall left by the split.

use vstd::prelude::*;
use crate::geometry::{Pos, Rect};
use crate::rng::rand_range;

verus! {

/// Size constraints for the splitter. A rectangle whose extent on an axis
/// exceeds the maximum is split on that axis; rooms never shrink below the
/// minimum.
#[derive(Clone, Copy, Debug)]
pub struct BspSplitOpts {
    pub max_width: i32,
    pub max_height: i32,
    pub min_width: i32,
    pub min_height: i32,
}

impl BspSplitOpts {
    /// A usable range: each minimum fits twice below the maximum, so a split
    /// always leaves both halves room to stand.
    pub open spec fn valid(self) -> bool {
        &&& 1 <= self.min_width
        &&& 1 <= self.min_height
        &&& self.min_width * 2 < self.max_width
        &&& self.min_height * 2 < self.max_height
        &&& self.max_width <= 100_000
        &&& self.max_height <= 100_000
    }
}

pub enum BspTree {
    Split(Box<BspTree>, Box<BspTree>),
    Room(Rect),
}

/// The wall cell strip when `b` lies one wall to the right of `a`.
pub open spec fn wall_right_of(a: Rect, b: Rect) -> Option<Rect> {
    if a.x2 + 2 == b.x1 && (if a.y1 >= b.y1 {
        a.y1
    } else {
        b.y1
    }) <= (if a.y2 <= b.y2 {
        a.y2
    } else {
        b.y2
    }) {
        Some(
            Rect {
                x1: (a.x2 + 1) as i32,
                x2: (a.x2 + 1) as i32,
                y1: if a.y1 >= b.y1 {
                    a.y1
                } else {
                    b.y1
                },
                y2: if a.y2 <= b.y2 {
                    a.y2
                } else {
                    b.y2
                },
            },
        )
    } else {
        None
    }
}

/// The wall cell strip when `b` lies one wall below `a`.
pub open spec fn wall_below_of(a: Rect, b: Rect) -> Option<Rect> {
    if a.y2 + 2 == b.y1 && (if a.x1 >= b.x1 {
        a.x1
    } else {
        b.x1
    }) <= (if a.x2 <= b.x2 {
        a.x2
    } else {
        b.x2
    }) {
        Some(
            Rect {
                x1: if a.x1 >= b.x1 {
                    a.x1
                } else {
                    b.x1
                },
                x2: if a.x2 <= b.x2 {
                    a.x2
                } else {
                    b.x2
                },
                y1: (a.y2 + 1) as i32,
                y2: (a.y2 + 1) as i32,
            },
        )
    } else {
        None
    }
}

/// The single-cell-wide connecting wall between two rooms separated by
/// exactly one cell of wall, if there is one.
pub open spec fn spec_connecting_wall(a: Rect, b: Rect) -> Option<Rect> {
    if wall_right_of(a, b) is Some {
        wall_right_of(a, b)
    } else if wall_below_of(a, b) is Some {
        wall_below_of(a, b)
    } else if wall_right_of(b, a) is Some {
        wall_right_of(b, a)
    } else {
        wall_below_of(b, a)
    }
}

/// Two rooms are adjacent when a connecting wall exists between them.
pub open spec fn rooms_adjacent(a: Rect, b: Rect) -> bool {
    spec_connecting_wall(a, b) is Some
}

/// Adjacency does not depend on the order of the rooms.
pub proof fn lemma_adjacent_sym(a: Rect, b: Rect)
    ensures
        rooms_adjacent(a, b) == rooms_adjacent(b, a),
{
}

fn wall_right_exec(a: Rect, b: Rect) -> (r: Option<Rect>)
    requires
        a.wf(),
        b.wf(),
    ensures
        r == wall_right_of(a, b),
{
    if a.x2 + 2 == b.x1 {
        let y1: i32 = if a.y1 >= b.y1 { a.y1 } else { b.y1 };
        let y2: i32 = if a.y2 <= b.y2 { a.y2 } else { b.y2 };
        if y1 <= y2 {
            return Some(Rect { x1: a.x2 + 1, x2: a.x2 + 1, y1, y2 });
        }
        None
    } else {
        None
    }
}

fn wall_below_exec(a: Rect, b: Rect) -> (r: Option<Rect>)
    requires
        a.wf(),
        b.wf(),
    ensures
        r == wall_below_of(a, b),
{
    if a.y2 + 2 == b.y1 {
        let x1: i32 = if a.x1 >= b.x1 { a.x1 } else { b.x1 };
        let x2: i32 = if a.x2 <= b.x2 { a.x2 } else { b.x2 };
        if x1 <= x2 {
            return Some(Rect { x1, x2, y1: a.y2 + 1, y2: a.y2 + 1 });
        }
        None
    } else {
        None
    }
}

/// The one-cell-wide wall strip between two rooms, when they face each other
/// across exactly one cell of wall on either axis.
pub fn get_connecting_wall(a: Rect, b: Rect) -> (r: Option<Rect>)
    requires
        a.wf(),
        b.wf(),
    ensures
        r == spec_connecting_wall(a, b),
{
    if let Some(w) = wall_right_exec(a, b) {
        Some(w)
    } else if let Some(w) = wall_below_exec(a, b) {
        Some(w)
    } else if let Some(w) = wall_right_exec(b, a) {
        Some(w)
    } else {
        wall_below_exec(b, a)
    }
}

/// The set of leaf rooms of a tree.
pub open spec fn tree_rooms(t: BspTree) -> Set<Rect>
    decreases t,
{
    match t {
        BspTree::Room(r) => Set::empty().insert(r),
        BspTree::Split(a, b) => tree_rooms(*a) + tree_rooms(*b),
    }
}

/// Structural invariant: each split holds a pair of rooms that face each
/// other across its wall, one in each subtree.
pub open spec fn tree_wf(t: BspTree) -> bool
    decreases t,
{
    match t {
        BspTree::Room(r) => r.wf(),
        BspTree::Split(a, b) => {
            &&& tree_wf(*a)
            &&& tree_wf(*b)
            &&& (exists|r1: Rect, r2: Rect|
                tree_rooms(*a).contains(r1) && tree_rooms(*b).contains(r2) && rooms_adjacent(
                    r1,
                    r2,
                ))
        },
    }
}

/// Every room is a well-formed rectangle inside the bounding rectangle.
pub open spec fn tree_in(t: BspTree, rect: Rect) -> bool {
    forall|r: Rect|
        #[trigger] tree_rooms(t).contains(r) ==> r.wf() && rect.x1 <= r.x1 && r.x2 <= rect.x2
            && rect.y1 <= r.y1 && r.y2 <= rect.y2
}

/// Every room respects the size constraints: never larger than the maxima,
/// and never smaller than the minima except along an axis the splitter never
/// cut, where the room keeps the bounding rectangle's own extent.
pub open spec fn tree_sized(t: BspTree, opts: BspSplitOpts, rect: Rect) -> bool {
    forall|r: Rect|
        #[trigger] tree_rooms(t).contains(r) ==> {
            &&& r.x2 - r.x1 <= opts.max_width
            &&& r.y2 - r.y1 <= opts.max_height
            &&& (r.x2 - r.x1 >= opts.min_width - 1 || r.x2 - r.x1 == rect.x2 - rect.x1)
            &&& (r.y2 - r.y1 >= opts.min_height - 1 || r.y2 - r.y1 == rect.y2 - rect.y1)
        }
}

/// No two distinct rooms share a cell.
pub open spec fn tree_disjoint(t: BspTree) -> bool {
    forall|r1: Rect, r2: Rect, p: Pos|
        #![trigger r1.spec_contains(p), r2.spec_contains(p)]
        tree_rooms(t).contains(r1) && tree_rooms(t).contains(r2) && r1 != r2 ==> !(
        r1.spec_contains(p) && r2.spec_contains(p))
}

/// All rooms of the tree end left of the column `s`.
pub open spec fn rooms_left_of(t: BspTree, s: int) -> bool {
    forall|r: Rect| #[trigger] tree_rooms(t).contains(r) ==> r.x2 <= s - 1
}

/// All rooms of the tree start right of the column `s`.
pub open spec fn rooms_right_of(t: BspTree, s: int) -> bool {
    forall|r: Rect| #[trigger] tree_rooms(t).contains(r) ==> r.x1 >= s + 1
}

/// All rooms of the tree end above the row `s`.
pub open spec fn rooms_above(t: BspTree, s: int) -> bool {
    forall|r: Rect| #[trigger] tree_rooms(t).contains(r) ==> r.y2 <= s - 1
}

/// All rooms of the tree start below the row `s`.
pub open spec fn rooms_below(t: BspTree, s: int) -> bool {
    forall|r: Rect| #[trigger] tree_rooms(t).contains(r) ==> r.y1 >= s + 1
}

/// The two subtrees of a split stand on opposite sides of a one-cell wall
/// line on one axis.
pub open spec fn gap_between(a: BspTree, b: BspTree) -> bool {
    ||| (exists|s: int| #[trigger] rooms_left_of(a, s) && rooms_right_of(b, s))
    ||| (exists|s: int| #[trigger] rooms_above(a, s) && rooms_below(b, s))
}

/// Every split of the tree leaves the one-cell gap of its future wall
/// between its two subtrees.
pub open spec fn tree_split_gaps(t: BspTree) -> bool
    decreases t,
{
    match t {
        BspTree::Room(_) => true,
        BspTree::Split(a, b) => tree_split_gaps(*a) && tree_split_gaps(*b) && gap_between(*a, *b),
    }
}

/// Some room keeps the bounding rectangle's top-left corner coordinates.
pub open spec fn corner_tl(t: BspTree, rect: Rect) -> bool {
    exists|r: Rect| tree_rooms(t).contains(r) && r.x1 == rect.x1 && r.y1 == rect.y1
}

/// Some room keeps the bounding rectangle's top-right corner coordinates.
pub open spec fn corner_tr(t: BspTree, rect: Rect) -> bool {
    exists|r: Rect| tree_rooms(t).contains(r) && r.x2 == rect.x2 && r.y1 == rect.y1
}

/// Some room keeps the bounding rectangle's bottom-left corner coordinates.
pub open spec fn corner_bl(t: BspTree, rect: Rect) -> bool {
    exists|r: Rect| tree_rooms(t).contains(r) && r.x1 == rect.x1 && r.y2 == rect.y2
}

/// Recursively split `rect` into rooms, leaving a one-cell wall at each
/// split. A rectangle too wide is split on x, one too tall on y, one too
/// large on both axes on a random axis; anything else is a terminal room.
pub fn gen_bsp_tree(rect: Rect, opts: BspSplitOpts, rng: &mut rand::rngs::ThreadRng) -> (r:
    BspTree)
    requires
        rect.wf(),
        opts.valid(),
    ensures
        tree_wf(r),
        tree_in(r, rect),
        tree_sized(r, opts, rect),
        tree_disjoint(r),
        tree_split_gaps(r),
        corner_tl(r, rect),
        corner_tr(r, rect),
        corner_bl(r, rect),
    decreases rect.x2 - rect.x1 + rect.y2 - rect.y1,
{
    let too_wide = rect.x2 - rect.x1 > opts.max_width;
    let too_tall = rect.y2 - rect.y1 > opts.max_height;
    let split_x: bool = if too_wide && too_tall {
        rand_range(rng, 0, 2) == 0
    } else {
        too_wide
    };
    if too_wide && split_x {
        let split: i32 = rand_range(rng, rect.x1 + opts.min_width, rect.x2 - opts.min_width);
        let left = Rect { x1: rect.x1, y1: rect.y1, x2: split - 1, y2: rect.y2 };
        let right = Rect { x1: split + 1, y1: rect.y1, x2: rect.x2, y2: rect.y2 };
        let ta = gen_bsp_tree(left, opts, rng);
        let tb = gen_bsp_tree(right, opts, rng);
        let r = BspTree::Split(Box::new(ta), Box::new(tb));
        proof {
            lemma_split_x_ok(ta, tb, r, left, right, rect, opts);
        }
        r
    } else if too_tall {
        let split: i32 = rand_range(rng, rect.y1 + opts.min_height, rect.y2 - opts.min_height);
        let top = Rect { x1: rect.x1, y1: rect.y1, x2: rect.x2, y2: split - 1 };
        let bottom = Rect { x1: rect.x1, y1: split + 1, x2: rect.x2, y2: rect.y2 };
        let ta = gen_bsp_tree(top, opts, rng);
        let tb = gen_bsp_tree(bottom, opts, rng);
        let r = BspTree::Split(Box::new(ta), Box::new(tb));
        proof {
            lemma_split_y_ok(ta, tb, r, top, bottom, rect, opts);
        }
        r
    } else {
        let r = BspTree::Room(rect);
        proof {
            assert(tree_rooms(r).contains(rect));
            assert forall|q: Rect| #[trigger] tree_rooms(r).contains(q) implies q == rect by {}
        }
        r
    }
}

/// A split on x with well-formed subtrees makes a well-formed tree: the
/// subtree rooms that keep the shared top corner row face each other across
/// the wall column.
proof fn lemma_split_x_ok(
    a: BspTree,
    b: BspTree,
    t: BspTree,
    left: Rect,
    right: Rect,
    rect: Rect,
    opts: BspSplitOpts,
)
    requires
        t is Split,
        *t->Split_0 == a,
        *t->Split_1 == b,
        tree_wf(a),
        tree_wf(b),
        tree_in(a, left),
        tree_in(b, right),
        tree_sized(a, opts, left),
        tree_sized(b, opts, right),
        tree_disjoint(a),
        tree_disjoint(b),
        tree_split_gaps(a),
        tree_split_gaps(b),
        left.x2 - left.x1 >= opts.min_width - 1,
        right.x2 - right.x1 >= opts.min_width - 1,
        corner_tl(a, left),
        corner_tr(a, left),
        corner_bl(a, left),
        corner_tl(b, right),
        corner_tr(b, right),
        corner_bl(b, right),
        left.x1 == rect.x1,
        left.y1 == rect.y1,
        left.y2 == rect.y2,
        right.x2 == rect.x2,
        right.y1 == rect.y1,
        right.y2 == rect.y2,
        left.x2 + 2 == right.x1,
        left.wf(),
        right.wf(),
    ensures
        tree_wf(t),
        tree_in(t, rect),
        tree_sized(t, opts, rect),
        tree_disjoint(t),
        tree_split_gaps(t),
        corner_tl(t, rect),
        corner_tr(t, rect),
        corner_bl(t, rect),
{
    assert(tree_rooms(t) == tree_rooms(a) + tree_rooms(b));
    lemma_split_extras_x(a, b, t, left, right, rect, opts);
    let r1 = choose|r: Rect| tree_rooms(a).contains(r) && r.x2 == left.x2 && r.y1 == left.y1;
    let r2 = choose|r: Rect| tree_rooms(b).contains(r) && r.x1 == right.x1 && r.y1 == right.y1;
    assert(tree_rooms(a).contains(r1) && tree_rooms(b).contains(r2));
    assert(r1.wf() && r2.wf());
    assert(wall_right_of(r1, r2) is Some);
    assert(rooms_adjacent(r1, r2));
    assert(tree_rooms(t).contains(r1) && tree_rooms(t).contains(r2));
    let tl = choose|r: Rect| tree_rooms(a).contains(r) && r.x1 == left.x1 && r.y1 == left.y1;
    assert(tree_rooms(t).contains(tl) && tl.x1 == rect.x1 && tl.y1 == rect.y1);
    let tr = choose|r: Rect| tree_rooms(b).contains(r) && r.x2 == right.x2 && r.y1 == right.y1;
    assert(tree_rooms(t).contains(tr) && tr.x2 == rect.x2 && tr.y1 == rect.y1);
    let bl = choose|r: Rect| tree_rooms(a).contains(r) && r.x1 == left.x1 && r.y2 == left.y2;
    assert(tree_rooms(t).contains(bl) && bl.x1 == rect.x1 && bl.y2 == rect.y2);
}

/// A split on y with well-formed subtrees makes a well-formed tree: the
/// subtree rooms that keep the shared left corner column face each other
/// across the wall row.
proof fn lemma_split_y_ok(
    a: BspTree,
    b: BspTree,
    t: BspTree,
    top: Rect,
    bottom: Rect,
    rect: Rect,
    opts: BspSplitOpts,
)
    requires
        t is Split,
        *t->Split_0 == a,
        *t->Split_1 == b,
        tree_wf(a),
        tree_wf(b),
        tree_in(a, top),
        tree_in(b, bottom),
        tree_sized(a, opts, top),
        tree_sized(b, opts, bottom),
        tree_disjoint(a),
        tree_disjoint(b),
        tree_split_gaps(a),
        tree_split_gaps(b),
        top.y2 - top.y1 >= opts.min_height - 1,
        bottom.y2 - bottom.y1 >= opts.min_height - 1,
        corner_tl(a, top),
        corner_tr(a, top),
        corner_bl(a, top),
        corner_tl(b, bottom),
        corner_tr(b, bottom),
        corner_bl(b, bottom),
        top.x1 == rect.x1,
        top.x2 == rect.x2,
        top.y1 == rect.y1,
        bottom.x1 == rect.x1,
        bottom.x2 == rect.x2,
        bottom.y2 == rect.y2,
        top.y2 + 2 == bottom.y1,
        top.wf(),
        bottom.wf(),
    ensures
        tree_wf(t),
        tree_in(t, rect),
        tree_sized(t, opts, rect),
        tree_disjoint(t),
        tree_split_gaps(t),
        corner_tl(t, rect),
        corner_tr(t, rect),
        corner_bl(t, rect),
{
    assert(tree_rooms(t) == tree_rooms(a) + tree_rooms(b));
    lemma_split_extras_y(a, b, t, top, bottom, rect, opts);
    let r1 = choose|r: Rect| tree_rooms(a).contains(r) && r.x1 == top.x1 && r.y2 == top.y2;
    let r2 = choose|r: Rect| tree_rooms(b).contains(r) && r.x1 == bottom.x1 && r.y1 == bottom.y1;
    assert(tree_rooms(a).contains(r1) && tree_rooms(b).contains(r2));
    assert(r1.wf() && r2.wf());
    assert(wall_below_of(r1, r2) is Some);
    assert(rooms_adjacent(r1, r2));
    assert(tree_rooms(t).contains(r1) && tree_rooms(t).contains(r2));
    let tl = choose|r: Rect| tree_rooms(a).contains(r) && r.x1 == top.x1 && r.y1 == top.y1;
    assert(tree_rooms(t).contains(tl) && tl.x1 == rect.x1 && tl.y1 == rect.y1);
    let tr = choose|r: Rect| tree_rooms(a).contains(r) && r.x2 == top.x2 && r.y1 == top.y1;
    assert(tree_rooms(t).contains(tr) && tr.x2 == rect.x2 && tr.y1 == rect.y1);
    let bl = choose|r: Rect| tree_rooms(b).contains(r) && r.x1 == bottom.x1 && r.y2 == bottom.y2;
    assert(tree_rooms(t).contains(bl) && bl.x1 == rect.x1 && bl.y2 == rect.y2);
}


/// Size bounds, disjointness and the split gap, propagated through an x
/// split.
proof fn lemma_split_extras_x(
    a: BspTree,
    b: BspTree,
    t: BspTree,
    left: Rect,
    right: Rect,
    rect: Rect,
    opts: BspSplitOpts,
)
    requires
        t is Split,
        *t->Split_0 == a,
        *t->Split_1 == b,
        tree_in(a, left),
        tree_in(b, right),
        tree_sized(a, opts, left),
        tree_sized(b, opts, right),
        tree_disjoint(a),
        tree_disjoint(b),
        tree_split_gaps(a),
        tree_split_gaps(b),
        left.x2 - left.x1 >= opts.min_width - 1,
        right.x2 - right.x1 >= opts.min_width - 1,
        left.y1 == rect.y1,
        left.y2 == rect.y2,
        right.y1 == rect.y1,
        right.y2 == rect.y2,
        left.x2 + 2 == right.x1,
    ensures
        tree_sized(t, opts, rect),
        tree_disjoint(t),
        tree_split_gaps(t),
{
    assert(tree_rooms(t) == tree_rooms(a) + tree_rooms(b));
    assert forall|r: Rect| #[trigger] tree_rooms(t).contains(r) implies {
        &&& r.x2 - r.x1 <= opts.max_width
        &&& r.y2 - r.y1 <= opts.max_height
        &&& (r.x2 - r.x1 >= opts.min_width - 1 || r.x2 - r.x1 == rect.x2 - rect.x1)
        &&& (r.y2 - r.y1 >= opts.min_height - 1 || r.y2 - r.y1 == rect.y2 - rect.y1)
    } by {
        if tree_rooms(a).contains(r) {
            assert(r.x2 - r.x1 >= opts.min_width - 1 || r.x2 - r.x1 == left.x2 - left.x1);
        } else {
            assert(tree_rooms(b).contains(r));
            assert(r.x2 - r.x1 >= opts.min_width - 1 || r.x2 - r.x1 == right.x2 - right.x1);
        }
    }
    assert forall|r: Rect| #[trigger] tree_rooms(a).contains(r) implies r.x2 <= (left.x2 + 1)
        - 1 by {}
    assert forall|r: Rect| #[trigger] tree_rooms(b).contains(r) implies r.x1 >= (left.x2 + 1)
        + 1 by {}
    assert(rooms_left_of(a, left.x2 + 1) && rooms_right_of(b, left.x2 + 1));
    assert(gap_between(a, b));
    assert forall|r1: Rect, r2: Rect, p: Pos|
        #![trigger r1.spec_contains(p), r2.spec_contains(p)]
        tree_rooms(t).contains(r1) && tree_rooms(t).contains(r2) && r1 != r2 implies !(
    r1.spec_contains(p) && r2.spec_contains(p)) by {
        if r1.spec_contains(p) && r2.spec_contains(p) {
            if tree_rooms(a).contains(r1) && tree_rooms(a).contains(r2) {
                assert(!(r1.spec_contains(p) && r2.spec_contains(p)));
            } else if tree_rooms(b).contains(r1) && tree_rooms(b).contains(r2) {
                assert(!(r1.spec_contains(p) && r2.spec_contains(p)));
            } else if tree_rooms(a).contains(r1) && tree_rooms(b).contains(r2) {
                assert(p.x <= r1.x2 <= left.x2 && p.x >= r2.x1 >= right.x1);
            } else {
                assert(tree_rooms(b).contains(r1) && tree_rooms(a).contains(r2));
                assert(p.x <= r2.x2 <= left.x2 && p.x >= r1.x1 >= right.x1);
            }
        }
    }
}

/// Size bounds, disjointness and the split gap, propagated through a y
/// split.
proof fn lemma_split_extras_y(
    a: BspTree,
    b: BspTree,
    t: BspTree,
    top: Rect,
    bottom: Rect,
    rect: Rect,
    opts: BspSplitOpts,
)
    requires
        t is Split,
        *t->Split_0 == a,
        *t->Split_1 == b,
        tree_in(a, top),
        tree_in(b, bottom),
        tree_sized(a, opts, top),
        tree_sized(b, opts, bottom),
        tree_disjoint(a),
        tree_disjoint(b),
        tree_split_gaps(a),
        tree_split_gaps(b),
        top.y2 - top.y1 >= opts.min_height - 1,
        bottom.y2 - bottom.y1 >= opts.min_height - 1,
        top.x1 == rect.x1,
        top.x2 == rect.x2,
        bottom.x1 == rect.x1,
        bottom.x2 == rect.x2,
        top.y2 + 2 == bottom.y1,
    ensures
        tree_sized(t, opts, rect),
        tree_disjoint(t),
        tree_split_gaps(t),
{
    assert(tree_rooms(t) == tree_rooms(a) + tree_rooms(b));
    assert forall|r: Rect| #[trigger] tree_rooms(t).contains(r) implies {
        &&& r.x2 - r.x1 <= opts.max_width
        &&& r.y2 - r.y1 <= opts.max_height
        &&& (r.x2 - r.x1 >= opts.min_width - 1 || r.x2 - r.x1 == rect.x2 - rect.x1)
        &&& (r.y2 - r.y1 >= opts.min_height - 1 || r.y2 - r.y1 == rect.y2 - rect.y1)
    } by {
        if tree_rooms(a).contains(r) {
            assert(r.y2 - r.y1 >= opts.min_height - 1 || r.y2 - r.y1 == top.y2 - top.y1);
        } else {
            assert(tree_rooms(b).contains(r));
            assert(r.y2 - r.y1 >= opts.min_height - 1 || r.y2 - r.y1 == bottom.y2 - bottom.y1);
        }
    }
    assert forall|r: Rect| #[trigger] tree_rooms(a).contains(r) implies r.y2 <= (top.y2 + 1)
        - 1 by {}
    assert forall|r: Rect| #[trigger] tree_rooms(b).contains(r) implies r.y1 >= (top.y2 + 1)
        + 1 by {}
    assert(rooms_above(a, top.y2 + 1) && rooms_below(b, top.y2 + 1));
    assert(gap_between(a, b));
    assert forall|r1: Rect, r2: Rect, p: Pos|
        #![trigger r1.spec_contains(p), r2.spec_contains(p)]
        tree_rooms(t).contains(r1) && tree_rooms(t).contains(r2) && r1 != r2 implies !(
    r1.spec_contains(p) && r2.spec_contains(p)) by {
        if r1.spec_contains(p) && r2.spec_contains(p) {
            if tree_rooms(a).contains(r1) && tree_rooms(a).contains(r2) {
                assert(!(r1.spec_contains(p) && r2.spec_contains(p)));
            } else if tree_rooms(b).contains(r1) && tree_rooms(b).contains(r2) {
                assert(!(r1.spec_contains(p) && r2.spec_contains(p)));
            } else if tree_rooms(a).contains(r1) && tree_rooms(b).contains(r2) {
                assert(p.y <= r1.y2 <= top.y2 && p.y >= r2.y1 >= bottom.y1);
            } else {
                assert(tree_rooms(b).contains(r1) && tree_rooms(a).contains(r2));
                assert(p.y <= r2.y2 <= top.y2 && p.y >= r1.y1 >= bottom.y1);
            }
        }
    }
}

} // verus!
