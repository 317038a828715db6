//! Field of view: radial visibility from an origin cell against a set of
//! opaque cells.
//!
//! A cell is visible when it lies within the view radius and no strictly
//! interior cell of the grid line from the origin to it is opaque. The origin
//! always sees itself, and an opaque cell is itself visible (one can see a
//! wall), while cells whose line passes through an opaque cell are not.

use vstd::prelude::*;
use crate::geometry::{Pos, Rect, abs_int, dist_sq};
use crate::grid::CellSet;

verus! {

/// One grid step from `a` toward `b`: along the axis with the larger
/// remaining distance, x first on ties.
pub open spec fn step_toward(a: Pos, b: Pos) -> Pos {
    if a == b {
        a
    } else if abs_int(b.x - a.x) >= abs_int(b.y - a.y) {
        Pos { x: if b.x > a.x { (a.x + 1) as i32 } else { (a.x - 1) as i32 }, y: a.y }
    } else {
        Pos { x: a.x, y: if b.y > a.y { (a.y + 1) as i32 } else { (a.y - 1) as i32 } }
    }
}

/// The grid line walked from `a` to `b`, both endpoints included.
pub open spec fn line_seq(a: Pos, b: Pos) -> Seq<Pos>
    decreases crate::geometry::manhattan(a, b),
        when a.in_bounds() && b.in_bounds()
{
    if a == b {
        seq![a]
    } else {
        seq![a] + line_seq(step_toward(a, b), b)
    }
}

pub proof fn lemma_line_seq_shape(a: Pos, b: Pos)
    requires
        a.in_bounds(),
        b.in_bounds(),
    ensures
        line_seq(a, b).len() >= 1,
        line_seq(a, b)[0] == a,
        line_seq(a, b).last() == b,
    decreases crate::geometry::manhattan(a, b),
{
    if a != b {
        lemma_line_seq_shape(step_toward(a, b), b);
    }
}

/// No strictly interior cell of the line from `origin` to `target` is opaque.
pub open spec fn clear_line(origin: Pos, target: Pos, opaque: Set<Pos>) -> bool {
    forall|i: int|
        1 <= i < line_seq(origin, target).len() - 1 ==> !opaque.contains(
            #[trigger] line_seq(origin, target)[i],
        )
}

/// Visibility of `target` from `origin` within `radius`.
pub open spec fn fov_visible(origin: Pos, target: Pos, radius: int, opaque: Set<Pos>) -> bool {
    dist_sq(origin, target) <= radius * radius && clear_line(origin, target, opaque)
}

/// Growing the radius never removes a cell from the visibility set.
pub proof fn lemma_fov_monotone(origin: Pos, target: Pos, r1: int, r2: int, opaque: Set<Pos>)
    requires
        0 <= r1 <= r2,
        fov_visible(origin, target, r1, opaque),
    ensures
        fov_visible(origin, target, r2, opaque),
{
    assert(r1 * r1 <= r2 * r2) by (nonlinear_arith)
        requires
            0 <= r1 <= r2,
    ;
}

/// An opaque cell in the interior of the line hides the target.
pub proof fn lemma_fov_blocked_behind(
    origin: Pos,
    target: Pos,
    radius: int,
    opaque: Set<Pos>,
    i: int,
)
    requires
        1 <= i < line_seq(origin, target).len() - 1,
        opaque.contains(line_seq(origin, target)[i]),
    ensures
        !fov_visible(origin, target, radius, opaque),
{
}

/// Opacity of the target itself never hides it: visibility does not read the
/// endpoints of the line.
pub proof fn lemma_fov_wall_itself_visible(
    origin: Pos,
    target: Pos,
    radius: int,
    opaque: Set<Pos>,
)
    requires
        origin.in_bounds(),
        target.in_bounds(),
        fov_visible(origin, target, radius, opaque.remove(target)),
    ensures
        fov_visible(origin, target, radius, opaque),
{
    let line = line_seq(origin, target);
    lemma_line_seq_shape(origin, target);
    assert forall|i: int| 1 <= i < line.len() - 1 implies !opaque.contains(
        #[trigger] line[i],
    ) by {
        assert(!opaque.remove(target).contains(line[i]));
        lemma_line_interior_not_endpoint(origin, target, i);
    }
}

/// A strictly interior cell of a line differs from the target.
proof fn lemma_line_interior_not_endpoint(origin: Pos, target: Pos, i: int)
    requires
        origin.in_bounds(),
        target.in_bounds(),
        1 <= i < line_seq(origin, target).len() - 1,
    ensures
        line_seq(origin, target)[i] != target,
{
    lemma_line_strictly_closer(origin, target, i);
}

/// Each step of the line strictly reduces the remaining Manhattan distance,
/// so interior cells never coincide with the target.
proof fn lemma_line_strictly_closer(a: Pos, b: Pos, i: int)
    requires
        a.in_bounds(),
        b.in_bounds(),
        0 <= i < line_seq(a, b).len() - 1,
    ensures
        line_seq(a, b)[i] != b,
    decreases crate::geometry::manhattan(a, b),
{
    if a != b {
        if i > 0 {
            lemma_line_strictly_closer(step_toward(a, b), b, i - 1);
            assert(line_seq(a, b)[i] == line_seq(step_toward(a, b), b)[i - 1]);
        }
    }
}

/// One step of the walked line, as executable code.
pub fn step_exec(a: Pos, b: Pos) -> (r: Pos)
    requires
        a.in_bounds(),
        b.in_bounds(),
        a != b,
    ensures
        r == step_toward(a, b),
        r.in_bounds(),
        crate::geometry::manhattan(r, b) == crate::geometry::manhattan(a, b) - 1,
{
    let dx: i64 = (b.x as i64) - (a.x as i64);
    let dy: i64 = (b.y as i64) - (a.y as i64);
    let ax: i64 = if dx >= 0 { dx } else { -dx };
    let ay: i64 = if dy >= 0 { dy } else { -dy };
    if ax >= ay {
        Pos { x: if b.x > a.x { a.x + 1 } else { a.x - 1 }, y: a.y }
    } else {
        Pos { x: a.x, y: if b.y > a.y { a.y + 1 } else { a.y - 1 } }
    }
}

/// The walked grid line from `a` to `b`, endpoints included.
pub fn line_to(a: Pos, b: Pos) -> (r: Vec<Pos>)
    requires
        a.in_bounds(),
        b.in_bounds(),
    ensures
        r@ == line_seq(a, b),
{
    let mut r: Vec<Pos> = Vec::new();
    r.push(a);
    let mut cur: Pos = a;
    while cur != b
        invariant
            a.in_bounds(),
            b.in_bounds(),
            cur.in_bounds(),
            r@.len() >= 1,
            r@.last() == cur,
            r@ + line_seq(cur, b).skip(1) == line_seq(a, b),
        decreases crate::geometry::manhattan(cur, b),
    {
        let next = step_exec(cur, b);
        let ghost r0 = r@;
        r.push(next);
        proof {
            assert(line_seq(cur, b) == seq![cur] + line_seq(next, b));
            assert(line_seq(cur, b).skip(1) =~= line_seq(next, b));
            assert(line_seq(next, b) =~= seq![next] + line_seq(next, b).skip(1));
            assert(r@ + line_seq(next, b).skip(1) =~= r0 + line_seq(cur, b).skip(1));
        }
        cur = next;
    }
    proof {
        assert(line_seq(cur, b) =~= seq![cur]);
        assert(r@ =~= r@ + line_seq(cur, b).skip(1));
    }
    r
}

/// Compute the visibility set around `origin`, checking every cell within the
/// radius against the opaque set.
pub fn calculate_fov(origin: Pos, max_radius: i32, opaque: &CellSet) -> (r: CellSet)
    requires
        0 <= max_radius <= 1_000,
        -500_000 <= origin.x <= 500_000,
        -500_000 <= origin.y <= 500_000,
    ensures
        forall|p: Pos|
            r.cells().contains(p) <==> fov_visible(origin, p, max_radius as int, opaque.cells()),
{
    let disc = Rect {
        x1: origin.x - max_radius,
        y1: origin.y - max_radius,
        x2: origin.x + max_radius,
        y2: origin.y + max_radius,
    };
    let cells = disc.cells();
    let m: i64 = max_radius as i64;
    proof {
        assert(0 <= m * m <= 1_000_000) by (nonlinear_arith)
            requires
                0 <= m <= 1_000,
        ;
    }
    let rsq: i64 = m * m;
    let mut out = CellSet::new();
    let mut i: usize = 0;
    while i < cells.len()
        invariant
            0 <= max_radius <= 1_000,
            -500_000 <= origin.x <= 500_000,
            -500_000 <= origin.y <= 500_000,
            disc == (Rect {
                x1: (origin.x - max_radius) as i32,
                y1: (origin.y - max_radius) as i32,
                x2: (origin.x + max_radius) as i32,
                y2: (origin.y + max_radius) as i32,
            }),
            rsq == (max_radius as int) * (max_radius as int),
            i <= cells@.len(),
            forall|k: int| 0 <= k < cells@.len() ==> disc.spec_contains(#[trigger] cells@[k]),
            forall|k: int| 0 <= k < cells@.len() ==> (#[trigger] cells@[k]).in_bounds(),
            forall|p: Pos| disc.spec_contains(p) ==> cells@.contains(p),
            forall|p: Pos|
                out.cells().contains(p) ==> fov_visible(
                    origin,
                    p,
                    max_radius as int,
                    opaque.cells(),
                ),
            forall|k: int|
                0 <= k < i && fov_visible(
                    origin,
                    #[trigger] cells@[k],
                    max_radius as int,
                    opaque.cells(),
                ) ==> out.cells().contains(cells@[k]),
        decreases cells@.len() - i,
    {
        let p = cells[i];
        let d = crate::geometry::dist_squared(origin, p);
        if d <= rsq {
            let line = line_to(origin, p);
            let mut clear = true;
            let mut j: usize = 1;
            proof {
                assert(origin.in_bounds());
            }
            while j < line.len() - 1
                invariant
                    origin.in_bounds(),
                    p.in_bounds(),
                    line@ == line_seq(origin, p),
                    line@.len() >= 1,
                    1 <= j,
                    clear ==> forall|t: int|
                        1 <= t < j ==> !opaque.cells().contains(#[trigger] line@[t]),
                    !clear ==> !clear_line(origin, p, opaque.cells()),
                decreases line@.len() - j,
            {
                if opaque.contains(line[j]) {
                    clear = false;
                    proof {
                        assert(opaque.cells().contains(line_seq(origin, p)[j as int]));
                    }
                }
                j = j + 1;
            }
            if clear {
                proof {
                    assert(clear_line(origin, p, opaque.cells()));
                }
                out.insert(p);
            }
        } else {
            proof {
                assert(!fov_visible(origin, p, max_radius as int, opaque.cells()));
            }
        }
        i = i + 1;
    }
    proof {
        assert forall|p: Pos|
            out.cells().contains(p) <==> fov_visible(
                origin,
                p,
                max_radius as int,
                opaque.cells(),
            ) by {
            if fov_visible(origin, p, max_radius as int, opaque.cells()) {
                if !disc.spec_contains(p) {
                    lemma_outside_disc_far(origin, p, max_radius as int);
                } else {
                    let k = choose|k: int| 0 <= k < cells@.len() && cells@[k] == p;
                    assert(fov_visible(origin, cells@[k], max_radius as int, opaque.cells()));
                }
            }
        }
    }
    out
}

/// A cell outside the bounding square of the radius is farther than the
/// radius.
proof fn lemma_outside_disc_far(origin: Pos, p: Pos, radius: int)
    requires
        0 <= radius,
        !(origin.x - radius <= p.x <= origin.x + radius && origin.y - radius <= p.y <= origin.y
            + radius),
    ensures
        dist_sq(origin, p) > radius * radius,
{
    let dx = origin.x - p.x;
    let dy = p.y - origin.y;
    assert(abs_int(dx) > radius || abs_int(dy) > radius);
    assert(dx * dx + dy * dy > radius * radius) by (nonlinear_arith)
        requires
            0 <= radius,
            abs_int(dx) > radius || abs_int(dy) > radius,
    ;
}

} // verus!
