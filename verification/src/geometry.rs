//! Integer grid geometry: positions, cardinal steps and inclusive rectangles.

use vstd::prelude::*;

verus! {

/// Coordinates are kept well inside `i32` range so that sums, differences and
/// squared distances of any two in-bounds coordinates never overflow.
pub const COORD_LIMIT: i32 = 1_000_000;

/// A 2D integer grid coordinate; the unit of all spatial reasoning.
#[derive(Clone, Copy, Debug, PartialEq, Eq, Hash, Structural)]
pub struct Pos {
    pub x: i32,
    pub y: i32,
}

impl Pos {
    /// True when both coordinates are small enough for safe arithmetic.
    pub open spec fn in_bounds(self) -> bool {
        -COORD_LIMIT <= self.x <= COORD_LIMIT && -COORD_LIMIT <= self.y <= COORD_LIMIT
    }

}

/// Manhattan distance between two positions.
pub open spec fn manhattan(a: Pos, b: Pos) -> int {
    abs_int(a.x - b.x) + abs_int(a.y - b.y)
}

/// Chebyshev distance between two positions.
pub open spec fn chebyshev(a: Pos, b: Pos) -> int {
    if abs_int(a.x - b.x) >= abs_int(a.y - b.y) {
        abs_int(a.x - b.x)
    } else {
        abs_int(a.y - b.y)
    }
}

/// Squared Euclidean distance between two positions.
pub open spec fn dist_sq(a: Pos, b: Pos) -> int {
    (a.x - b.x) * (a.x - b.x) + (b.y - a.y) * (b.y - a.y)
}

pub open spec fn abs_int(v: int) -> int {
    if v >= 0 {
        v
    } else {
        -v
    }
}

/// Executable Manhattan distance.
pub fn manhattan_dist(a: Pos, b: Pos) -> (r: i64)
    requires
        a.in_bounds(),
        b.in_bounds(),
    ensures
        r == manhattan(a, b),
{
    let dx: i64 = (a.x as i64) - (b.x as i64);
    let dy: i64 = (a.y as i64) - (b.y as i64);
    let ax: i64 = if dx >= 0 { dx } else { -dx };
    let ay: i64 = if dy >= 0 { dy } else { -dy };
    ax + ay
}

/// True when `a` and `b` are distinct cells and differ by one step in
/// exactly one cardinal direction.
pub open spec fn cardinal_adjacent(a: Pos, b: Pos) -> bool {
    manhattan(a, b) == 1
}

/// The four cardinal neighbours of a position, in fixed order.
pub fn cardinal_neighbors(p: Pos) -> (r: Vec<Pos>)
    requires
        p.in_bounds(),
    ensures
        r@.len() == 4,
        forall|i: int| 0 <= i < 4 ==> cardinal_adjacent(p, #[trigger] r@[i]),
        forall|q: Pos| cardinal_adjacent(p, q) ==> r@.contains(q),
{
    let r: Vec<Pos> = vec![
        Pos { x: p.x + 1, y: p.y },
        Pos { x: p.x - 1, y: p.y },
        Pos { x: p.x, y: p.y + 1 },
        Pos { x: p.x, y: p.y - 1 },
    ];
    proof {
        assert forall|q: Pos| cardinal_adjacent(p, q) implies r@.contains(q) by {
            if q.x == p.x + 1 && q.y == p.y {
                assert(r@[0] == q);
            } else if q.x == p.x - 1 && q.y == p.y {
                assert(r@[1] == q);
            } else if q.x == p.x && q.y == p.y + 1 {
                assert(r@[2] == q);
            } else {
                assert(r@[3] == q);
            }
        }
    }
    r
}

/// Executable squared Euclidean distance.
pub fn dist_squared(a: Pos, b: Pos) -> (r: i64)
    requires
        a.in_bounds(),
        b.in_bounds(),
    ensures
        r == dist_sq(a, b),
{
    let dx: i64 = (a.x as i64) - (b.x as i64);
    let dy: i64 = (b.y as i64) - (a.y as i64);
    proof {
        assert(dx * dx <= 4_000_000_000_000 && dx * dx >= 0 && dy * dy <= 4_000_000_000_000
            && dy * dy >= 0) by (nonlinear_arith)
            requires
                -2_000_000 <= dx <= 2_000_000,
                -2_000_000 <= dy <= 2_000_000,
        ;
    }
    dx * dx + dy * dy
}

/// An inclusive integer rectangle: the cells with `x1 <= x <= x2` and
/// `y1 <= y <= y2`.
#[derive(Clone, Copy, Debug, PartialEq, Eq, Hash, Structural)]
pub struct Rect {
    pub x1: i32,
    pub y1: i32,
    pub x2: i32,
    pub y2: i32,
}

impl Rect {
    /// Structural invariant: non-empty on both axes, with all corners in
    /// arithmetic-safe range.
    pub open spec fn wf(self) -> bool {
        &&& self.x1 <= self.x2
        &&& self.y1 <= self.y2
        &&& -COORD_LIMIT <= self.x1
        &&& self.x2 <= COORD_LIMIT
        &&& -COORD_LIMIT <= self.y1
        &&& self.y2 <= COORD_LIMIT
    }

    pub open spec fn spec_contains(self, p: Pos) -> bool {
        self.x1 <= p.x <= self.x2 && self.y1 <= p.y <= self.y2
    }

    pub open spec fn spec_width(self) -> int {
        self.x2 - self.x1 + 1
    }

    pub open spec fn spec_height(self) -> int {
        self.y2 - self.y1 + 1
    }

    pub open spec fn area(self) -> int {
        self.spec_width() * self.spec_height()
    }


    /// The rectangle of the given width and height whose centre cell is `c`.
    pub fn new_centered(c: Pos, w: i32, h: i32) -> (r: Rect)
        requires
            1 <= w <= 100_000,
            1 <= h <= 100_000,
            -500_000 <= c.x <= 500_000,
            -500_000 <= c.y <= 500_000,
        ensures
            r.wf(),
            r.spec_width() == w,
            r.spec_height() == h,
            r.spec_contains(c),
            r.x1 == c.x - w / 2,
            r.y1 == c.y - h / 2,
    {
        let x1: i32 = c.x - w / 2;
        let y1: i32 = c.y - h / 2;
        Rect { x1, y1, x2: x1 + w - 1, y2: y1 + h - 1 }
    }

    /// This rectangle translated along the x axis so that it starts one cell
    /// to the right of `other`; the y span is unchanged.
    pub fn shift_right_of(self, other: Rect) -> (r: Rect)
        requires
            self.wf(),
            other.wf(),
            other.x2 + self.spec_width() <= COORD_LIMIT,
        ensures
            r.wf(),
            r.x1 == other.x2 + 1,
            r.spec_width() == self.spec_width(),
            r.y1 == self.y1,
            r.y2 == self.y2,
    {
        let w: i32 = self.x2 - self.x1;
        Rect { x1: other.x2 + 1, y1: self.y1, x2: other.x2 + 1 + w, y2: self.y2 }
    }

    pub fn contains(&self, p: Pos) -> (r: bool)
        ensures
            r == self.spec_contains(p),
    {
        self.x1 <= p.x && p.x <= self.x2 && self.y1 <= p.y && p.y <= self.y2
    }

    /// The intersection, if the two rectangles share any cell.
    pub fn intersect(&self, other: &Rect) -> (r: Option<Rect>)
        requires
            self.wf(),
            other.wf(),
        ensures
            match r {
                Some(i) => {
                    &&& i.wf()
                    &&& forall|p: Pos|
                        i.spec_contains(p) <==> (self.spec_contains(p)
                            && other.spec_contains(p))
                },
                None => forall|p: Pos| !(self.spec_contains(p) && other.spec_contains(p)),
            },
    {
        let x1: i32 = if self.x1 >= other.x1 { self.x1 } else { other.x1 };
        let y1: i32 = if self.y1 >= other.y1 { self.y1 } else { other.y1 };
        let x2: i32 = if self.x2 <= other.x2 { self.x2 } else { other.x2 };
        let y2: i32 = if self.y2 <= other.y2 { self.y2 } else { other.y2 };
        if x1 <= x2 && y1 <= y2 {
            Some(Rect { x1, y1, x2, y2 })
        } else {
            None
        }
    }

    /// Grown by `n` cells above and below.
    pub fn expand_y(self, n: i32) -> (r: Rect)
        requires
            self.wf(),
            0 <= n,
            self.y2 + n <= COORD_LIMIT,
            -COORD_LIMIT <= self.y1 - n,
        ensures
            r.wf(),
            r == (Rect { x1: self.x1, y1: (self.y1 - n) as i32, x2: self.x2, y2: (self.y2
                + n) as i32 }),
    {
        Rect { x1: self.x1, y1: self.y1 - n, x2: self.x2, y2: self.y2 + n }
    }

    /// Shrunk by `n` cells on every side.
    pub fn shrink(self, n: i32) -> (r: Rect)
        requires
            self.wf(),
            0 <= n,
            self.x1 + n <= self.x2 - n,
            self.y1 + n <= self.y2 - n,
        ensures
            r.wf(),
            r == (Rect { x1: (self.x1 + n) as i32, y1: (self.y1 + n) as i32, x2: (self.x2
                - n) as i32, y2: (self.y2 - n) as i32 }),
    {
        Rect { x1: self.x1 + n, y1: self.y1 + n, x2: self.x2 - n, y2: self.y2 - n }
    }

    /// A central cell of the rectangle.
    pub open spec fn spec_center(self) -> Pos {
        Pos {
            x: (self.x1 + (self.x2 - self.x1) / 2) as i32,
            y: (self.y1 + (self.y2 - self.y1) / 2) as i32,
        }
    }

    pub fn center(self) -> (r: Pos)
        requires
            self.wf(),
        ensures
            self.spec_contains(r),
            r == self.spec_center(),
    {
        Pos { x: self.x1 + (self.x2 - self.x1) / 2, y: self.y1 + (self.y2 - self.y1) / 2 }
    }

    /// The one-cell-wide column at the left side.
    pub fn left_edge(self) -> (r: Rect)
        requires
            self.wf(),
        ensures
            r.wf(),
            r == (Rect { x1: self.x1, y1: self.y1, x2: self.x1, y2: self.y2 }),
    {
        Rect { x1: self.x1, y1: self.y1, x2: self.x1, y2: self.y2 }
    }

    /// The one-cell-wide column at the right side.
    pub fn right_edge(self) -> (r: Rect)
        requires
            self.wf(),
        ensures
            r.wf(),
            r == (Rect { x1: self.x2, y1: self.y1, x2: self.x2, y2: self.y2 }),
    {
        Rect { x1: self.x2, y1: self.y1, x2: self.x2, y2: self.y2 }
    }

    /// The one-cell-high row at the top (smallest y).
    pub fn top_edge(self) -> (r: Rect)
        requires
            self.wf(),
        ensures
            r.wf(),
            r == (Rect { x1: self.x1, y1: self.y1, x2: self.x2, y2: self.y1 }),
    {
        Rect { x1: self.x1, y1: self.y1, x2: self.x2, y2: self.y1 }
    }

    /// The one-cell-high row at the bottom (largest y).
    pub fn bottom_edge(self) -> (r: Rect)
        requires
            self.wf(),
        ensures
            r.wf(),
            r == (Rect { x1: self.x1, y1: self.y2, x2: self.x2, y2: self.y2 }),
    {
        Rect { x1: self.x1, y1: self.y2, x2: self.x2, y2: self.y2 }
    }

    /// Every cell of the rectangle, row by row, without repetition.
    pub fn cells(&self) -> (r: Vec<Pos>)
        requires
            self.wf(),
        ensures
            forall|i: int| 0 <= i < r@.len() ==> self.spec_contains(#[trigger] r@[i]),
            forall|p: Pos| self.spec_contains(p) ==> r@.contains(p),
            forall|i: int, j: int| 0 <= i < j < r@.len() ==> r@[i] != r@[j],
            forall|i: int| 0 <= i < r@.len() ==> (#[trigger] r@[i]).in_bounds(),
    {
        let mut r: Vec<Pos> = Vec::new();
        let mut y: i32 = self.y1;
        while y <= self.y2
            invariant
                self.wf(),
                self.y1 <= y <= self.y2 + 1,
                forall|i: int| 0 <= i < r@.len() ==> self.spec_contains(#[trigger] r@[i]),
                forall|i: int| 0 <= i < r@.len() ==> (#[trigger] r@[i]).y < y,
                forall|p: Pos| self.spec_contains(p) && p.y < y ==> r@.contains(p),
                forall|i: int, j: int| 0 <= i < j < r@.len() ==> r@[i] != r@[j],
            decreases self.y2 + 1 - y,
        {
            let mut x: i32 = self.x1;
            while x <= self.x2
                invariant
                    self.wf(),
                    self.y1 <= y <= self.y2,
                    self.x1 <= x <= self.x2 + 1,
                    forall|i: int| 0 <= i < r@.len() ==> self.spec_contains(#[trigger] r@[i]),
                    forall|i: int|
                        0 <= i < r@.len() ==> ((#[trigger] r@[i]).y < y || (r@[i].y == y
                            && r@[i].x < x)),
                    forall|p: Pos|
                        self.spec_contains(p) && (p.y < y || (p.y == y && p.x < x))
                            ==> r@.contains(p),
                    forall|i: int, j: int| 0 <= i < j < r@.len() ==> r@[i] != r@[j],
                decreases self.x2 + 1 - x,
            {
                let ghost r0 = r@;
                r.push(Pos { x, y });
                proof {
                    assert forall|p: Pos|
                        self.spec_contains(p) && (p.y < y || (p.y == y && p.x < x
                            + 1)) implies r@.contains(p) by {
                        if p.y == y && p.x == x {
                            assert(r@[r@.len() - 1] == p);
                        } else {
                            let i = choose|i: int| 0 <= i < r0.len() && r0[i] == p;
                            assert(r@[i] == p);
                        }
                    }
                }
                x = x + 1;
            }
            y = y + 1;
        }
        r
    }
}

} // verus!
