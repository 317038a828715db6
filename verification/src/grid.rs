//! Cell containers: an unbounded hash-backed set of grid positions, and a
//! dense boolean grid over a rectangle.

use vstd::prelude::*;
use std::collections::HashSet;
use crate::geometry::{Pos, Rect};

verus! {

broadcast use vstd::std_specs::hash::group_hash_axioms;

/// A position packed into a single word: x in the high half, y in the low half.
pub open spec fn key_of(p: Pos) -> u64 {
    ((p.x as u32 as u64) << 32u64) | (p.y as u32 as u64)
}

proof fn lemma_pack_injective(a: u32, b: u32, c: u32, d: u32)
    ensures
        (((a as u64) << 32u64) | (b as u64)) == (((c as u64) << 32u64) | (d as u64)) ==> (a == c
            && b == d),
{
    assert((((a as u64) << 32u64) | (b as u64)) == (((c as u64) << 32u64) | (d as u64)) ==> (a == c
        && b == d)) by (bit_vector);
}

proof fn lemma_cast_injective(x: i32, y: i32)
    ensures
        x as u32 == y as u32 ==> x == y,
{
    assert(x as u32 == y as u32 ==> x == y) by (bit_vector);
}

pub proof fn lemma_key_injective(p: Pos, q: Pos)
    ensures
        key_of(p) == key_of(q) ==> p == q,
{
    lemma_pack_injective(p.x as u32, p.y as u32, q.x as u32, q.y as u32);
    lemma_cast_injective(p.x, q.x);
    lemma_cast_injective(p.y, q.y);
}

pub fn encode_key(p: Pos) -> (k: u64)
    ensures
        k == key_of(p),
{
    ((p.x as u32 as u64) << 32u64) | (p.y as u32 as u64)
}

/// A set of grid positions, with no bound on the coordinates.
pub struct CellSet {
    s: HashSet<u64>,
}

impl CellSet {
    /// The mathematical set of positions held.
    pub closed spec fn cells(self) -> Set<Pos> {
        Set::new(|p: Pos| self.s@.contains(key_of(p)))
    }

    pub fn new() -> (r: CellSet)
        ensures
            r.cells() == Set::<Pos>::empty(),
    {
        let r = CellSet { s: HashSet::new() };
        proof {
            assert(r.cells() =~= Set::<Pos>::empty());
        }
        r
    }

    pub fn contains(&self, p: Pos) -> (r: bool)
        ensures
            r == self.cells().contains(p),
    {
        self.s.contains(&encode_key(p))
    }

    pub fn insert(&mut self, p: Pos)
        ensures
            final(self).cells() == old(self).cells().insert(p),
    {
        self.s.insert(encode_key(p));
        proof {
            assert forall|q: Pos|
                self.cells().contains(q) == old(self).cells().insert(p).contains(q) by {
                lemma_key_injective(q, p);
            }
            assert(self.cells() =~= old(self).cells().insert(p));
        }
    }

    pub fn remove(&mut self, p: Pos)
        ensures
            final(self).cells() == old(self).cells().remove(p),
    {
        self.s.remove(&encode_key(p));
        proof {
            assert forall|q: Pos|
                self.cells().contains(q) == old(self).cells().remove(p).contains(q) by {
                lemma_key_injective(q, p);
            }
            assert(self.cells() =~= old(self).cells().remove(p));
        }
    }

    pub fn clear(&mut self)
        ensures
            final(self).cells() == Set::<Pos>::empty(),
    {
        self.s.clear();
        proof {
            assert(self.cells() =~= Set::<Pos>::empty());
        }
    }
}

/// Number of `true` entries in a boolean sequence.
pub open spec fn count_trues(s: Seq<bool>) -> int
    decreases s.len(),
{
    if s.len() == 0 {
        0
    } else {
        count_trues(s.drop_last()) + if s.last() {
            1int
        } else {
            0int
        }
    }
}

pub proof fn lemma_count_trues_le_len(s: Seq<bool>)
    ensures
        0 <= count_trues(s) <= s.len(),
    decreases s.len(),
{
    if s.len() > 0 {
        lemma_count_trues_le_len(s.drop_last());
    }
}

pub proof fn lemma_count_trues_update(s: Seq<bool>, i: int)
    requires
        0 <= i < s.len(),
        !s[i],
    ensures
        count_trues(s.update(i, true)) == count_trues(s) + 1,
    decreases s.len(),
{
    let t = s.update(i, true);
    if i == s.len() - 1 {
        assert(t.drop_last() =~= s.drop_last());
    } else {
        assert(t.drop_last() =~= s.drop_last().update(i, true));
        lemma_count_trues_update(s.drop_last(), i);
    }
}

/// A dense boolean grid over a rectangle; cells outside the rectangle read
/// as `false`.
pub struct BitGrid {
    pub rect: Rect,
    pub bits: Vec<bool>,
}

/// Row-major index of a cell within its rectangle.
pub open spec fn idx_of(rect: Rect, p: Pos) -> int {
    (p.y - rect.y1) * rect.spec_width() + (p.x - rect.x1)
}

proof fn lemma_idx_bounds(rect: Rect, p: Pos)
    requires
        rect.wf(),
        rect.spec_contains(p),
    ensures
        0 <= idx_of(rect, p) < rect.area(),
{
    let w = rect.spec_width();
    let h = rect.spec_height();
    let dy = p.y - rect.y1;
    let dx = p.x - rect.x1;
    assert(0 <= dy * w + dx < h * w) by (nonlinear_arith)
        requires
            0 <= dx < w,
            0 <= dy < h,
            1 <= w,
            1 <= h,
    ;
}

proof fn lemma_idx_injective(rect: Rect, p: Pos, q: Pos)
    requires
        rect.wf(),
        rect.spec_contains(p),
        rect.spec_contains(q),
        p != q,
    ensures
        idx_of(rect, p) != idx_of(rect, q),
{
    let w = rect.spec_width();
    let dyp = p.y - rect.y1;
    let dxp = p.x - rect.x1;
    let dyq = q.y - rect.y1;
    let dxq = q.x - rect.x1;
    assert((dyp != dyq || dxp != dxq) ==> dyp * w + dxp != dyq * w + dxq) by (nonlinear_arith)
        requires
            0 <= dxp < w,
            0 <= dxq < w,
            0 <= dyp,
            0 <= dyq,
    ;
}

impl BitGrid {
    pub open spec fn rect(self) -> Rect {
        self.rect
    }

    pub open spec fn wf(self) -> bool {
        &&& self.rect.wf()
        &&& self.bits@.len() == self.rect.area()
        &&& self.rect.area() <= 100_000_000
    }

    /// Whether the cell is inside the rectangle and set.
    pub open spec fn at(self, p: Pos) -> bool {
        self.rect.spec_contains(p) && self.bits@[idx_of(self.rect, p)]
    }

    /// Number of set cells.
    pub open spec fn count(self) -> int {
        count_trues(self.bits@)
    }

    pub proof fn lemma_count_bounds(self)
        requires
            self.wf(),
        ensures
            0 <= self.count() <= self.rect().area(),
    {
        lemma_count_trues_le_len(self.bits@);
    }

    pub fn rect_of(&self) -> (r: Rect)
        ensures
            r == self.rect(),
    {
        self.rect
    }

    pub fn new(rect: Rect) -> (r: BitGrid)
        requires
            rect.wf(),
            rect.area() <= 100_000_000,
        ensures
            r.wf(),
            r.rect() == rect,
            forall|p: Pos| !r.at(p),
            r.count() == 0,
    {
        let w: i64 = (rect.x2 as i64) - (rect.x1 as i64) + 1;
        let h: i64 = (rect.y2 as i64) - (rect.y1 as i64) + 1;
        let area: usize = (w * h) as usize;
        proof {
            assert(w * h == rect.area()) by (nonlinear_arith)
                requires
                    w == rect.spec_width(),
                    h == rect.spec_height(),
            ;
        }
        let mut bits: Vec<bool> = Vec::new();
        let mut i: usize = 0;
        while i < area
            invariant
                bits@.len() == i,
                i <= area,
                count_trues(bits@) == 0,
                forall|j: int| 0 <= j < i ==> !bits@[j],
            decreases area - i,
        {
            let ghost b0 = bits@;
            bits.push(false);
            proof {
                assert(bits@.drop_last() =~= b0);
            }
            i = i + 1;
        }
        let r = BitGrid { rect, bits };
        proof {
            assert forall|p: Pos| !r.at(p) by {
                if rect.spec_contains(p) {
                    lemma_idx_bounds(rect, p);
                }
            }
        }
        r
    }

    pub fn get(&self, p: Pos) -> (r: bool)
        requires
            self.wf(),
        ensures
            r == self.at(p),
    {
        if p.x < self.rect.x1 || p.x > self.rect.x2 || p.y < self.rect.y1 || p.y > self.rect.y2 {
            return false;
        }
        proof {
            lemma_idx_bounds(self.rect, p);
        }
        let w: i64 = (self.rect.x2 as i64) - (self.rect.x1 as i64) + 1;
        let idx: i64 = ((p.y as i64) - (self.rect.y1 as i64)) * w + ((p.x as i64) - (self.rect.x1
            as i64));
        proof {
            assert(idx == idx_of(self.rect, p)) by (nonlinear_arith)
                requires
                    w == self.rect.spec_width(),
                    idx == (p.y - self.rect.y1) * w + (p.x - self.rect.x1),
            ;
        }
        self.bits[idx as usize]
    }

    /// Set the cell to `v`; every other cell keeps its value.
    pub fn set(&mut self, p: Pos, v: bool)
        requires
            old(self).wf(),
            old(self).rect().spec_contains(p),
        ensures
            final(self).wf(),
            final(self).rect() == old(self).rect(),
            forall|q: Pos| final(self).at(q) == if q == p {
                v
            } else {
                old(self).at(q)
            },
            old(self).at(p) == v ==> final(self).count() == old(self).count(),
            !old(self).at(p) && v ==> final(self).count() == old(self).count() + 1,
    {
        proof {
            lemma_idx_bounds(self.rect, p);
        }
        let w: i64 = (self.rect.x2 as i64) - (self.rect.x1 as i64) + 1;
        let idx: i64 = ((p.y as i64) - (self.rect.y1 as i64)) * w + ((p.x as i64) - (self.rect.x1
            as i64));
        proof {
            assert(idx == idx_of(self.rect, p)) by (nonlinear_arith)
                requires
                    w == self.rect.spec_width(),
                    idx == (p.y - self.rect.y1) * w + (p.x - self.rect.x1),
            ;
        }
        let ghost b0 = self.bits@;
        let old_v = self.bits[idx as usize];
        if old_v != v {
            self.bits.set(idx as usize, v);
            proof {
                if !old_v && v {
                    lemma_count_trues_update(b0, idx as int);
                } else {
                    // v is false and the old value was true; count drops by one.
                    lemma_count_trues_update(self.bits@, idx as int);
                }
            }
        }
        proof {
            assert forall|q: Pos|
                self.at(q) == if q == p {
                    v
                } else {
                    old(self).at(q)
                } by {
                if self.rect.spec_contains(q) {
                    lemma_idx_bounds(self.rect, q);
                    if q != p {
                        lemma_idx_injective(self.rect, p, q);
                    }
                }
            }
        }
    }
}

} // verus!
