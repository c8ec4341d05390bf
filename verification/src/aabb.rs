use vstd::prelude::*;

use crate::coord::{dist2, Vec2};
use crate::Point;

verus! {

/// An axis-aligned bounding box over the 16-bit signed coordinate domain.
/// A box describing real geometry satisfies `wf` (`min <= max` on both
/// axes); the inverted box returned by `enclosing_aabb` on an empty slice
/// intentionally violates it and stands for "no box".
#[derive(Clone, Copy, PartialEq, Eq, Structural, Debug)]
pub struct Aabb {
    pub min: Vec2,
    pub max: Vec2,
}

/// Componentwise minimum of two signed 16-bit values.
fn imin(a: i16, b: i16) -> (r: i16)
    ensures
        r == if a <= b { a } else { b },
{
    if a <= b {
        a
    } else {
        b
    }
}

/// Componentwise maximum of two signed 16-bit values.
fn imax(a: i16, b: i16) -> (r: i16)
    ensures
        r == if a >= b { a } else { b },
{
    if a >= b {
        a
    } else {
        b
    }
}

/// Distance from `v` to the interval `[lo, hi]`, zero when inside.
pub open spec fn axis_gap(lo: int, hi: int, v: int) -> int {
    if v < lo {
        lo - v
    } else if v > hi {
        v - hi
    } else {
        0
    }
}

/// Largest distance from `v` to a point of the interval `[lo, hi]`.
pub open spec fn axis_far(lo: int, hi: int, v: int) -> int {
    let dl = if v >= lo {
        v - lo
    } else {
        lo - v
    };
    let dh = if v >= hi {
        v - hi
    } else {
        hi - v
    };
    if dl >= dh {
        dl
    } else {
        dh
    }
}

impl Aabb {
    /// A box is well formed when it is nonempty on both axes.
    pub open spec fn wf(self) -> bool {
        self.min.x <= self.max.x && self.min.y <= self.max.y
    }

    pub open spec fn spec_contains(self, point: Vec2) -> bool {
        self.min.x <= point.x <= self.max.x && self.min.y <= point.y <= self.max.y
    }

    pub open spec fn spec_intersects(self, other: Aabb) -> bool {
        self.min.x <= other.max.x && self.max.x >= other.min.x && self.min.y <= other.max.y
            && self.max.y >= other.min.y
    }

    /// Componentwise union of two boxes.
    pub open spec fn spec_merge(self, other: Aabb) -> Aabb {
        Aabb {
            min: Vec2 {
                x: if self.min.x <= other.min.x { self.min.x } else { other.min.x },
                y: if self.min.y <= other.min.y { self.min.y } else { other.min.y },
            },
            max: Vec2 {
                x: if self.max.x >= other.max.x { self.max.x } else { other.max.x },
                y: if self.max.y >= other.max.y { self.max.y } else { other.max.y },
            },
        }
    }

    /// Union of a box with a single point.
    pub open spec fn spec_enclose(self, point: Vec2) -> Aabb {
        self.spec_merge(Aabb { min: point, max: point })
    }

    /// Smallest squared distance from `point` to any point of the box.
    pub open spec fn spec_min_dist2(self, point: Vec2) -> int {
        let gx = axis_gap(self.min.x as int, self.max.x as int, point.x as int);
        let gy = axis_gap(self.min.y as int, self.max.y as int, point.y as int);
        gx * gx + gy * gy
    }

    /// Squared distance from `point` to the farthest corner of the box.
    pub open spec fn spec_max_dist2(self, point: Vec2) -> int {
        let fx = axis_far(self.min.x as int, self.max.x as int, point.x as int);
        let fy = axis_far(self.min.y as int, self.max.y as int, point.y as int);
        fx * fx + fy * fy
    }

    #[must_use]
    pub fn new(min: Vec2, max: Vec2) -> (r: Self)
        ensures
            r == (Aabb { min, max }),
    {
        Self { min, max }
    }

    /// Inclusive containment test on both axes.
    #[must_use]
    pub fn contains_point(self, point: Vec2) -> (r: bool)
        ensures
            r == self.spec_contains(point),
    {
        self.min.x <= point.x && self.max.x >= point.x && self.min.y <= point.y && self.max.y
            >= point.y
    }

    /// The single point of a degenerate box, or `None` when the box spans
    /// more than one point.
    #[must_use]
    pub fn to_unit(self) -> (r: Option<Vec2>)
        ensures
            r == (if self.min == self.max {
                Option::<Vec2>::Some(self.min)
            } else {
                Option::<Vec2>::None
            }),
    {
        if self.min == self.max {
            Some(self.min)
        } else {
            None
        }
    }

    /// Inclusive separating-axis test: true unless one box lies entirely
    /// left/right/above/below the other.
    #[must_use]
    pub fn intersects(self, other: Self) -> (r: bool)
        ensures
            r == self.spec_intersects(other),
    {
        self.min.x <= other.max.x && self.max.x >= other.min.x && self.min.y <= other.max.y
            && self.max.y >= other.min.y
    }

    /// Componentwise union.
    #[must_use]
    pub fn merge(self, other: Self) -> (r: Self)
        ensures
            r == self.spec_merge(other),
    {
        Self {
            min: Vec2 { x: imin(self.min.x, other.min.x), y: imin(self.min.y, other.min.y) },
            max: Vec2 { x: imax(self.max.x, other.max.x), y: imax(self.max.y, other.max.y) },
        }
    }

    /// Union with a single point.
    #[must_use]
    pub fn enclose(self, point: Vec2) -> (r: Self)
        ensures
            r == self.spec_enclose(point),
    {
        self.merge(Self { min: point, max: point })
    }

    /// Absolute per-axis extents; safe over the whole signed 16-bit domain
    /// because the difference is carried out in 32 bits.
    #[must_use]
    pub fn lens(self) -> (r: [u16; 2])
        ensures
            r@ == seq![
                axis_len(self.min.x as int, self.max.x as int),
                axis_len(self.min.y as int, self.max.y as int),
            ],
    {
        let lx: u16 = if self.max.x >= self.min.x {
            (self.max.x as i32 - self.min.x as i32) as u16
        } else {
            (self.min.x as i32 - self.max.x as i32) as u16
        };
        let ly: u16 = if self.max.y >= self.min.y {
            (self.max.y as i32 - self.min.y as i32) as u16
        } else {
            (self.min.y as i32 - self.max.y as i32) as u16
        };
        let r = [lx, ly];
        proof {
            assert(r@ =~= seq![
                axis_len(self.min.x as int, self.max.x as int),
                axis_len(self.min.y as int, self.max.y as int),
            ]);
        }
        r
    }

    /// Smallest and largest possible squared Euclidean distance from `point`
    /// to a point inside the box, used to prune and bound nearest-point
    /// search. Widened 64-bit arithmetic keeps the squares exact.
    #[must_use]
    pub fn min_max_distance2(self, point: Vec2) -> (r: (u64, u64))
        requires
            self.wf(),
        ensures
            r.0 == self.spec_min_dist2(point),
            r.1 == self.spec_max_dist2(point),
    {
        let gx: u64 = if point.x < self.min.x {
            (self.min.x as i32 - point.x as i32) as u64
        } else if point.x > self.max.x {
            (point.x as i32 - self.max.x as i32) as u64
        } else {
            0
        };
        let gy: u64 = if point.y < self.min.y {
            (self.min.y as i32 - point.y as i32) as u64
        } else if point.y > self.max.y {
            (point.y as i32 - self.max.y as i32) as u64
        } else {
            0
        };
        let fx = far_u64(self.min.x, self.max.x, point.x);
        let fy = far_u64(self.min.y, self.max.y, point.y);
        proof {
            lemma_square_mono(gx as int, 0xFFFF);
            lemma_square_mono(gy as int, 0xFFFF);
            lemma_square_mono(fx as int, 0xFFFF);
            lemma_square_mono(fy as int, 0xFFFF);
        }
        (gx * gx + gy * gy, fx * fx + fy * fy)
    }

    /// Exact bounding box of the points of a slice, folded up from the
    /// inverted box, which any point replaces.
    pub fn enclosing_aabb<I: Point>(elems: &[I]) -> (r: Self)
        ensures
            r == spec_enclosing_aabb(elems@),
    {
        let mut min = Vec2 { x: i16::MAX, y: i16::MAX };
        let mut max = Vec2 { x: i16::MIN, y: i16::MIN };

        let mut i: usize = 0;
        while i < elems.len()
            invariant
                0 <= i <= elems@.len(),
                (Aabb { min, max }) == spec_enclosing_aabb(elems@.subrange(0, i as int)),
            decreases elems@.len() - i,
        {
            proof {
                assert(elems@.subrange(0, i + 1).drop_last() =~= elems@.subrange(0, i as int));
            }
            let p = elems[i].point();
            min = Vec2 { x: imin(min.x, p.x), y: imin(min.y, p.y) };
            max = Vec2 { x: imax(max.x, p.x), y: imax(max.y, p.y) };
            i = i + 1;
        }
        proof {
            assert(elems@.subrange(0, elems@.len() as int) =~= elems@);
        }
        Self { min, max }
    }
}

/// Absolute difference of two axis coordinates.
pub open spec fn axis_len(a: int, b: int) -> u16 {
    (if b >= a {
        b - a
    } else {
        a - b
    }) as u16
}

/// Exact bounding box of the points of a sequence of records; the empty
/// sequence gives the inverted box.
pub open spec fn spec_enclosing_aabb<I: Point>(s: Seq<I>) -> Aabb
    decreases s.len(),
{
    if s.len() == 0 {
        Aabb {
            min: Vec2 { x: i16::MAX, y: i16::MAX },
            max: Vec2 { x: i16::MIN, y: i16::MIN },
        }
    } else {
        spec_enclosing_aabb(s.drop_last()).spec_enclose(s.last().spec_point())
    }
}

proof fn lemma_square_mono(a: int, b: int)
    by (nonlinear_arith)
    requires
        0 <= a <= b,
    ensures
        a * a <= b * b,
{
}

/// From a point of the box, the squared distance to `point` is at least the
/// box's minimum squared distance.
pub proof fn lemma_min_dist2_le(b: Aabb, p: Vec2, q: Vec2)
    requires
        b.wf(),
        b.spec_contains(q),
    ensures
        b.spec_min_dist2(p) <= dist2(p, q),
{
    let gx = axis_gap(b.min.x as int, b.max.x as int, p.x as int);
    let gy = axis_gap(b.min.y as int, b.max.y as int, p.y as int);
    let dx = if p.x >= q.x {
        p.x - q.x
    } else {
        q.x - p.x
    };
    let dy = if p.y >= q.y {
        p.y - q.y
    } else {
        q.y - p.y
    };
    assert(0 <= gx <= dx);
    assert(0 <= gy <= dy);
    assert(gx * gx <= dx * dx) by {
        lemma_square_mono(gx, dx);
    }
    assert(gy * gy <= dy * dy) by {
        lemma_square_mono(gy, dy);
    }
    assert(dx * dx == (p.x - q.x) * (p.x - q.x) && dy * dy == (p.y - q.y) * (p.y - q.y))
        by (nonlinear_arith)
        requires
            (dx == p.x - q.x || dx == q.x - p.x) && (dy == p.y - q.y || dy == q.y - p.y),
    ;
}

/// From a point of the box, the squared distance to `point` is at most the
/// box's maximum squared distance.
pub proof fn lemma_max_dist2_ge(b: Aabb, p: Vec2, q: Vec2)
    requires
        b.wf(),
        b.spec_contains(q),
    ensures
        dist2(p, q) <= b.spec_max_dist2(p),
{
    let fx = axis_far(b.min.x as int, b.max.x as int, p.x as int);
    let fy = axis_far(b.min.y as int, b.max.y as int, p.y as int);
    let dx = if p.x >= q.x {
        p.x - q.x
    } else {
        q.x - p.x
    };
    let dy = if p.y >= q.y {
        p.y - q.y
    } else {
        q.y - p.y
    };
    assert(0 <= dx <= fx);
    assert(0 <= dy <= fy);
    assert(dx * dx <= fx * fx) by {
        lemma_square_mono(dx, fx);
    }
    assert(dy * dy <= fy * fy) by {
        lemma_square_mono(dy, fy);
    }
    assert(dx * dx == (p.x - q.x) * (p.x - q.x) && dy * dy == (p.y - q.y) * (p.y - q.y))
        by (nonlinear_arith)
        requires
            (dx == p.x - q.x || dx == q.x - p.x) && (dy == p.y - q.y || dy == q.y - p.y),
    ;
}

/// A point lying in both a box and a query box witnesses that the two boxes
/// intersect.
pub proof fn lemma_common_point_intersects(a: Aabb, b: Aabb, q: Vec2)
    requires
        a.spec_contains(q),
        b.spec_contains(q),
    ensures
        a.spec_intersects(b),
{
}

/// Largest per-axis distance from `point`, computed in 32 bits.
fn far_u64(lo: i16, hi: i16, v: i16) -> (r: u64)
    ensures
        r == axis_far(lo as int, hi as int, v as int),
{
    let dl: u64 = if v >= lo {
        (v as i32 - lo as i32) as u64
    } else {
        (lo as i32 - v as i32) as u64
    };
    let dh: u64 = if v >= hi {
        (v as i32 - hi as i32) as u64
    } else {
        (hi as i32 - v as i32) as u64
    };
    if dl >= dh {
        dl
    } else {
        dh
    }
}

} // verus!
