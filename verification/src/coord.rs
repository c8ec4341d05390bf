use vstd::prelude::*;

verus! {

/// A 2-D point with 16-bit signed coordinates, the whole coordinate domain
/// of the index.
#[derive(Clone, Copy, PartialEq, Eq, Structural, Debug, Hash)]
pub struct Vec2 {
    pub x: i16,
    pub y: i16,
}

/// Squared Euclidean distance between two points, as an unbounded integer.
pub open spec fn dist2(a: Vec2, b: Vec2) -> int {
    (a.x - b.x) * (a.x - b.x) + (a.y - b.y) * (a.y - b.y)
}

impl Vec2 {
    pub fn new(x: i16, y: i16) -> (v: Vec2)
        ensures
            v == (Vec2 { x, y }),
    {
        Vec2 { x, y }
    }
}

proof fn lemma_abs_square(d: int, m: int)
    by (nonlinear_arith)
    requires
        m == d || m == -d,
    ensures
        m * m == d * d,
{
}

proof fn lemma_square_bound(a: int, b: int)
    by (nonlinear_arith)
    requires
        0 <= a <= b,
    ensures
        a * a <= b * b,
{
}

/// Squared distance does not depend on the order of its arguments.
pub proof fn lemma_dist2_sym(a: Vec2, b: Vec2)
    ensures
        dist2(a, b) == dist2(b, a),
{
    let ax = a.x as int;
    let ay = a.y as int;
    let bx = b.x as int;
    let by = b.y as int;
    assert((ax - bx) * (ax - bx) == (bx - ax) * (bx - ax)) by (nonlinear_arith);
    assert((ay - by) * (ay - by) == (by - ay) * (by - ay)) by (nonlinear_arith);
}

/// Squared Euclidean distance between two points; the two deltas are at most
/// 65535 per axis, so the sum of squares fits comfortably in 64 bits.
pub fn dist2_points(a: Vec2, b: Vec2) -> (r: u64)
    ensures
        r == dist2(a, b),
{
    let dx: u64 = if a.x >= b.x {
        (a.x as i32 - b.x as i32) as u64
    } else {
        (b.x as i32 - a.x as i32) as u64
    };
    let dy: u64 = if a.y >= b.y {
        (a.y as i32 - b.y as i32) as u64
    } else {
        (b.y as i32 - a.y as i32) as u64
    };
    proof {
        lemma_abs_square(a.x - b.x, dx as int);
        lemma_abs_square(a.y - b.y, dy as int);
        lemma_square_bound(dx as int, 0xFFFF);
        lemma_square_bound(dy as int, 0xFFFF);
    }
    dx * dx + dy * dy
}

} // verus!
