use vstd::prelude::*;

use crate::add_half_max_and_convert;
use crate::coord::Vec2;

verus! {

/// The position of a cell on the order-16 Hilbert curve over the unsigned
/// 16-bit grid. The curve itself is left unstated: the build only needs the
/// key to be a function of the two coordinates.
pub uninterp spec fn hilbert_index(x: u16, y: u16) -> u32;

/// Relies on fast_hilbert::xy2h: the returned curve position depends on the
/// two coordinates alone (the low bit of the order is all the order
/// contributes for 16-bit inputs, so every even order gives the same key).
#[verifier::external_body]
fn hilbert_key(x: u16, y: u16) -> (h: u32)
    ensures
        h == hilbert_index(x, y),
{
    fast_hilbert::xy2h(x, y, 16)
}

/// The sort key of a point: its Hilbert index after both coordinates are
/// re-biased into the unsigned range.
pub open spec fn spec_point_key(p: Vec2) -> u32 {
    hilbert_index((p.x + 0x8000) as u16, (p.y + 0x8000) as u16)
}

/// The sort key of a point.
pub fn point_key(p: Vec2) -> (k: u32)
    ensures
        k == spec_point_key(p),
{
    let x = add_half_max_and_convert(p.x);
    let y = add_half_max_and_convert(p.y);
    hilbert_key(x, y)
}

} // verus!
