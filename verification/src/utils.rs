use vstd::prelude::*;

pub mod array;

use crate::aabb::{axis_len, Aabb};
use crate::coord::Vec2;
use crate::sort::{records_of, sort_by_key};
use crate::Point;

verus! {

pub use crate::utils::array::NonZeroArrayExt;

/// The axis a box is partitioned along: its y extent when that is at
/// least the x extent (the tie goes to y), else its x axis.
pub open spec fn spec_largest_axis_is_y(aabb: Aabb) -> bool {
    axis_len(aabb.min.y as int, aabb.max.y as int) >= axis_len(
        aabb.min.x as int,
        aabb.max.x as int,
    )
}

/// The order-preserving unsigned key of one coordinate of a point.
pub open spec fn spec_axis_key(p: Vec2, axis_y: bool) -> u32 {
    if axis_y {
        (p.y + 0x8000) as u32
    } else {
        (p.x + 0x8000) as u32
    }
}

/// Each record tagged with the key of its chosen coordinate.
pub open spec fn axis_keyed<I: Point>(s: Seq<I>, axis_y: bool) -> Seq<(u32, I)> {
    s.map_values(|r: I| (spec_axis_key(r.spec_point(), axis_y), r))
}

/// Every record of the stable sort of an axis-keyed run still carries the
/// key of its own coordinate.
proof fn lemma_sorted_keys_match<I: Point>(s: Seq<I>, axis_y: bool, k: int)
    requires
        0 <= k < sort_by_key(axis_keyed(s, axis_y)).len(),
    ensures
        sort_by_key(axis_keyed(s, axis_y))[k].0 == spec_axis_key(
            sort_by_key(axis_keyed(s, axis_y))[k].1.spec_point(),
            axis_y,
        ),
{
    broadcast use vstd::seq_lib::group_to_multiset_ensures;

    let ks = axis_keyed(s, axis_y);
    let sorted = sort_by_key(ks);
    crate::sort::lemma_sort_by_key_multiset(ks);
    assert(sorted.contains(sorted[k]));
    assert(sorted.to_multiset().count(sorted[k]) > 0);
    assert(ks.contains(sorted[k]));
    let t = choose|t: int| 0 <= t < ks.len() && ks[t] == sorted[k];
}

/// Reorders the records so that, along the box's larger axis, everything
/// before the returned split point lies at or below everything after it:
/// a stable sort by that coordinate, split where the implicit tree puts
/// the median. The records must not be empty.
pub fn partition_index_by_largest_axis<T: Point>(elements: &mut Vec<T>, aabb: Aabb) -> (median:
    usize)
    requires
        1 <= old(elements)@.len() <= 0x4000_0000,
    ensures
        final(elements)@ == records_of(
            sort_by_key(axis_keyed(old(elements)@, spec_largest_axis_is_y(aabb))),
        ),
        final(elements)@.len() == old(elements)@.len(),
        median == crate::tree::pow2ceil(old(elements)@.len() as int) / 2,
        median < old(elements)@.len(),
        forall|a: int, b: int|
            0 <= a <= b < final(elements)@.len() ==> spec_axis_key(
                (#[trigger] final(elements)@[a]).spec_point(),
                spec_largest_axis_is_y(aabb),
            ) <= spec_axis_key(
                (#[trigger] final(elements)@[b]).spec_point(),
                spec_largest_axis_is_y(aabb),
            ),
{
    let ghost orig = elements@;
    let lens = aabb.lens();
    let select_y = lens.max_index() == 1;
    proof {
        assert(select_y == spec_largest_axis_is_y(aabb));
    }
    let n = elements.len();

    let mut pairs: Vec<(u32, T)> = Vec::new();
    while elements.len() > 0
        invariant
            orig.len() == pairs@.len() + elements@.len(),
            pairs@ == axis_keyed(orig.take(pairs@.len() as int), spec_largest_axis_is_y(aabb)),
            elements@ == orig.skip(pairs@.len() as int),
            select_y == spec_largest_axis_is_y(aabb),
        decreases elements@.len(),
    {
        let ghost n0 = pairs@.len() as int;
        let x = elements.remove(0);
        proof {
            assert(x == orig[n0]);
        }
        let p = x.point();
        let k: u32 = if select_y {
            crate::add_half_max_and_convert(p.y) as u32
        } else {
            crate::add_half_max_and_convert(p.x) as u32
        };
        pairs.push((k, x));
        proof {
            assert(pairs@ =~= axis_keyed(orig.take(n0 + 1), spec_largest_axis_is_y(aabb)));
            assert(elements@ =~= orig.skip(n0 + 1));
        }
    }
    proof {
        assert(orig.take(orig.len() as int) =~= orig);
    }

    crate::sort::sort_pairs(&mut pairs);
    let ghost sorted = sort_by_key(axis_keyed(orig, spec_largest_axis_is_y(aabb)));

    while pairs.len() > 0
        invariant
            sorted.len() == elements@.len() + pairs@.len(),
            elements@ == records_of(sorted.take(elements@.len() as int)),
            pairs@ == sorted.skip(elements@.len() as int),
        decreases pairs@.len(),
    {
        let ghost n0 = elements@.len() as int;
        let pr = pairs.remove(0);
        proof {
            assert(pr == sorted[n0]);
        }
        elements.push(pr.1);
        proof {
            assert(elements@ =~= records_of(sorted.take(n0 + 1)));
            assert(pairs@ =~= sorted.skip(n0 + 1));
        }
    }
    proof {
        assert(sorted.take(sorted.len() as int) =~= sorted);
        crate::sort::lemma_sort_by_key_len(axis_keyed(orig, spec_largest_axis_is_y(aabb)));
        crate::sort::lemma_sort_by_key_sorted(axis_keyed(orig, spec_largest_axis_is_y(aabb)));
        assert forall|a: int, b: int| 0 <= a <= b < elements@.len() implies spec_axis_key(
            (#[trigger] elements@[a]).spec_point(),
            spec_largest_axis_is_y(aabb),
        ) <= spec_axis_key(
            (#[trigger] elements@[b]).spec_point(),
            spec_largest_axis_is_y(aabb),
        ) by {
            lemma_sorted_keys_match(orig, spec_largest_axis_is_y(aabb), a);
            lemma_sorted_keys_match(orig, spec_largest_axis_is_y(aabb), b);
            assert(elements@[a] == sorted[a].1 && elements@[b] == sorted[b].1);
        }
    }

    let np2 = crate::tree::next_pow2(n);
    proof {
        crate::tree::lemma_pow2ceil(n as int);
    }
    np2 / 2
}

} // verus!
