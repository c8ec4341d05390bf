use vstd::prelude::*;

use crate::aabb::Aabb;
use crate::coord::Vec2;
use crate::node::{spec_aabb_node, spec_leaf_node, Node, INVALID_START};
use crate::spec_is_pow2;

verus! {

/// The smallest power of two that is at least `n` (and 1 for `n <= 1`).
pub open spec fn pow2ceil(n: int) -> int
    decreases n,
{
    if n <= 1 {
        1
    } else {
        2 * pow2ceil((n + 1) / 2)
    }
}

pub proof fn lemma_pow2ceil(n: int)
    ensures
        spec_is_pow2(pow2ceil(n)),
        pow2ceil(n) >= n,
        pow2ceil(n) >= 1,
        n >= 1 ==> pow2ceil(n) < 2 * n,
    decreases n,
{
    if n > 1 {
        lemma_pow2ceil((n + 1) / 2);
        let h = pow2ceil((n + 1) / 2);
        assert(spec_is_pow2(2 * h)) by {
            assert((2 * h) / 2 == h && (2 * h) % 2 == 0);
        }
    }
}

/// Two powers of two apart by a factor: the smaller fits twice into the
/// larger.
pub proof fn lemma_pow2_lt(a: int, b: int)
    requires
        spec_is_pow2(a),
        spec_is_pow2(b),
        a < b,
    ensures
        2 * a <= b,
    decreases b,
{
    if a > 1 {
        lemma_pow2_lt(a / 2, b / 2);
    }
}

/// The power of two at least `n` and below `2 n` is unique.
pub proof fn lemma_pow2ceil_unique(n: int, p: int)
    requires
        n >= 1,
        spec_is_pow2(p),
        p >= n,
        p < 2 * n,
    ensures
        p == pow2ceil(n),
{
    lemma_pow2ceil(n);
    let q = pow2ceil(n);
    if p < q {
        lemma_pow2_lt(p, q);
    }
    if q < p {
        lemma_pow2_lt(q, p);
    }
}

/// First leaf slot below node `i` of a complete tree whose leaf row starts
/// at `np2`.
pub open spec fn desc_lo(np2: int, i: int) -> int
    decreases 2 * np2 - i,
{
    if i <= 0 || i >= np2 {
        i - np2
    } else {
        desc_lo(np2, 2 * i)
    }
}

/// One past the last leaf slot below node `i`.
pub open spec fn desc_hi(np2: int, i: int) -> int
    decreases 2 * np2 - i,
{
    if i <= 0 || i >= np2 {
        i + 1 - np2
    } else {
        desc_hi(np2, 2 * i + 1)
    }
}

/// Adjacent nodes of one row cover adjacent leaf intervals; the row
/// boundary (the next power of two) is the one exception.
pub proof fn lemma_desc_adjacent(np2: int, j: int)
    requires
        spec_is_pow2(np2),
        1 <= j,
        j + 1 < 2 * np2,
        !spec_is_pow2(j + 1),
    ensures
        desc_hi(np2, j) == desc_lo(np2, j + 1),
    decreases 2 * np2 - j,
{
    if j < np2 {
        assert(j + 1 != np2);
        assert(spec_is_pow2(2 * (j + 1)) == spec_is_pow2(j + 1)) by {
            assert((2 * (j + 1)) / 2 == j + 1 && (2 * (j + 1)) % 2 == 0);
        }
        lemma_desc_adjacent(np2, 2 * j + 1);
        assert(2 * j + 2 == 2 * (j + 1));
    }
}

/// Bounds of a node's leaf interval: nonempty, inside the leaf row, one
/// slot exactly on the leaf row and at least two further up.
pub proof fn lemma_desc_bounds(np2: int, i: int)
    requires
        spec_is_pow2(np2),
        1 <= i < 2 * np2,
    ensures
        0 <= desc_lo(np2, i),
        desc_lo(np2, i) < desc_hi(np2, i),
        desc_hi(np2, i) <= np2,
        i >= np2 ==> desc_hi(np2, i) == desc_lo(np2, i) + 1,
        i < np2 ==> desc_hi(np2, i) >= desc_lo(np2, i) + 2,
        i < np2 ==> desc_lo(np2, i) == desc_lo(np2, 2 * i) && desc_hi(np2, i) == desc_hi(
            np2,
            2 * i + 1,
        ) && desc_hi(np2, 2 * i) == desc_lo(np2, 2 * i + 1),
    decreases 2 * np2 - i,
{
    if i < np2 {
        lemma_desc_bounds(np2, 2 * i);
        lemma_desc_bounds(np2, 2 * i + 1);
        assert(!spec_is_pow2(2 * i + 1)) by {
            assert(2 * i + 1 >= 3 && (2 * i + 1) % 2 == 1);
        }
        lemma_desc_adjacent(np2, 2 * i);
    }
}

/// The root's interval is the whole leaf row.
pub proof fn lemma_desc_root(np2: int)
    requires
        spec_is_pow2(np2),
    ensures
        desc_lo(np2, 1) == 0,
        desc_hi(np2, 1) == np2,
{
    lemma_desc_lo_pow2(np2, 1);
    assert(spec_is_pow2(2)) by {
        assert(spec_is_pow2(1));
    }
    lemma_desc_hi_top(np2, 1);
}

proof fn lemma_desc_lo_pow2(np2: int, i: int)
    requires
        spec_is_pow2(np2),
        spec_is_pow2(i),
        i <= np2,
    ensures
        desc_lo(np2, i) == 0,
    decreases np2 - i,
{
    if i < np2 {
        assert(spec_is_pow2(2 * i)) by {
            assert((2 * i) / 2 == i && (2 * i) % 2 == 0);
        }
        lemma_pow2_lt(i, np2);
        lemma_desc_lo_pow2(np2, 2 * i);
    }
}

proof fn lemma_desc_hi_top(np2: int, j: int)
    requires
        spec_is_pow2(np2),
        spec_is_pow2(j + 1),
        1 <= j < 2 * np2,
    ensures
        desc_hi(np2, j) == np2,
    decreases 2 * np2 - j,
{
    if j >= np2 {
        if j + 1 < 2 * np2 {
            lemma_pow2_lt(np2, j + 1);
        }
        assert(j + 1 == 2 * np2);
    } else {
        assert(spec_is_pow2(2 * (j + 1)) == spec_is_pow2(j + 1)) by {
            assert((2 * (j + 1)) / 2 == j + 1 && (2 * (j + 1)) % 2 == 0);
        }
        assert(2 * j + 1 + 1 == 2 * (j + 1));
        lemma_desc_hi_top(np2, 2 * j + 1);
    }
}

/// Exact bounding box of the points `pts[lo..hi]`, folded from the left.
pub open spec fn bbox(pts: Seq<Vec2>, lo: int, hi: int) -> Aabb
    decreases hi - lo,
{
    if hi <= lo + 1 {
        Aabb { min: pts[lo], max: pts[lo] }
    } else {
        bbox(pts, lo, hi - 1).spec_enclose(pts[hi - 1])
    }
}

pub proof fn lemma_bbox_wf(pts: Seq<Vec2>, lo: int, hi: int)
    requires
        lo < hi,
    ensures
        bbox(pts, lo, hi).wf(),
    decreases hi - lo,
{
    if hi > lo + 1 {
        lemma_bbox_wf(pts, lo, hi - 1);
    }
}

/// The fold encloses each of its points.
pub proof fn lemma_bbox_contains(pts: Seq<Vec2>, lo: int, hi: int, k: int)
    requires
        lo <= k < hi,
    ensures
        bbox(pts, lo, hi).spec_contains(pts[k]),
    decreases hi - lo,
{
    if hi > lo + 1 && k < hi - 1 {
        lemma_bbox_contains(pts, lo, hi - 1, k);
    }
}

proof fn lemma_merge_assoc(a: Aabb, b: Aabb, c: Aabb)
    ensures
        a.spec_merge(b).spec_merge(c) == a.spec_merge(b.spec_merge(c)),
{
}

/// Splitting the fold at any interior point unions the two halves.
pub proof fn lemma_bbox_merge(pts: Seq<Vec2>, lo: int, mid: int, hi: int)
    requires
        lo < mid < hi,
    ensures
        bbox(pts, lo, hi) == bbox(pts, lo, mid).spec_merge(bbox(pts, mid, hi)),
    decreases hi - mid,
{
    if hi == mid + 1 {
    } else {
        lemma_bbox_merge(pts, lo, mid, hi - 1);
        lemma_merge_assoc(bbox(pts, lo, mid), bbox(pts, mid, hi - 1), Aabb {
            min: pts[hi - 1],
            max: pts[hi - 1],
        });
    }
}

/// The all-zero word, used for the unused slot 0 of the node array.
pub open spec fn zero_node() -> Node {
    Node { two: crate::node::Two { left: 0, right: 0 } }
}

/// The padding node: an invalid leaf at the origin.
pub open spec fn sentinel_node() -> Node {
    spec_leaf_node(Vec2 { x: 0, y: 0 }, INVALID_START)
}

/// The canonical node value of slot `i >= 1` of the array, given the leaf
/// points: the padding node where no leaves lie below the slot, the packed
/// leaf where exactly one does, and the packed exact bounding box
/// otherwise.
pub open spec fn spec_node_at(pts: Seq<Vec2>, np2: int, i: int) -> Node {
    let lo = desc_lo(np2, i);
    let hi = desc_hi(np2, i);
    let hic = if hi <= pts.len() {
        hi
    } else {
        pts.len() as int
    };
    if hic <= lo {
        sentinel_node()
    } else if hic == lo + 1 {
        spec_leaf_node(pts[lo], lo as u32)
    } else {
        spec_aabb_node(bbox(pts, lo, hic))
    }
}

/// The whole canonical node array for the given leaf points: slot 0 is the
/// zero word, the leaf row starts at `pow2ceil` of the leaf count, and the
/// array ends after the last real leaf.
pub open spec fn spec_nodes(pts: Seq<Vec2>) -> Seq<Node> {
    let np2 = pow2ceil(pts.len() as int);
    Seq::new((np2 + pts.len()) as nat, |i: int| if i == 0 {
        zero_node()
    } else {
        spec_node_at(pts, np2, i)
    })
}

/// The smallest power of two that is at least `n`.
pub fn next_pow2(n: usize) -> (r: usize)
    requires
        1 <= n <= 0x4000_0000,
    ensures
        r == pow2ceil(n as int),
        spec_is_pow2(r as int),
        n <= r,
        r < 2 * n,
{
    let mut p: usize = 1;
    while p < n
        invariant
            1 <= p < 2 * n,
            n <= 0x4000_0000,
            spec_is_pow2(p as int),
        decreases 2 * n - p,
    {
        proof {
            assert(spec_is_pow2(2 * (p as int))) by {
                assert((2 * (p as int)) / 2 == p as int && (2 * (p as int)) % 2 == 0);
            }
        }
        p = p * 2;
    }
    proof {
        lemma_pow2ceil_unique(n as int, p as int);
    }
    p
}

/// How the canonical node of slot `k` classifies, by the size of its
/// clipped leaf interval: padding, a real leaf, or an internal box.
pub proof fn lemma_node_class(pts: Seq<Vec2>, np2: int, k: int)
    requires
        spec_is_pow2(np2),
        1 <= k < 2 * np2,
        1 <= pts.len() < INVALID_START as int,
    ensures
        ({
            let lo = desc_lo(np2, k);
            let hi = desc_hi(np2, k);
            let hic = if hi <= pts.len() {
                hi
            } else {
                pts.len() as int
            };
            &&& (hic <= lo ==> crate::node::spec_expanded(spec_node_at(pts, np2, k))
                == crate::node::NodeExpanded::Leaf(
                crate::node::Leaf { point: Vec2 { x: 0, y: 0 }, start: INVALID_START },
            ))
            &&& (hic == lo + 1 ==> crate::node::spec_expanded(spec_node_at(pts, np2, k))
                == crate::node::NodeExpanded::Leaf(
                crate::node::Leaf { point: pts[lo], start: lo as u32 },
            ) && 0 <= lo < pts.len())
            &&& (hic >= lo + 2 ==> crate::node::spec_expanded(spec_node_at(pts, np2, k))
                == crate::node::NodeExpanded::Aabb(bbox(pts, lo, hic)) && bbox(pts, lo, hic).wf()
                && lo + 2 <= hic <= pts.len())
        }),
{
    lemma_desc_bounds(np2, k);
    let lo = desc_lo(np2, k);
    let hi = desc_hi(np2, k);
    let hic = if hi <= pts.len() {
        hi
    } else {
        pts.len() as int
    };
    if hic <= lo {
        crate::node::lemma_leaf_roundtrip(Vec2 { x: 0, y: 0 }, INVALID_START);
    } else if hic == lo + 1 {
        crate::node::lemma_leaf_roundtrip(pts[lo], lo as u32);
    } else {
        lemma_bbox_wf(pts, lo, hic);
        crate::node::lemma_aabb_roundtrip(bbox(pts, lo, hic));
    }
}

/// Number of slots of the subtree rooted at `i`, for the termination of
/// the traversals.
pub open spec fn subtree_size(np2: int, i: int) -> int
    decreases 2 * np2 - i,
{
    if i <= 0 {
        0
    } else if i >= np2 {
        1
    } else {
        1 + subtree_size(np2, 2 * i) + subtree_size(np2, 2 * i + 1)
    }
}

pub proof fn lemma_subtree_size_pos(np2: int, i: int)
    requires
        1 <= i,
    ensures
        subtree_size(np2, i) >= 1,
    decreases 2 * np2 - i,
{
    if 0 < i && i < np2 {
        lemma_subtree_size_pos(np2, 2 * i);
        lemma_subtree_size_pos(np2, 2 * i + 1);
    }
}

/// Total size of the subtrees hanging from a work list.
pub open spec fn stack_measure(s: Seq<u32>, np2: int) -> int
    decreases s.len(),
{
    if s.len() == 0 {
        0
    } else {
        stack_measure(s.drop_last(), np2) + subtree_size(np2, s.last() as int)
    }
}

pub proof fn lemma_stack_measure_nonneg(s: Seq<u32>, np2: int)
    requires
        forall|k: int| 0 <= k < s.len() ==> 1 <= #[trigger] s[k],
    ensures
        stack_measure(s, np2) >= 0,
    decreases s.len(),
{
    if s.len() > 0 {
        lemma_stack_measure_nonneg(s.drop_last(), np2);
        lemma_subtree_size_pos(np2, s.last() as int);
    }
}

} // verus!
