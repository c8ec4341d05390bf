use vstd::prelude::*;

use crate::aabb::Aabb;
use crate::coord::Vec2;

verus! {

/// The two 32-bit lanes of a packed node.
#[derive(Clone, Copy, PartialEq, Eq, Structural, Debug)]
pub struct Two {
    pub left: u32,
    pub right: u32,
}

/// A packed 64-bit node: either an internal bounding box (two coordinate
/// pairs, one per lane) or a leaf (a point plus a 30-bit start index into
/// the leaf boundary table). A node is a leaf exactly when the top bit of
/// the left lane is clear and the top bit of the right lane is set, a
/// pattern no well-formed box can produce, since it would put a
/// non-negative `min.y` above a negative `max.y`.
#[derive(Clone, Copy, PartialEq, Eq, Structural, Debug)]
pub struct Node {
    pub two: Two,
}

/// Largest start index a leaf can carry (30 bits).
pub const MAX_LEAF_START: u32 = 0x3FFF_FFFF;

/// Reserved start index marking the invalid leaf used as tree padding.
pub const INVALID_START: u32 = 0x3FFF_FFFF;

/// A decoded leaf: the point and the start index into the leaf boundary
/// table.
#[derive(Clone, Copy, PartialEq, Eq, Structural, Debug)]
pub struct Leaf {
    pub point: Vec2,
    pub start: u32,
}

impl Leaf {
    /// Whether this leaf is real, not the reserved padding value.
    pub fn is_valid(&self) -> (r: bool)
        ensures
            r == (self.start != INVALID_START),
    {
        self.start != INVALID_START
    }

    /// Whether this leaf is the reserved padding value.
    pub fn is_invalid(&self) -> (r: bool)
        ensures
            r == (self.start == INVALID_START),
    {
        self.start == INVALID_START
    }
}

/// A node seen through its tag: an internal bounding box or a leaf.
#[derive(Clone, Copy, PartialEq, Eq, Structural, Debug)]
pub enum NodeExpanded {
    Aabb(Aabb),
    Leaf(Leaf),
}

/// Left lane of a leaf: a cleared top bit, the point's x bit pattern, and
/// the upper 15 bits of the start index.
pub open spec fn spec_leaf_left(point: Vec2, start: u32) -> u32 {
    ((point.x as u16 as u32) << 15) | (start >> 15)
}

/// Right lane of a leaf: a set top bit, the point's y bit pattern, and the
/// lower 15 bits of the start index.
pub open spec fn spec_leaf_right(point: Vec2, start: u32) -> u32 {
    0x8000_0000u32 | ((point.y as u16 as u32) << 15) | (start & 0x7FFF)
}

/// The packed form of a leaf.
pub open spec fn spec_leaf_node(point: Vec2, start: u32) -> Node {
    Node { two: Two { left: spec_leaf_left(point, start), right: spec_leaf_right(point, start) } }
}

/// One lane of an internal node: a coordinate pair, x in the low half.
pub open spec fn spec_lane(v: Vec2) -> u32 {
    ((v.y as u16 as u32) << 16) | (v.x as u16 as u32)
}

/// The packed form of an internal bounding box.
pub open spec fn spec_aabb_node(a: Aabb) -> Node {
    Node { two: Two { left: spec_lane(a.min), right: spec_lane(a.max) } }
}

/// The leaf discriminant: left top bit clear, right top bit set.
pub open spec fn spec_is_leaf(n: Node) -> bool {
    n.two.left >> 31 == 0 && n.two.right >> 31 == 1
}

/// The point stored in a leaf node.
pub open spec fn spec_leaf_point(n: Node) -> Vec2 {
    Vec2 {
        x: (((n.two.left & 0x7FFF_FFFF) >> 15) as u16) as i16,
        y: (((n.two.right & 0x7FFF_FFFF) >> 15) as u16) as i16,
    }
}

/// The start index stored in a leaf node.
pub open spec fn spec_leaf_start(n: Node) -> u32 {
    ((n.two.left & 0x7FFF) << 15) | (n.two.right & 0x7FFF)
}

/// One coordinate pair of an internal node's lane.
pub open spec fn spec_lane_point(l: u32) -> Vec2 {
    Vec2 { x: ((l & 0xFFFF) as u16) as i16, y: ((l >> 16) as u16) as i16 }
}

/// The bounding box stored in an internal node.
pub open spec fn spec_node_aabb(n: Node) -> Aabb {
    Aabb { min: spec_lane_point(n.two.left), max: spec_lane_point(n.two.right) }
}

/// A node seen through its tag.
pub open spec fn spec_expanded(n: Node) -> NodeExpanded {
    if spec_is_leaf(n) {
        NodeExpanded::Leaf(Leaf { point: spec_leaf_point(n), start: spec_leaf_start(n) })
    } else {
        NodeExpanded::Aabb(spec_node_aabb(n))
    }
}

proof fn lemma_i16_u16_roundtrip(v: i16)
    by (bit_vector)
    ensures
        (v as u16) as i16 == v,
{
}

proof fn lemma_leaf_lanes(px: u16, py: u16, start: u32)
    by (bit_vector)
    requires
        start <= 0x3FFF_FFFF,
    ensures
        (((px as u32) << 15) | (start >> 15)) >> 31 == 0,
        (0x8000_0000u32 | ((py as u32) << 15) | (start & 0x7FFF)) >> 31 == 1,
        (((((px as u32) << 15) | (start >> 15)) & 0x7FFF_FFFF) >> 15) as u16 == px,
        ((((0x8000_0000u32 | ((py as u32) << 15) | (start & 0x7FFF))) & 0x7FFF_FFFF) >> 15) as u16
            == py,
        (((((px as u32) << 15) | (start >> 15)) & 0x7FFF) << 15) | ((0x8000_0000u32 | ((py as u32)
            << 15) | (start & 0x7FFF)) & 0x7FFF) == start,
{
}

proof fn lemma_box_lanes_not_leaf(minx: i16, miny: i16, maxx: i16, maxy: i16)
    by (bit_vector)
    requires
        miny <= maxy,
    ensures
        !((((miny as u16 as u32) << 16) | (minx as u16 as u32)) >> 31 == 0 && (((maxy as u16
            as u32) << 16) | (maxx as u16 as u32)) >> 31 == 1),
{
}

proof fn lemma_lane_roundtrip(x: i16, y: i16)
    by (bit_vector)
    ensures
        (((((y as u16 as u32) << 16) | (x as u16 as u32)) & 0xFFFF) as u16) as i16 == x,
        ((((((y as u16 as u32) << 16) | (x as u16 as u32))) >> 16) as u16) as i16 == y,
{
}

/// Decoding recovers exactly the point and start index that `Node::leaf`
/// packed, for every start index up to the 30-bit cap.
pub proof fn lemma_leaf_roundtrip(point: Vec2, start: u32)
    requires
        start <= MAX_LEAF_START,
    ensures
        spec_is_leaf(spec_leaf_node(point, start)),
        spec_leaf_point(spec_leaf_node(point, start)) == point,
        spec_leaf_start(spec_leaf_node(point, start)) == start,
        spec_expanded(spec_leaf_node(point, start)) == NodeExpanded::Leaf(Leaf { point, start }),
{
    lemma_leaf_lanes(point.x as u16, point.y as u16, start);
    lemma_i16_u16_roundtrip(point.x);
    lemma_i16_u16_roundtrip(point.y);
}

/// A well-formed box never packs to the leaf bit pattern, and decoding
/// recovers it exactly.
pub proof fn lemma_aabb_roundtrip(a: Aabb)
    requires
        a.wf(),
    ensures
        !spec_is_leaf(spec_aabb_node(a)),
        spec_node_aabb(spec_aabb_node(a)) == a,
        spec_expanded(spec_aabb_node(a)) == NodeExpanded::Aabb(a),
{
    lemma_box_lanes_not_leaf(a.min.x, a.min.y, a.max.x, a.max.y);
    lemma_lane_roundtrip(a.min.x, a.min.y);
    lemma_lane_roundtrip(a.max.x, a.max.y);
}

impl Node {
    /// Packs a point and a start index into a leaf node. The start index
    /// must fit in 30 bits.
    pub fn leaf(point: Vec2, start: u32) -> (n: Node)
        requires
            start <= MAX_LEAF_START,
        ensures
            n == spec_leaf_node(point, start),
    {
        let point_x = (point.x as u16) as u32;
        let point_y = (point.y as u16) as u32;

        let left = (point_x << 15) | (start >> 15);
        let right = 0x8000_0000u32 | (point_y << 15) | (start & 0x7FFF);

        Node { two: Two { left, right } }
    }

    /// Packs a well-formed bounding box into an internal node.
    pub fn aabb(aabb: Aabb) -> (n: Node)
        requires
            aabb.wf(),
        ensures
            n == spec_aabb_node(aabb),
    {
        let left = ((aabb.min.y as u16 as u32) << 16) | (aabb.min.x as u16 as u32);
        let right = ((aabb.max.y as u16 as u32) << 16) | (aabb.max.x as u16 as u32);
        Node { two: Two { left, right } }
    }

    /// Decodes the node as a leaf, or `None` when the bit pattern is an
    /// internal box.
    pub fn leaf_element_indices(self) -> (r: Option<Leaf>)
        ensures
            r == (if spec_is_leaf(self) {
                Option::<Leaf>::Some(Leaf { point: spec_leaf_point(self), start: spec_leaf_start(self) })
            } else {
                Option::<Leaf>::None
            }),
    {
        let msb_left = self.two.left >> 31;
        let msb_right = self.two.right >> 31;

        if msb_left == 0 && msb_right == 1 {
            let raw_left = self.two.left;
            let raw_right = self.two.right;
            let left = raw_left & 0x7FFF_FFFF;
            let right = raw_right & 0x7FFF_FFFF;

            proof {
                assert((left >> 15) <= 0xFFFF && (right >> 15) <= 0xFFFF && (((left & 0x7FFF)
                    << 15) | (right & 0x7FFF)) == (((raw_left & 0x7FFF) << 15) | (raw_right
                    & 0x7FFF))) by (bit_vector)
                    requires
                        left == raw_left & 0x7FFF_FFFF && right == raw_right & 0x7FFF_FFFF,
                ;
            }

            let point_x = ((left >> 15) as u16) as i16;
            let point_y = ((right >> 15) as u16) as i16;

            let start = ((left & 0x7FFF) << 15) | (right & 0x7FFF);

            Some(Leaf { point: Vec2 { x: point_x, y: point_y }, start })
        } else {
            None
        }
    }

    /// The node seen through its tag.
    pub fn into_expanded(self) -> (r: NodeExpanded)
        ensures
            r == spec_expanded(self),
    {
        if let Some(leaf) = self.leaf_element_indices() {
            return NodeExpanded::Leaf(leaf);
        }
        let raw_left = self.two.left;
        let raw_right = self.two.right;
        proof {
            assert((raw_left >> 16) <= 0xFFFF && (raw_right >> 16) <= 0xFFFF && (raw_left
                & 0xFFFF) <= 0xFFFF && (raw_right & 0xFFFF) <= 0xFFFF) by (bit_vector);
        }
        let min = Vec2 { x: ((raw_left & 0xFFFF) as u16) as i16, y: ((raw_left >> 16) as u16) as i16 };
        let max = Vec2 {
            x: ((raw_right & 0xFFFF) as u16) as i16,
            y: ((raw_right >> 16) as u16) as i16,
        };
        NodeExpanded::Aabb(Aabb { min, max })
    }
}

} // verus!
