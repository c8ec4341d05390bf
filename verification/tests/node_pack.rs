use bvh::node::{Node, NodeExpanded};
use bvh::{Aabb, Vec2};

#[test]
fn test_leaf_element_indices_valid() {
    let node = Node::leaf(Vec2::new(1, 2), 10);
    let indices = node.leaf_element_indices().unwrap();
    assert_eq!(indices.point, Vec2::new(1, 2));
    assert_eq!(indices.start, 10);
}

#[test]
fn test_leaf_element_indices_invalid() {
    let aabb = Aabb::new(Vec2::new(0, 0), Vec2::new(1, 1));
    let node = Node::aabb(aabb);
    assert!(node.leaf_element_indices().is_none());
}

#[test]
fn test_into_expanded_leaf() {
    let node = Node::leaf(Vec2::new(1, 2), 10);
    let expanded = node.into_expanded();
    match expanded {
        NodeExpanded::Leaf(leaf) => {
            assert_eq!(leaf.point, Vec2::new(1, 2));
            assert_eq!(leaf.start, 10);
        }
        _ => panic!("Expected NodeExpanded::Leaf"),
    }
}

#[test]
fn test_into_expanded_aabb() {
    let aabb = Aabb::new(Vec2::new(0, 0), Vec2::new(1, 1));
    let node = Node::aabb(aabb);
    let expanded = node.into_expanded();
    match expanded {
        NodeExpanded::Aabb(aabb) => {
            assert_eq!(aabb.min, Vec2::new(0, 0));
            assert_eq!(aabb.max, Vec2::new(1, 1));
        }
        _ => panic!("Expected NodeExpanded::Aabb"),
    }
}

#[test]
fn test_leaf_zero_indices() {
    let node = Node::leaf(Vec2::new(0, 0), 0);
    let indices = node.leaf_element_indices().unwrap();
    assert_eq!(indices.point, Vec2::new(0, 0));
    assert_eq!(indices.start, 0);
}

#[test]
fn test_leaf_negative_indices() {
    let node = Node::leaf(Vec2::new(-1, -2), 0x3FFF_FFFF);
    let indices = node.leaf_element_indices().unwrap();
    assert_eq!(indices.point, Vec2::new(-1, -2));
    assert_eq!(indices.start, 0x3FFF_FFFF);
}

#[test]
fn simple_leaf_fuzz() {
    fastrand::seed(3);

    for _ in 0..1000 {
        let point = Vec2::new(fastrand::i16(..), fastrand::i16(..));
        let start = fastrand::u32(..);

        if start > 0x3FFF_FFFF {
            continue;
        }

        let node = Node::leaf(point, start);
        let indices = node.leaf_element_indices().unwrap();
        assert_eq!(indices.point, point);
        assert_eq!(indices.start, start);
    }
}

#[test]
fn test_leaf_max_indices() {
    let node = Node::leaf(Vec2::new(i16::MAX, i16::MAX), 0x3FFF_FFFF);
    let indices = node.leaf_element_indices().unwrap();
    assert_eq!(indices.point, Vec2::new(i16::MAX, i16::MAX));
    assert_eq!(indices.start, 0x3FFF_FFFF);
}

#[test]
fn test_negative_box_is_not_leaf() {
    // boxes spanning negative coordinates must never decode as leaves
    let aabb = Aabb::new(Vec2::new(-5, -7), Vec2::new(-1, -2));
    let node = Node::aabb(aabb);
    match node.into_expanded() {
        NodeExpanded::Aabb(b) => {
            assert_eq!(b.min, Vec2::new(-5, -7));
            assert_eq!(b.max, Vec2::new(-1, -2));
        }
        NodeExpanded::Leaf(_) => panic!("Expected NodeExpanded::Aabb"),
    }
}
