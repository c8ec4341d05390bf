use bvh::dfs::context::DfsContext;
use bvh::dfs::depth_for_leaf_node_count;
use bvh::utils::NonZeroArrayExt;
use bvh::{child_left, child_right, parent, sibling_right};

#[test]
fn test_leaf_node_count_to_depth() {
    assert_eq!(depth_for_leaf_node_count(1), 0);
    assert_eq!(depth_for_leaf_node_count(2), 1);
    assert_eq!(depth_for_leaf_node_count(4), 2);
    assert_eq!(depth_for_leaf_node_count(8), 3);
}

#[test]
fn test_depth_0() {
    let context = DfsContext {
        idx: 0,
        distance_to_leaf: 0,
    };

    assert_eq!(context.idx, 0);
    assert_eq!(context.distance_to_leaf, 0);
}

#[test]
fn test_depth_1() {
    let context = DfsContext {
        idx: 0,
        distance_to_leaf: 1,
    };

    let left = context.left();
    assert_eq!(left.idx, 1);
    assert_eq!(left.distance_to_leaf, 0);

    let right = context.right();
    assert_eq!(right.idx, 2);
    assert_eq!(right.distance_to_leaf, 0);
}

#[test]
fn test_depth_2() {
    let context = DfsContext {
        idx: 0,
        distance_to_leaf: 2,
    };

    let left = context.left();
    assert_eq!(left.idx, 1);
    assert_eq!(left.distance_to_leaf, 1);

    let left_left = left.left();
    assert_eq!(left_left.idx, 2);
    assert_eq!(left_left.distance_to_leaf, 0);

    let left_right = left.right();
    assert_eq!(left_right.idx, 3);
    assert_eq!(left_right.distance_to_leaf, 0);

    let right = context.right();
    assert_eq!(right.idx, 4);
    assert_eq!(right.distance_to_leaf, 1);

    let right_left = right.left();
    assert_eq!(right_left.idx, 5);
    assert_eq!(right_left.distance_to_leaf, 0);

    let right_right = right.right();
    assert_eq!(right_right.idx, 6);
    assert_eq!(right_right.distance_to_leaf, 0);
}

#[test]
fn test_depth_3() {
    let context = DfsContext {
        idx: 0,
        distance_to_leaf: 3,
    };

    let left = context.left();
    assert_eq!(left.idx, 1);
    assert_eq!(left.distance_to_leaf, 2);

    let left_left = left.left();
    assert_eq!(left_left.idx, 2);
    assert_eq!(left_left.distance_to_leaf, 1);

    let left_left_left = left_left.left();
    assert_eq!(left_left_left.idx, 3);
    assert_eq!(left_left_left.distance_to_leaf, 0);

    let left_left_right = left_left.right();
    assert_eq!(left_left_right.idx, 4);
    assert_eq!(left_left_right.distance_to_leaf, 0);

    let left_right = left.right();
    assert_eq!(left_right.idx, 5);
    assert_eq!(left_right.distance_to_leaf, 1);

    let left_right_left = left_right.left();
    assert_eq!(left_right_left.idx, 6);
    assert_eq!(left_right_left.distance_to_leaf, 0);

    let left_right_right = left_right.right();
    assert_eq!(left_right_right.idx, 7);
    assert_eq!(left_right_right.distance_to_leaf, 0);

    let right = context.right();
    assert_eq!(right.idx, 8);
    assert_eq!(right.distance_to_leaf, 2);

    let right_left = right.left();
    assert_eq!(right_left.idx, 9);
    assert_eq!(right_left.distance_to_leaf, 1);

    let right_left_left = right_left.left();
    assert_eq!(right_left_left.idx, 10);
    assert_eq!(right_left_left.distance_to_leaf, 0);

    let right_left_right = right_left.right();
    assert_eq!(right_left_right.idx, 11);
    assert_eq!(right_left_right.distance_to_leaf, 0);

    let right_right = right.right();
    assert_eq!(right_right.idx, 12);
    assert_eq!(right_right.distance_to_leaf, 1);

    let right_right_left = right_right.left();
    assert_eq!(right_right_left.idx, 13);
    assert_eq!(right_right_left.distance_to_leaf, 0);

    let right_right_right = right_right.right();
    assert_eq!(right_right_right.idx, 14);
    assert_eq!(right_right_right.distance_to_leaf, 0);
}

#[test]
fn test_full_left() {
    let context = DfsContext {
        idx: 0,
        distance_to_leaf: 3,
    };

    let full_left = context.full_left();
    assert_eq!(full_left.idx, 3);
    assert_eq!(full_left.distance_to_leaf, 0);

    let recursive_left = context.left().left().left();
    assert_eq!(recursive_left.idx, 3);
    assert_eq!(recursive_left.distance_to_leaf, 0);
}

#[test]
fn test_full_right() {
    let context = DfsContext {
        idx: 0,
        distance_to_leaf: 3,
    };

    let full_right = context.full_right();
    assert_eq!(full_right.idx, 14);
    assert_eq!(full_right.distance_to_leaf, 0);

    let recursive_right = context.right().right().right();
    assert_eq!(recursive_right.idx, 14);
    assert_eq!(recursive_right.distance_to_leaf, 0);
}

#[test]
fn test_full_right_depth_1() {
    let context = DfsContext {
        idx: 0,
        distance_to_leaf: 1,
    };

    let full_right = context.full_right();
    assert_eq!(full_right.idx, 2);
    assert_eq!(full_right.distance_to_leaf, 0);

    let recursive_right = context.right();
    assert_eq!(recursive_right.idx, 2);
    assert_eq!(recursive_right.distance_to_leaf, 0);
}

#[test]
fn test_full_right_depth_2() {
    let context = DfsContext {
        idx: 0,
        distance_to_leaf: 2,
    };

    let full_right = context.full_right();
    assert_eq!(full_right.idx, 6);
    assert_eq!(full_right.distance_to_leaf, 0);

    let recursive_right = context.right().right();
    assert_eq!(recursive_right.idx, 6);
    assert_eq!(recursive_right.distance_to_leaf, 0);
}

#[test]
fn test_max_index() {
    let arr: [u16; 5] = [1, 2, 3, 4, 5];
    assert_eq!(arr.max_index(), 4);

    let arr: [u16; 7] = [1, 0, 8, 2, 3, 4, 5];
    assert_eq!(arr.max_index(), 2);
}

#[test]
fn test_sibling_right() {
    assert_eq!(sibling_right(1), None);

    assert_eq!(sibling_right(2), Some(3));
    assert_eq!(sibling_right(3), None);

    assert_eq!(sibling_right(4), Some(5));
    assert_eq!(sibling_right(5), Some(6));
    assert_eq!(sibling_right(6), Some(7));
    assert_eq!(sibling_right(7), None);
}

#[test]
fn test_children_and_parent() {
    assert_eq!(child_left(1), 2);
    assert_eq!(child_right(1), 3);
    assert_eq!(child_left(3), 6);
    assert_eq!(child_right(3), 7);
    assert_eq!(parent(1), None);
    assert_eq!(parent(2), Some(1));
    assert_eq!(parent(3), Some(1));
    assert_eq!(parent(7), Some(3));
}
