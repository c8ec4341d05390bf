use bvh::utils::partition_index_by_largest_axis;
use bvh::{Aabb, Point, Vec2};

struct TestPoint(Vec2);

impl Point for TestPoint {
    fn spec_point(&self) -> Vec2 {
        panic!()
    }

    fn point(&self) -> Vec2 {
        self.0
    }
}

#[test]
fn test_sort_by_largest_axis_x() {
    let mut elements = vec![
        TestPoint(Vec2::new(3, 1)),
        TestPoint(Vec2::new(1, 2)),
        TestPoint(Vec2::new(4, 3)),
        TestPoint(Vec2::new(2, 4)),
    ];
    let aabb = Aabb::new(Vec2::new(0, 3), Vec2::new(5, 5));
    partition_index_by_largest_axis(&mut elements, aabb);
    assert_eq!(elements[0].point(), Vec2::new(1, 2));
    assert_eq!(elements[1].point(), Vec2::new(2, 4));
    assert_eq!(elements[2].point(), Vec2::new(3, 1));
    assert_eq!(elements[3].point(), Vec2::new(4, 3));
}

#[test]
fn test_sort_by_largest_axis_y() {
    let mut elements = vec![
        TestPoint(Vec2::new(1, 3)),
        TestPoint(Vec2::new(2, 1)),
        TestPoint(Vec2::new(3, 4)),
        TestPoint(Vec2::new(4, 2)),
    ];
    let aabb = Aabb::new(Vec2::new(0, 0), Vec2::new(5, 6));
    partition_index_by_largest_axis(&mut elements, aabb);
    assert_eq!(elements[0].point(), Vec2::new(2, 1));
    assert_eq!(elements[1].point(), Vec2::new(4, 2));
    assert_eq!(elements[2].point(), Vec2::new(1, 3));
    assert_eq!(elements[3].point(), Vec2::new(3, 4));
}

#[test]
fn test_sort_by_largest_axis_equal_dimensions() {
    let mut elements = vec![
        TestPoint(Vec2::new(1, 1)),
        TestPoint(Vec2::new(2, 2)),
        TestPoint(Vec2::new(3, 3)),
        TestPoint(Vec2::new(4, 4)),
    ];
    let aabb = Aabb::new(Vec2::new(0, 0), Vec2::new(5, 5));
    partition_index_by_largest_axis(&mut elements, aabb);
    assert_eq!(elements[0].point(), Vec2::new(1, 1));
    assert_eq!(elements[1].point(), Vec2::new(2, 2));
    assert_eq!(elements[2].point(), Vec2::new(3, 3));
    assert_eq!(elements[3].point(), Vec2::new(4, 4));
}

#[test]
fn test_sort_by_largest_axis_single_element() {
    let mut elements = vec![TestPoint(Vec2::new(3, 4))];
    let aabb = Aabb::new(Vec2::new(0, 0), Vec2::new(5, 5));
    partition_index_by_largest_axis(&mut elements, aabb);
    assert_eq!(elements[0].point(), Vec2::new(3, 4));
}

#[test]
fn test_partition_median_splits() {
    let mut elements = vec![
        TestPoint(Vec2::new(9, 0)),
        TestPoint(Vec2::new(-3, 0)),
        TestPoint(Vec2::new(4, 0)),
        TestPoint(Vec2::new(0, 0)),
        TestPoint(Vec2::new(7, 0)),
    ];
    let aabb = Aabb::new(Vec2::new(-3, 0), Vec2::new(9, 0));
    let median = partition_index_by_largest_axis(&mut elements, aabb);
    assert_eq!(median, 4);
    for a in 0..median {
        for b in median..elements.len() {
            assert!(elements[a].point().x <= elements[b].point().x);
        }
    }
}
