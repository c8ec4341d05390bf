use bvh::query::ByteRange;
use bvh::{process_input, Bvh, Data, Point, Vec2};

#[derive(Clone)]
struct TestPoint {
    point: Vec2,
    data: Vec<u8>,
}

impl Point for TestPoint {
    fn spec_point(&self) -> Vec2 {
        panic!()
    }

    fn point(&self) -> Vec2 {
        self.point
    }
}

impl Data for TestPoint {
    type Unit = u8;

    fn spec_data(&self) -> vstd::seq::Seq<<Self as Data>::Unit> {
        panic!()
    }

    fn data(&self) -> &[u8] {
        &self.data
    }
}

#[test]
fn test_process_input() {
    let input = vec![
        TestPoint {
            point: Vec2::new(0, 0),
            data: vec![1, 2],
        },
        TestPoint {
            point: Vec2::new(0, 0),
            data: vec![3, 4],
        },
        TestPoint {
            point: Vec2::new(1, 1),
            data: vec![5, 6],
        },
        TestPoint {
            point: Vec2::new(2, 2),
            data: vec![7, 8],
        },
        TestPoint {
            point: Vec2::new(2, 2),
            data: vec![9, 10],
        },
    ];

    let (result_data, indices, points) = process_input(input);

    assert_eq!(result_data, vec![1, 2, 3, 4, 5, 6, 7, 8, 9, 10]);
    assert_eq!(indices, vec![0, 4, 6]);
    assert_eq!(points, vec![Vec2::new(0, 0), Vec2::new(1, 1), Vec2::new(2, 2)]);
}

#[test]
fn test_process_input_empty() {
    let input: Vec<TestPoint> = vec![];
    let (result_data, indices, points) = process_input(input);

    assert!(result_data.is_empty());
    assert!(indices.is_empty());
    assert!(points.is_empty());
}

#[test]
fn test_process_input_single_point() {
    let input = vec![TestPoint {
        point: Vec2::new(5, 5),
        data: vec![42, 43],
    }];

    let (result_data, indices, points) = process_input(input);

    assert_eq!(result_data, vec![42, 43]);
    assert_eq!(indices, vec![0]);
    assert_eq!(points, vec![Vec2::new(5, 5)]);
}

#[test]
fn test_process_input_all_unique_points() {
    let input = vec![
        TestPoint {
            point: Vec2::new(0, 0),
            data: vec![1],
        },
        TestPoint {
            point: Vec2::new(1, 1),
            data: vec![2],
        },
        TestPoint {
            point: Vec2::new(2, 2),
            data: vec![3],
        },
    ];

    let (result_data, indices, points) = process_input(input);

    assert_eq!(result_data, vec![1, 2, 3]);
    assert_eq!(indices, vec![0, 1, 2]);
    assert_eq!(points, vec![Vec2::new(0, 0), Vec2::new(1, 1), Vec2::new(2, 2)]);
}

#[test]
fn test_process_input_multiple_same_key() {
    let input = vec![
        TestPoint {
            point: Vec2::new(0, 0),
            data: vec![1],
        },
        TestPoint {
            point: Vec2::new(0, 0),
            data: vec![2],
        },
        TestPoint {
            point: Vec2::new(1, 1),
            data: vec![3],
        },
    ];

    let (result_data, indices, points) = process_input(input);

    assert_eq!(result_data, vec![1, 2, 3]);
    assert_eq!(indices, vec![0, 2]);
    assert_eq!(points, vec![Vec2::new(0, 0), Vec2::new(1, 1)]);
}

#[test]
fn test_build_twice_identical() {
    // building from the same input twice gives byte-identical arrays
    let input = vec![
        TestPoint {
            point: Vec2::new(3, -7),
            data: vec![1, 2, 3],
        },
        TestPoint {
            point: Vec2::new(-20, 5),
            data: vec![4],
        },
        TestPoint {
            point: Vec2::new(3, -7),
            data: vec![5, 6],
        },
        TestPoint {
            point: Vec2::new(100, 100),
            data: vec![],
        },
    ];

    let a = Bvh::build(input.clone());
    let b = Bvh::build(input);

    assert_eq!(a.nodes, b.nodes);
    assert_eq!(a.leaves, b.leaves);
    assert_eq!(a.data, b.data);
}

#[test]
fn test_total_length_is_sum_of_payloads() {
    // the payload buffer holds every input unit exactly once
    let input = vec![
        TestPoint {
            point: Vec2::new(9, 9),
            data: vec![7, 7, 7],
        },
        TestPoint {
            point: Vec2::new(-3, 2),
            data: vec![1],
        },
        TestPoint {
            point: Vec2::new(9, 9),
            data: vec![2, 2],
        },
    ];
    let total: usize = input.iter().map(|r| r.data.len()).sum();

    let bvh = Bvh::build(input);
    assert_eq!(bvh.elements().len(), total);

    let mut sorted: Vec<u8> = bvh.elements().to_vec();
    sorted.sort_unstable();
    assert_eq!(sorted, vec![1, 2, 2, 7, 7, 7]);
}

#[test]
fn test_equal_points_group_into_one_leaf() {
    // records at the same point always land in one leaf, wherever they
    // stood in the input, so an exact-point query returns one merged range
    let input = vec![
        TestPoint {
            point: Vec2::new(0, 5),
            data: vec![1],
        },
        TestPoint {
            point: Vec2::new(0, 7),
            data: vec![2],
        },
        TestPoint {
            point: Vec2::new(0, 5),
            data: vec![3],
        },
    ];

    let bvh = Bvh::build(input);

    let query = bvh::Aabb::new(Vec2::new(0, 5), Vec2::new(0, 5));
    let slices = bvh.get_in_slices(query);
    assert_eq!(slices.len(), 1);
    assert_eq!(slices[0], &[1, 3]);
}

#[test]
fn test_extreme_coordinates() {
    // squared distances across the whole domain stay exact in 64 bits
    let input = vec![
        TestPoint {
            point: Vec2::new(i16::MIN, i16::MIN),
            data: vec![1],
        },
        TestPoint {
            point: Vec2::new(i16::MAX, i16::MAX),
            data: vec![2],
        },
    ];

    let bvh = Bvh::build(input);
    assert_eq!(
        bvh.get_closest_slice(Vec2::new(i16::MAX, i16::MAX)),
        Some([2].as_slice())
    );
    assert_eq!(
        bvh.get_closest_slice(Vec2::new(i16::MIN, i16::MIN + 1)),
        Some([1].as_slice())
    );
}

#[test]
fn test_full_domain_query_covers_buffer() {
    // a query box covering the whole domain returns one range over the
    // whole payload buffer
    let input = vec![
        TestPoint {
            point: Vec2::new(-30000, 12),
            data: vec![1, 2],
        },
        TestPoint {
            point: Vec2::new(0, 0),
            data: vec![3],
        },
        TestPoint {
            point: Vec2::new(25000, -9),
            data: vec![4, 5, 6],
        },
    ];

    let bvh = Bvh::build(input);
    let query = bvh::Aabb::new(Vec2::new(i16::MIN, i16::MIN), Vec2::new(i16::MAX, i16::MAX));
    let result = bvh.get_in(query);
    assert_eq!(result, vec![ByteRange { start: 0, end: 6 }]);
}
