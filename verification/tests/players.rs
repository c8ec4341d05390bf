use std::collections::HashMap;

use bvh::{Aabb, Bvh, Data, Point, Vec2};

type EntityId = u32;

#[derive(Debug, Clone, Copy, PartialEq, Eq)]
struct Player {
    location: Vec2,
    id: EntityId,
}

impl Point for Player {
    fn spec_point(&self) -> Vec2 {
        panic!()
    }

    fn point(&self) -> Vec2 {
        self.location
    }
}

impl Data for Player {
    type Unit = EntityId;

    fn spec_data(&self) -> vstd::seq::Seq<<Self as Data>::Unit> {
        panic!()
    }

    fn data(&self) -> &[EntityId] {
        core::slice::from_ref(&self.id)
    }
}

#[test]
fn test_local_player() {
    let id = 123;
    let player = Player {
        location: Vec2::new(1, 2),
        id,
    };

    assert_eq!(player.point(), Vec2::new(1, 2));
    assert_eq!(player.data(), &[id]);
}

#[test]
fn test_build_bvh_with_local_player() {
    let input = vec![
        Player {
            location: Vec2::new(0, 0),
            id: 1,
        },
        Player {
            location: Vec2::new(1, 1),
            id: 2,
        },
        Player {
            location: Vec2::new(2, 2),
            id: 3,
        },
        Player {
            location: Vec2::new(3, 3),
            id: 4,
        },
    ];

    let bvh = Bvh::build(input);

    // Check the number of elements in the BVH
    assert_eq!(bvh.elements().len(), 4);

    // Check the contents of the elements
    assert_eq!(bvh.elements(), [1, 2, 3, 4]);

    // Print it out
    let s = bvh.print();

    println!("{s}");

    let expected = "01\tInternal([0, 0] -> [3, 3])\n\
                    03\t  Internal([2, 2] -> [3, 3])\n\
                    07\t    Leaf([3, 3] => [4])\n\
                    06\t    Leaf([2, 2] => [3])\n\
                    02\t  Internal([0, 0] -> [1, 1])\n\
                    05\t    Leaf([1, 1] => [2])\n\
                    04\t    Leaf([0, 0] => [1])";

    assert_eq!(s, expected);
}

#[test]
fn test_query_single_player() {
    let player = Player {
        location: Vec2::new(1, 2),
        id: 123,
    };

    let input = vec![player];
    let bvh = Bvh::build(input);

    // Query the exact location of the player
    let query = Aabb::new(Vec2::new(1, 2), Vec2::new(1, 2));
    let result = bvh.get_in(query);
    assert_eq!(result.len(), 1);
    assert_eq!(result[0].start, 0);
    assert_eq!(result[0].end, 1);

    // Query a location that doesn't intersect with the player
    let query = Aabb::new(Vec2::new(10, 10), Vec2::new(10, 10));
    let result = bvh.get_in(query);
    assert_eq!(result, vec![]);
}

#[test]
fn test_query_multiple_players() {
    let input = vec![
        Player {
            location: Vec2::new(0, 0),
            id: 1,
        },
        Player {
            location: Vec2::new(1, 1),
            id: 2,
        },
        Player {
            location: Vec2::new(2, 2),
            id: 3,
        },
        Player {
            location: Vec2::new(3, 3),
            id: 4,
        },
    ];

    let bvh = Bvh::build(input);

    // Query a location that intersects with multiple players
    let query = Aabb::new(Vec2::new(0, 0), Vec2::new(2, 2));
    let result = bvh.get_in(query);
    assert_eq!(result.len(), 1);
    assert_eq!(result[0].start, 0);
    assert_eq!(result[0].end, 3);

    // Query a location that intersects with a single player
    let query = Aabb::new(Vec2::new(3, 3), Vec2::new(3, 3));
    let result = bvh.get_in(query);
    assert_eq!(result.len(), 1);
    assert_eq!(result[0].start, 3);
    assert_eq!(result[0].end, 4);

    // Query a location that doesn't intersect with any players
    let query = Aabb::new(Vec2::new(10, 10), Vec2::new(10, 10));
    let result = bvh.get_in(query);
    assert_eq!(result, vec![]);
}

#[test]
fn test_build_bvh_with_odd_number_of_players() {
    let input = vec![
        Player {
            location: Vec2::new(0, 0),
            id: 1,
        },
        Player {
            location: Vec2::new(1, 1),
            id: 2,
        },
        Player {
            location: Vec2::new(2, 2),
            id: 3,
        },
        Player {
            location: Vec2::new(3, 3),
            id: 4,
        },
        Player {
            location: Vec2::new(4, 4),
            id: 5,
        },
    ];

    let bvh = Bvh::build(input);

    // Check the number of elements in the BVH
    assert_eq!(bvh.elements().len(), 5);

    // Check the contents of the elements
    assert_eq!(bvh.elements(), [1, 2, 3, 4, 5]);

    // Print it out
    let s = bvh.print();

    let expected = "01\tInternal([0, 0] -> [4, 4])\n\
                    03\t  Leaf([4, 4] => [5])\n\
                    02\t  Internal([0, 0] -> [3, 3])\n\
                    05\t    Internal([2, 2] -> [3, 3])\n\
                    11\t      Leaf([3, 3] => [4])\n\
                    10\t      Leaf([2, 2] => [3])\n\
                    04\t    Internal([0, 0] -> [1, 1])\n\
                    09\t      Leaf([1, 1] => [2])\n\
                    08\t      Leaf([0, 0] => [1])";

    assert_eq!(s, expected);
}

#[test]
fn test_fuzz() {
    fastrand::seed(3);

    for _ in 0..10 {
        let num_elems = fastrand::u32(..100);

        let elems: Vec<_> = (0..num_elems)
            .map(|id| Player {
                location: Vec2::new(fastrand::i16(-200..200), fastrand::i16(-200..200)),
                id,
            })
            .collect();

        let bvh = Bvh::build(elems.clone());

        assert_eq!(bvh.elements().len(), elems.len());

        let mut input_elements_count: HashMap<EntityId, u32> = HashMap::new();
        for x in &elems {
            *input_elements_count.entry(x.id).or_insert(0) += 1;
        }

        let mut bvh_elements_count: HashMap<EntityId, u32> = HashMap::new();
        for x in bvh.elements() {
            *bvh_elements_count.entry(*x).or_insert(0) += 1;
        }

        assert_eq!(input_elements_count, bvh_elements_count);

        for _ in 0..1000 {
            let point = Vec2::new(fastrand::i16(-200..200), fastrand::i16(-200..200));

            let result = bvh.get_closest(point);
            if num_elems == 0 {
                assert!(result.is_none());
                continue;
            }
            let result = result.unwrap();

            let len = result.end - result.start;
            assert!(result.start <= result.end);
            assert!(result.start <= num_elems);
            assert!(len <= 3); // it wouldn't make sense if we have more than 3 duplicate points
            assert!(result.end <= num_elems);
        }
    }
}

#[test]
fn test_closest_player() {
    let input = vec![
        Player {
            location: Vec2::new(0, 0),
            id: 1,
        },
        Player {
            location: Vec2::new(1, 1),
            id: 2,
        },
        Player {
            location: Vec2::new(2, 2),
            id: 3,
        },
        Player {
            location: Vec2::new(3, 3),
            id: 4,
        },
        Player {
            location: Vec2::new(4, 4),
            id: 5,
        },
    ];

    let bvh = Bvh::build(input);

    let p = bvh.print();
    println!("{p}");

    let result = bvh.get_closest_slice(Vec2::new(2, 2)).unwrap();
    assert_eq!(result, &[3]);
}

#[test]
fn test_build_bvh_with_non_power_of_2_players() {
    let input = vec![
        Player {
            location: Vec2::new(0, 0),
            id: 1,
        },
        Player {
            location: Vec2::new(1, 1),
            id: 2,
        },
        Player {
            location: Vec2::new(2, 2),
            id: 3,
        },
        Player {
            location: Vec2::new(3, 3),
            id: 4,
        },
        Player {
            location: Vec2::new(4, 4),
            id: 5,
        },
        Player {
            location: Vec2::new(5, 5),
            id: 6,
        },
    ];

    let bvh = Bvh::build(input);

    // Check the number of elements in the BVH
    assert_eq!(bvh.elements().len(), 6);

    // Check the contents of the elements
    assert_eq!(bvh.elements(), [1, 2, 3, 4, 5, 6]);

    // Print it out
    let s = bvh.print();

    let expected = "01\tInternal([0, 0] -> [5, 5])\n\
                    03\t  Internal([4, 4] -> [5, 5])\n\
                    06\t    Internal([4, 4] -> [5, 5])\n\
                    13\t      Leaf([5, 5] => [6])\n\
                    12\t      Leaf([4, 4] => [5])\n\
                    02\t  Internal([0, 0] -> [3, 3])\n\
                    05\t    Internal([2, 2] -> [3, 3])\n\
                    11\t      Leaf([3, 3] => [4])\n\
                    10\t      Leaf([2, 2] => [3])\n\
                    04\t    Internal([0, 0] -> [1, 1])\n\
                    09\t      Leaf([1, 1] => [2])\n\
                    08\t      Leaf([0, 0] => [1])";

    assert_eq!(s, expected);
}
