use bvh::query::ByteRange;
use bvh::{Aabb, Bvh, Data, Point, Vec2};

#[derive(Clone, Debug)]
struct ChunkWithPackets {
    location: Vec2,
    packets_data: Vec<u8>,
}

impl Point for ChunkWithPackets {
    fn spec_point(&self) -> Vec2 {
        panic!()
    }

    fn point(&self) -> Vec2 {
        self.location
    }
}

impl Data for ChunkWithPackets {
    type Unit = u8;

    fn spec_data(&self) -> vstd::seq::Seq<<Self as Data>::Unit> {
        panic!()
    }

    fn data(&self) -> &[u8] {
        &self.packets_data
    }
}

#[test]
fn test_local_packet() {
    let data = [1, 2, 3, 4];
    let packet = ChunkWithPackets {
        location: Vec2::new(1, 2),
        packets_data: data.to_vec(),
    };

    assert_eq!(packet.point(), Vec2::new(1, 2));
    assert_eq!(packet.data(), &data);
}

#[test]
fn test_build_bvh_with_empty_input() {
    let data: Vec<ChunkWithPackets> = vec![];

    let bvh = Bvh::build(data);

    assert_eq!(bvh.elements().len(), 0);

    assert_eq!(bvh.get_closest_slice(Vec2::new(0, 0)), None);

    assert_eq!(
        bvh.get_in(Aabb::new(Vec2::new(0, 0), Vec2::new(100, 100)))
            .len(),
        0
    );
}

#[test]
fn test_build_bvh_1_packet() {
    let data = [1];
    let packet = ChunkWithPackets {
        location: Vec2::new(1, 2),
        packets_data: data.to_vec(),
    };

    let bvh = Bvh::build(vec![packet]);

    let print = bvh.print();

    assert_eq!(print, "01\tLeaf([1, 2] => [1])");

    assert_eq!(bvh.elements().len(), 1);
    assert_eq!(bvh.elements(), &[1]);

    assert_eq!(bvh.get_closest_slice(Vec2::new(1, 2)), Some([1].as_slice()));

    assert_eq!(bvh.get_closest_slice(Vec2::new(4, 4)), Some([1].as_slice()));

    assert_eq!(
        bvh.get_in(Aabb::new(Vec2::new(0, 0), Vec2::new(100, 100)))
            .len(),
        1
    );
}

#[test]
fn test_build_bvh_with_local_packet() {
    let data1 = [1, 2, 3, 4];
    let data2 = [5, 6, 7, 8];
    let data3 = [9, 10, 11, 12];
    let data4 = [13, 14, 15, 16];

    let input = vec![
        ChunkWithPackets {
            location: Vec2::new(0, 0),
            packets_data: data1.to_vec(),
        },
        ChunkWithPackets {
            location: Vec2::new(1, 1),
            packets_data: data2.to_vec(),
        },
        ChunkWithPackets {
            location: Vec2::new(2, 2),
            packets_data: data3.to_vec(),
        },
        ChunkWithPackets {
            location: Vec2::new(3, 3),
            packets_data: data4.to_vec(),
        },
    ];

    let bvh = Bvh::build(input);

    // Check the number of elements in the BVH
    assert_eq!(bvh.elements().len(), 16);

    // Check the contents of the elements
    assert_eq!(
        bvh.elements(),
        [1, 2, 3, 4, 5, 6, 7, 8, 9, 10, 11, 12, 13, 14, 15, 16]
    );

    // print it out
    let s = bvh.print();

    let expected = "01\tInternal([0, 0] -> [3, 3])\n\
                    03\t  Internal([2, 2] -> [3, 3])\n\
                    07\t    Leaf([3, 3] => [13, 14, 15, 16])\n\
                    06\t    Leaf([2, 2] => [9, 10, 11, 12])\n\
                    02\t  Internal([0, 0] -> [1, 1])\n\
                    05\t    Leaf([1, 1] => [5, 6, 7, 8])\n\
                    04\t    Leaf([0, 0] => [1, 2, 3, 4])";

    assert_eq!(s, expected);
}

#[test]
fn test_query_single_packet() {
    let data = [1, 2, 3, 4];
    let packet = ChunkWithPackets {
        location: Vec2::new(1, 2),
        packets_data: data.to_vec(),
    };

    let input = vec![packet];
    let bvh = Bvh::build(input);

    // Query the exact location of the packet
    let query = Aabb::new(Vec2::new(1, 2), Vec2::new(1, 2));
    let result = bvh.get_in(query);
    assert_eq!(result, vec![ByteRange { start: 0, end: 4 }]);

    // Query a location that doesn't intersect with the packet
    let query = Aabb::new(Vec2::new(10, 10), Vec2::new(10, 10));
    let result = bvh.get_in(query);
    assert_eq!(result, vec![]);
}

#[test]
fn test_query_multiple_packets() {
    let data1 = [1, 2, 3, 4];
    let data2 = [5, 6, 7, 8];
    let data3 = [9, 10, 11, 12];
    let data4 = [13, 14, 15, 16];

    let input = vec![
        ChunkWithPackets {
            location: Vec2::new(0, 0),
            packets_data: data1.to_vec(),
        },
        ChunkWithPackets {
            location: Vec2::new(1, 1),
            packets_data: data2.to_vec(),
        },
        ChunkWithPackets {
            location: Vec2::new(2, 2),
            packets_data: data3.to_vec(),
        },
        ChunkWithPackets {
            location: Vec2::new(3, 3),
            packets_data: data4.to_vec(),
        },
    ];

    let bvh = Bvh::build(input);

    // Query a location that intersects with multiple packets
    let query = Aabb::new(Vec2::new(0, 0), Vec2::new(2, 2));
    let result = bvh.get_in(query);
    assert_eq!(result, vec![ByteRange { start: 0, end: 12 }]);

    // Query a location that intersects with a single packet
    let query = Aabb::new(Vec2::new(3, 3), Vec2::new(3, 3));
    let result = bvh.get_in(query);
    assert_eq!(result, vec![ByteRange { start: 12, end: 16 }]);

    // Query a location that doesn't intersect with any packets
    let query = Aabb::new(Vec2::new(10, 10), Vec2::new(10, 10));
    let result = bvh.get_in(query);
    assert_eq!(result, vec![]);

    // we can make a shared-buffer BVH
    let _bvh = bvh.into_bytes();
}

#[test]
fn test_query_point_edge_case() {
    let chunks = vec![
        ChunkWithPackets {
            location: Vec2::new(0, 0),
            packets_data: vec![],
        },
        ChunkWithPackets {
            location: Vec2::new(0, 0),
            packets_data: vec![],
        },
        ChunkWithPackets {
            location: Vec2::new(0, 0),
            packets_data: vec![],
        },
        ChunkWithPackets {
            location: Vec2::new(0, 0),
            packets_data: vec![],
        },
        ChunkWithPackets {
            location: Vec2::new(0, 0),
            packets_data: vec![0],
        },
        ChunkWithPackets {
            location: Vec2::new(0, 0),
            packets_data: vec![],
        },
    ];
    let query_point = Vec2::new(0, -1);

    let bvh = Bvh::build(chunks);

    // all records sit at one point, so the nearest leaf holds exactly the
    // one non-empty payload
    let retrieved_packets: Vec<u8> = bvh
        .get_closest_slice(query_point)
        .unwrap_or(&[])
        .to_vec();

    assert_eq!(retrieved_packets, vec![0], "failed for {query_point:?}\n{bvh:?}");
}

#[test]
fn test_bytes_queries_match_vec_queries() {
    let input = vec![
        ChunkWithPackets {
            location: Vec2::new(2, 2),
            packets_data: vec![10, 11],
        },
        ChunkWithPackets {
            location: Vec2::new(-4, 1),
            packets_data: vec![12],
        },
        ChunkWithPackets {
            location: Vec2::new(9, -9),
            packets_data: vec![13, 14, 15],
        },
    ];

    let bvh = Bvh::build(input);
    let nearest: Vec<u8> = bvh.get_closest_slice(Vec2::new(2, 2)).unwrap().to_vec();
    assert_eq!(nearest, vec![10, 11]);

    let shared = bvh.into_bytes();
    let nearest_bytes = shared.get_closest_slice_bytes(Vec2::new(2, 2)).unwrap();
    assert_eq!(nearest_bytes.as_ref(), &[10, 11]);

    let query = Aabb::new(Vec2::new(-5, -10), Vec2::new(10, 3));
    let slices = shared.get_in_slices_bytes(query);
    let mut got: Vec<u8> = Vec::new();
    for s in &slices {
        got.extend_from_slice(s.as_ref());
    }
    let mut got_sorted = got.clone();
    got_sorted.sort_unstable();
    assert_eq!(got_sorted, vec![10, 11, 12, 13, 14, 15]);
}
