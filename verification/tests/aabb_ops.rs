use bvh::{Aabb, Vec2};

#[test]
fn test_lens() {
    let aabb = Aabb::new(Vec2::new(0, 0), Vec2::new(10, 10));
    let lens = aabb.lens();
    assert_eq!(lens[0], 10);
    assert_eq!(lens[1], 10);
}

#[test]
fn test_enclosing_aabb() {
    let points = vec![Vec2::new(1, 2), Vec2::new(3, 4), Vec2::new(5, 6)];

    let aabb = Aabb::enclosing_aabb(&points);
    assert_eq!(aabb.min, Vec2::new(1, 2));
    assert_eq!(aabb.max, Vec2::new(5, 6));
}

#[test]
fn test_lens_negative() {
    let aabb = Aabb::new(Vec2::new(-10, -10), Vec2::new(10, 10));
    let lens = aabb.lens();
    assert_eq!(lens[0], 20);
    assert_eq!(lens[1], 20);
}

#[test]
fn test_lens_zero() {
    let aabb = Aabb::new(Vec2::new(0, 0), Vec2::new(0, 0));
    let lens = aabb.lens();
    assert_eq!(lens[0], 0);
    assert_eq!(lens[1], 0);
}

#[test]
fn test_contains_point() {
    let aabb = Aabb::new(Vec2::new(-2, -2), Vec2::new(3, 4));
    assert!(aabb.contains_point(Vec2::new(0, 0)));
    assert!(aabb.contains_point(Vec2::new(-2, 4)));
    assert!(aabb.contains_point(Vec2::new(3, -2)));
    assert!(!aabb.contains_point(Vec2::new(4, 0)));
    assert!(!aabb.contains_point(Vec2::new(0, 5)));
}

#[test]
fn test_intersects() {
    let a = Aabb::new(Vec2::new(0, 0), Vec2::new(2, 2));
    let b = Aabb::new(Vec2::new(2, 2), Vec2::new(5, 5));
    let c = Aabb::new(Vec2::new(3, 0), Vec2::new(5, 1));
    assert!(a.intersects(b));
    assert!(b.intersects(a));
    assert!(!a.intersects(c));
    assert!(!b.intersects(c));
    assert!(c.intersects(Aabb::new(Vec2::new(4, 1), Vec2::new(6, 2))));
}

#[test]
fn test_to_unit() {
    assert_eq!(
        Aabb::new(Vec2::new(7, -3), Vec2::new(7, -3)).to_unit(),
        Some(Vec2::new(7, -3))
    );
    assert_eq!(Aabb::new(Vec2::new(0, 0), Vec2::new(1, 0)).to_unit(), None);
}

#[test]
fn test_merge() {
    let a = Aabb::new(Vec2::new(-1, 2), Vec2::new(3, 4));
    let b = Aabb::new(Vec2::new(0, -5), Vec2::new(9, 3));
    let m = a.merge(b);
    assert_eq!(m.min, Vec2::new(-1, -5));
    assert_eq!(m.max, Vec2::new(9, 4));
}

#[test]
fn test_min_max_distance2() {
    let aabb = Aabb::new(Vec2::new(0, 0), Vec2::new(4, 4));

    // inside: minimum zero, maximum to the farthest corner (4,4)
    let (dmin, dmax) = aabb.min_max_distance2(Vec2::new(1, 1));
    assert_eq!(dmin, 0);
    assert_eq!(dmax, 9 + 9);

    // outside: minimum to the nearest edge point (4,4), maximum to (0,0)
    let (dmin, dmax) = aabb.min_max_distance2(Vec2::new(7, 8));
    assert_eq!(dmin, 9 + 16);
    assert_eq!(dmax, 49 + 64);
}
