use rasterize::geom::{
    clamp_coord, dist_sq, div_floor, div_trunc, intersection, isqrt128, isqrt64, mid_coord,
    offset_point, Point2, Transform, WeightedPoint2, MAX_COORD,
};

#[test]
fn isqrt_small_values() {
    assert_eq!(isqrt64(0), 0);
    assert_eq!(isqrt64(1), 1);
    assert_eq!(isqrt64(3), 1);
    assert_eq!(isqrt64(4), 2);
    assert_eq!(isqrt64(49), 7);
    assert_eq!(isqrt64(50), 7);
    assert_eq!(isqrt64(u64::MAX), 4294967295);
    assert_eq!(isqrt128(1 << 100), 1 << 50);
}

#[test]
fn division_helpers_round_as_documented() {
    assert_eq!(div_floor(7, 2), 3);
    assert_eq!(div_floor(-7, 2), -4);
    assert_eq!(div_floor(-8, 2), -4);
    assert_eq!(div_trunc(7, 2), 3);
    assert_eq!(div_trunc(-7, 2), -3);
    assert_eq!(mid_coord(-3, 0), -2);
    assert_eq!(mid_coord(3, 4), 3);
}

#[test]
fn clamping_keeps_range() {
    assert_eq!(clamp_coord(1 << 40), MAX_COORD);
    assert_eq!(clamp_coord(-(1i64 << 40)), -MAX_COORD);
    assert_eq!(clamp_coord(12345), 12345);
}

#[test]
fn distance_squared_is_exact() {
    assert_eq!(dist_sq(0, 0, 3, 4), 25);
    assert_eq!(dist_sq(-3, -4, 0, 0), 25);
    assert_eq!(dist_sq(10, 10, 10, 10), 0);
}

#[test]
fn intersection_of_crossing_lines() {
    let a0 = Point2 { x: 0, y: 0 };
    let a1 = Point2 { x: 1024, y: 0 };
    let b0 = Point2 { x: 512, y: -512 };
    let b1 = Point2 { x: 512, y: 512 };
    let p = intersection(a0, a1, b0, b1).unwrap();
    assert_eq!(p, Point2 { x: 512, y: 0 });
}

#[test]
fn intersection_of_parallel_lines_is_none() {
    let a0 = Point2 { x: 0, y: 0 };
    let a1 = Point2 { x: 1024, y: 0 };
    let b0 = Point2 { x: 0, y: 256 };
    let b1 = Point2 { x: 1024, y: 256 };
    assert!(intersection(a0, a1, b0, b1).is_none());
}

#[test]
fn offset_point_pushes_right_of_direction() {
    // direction +x, so "right" points toward -y; half width 512
    let q = offset_point(Point2 { x: 0, y: 1280 }, 2048, 0, 512);
    assert_eq!(q, Point2 { x: 0, y: 768 });
    // a zero direction moves the point nowhere
    let r = offset_point(Point2 { x: 7, y: 9 }, 0, 0, 512);
    assert_eq!(r, Point2 { x: 7, y: 9 });
}

#[test]
fn transform_identity_and_translate() {
    let t = Transform::new();
    let p = WeightedPoint2 { x: 300, y: -700, w: 256 };
    assert_eq!(t.apply(p), p);
    let t2 = Transform::new().translate(256, -512);
    let q = t2.apply(p);
    assert_eq!(q, WeightedPoint2 { x: 556, y: -1212, w: 256 });
}

#[test]
fn transform_scale_doubles_coordinates() {
    let t = Transform::new().scale(512, 512);
    let p = WeightedPoint2 { x: 100, y: 200, w: 77 };
    let q = t.apply(p);
    assert_eq!(q, WeightedPoint2 { x: 200, y: 400, w: 77 });
}
