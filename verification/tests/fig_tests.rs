use rasterize::fig::Figure;
use rasterize::geom::WeightedPoint2;
use rasterize::mask::Mask;
use rasterize::path::Direction;

fn wp(x: i32, y: i32) -> WeightedPoint2 {
    WeightedPoint2 { x, y, w: 256 }
}

#[test]
fn figure_partitions_points_into_subpaths() {
    let mut f = Figure::new();
    f.add_point(wp(0, 0));
    f.add_point(wp(10, 0));
    f.close(true);
    f.add_point(wp(5, 5));
    f.add_point(wp(6, 6));
    f.add_point(wp(7, 7));
    assert_eq!(f.sub_count(), 2);
    assert_eq!(f.sub_points(0), 2);
    assert_eq!(f.sub_start(0), 0);
    assert_eq!(f.sub_end(0), 1);
    assert!(f.sub_joined(0));
    assert_eq!(f.sub_points(1), 3);
    assert_eq!(f.sub_start(1), 2);
    assert_eq!(f.sub_end(1), 4);
    assert!(!f.sub_joined(1));
    assert_eq!(f.get_point(3), wp(6, 6));
}

#[test]
fn next_walks_cyclically_both_ways() {
    let mut f = Figure::new();
    f.add_point(wp(0, 0));
    f.add_point(wp(1, 0));
    f.add_point(wp(1, 1));
    f.close(true);
    f.add_point(wp(9, 9));
    f.add_point(wp(8, 8));
    // forward wraps within the first sub-path
    assert_eq!(f.next(0, Direction::Forward), 1);
    assert_eq!(f.next(2, Direction::Forward), 0);
    // reverse wraps too
    assert_eq!(f.next(0, Direction::Reverse), 2);
    assert_eq!(f.next(2, Direction::Reverse), 1);
    // and the second sub-path cycles independently
    assert_eq!(f.next(4, Direction::Forward), 3);
    assert_eq!(f.next(3, Direction::Reverse), 4);
}

#[test]
fn close_on_empty_figure_is_a_no_op() {
    let mut f = Figure::new();
    f.close(true);
    assert_eq!(f.sub_count(), 0);
    f.add_point(wp(1, 1));
    f.close(false);
    f.close(true);
    assert_eq!(f.sub_count(), 1);
    assert!(!f.sub_joined(0));
}

#[test]
fn add_point_clamps_to_storable_range() {
    let mut f = Figure::new();
    f.add_point(WeightedPoint2 { x: i32::MAX, y: i32::MIN, w: -5 });
    let p = f.get_point(0);
    assert_eq!(p.x, 16777216);
    assert_eq!(p.y, -16777216);
    assert_eq!(p.w, 0);
}

#[test]
fn reset_discards_subpaths() {
    let mut f = Figure::new();
    f.add_point(wp(1, 1));
    f.reset();
    assert_eq!(f.sub_count(), 0);
}

#[test]
fn mask_new_and_clear() {
    let mut m = Mask::new(3, 2);
    assert_eq!(m.width, 3);
    assert_eq!(m.height, 2);
    assert_eq!(m.bytes().len(), 6);
    assert!(m.bytes().iter().all(|&b| b == 0));
    m.pixels[4] = 17;
    assert_eq!(m.coverage(4), 17);
    m.clear();
    assert!(m.bytes().iter().all(|&b| b == 0));
}
