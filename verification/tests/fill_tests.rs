use rasterize::path::{FillRule, PathOp};
use rasterize::plotter::Plotter;

fn rect_ops(x0: i32, y0: i32, x1: i32, y1: i32) -> Vec<PathOp> {
    vec![
        PathOp::Move(x0 * 256, y0 * 256),
        PathOp::Line(x1 * 256, y0 * 256),
        PathOp::Line(x1 * 256, y1 * 256),
        PathOp::Line(x0 * 256, y1 * 256),
        PathOp::Close(),
    ]
}

#[test]
fn rect_fill_nonzero_interior_full_outside_zero() {
    let mut p = Plotter::new(8, 8);
    let ops = rect_ops(2, 2, 6, 6);
    p.add_ops(&ops);
    p.fill(FillRule::NonZero);
    let m = p.mask();
    for r in 0..8usize {
        for c in 0..8usize {
            let v = m.pixels[r * 8 + c];
            if (2..6).contains(&r) && (2..6).contains(&c) {
                assert_eq!(v, 255, "interior pixel ({}, {})", c, r);
            } else {
                assert_eq!(v, 0, "outside pixel ({}, {})", c, r);
            }
        }
    }
}

#[test]
fn rect_fill_evenodd_matches_nonzero_for_single_winding() {
    let mut p = Plotter::new(8, 8);
    let ops = rect_ops(2, 2, 6, 6);
    p.add_ops(&ops);
    p.fill(FillRule::EvenOdd);
    let m = p.mask();
    for r in 0..8usize {
        for c in 0..8usize {
            let v = m.pixels[r * 8 + c];
            let inside = (2..6).contains(&r) && (2..6).contains(&c);
            assert_eq!(v, if inside { 255 } else { 0 });
        }
    }
}

#[test]
fn doubly_wound_rect_nonzero_stays_full() {
    let mut p = Plotter::new(8, 8);
    let ops = vec![
        PathOp::Move(2 * 256, 2 * 256),
        PathOp::Line(6 * 256, 2 * 256),
        PathOp::Line(6 * 256, 6 * 256),
        PathOp::Line(2 * 256, 6 * 256),
        PathOp::Line(2 * 256, 2 * 256),
        PathOp::Line(6 * 256, 2 * 256),
        PathOp::Line(6 * 256, 6 * 256),
        PathOp::Line(2 * 256, 6 * 256),
        PathOp::Close(),
    ];
    p.add_ops(&ops);
    p.fill(FillRule::NonZero);
    let m = p.mask();
    for r in 0..8usize {
        for c in 0..8usize {
            let inside = (2..6).contains(&r) && (2..6).contains(&c);
            assert_eq!(m.pixels[r * 8 + c], if inside { 255 } else { 0 });
        }
    }
}

#[test]
fn doubly_wound_rect_evenodd_cancels() {
    let mut p = Plotter::new(8, 8);
    let ops = vec![
        PathOp::Move(2 * 256, 2 * 256),
        PathOp::Line(6 * 256, 2 * 256),
        PathOp::Line(6 * 256, 6 * 256),
        PathOp::Line(2 * 256, 6 * 256),
        PathOp::Line(2 * 256, 2 * 256),
        PathOp::Line(6 * 256, 2 * 256),
        PathOp::Line(6 * 256, 6 * 256),
        PathOp::Line(2 * 256, 6 * 256),
        PathOp::Close(),
    ];
    p.add_ops(&ops);
    p.fill(FillRule::EvenOdd);
    let m = p.mask();
    for r in 0..8usize {
        for c in 0..8usize {
            assert_eq!(m.pixels[r * 8 + c], 0);
        }
    }
}

#[test]
fn unit_square_end_to_end() {
    // move/line/line/line/close around the whole 10 x 10 mask: every pixel
    // is interior and reaches full coverage, nothing lies outside
    let mut p = Plotter::new(10, 10);
    let ops = rect_ops(0, 0, 10, 10);
    p.add_ops(&ops);
    p.fill(FillRule::NonZero);
    let m = p.mask();
    for i in 0..100usize {
        assert_eq!(m.pixels[i], 255);
    }
}

#[test]
fn coverage_stays_in_byte_range_on_overlaps() {
    let mut p = Plotter::new(8, 8);
    let ops = rect_ops(1, 1, 7, 7);
    p.add_ops(&ops);
    p.fill(FillRule::NonZero);
    p.fill(FillRule::NonZero);
    p.fill(FillRule::EvenOdd);
    let m = p.mask();
    for i in 0..64usize {
        let v = m.pixels[i];
        assert!(v == 0 || v == 255);
    }
}

#[test]
fn half_pixel_rect_gives_partial_coverage() {
    // a rectangle covering the left half of each pixel column 2, rows 2..4
    let mut p = Plotter::new(8, 8);
    let ops = vec![
        PathOp::Move(2 * 256, 2 * 256),
        PathOp::Line(2 * 256 + 128, 2 * 256),
        PathOp::Line(2 * 256 + 128, 4 * 256),
        PathOp::Line(2 * 256, 4 * 256),
        PathOp::Close(),
    ];
    p.add_ops(&ops);
    p.fill(FillRule::NonZero);
    let m = p.mask();
    assert_eq!(m.pixels[2 * 8 + 2], 128);
    assert_eq!(m.pixels[3 * 8 + 2], 128);
    assert_eq!(m.pixels[2 * 8 + 3], 0);
    assert_eq!(m.pixels[1 * 8 + 2], 0);
}

#[test]
fn half_pixel_rect_evenodd_gives_same_partial_coverage() {
    let mut p = Plotter::new(8, 8);
    let ops = vec![
        PathOp::Move(2 * 256, 2 * 256),
        PathOp::Line(2 * 256 + 128, 2 * 256),
        PathOp::Line(2 * 256 + 128, 4 * 256),
        PathOp::Line(2 * 256, 4 * 256),
        PathOp::Close(),
    ];
    p.add_ops(&ops);
    p.fill(FillRule::EvenOdd);
    let m = p.mask();
    assert_eq!(m.pixels[2 * 8 + 2], 128);
    assert_eq!(m.pixels[3 * 8 + 2], 128);
    assert_eq!(m.pixels[2 * 8 + 1], 0);
}

#[test]
fn transform_scales_the_filled_shape() {
    let mut p = Plotter::new(8, 8);
    let t = rasterize::geom::Transform::new().scale(512, 512);
    p.set_transform(t);
    let ops = rect_ops(1, 1, 3, 3);
    p.add_ops(&ops);
    p.fill(FillRule::NonZero);
    let m = p.mask();
    for r in 0..8usize {
        for c in 0..8usize {
            let inside = (2..6).contains(&r) && (2..6).contains(&c);
            assert_eq!(m.pixels[r * 8 + c], if inside { 255 } else { 0 });
        }
    }
}

#[test]
fn clear_zeroes_the_mask_and_reset_forgets_the_path() {
    let mut p = Plotter::new(8, 8);
    let ops = rect_ops(0, 0, 8, 8);
    p.add_ops(&ops);
    p.fill(FillRule::NonZero);
    assert_eq!(p.mask().pixels[0], 255);
    p.clear();
    assert!(p.mask().pixels.iter().all(|&b| b == 0));
    p.reset();
    p.fill(FillRule::NonZero);
    assert!(p.mask().pixels.iter().all(|&b| b == 0));
}

#[test]
fn empty_path_fills_nothing() {
    let mut p = Plotter::new(4, 4);
    p.fill(FillRule::NonZero);
    assert!(p.mask().pixels.iter().all(|&b| b == 0));
}

#[test]
fn plotter_dimensions_and_defaults() {
    let p = Plotter::new(0, 20000);
    assert_eq!(p.width(), 100);
    assert_eq!(p.height(), 16384);
    let q = Plotter::new(33, 44);
    assert_eq!(q.width(), 33);
    assert_eq!(q.height(), 44);
}
