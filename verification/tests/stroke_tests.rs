use rasterize::path::{FillRule, JoinStyle, PathOp};
use rasterize::plotter::Plotter;

#[test]
fn horizontal_stroke_fills_a_band() {
    // pen width 4 px around the segment (0, 5) - (10, 5): a band over
    // y in [3, 7), independent of the fill rule ordinary fills use
    let mut p = Plotter::new(12, 10);
    p.set_join(JoinStyle::Bevel);
    let ops = vec![
        PathOp::PenWidth(4 * 256),
        PathOp::Move(0, 5 * 256),
        PathOp::Line(10 * 256, 5 * 256),
    ];
    p.add_ops(&ops);
    p.stroke();
    let m = p.mask();
    for r in 0..10usize {
        for c in 0..12usize {
            let v = m.pixels[r * 12 + c];
            if (3..7).contains(&r) && c < 10 {
                assert_eq!(v, 255, "band pixel ({}, {})", c, r);
            } else {
                assert_eq!(v, 0, "outside pixel ({}, {})", c, r);
            }
        }
    }
}

#[test]
fn sharp_corner_miter_falls_back_to_bevel() {
    // a near-hairpin turn: the half-angle sine is far below 1/4, so a
    // miter with limit 4 must produce exactly the bevel geometry
    let ops = vec![
        PathOp::PenWidth(2 * 256),
        PathOp::Move(1 * 256, 5 * 256),
        PathOp::Line(9 * 256, 5 * 256),
        PathOp::Line(1 * 256, 5 * 256 + 128),
    ];
    let mut pm = Plotter::new(12, 12);
    pm.set_join(JoinStyle::Miter(4 * 256));
    pm.add_ops(&ops);
    pm.stroke();
    let mut pb = Plotter::new(12, 12);
    pb.set_join(JoinStyle::Bevel);
    pb.add_ops(&ops);
    pb.stroke();
    // around the sharp corner (the right end of the hairpin) the two
    // join styles must render identically
    for r in 0..12usize {
        for c in 6..12usize {
            assert_eq!(
                pm.mask().pixels[r * 12 + c],
                pb.mask().pixels[r * 12 + c],
                "pixel ({}, {})",
                c,
                r
            );
        }
    }
}

#[test]
fn right_angle_miter_differs_from_bevel() {
    let ops = vec![
        PathOp::PenWidth(2 * 256),
        PathOp::Move(2 * 256, 2 * 256),
        PathOp::Line(9 * 256, 2 * 256),
        PathOp::Line(9 * 256, 9 * 256),
    ];
    let mut pm = Plotter::new(12, 12);
    pm.set_join(JoinStyle::Miter(4 * 256));
    pm.add_ops(&ops);
    pm.stroke();
    let mut pb = Plotter::new(12, 12);
    pb.set_join(JoinStyle::Bevel);
    pb.add_ops(&ops);
    pb.stroke();
    assert_ne!(pm.mask().pixels, pb.mask().pixels);
}

#[test]
fn round_join_covers_at_least_the_bevel() {
    let ops = vec![
        PathOp::PenWidth(3 * 256),
        PathOp::Move(2 * 256, 2 * 256),
        PathOp::Line(9 * 256, 2 * 256),
        PathOp::Line(9 * 256, 9 * 256),
    ];
    let mut pr = Plotter::new(12, 12);
    pr.set_join(JoinStyle::Round);
    pr.add_ops(&ops);
    pr.stroke();
    let mut pb = Plotter::new(12, 12);
    pb.set_join(JoinStyle::Bevel);
    pb.add_ops(&ops);
    pb.stroke();
    let mr = &pr.mask().pixels;
    let mb = &pb.mask().pixels;
    let mut any_more = false;
    for i in 0..mr.len() {
        assert!(mr[i] >= mb[i], "round lost coverage at {}", i);
        if mr[i] > mb[i] {
            any_more = true;
        }
    }
    assert!(any_more, "the arc should add coverage beyond the flat cut");
}

#[test]
fn zero_length_subpath_strokes_nothing() {
    let mut p = Plotter::new(6, 6);
    let ops = vec![PathOp::Move(3 * 256, 3 * 256)];
    p.add_ops(&ops);
    p.stroke();
    assert!(p.mask().pixels.iter().all(|&b| b == 0));
}

#[test]
fn stroke_rule_is_nonzero_regardless_of_fill_rule() {
    // stroking after an EvenOdd fill must still lay the band down fully
    let mut p = Plotter::new(12, 10);
    p.set_join(JoinStyle::Bevel);
    let ops = vec![
        PathOp::PenWidth(4 * 256),
        PathOp::Move(0, 5 * 256),
        PathOp::Line(10 * 256, 5 * 256),
    ];
    p.add_ops(&ops);
    p.fill(FillRule::EvenOdd);
    p.clear();
    p.stroke();
    assert_eq!(p.mask().pixels[5 * 12 + 5], 255);
}

#[test]
fn closed_square_stroke_draws_the_outline_only() {
    let mut p = Plotter::new(12, 12);
    p.set_join(JoinStyle::Bevel);
    let ops = vec![
        PathOp::PenWidth(2 * 256),
        PathOp::Move(3 * 256, 3 * 256),
        PathOp::Line(9 * 256, 3 * 256),
        PathOp::Line(9 * 256, 9 * 256),
        PathOp::Line(3 * 256, 9 * 256),
        PathOp::Close(),
    ];
    p.add_ops(&ops);
    p.stroke();
    let m = p.mask();
    // on the outline: full; well inside the square: empty
    assert_eq!(m.pixels[3 * 12 + 6], 255);
    assert_eq!(m.pixels[6 * 12 + 6], 0);
    assert_eq!(m.pixels[6 * 12 + 3], 255);
    assert_eq!(m.pixels[0], 0);
}
