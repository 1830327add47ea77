use rasterize::path::{FillRule, PathOp};
use rasterize::plotter::Plotter;

#[test]
fn quad_flattening_ends_on_the_endpoint() {
    let mut p = Plotter::new(16, 16);
    let ops = vec![
        PathOp::Move(1 * 256, 14 * 256),
        PathOp::Quad(8 * 256, 0, 15 * 256, 14 * 256),
    ];
    p.add_ops(&ops);
    let last = p.fig.points[p.fig.points.len() - 1];
    assert_eq!((last.x, last.y), (15 * 256, 14 * 256));
    assert!(p.fig.points.len() > 2, "a bent spline needs intermediate points");
}

#[test]
fn cubic_flattening_ends_on_the_endpoint() {
    let mut p = Plotter::new(16, 16);
    let ops = vec![
        PathOp::Move(1 * 256, 14 * 256),
        PathOp::Cubic(4 * 256, 0, 12 * 256, 0, 15 * 256, 14 * 256),
    ];
    p.add_ops(&ops);
    let last = p.fig.points[p.fig.points.len() - 1];
    assert_eq!((last.x, last.y), (15 * 256, 14 * 256));
    assert!(p.fig.points.len() > 2);
}

#[test]
fn tighter_tolerance_never_drops_points() {
    let counts: Vec<usize> = [1024i32, 256, 64, 16, 4]
        .iter()
        .map(|&tol| {
            let mut p = Plotter::new(16, 16);
            p.set_tolerance(tol);
            let ops = vec![
                PathOp::Move(1 * 256, 14 * 256),
                PathOp::Cubic(4 * 256, 0, 12 * 256, 0, 15 * 256, 14 * 256),
            ];
            p.add_ops(&ops);
            p.fig.points.len()
        })
        .collect();
    for w in counts.windows(2) {
        assert!(w[1] >= w[0], "tolerance down, points down: {:?}", counts);
    }
    assert!(counts[counts.len() - 1] > counts[0]);
}

#[test]
fn straight_quad_flattens_to_one_segment() {
    // control point on the chord: the very first midpoint test passes
    let mut p = Plotter::new(16, 16);
    let ops = vec![
        PathOp::Move(0, 0),
        PathOp::Quad(4 * 256, 4 * 256, 8 * 256, 8 * 256),
    ];
    p.add_ops(&ops);
    assert_eq!(p.fig.points.len(), 2);
}

#[test]
fn pen_width_interpolates_along_a_curve() {
    let mut p = Plotter::new(16, 16);
    let ops = vec![
        PathOp::PenWidth(2 * 256),
        PathOp::Move(1 * 256, 14 * 256),
        PathOp::PenWidth(6 * 256),
        PathOp::Quad(8 * 256, 0, 15 * 256, 14 * 256),
    ];
    p.add_ops(&ops);
    let first = p.fig.points[0];
    let last = p.fig.points[p.fig.points.len() - 1];
    assert_eq!(first.w, 2 * 256);
    assert_eq!(last.w, 6 * 256);
    for q in p.fig.points.iter() {
        assert!(q.w >= 2 * 256 && q.w <= 6 * 256);
    }
}

#[test]
fn curved_path_fill_reaches_full_coverage_inside() {
    // a closed lens of two quadratics around the mask centre
    let mut p = Plotter::new(16, 16);
    let ops = vec![
        PathOp::Move(2 * 256, 8 * 256),
        PathOp::Quad(8 * 256, 0, 14 * 256, 8 * 256),
        PathOp::Quad(8 * 256, 16 * 256, 2 * 256, 8 * 256),
        PathOp::Close(),
    ];
    p.add_ops(&ops);
    p.fill(FillRule::NonZero);
    let m = p.mask();
    assert_eq!(m.pixels[8 * 16 + 8], 255);
    assert_eq!(m.pixels[0], 0);
    assert_eq!(m.pixels[8 * 16 + 15], 0);
}
