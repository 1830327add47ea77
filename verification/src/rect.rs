//! Exact coverage of axis-aligned rectangles at integer pixel boundaries.
//!
//! These lemmas evaluate the scan-conversion model on rectangles whose
//! corners lie on pixel boundaries: every pixel inside comes out at full
//! coverage, every pixel outside at zero, under either fill rule; and a
//! doubly wound rectangle keeps full coverage under NonZero while its
//! overlap cancels to zero under EvenOdd.

use crate::fig::SubPath;
use crate::fill::{
    col_of, coverage_spec, edge_row_delta, fig_row_acc, fig_row_delta, interp_x, piece_delta,
    resolve_spec, single_delta, subs_row_delta, sub_edges_delta, AREA_FULL,
};
use crate::geom::{Transform, WeightedPoint2};
use crate::path::{FillRule, PathOp};
use crate::plotter::{ops_effect, PlotState};
use vstd::arithmetic::div_mod::{lemma_div_multiples_vanish, lemma_small_mod};
use vstd::prelude::*;

verus! {

/// Corner at pixel coordinates `(x, y)`, in subunits.
pub open spec fn rect_corner(x: int, y: int) -> WeightedPoint2 {
    WeightedPoint2 { x: (256 * x) as i32, y: (256 * y) as i32, w: 256 }
}

/// The four corners of the rectangle `[x0, x1] x [y0, y1]`, wound once.
pub open spec fn rect_pts(x0: int, y0: int, x1: int, y1: int) -> Seq<WeightedPoint2> {
    seq![
        rect_corner(x0, y0),
        rect_corner(x1, y0),
        rect_corner(x1, y1),
        rect_corner(x0, y1),
    ]
}

/// The same rectangle wound twice: every edge appears twice over.
pub open spec fn rect_pts2(x0: int, y0: int, x1: int, y1: int) -> Seq<WeightedPoint2> {
    rect_pts(x0, y0, x1, y1) + rect_pts(x0, y0, x1, y1)
}

/// The delta profile of one winding of the rectangle within a row of the
/// band: a full pixel's area enters at the left edge's column and leaves
/// at the right edge's, where the right edge is inside the mask at all.
pub open spec fn rect_delta(x0: int, x1: int, w: int, band: bool, c: int) -> int {
    if band {
        (if c == x1 && x1 < w {
            AREA_FULL as int
        } else {
            0
        }) - (if c == x0 {
            AREA_FULL as int
        } else {
            0
        })
    } else {
        0
    }
}

/// A vertical edge on a pixel boundary contributes one full column delta
/// in each row it spans, positive downward and negative upward.
proof fn lemma_vertical_edge_delta(
    ptop: WeightedPoint2,
    pbot: WeightedPoint2,
    k: int,
    ya: int,
    yb: int,
    r: int,
    w: int,
    c: int,
)
    requires
        ptop.x as int == 256 * k,
        pbot.x as int == 256 * k,
        0 <= k <= w,
        1 <= w <= 0x4000,
        ptop.y as int == 256 * ya,
        pbot.y as int == 256 * yb,
        ya < yb,
        0 <= ya,
        yb <= 0x4000,
        0 <= r,
    ensures
        edge_row_delta(ptop, pbot, r, w, c) == if ya <= r < yb && k < w && c == k {
            AREA_FULL as int
        } else {
            0
        },
        edge_row_delta(pbot, ptop, r, w, c) == if ya <= r < yb && k < w && c == k {
            -(AREA_FULL as int)
        } else {
            0
        },
{
    let y0 = 256 * ya;
    let y1 = 256 * yb;
    let x = 256 * k;
    let yt: int = if y0 >= 256 * r {
        y0
    } else {
        256 * r
    };
    let ybot: int = if y1 <= 256 * (r + 1) {
        y1
    } else {
        256 * (r + 1)
    };
    if ya <= r < yb {
        assert(yt == 256 * r && ybot == 256 * (r + 1));
        assert(x * (y1 - yt) + x * (yt - y0) == (y1 - y0) * x) by (nonlinear_arith);
        assert(x * (y1 - ybot) + x * (ybot - y0) == (y1 - y0) * x) by (nonlinear_arith);
        lemma_div_multiples_vanish(x, y1 - y0);
        assert(interp_x(x, y0, x, y1, yt) == x);
        assert(interp_x(x, y0, x, y1, ybot) == x);
        if k == w {
            assert(col_of(x, w) == w);
            assert(piece_delta(x, yt, x, ybot, 1, w, c) == 0);
            assert(piece_delta(x, yt, x, ybot, -1, w, c) == 0);
        } else {
            assert(256 * k < 256 * w) by (nonlinear_arith)
                requires k < w;
            assert(x == 256 * k && x / 256 == k) by {
                lemma_div_multiples_vanish(k, 256);
                assert(256 * k == k * 256) by (nonlinear_arith);
                assert((256 * k) / 256 == (k * 256) / 256);
            }
            assert(col_of(x, w) == k);
            assert(AREA_FULL == 131072i64);
            assert(x - 256 * k == 0);
            assert(crate::fill::clamp_u_spec(0) == 0);
            assert(1int * 256 * (512 - 0 - 0) == 131072) by (nonlinear_arith);
            assert(-1int * 256 * (512 - 0 - 0) == -131072) by (nonlinear_arith);
            assert(1int * 256 * (0 + 0) == 0) by (nonlinear_arith);
            assert(-1int * 256 * (0 + 0) == 0) by (nonlinear_arith);
            assert(single_delta(k, x, x, 256, 1, w, c) == if c == k {
                AREA_FULL as int
            } else {
                0
            });
            assert(single_delta(k, x, x, 256, -1, w, c) == if c == k {
                -(AREA_FULL as int)
            } else {
                0
            });
            assert(piece_delta(x, yt, x, ybot, 1, w, c) == single_delta(k, x, x, 256, 1, w, c));
            assert(piece_delta(x, yt, x, ybot, -1, w, c) == single_delta(
                k,
                x,
                x,
                256,
                -1,
                w,
                c,
            ));
        }
    } else {
        if r < ya {
            assert(256 * (r + 1) <= 256 * ya) by (nonlinear_arith)
                requires r + 1 <= ya;
            assert(yt >= ybot);
        } else {
            assert(256 * r >= 256 * yb) by (nonlinear_arith)
                requires r >= yb;
            assert(yt >= ybot);
        }
    }
}

/// The row delta of one winding of the rectangle.
proof fn lemma_rect_row_delta(
    subs: Seq<SubPath>,
    x0: int,
    y0: int,
    x1: int,
    y1: int,
    r: int,
    w: int,
    c: int,
)
    requires
        subs.len() == 1,
        subs[0].start == 0,
        subs[0].n == 4,
        0 <= x0 < x1 <= w,
        1 <= w <= 0x4000,
        0 <= y0 < y1 <= 0x4000,
        0 <= r,
    ensures
        fig_row_delta(rect_pts(x0, y0, x1, y1), subs, r, w, c) == rect_delta(
            x0,
            x1,
            w,
            y0 <= r < y1,
            c,
        ),
{
    let pts = rect_pts(x0, y0, x1, y1);
    let s = subs[0];
    reveal_with_fuel(sub_edges_delta, 5);
    reveal_with_fuel(subs_row_delta, 2);
    lemma_small_mod(1nat, 4nat);
    lemma_small_mod(2nat, 4nat);
    lemma_small_mod(3nat, 4nat);
    assert(4int % 4 == 0) by (nonlinear_arith);
    assert(sub_edges_delta(pts, s, 0, r, w, c) == 0);
    assert(sub_edges_delta(pts, s, 1, r, w, c) == edge_row_delta(pts[0], pts[1], r, w, c));
    assert(edge_row_delta(pts[0], pts[1], r, w, c) == 0);
    lemma_vertical_edge_delta(pts[1], pts[2], x1, y0, y1, r, w, c);
    assert(edge_row_delta(pts[2], pts[3], r, w, c) == 0);
    lemma_vertical_edge_delta(pts[0], pts[3], x0, y0, y1, r, w, c);
    assert(fig_row_delta(pts, subs, r, w, c) == subs_row_delta(pts, subs, 1, r, w, c));
    assert(subs_row_delta(pts, subs, 1, r, w, c) == sub_edges_delta(pts, s, 4, r, w, c));
}

/// The row delta of the doubly wound rectangle: twice one winding's.
proof fn lemma_rect2_row_delta(
    subs: Seq<SubPath>,
    x0: int,
    y0: int,
    x1: int,
    y1: int,
    r: int,
    w: int,
    c: int,
)
    requires
        subs.len() == 1,
        subs[0].start == 0,
        subs[0].n == 8,
        0 <= x0 < x1 <= w,
        1 <= w <= 0x4000,
        0 <= y0 < y1 <= 0x4000,
        0 <= r,
    ensures
        fig_row_delta(rect_pts2(x0, y0, x1, y1), subs, r, w, c) == 2 * rect_delta(
            x0,
            x1,
            w,
            y0 <= r < y1,
            c,
        ),
{
    let pts = rect_pts2(x0, y0, x1, y1);
    let s = subs[0];
    reveal_with_fuel(sub_edges_delta, 9);
    reveal_with_fuel(subs_row_delta, 2);
    lemma_small_mod(1nat, 8nat);
    lemma_small_mod(2nat, 8nat);
    lemma_small_mod(3nat, 8nat);
    lemma_small_mod(4nat, 8nat);
    lemma_small_mod(5nat, 8nat);
    lemma_small_mod(6nat, 8nat);
    lemma_small_mod(7nat, 8nat);
    assert(8int % 8 == 0) by (nonlinear_arith);
    assert(edge_row_delta(pts[0], pts[1], r, w, c) == 0);
    lemma_vertical_edge_delta(pts[1], pts[2], x1, y0, y1, r, w, c);
    assert(edge_row_delta(pts[2], pts[3], r, w, c) == 0);
    lemma_vertical_edge_delta(pts[4], pts[3], x0, y0, y1, r, w, c);
    assert(edge_row_delta(pts[4], pts[5], r, w, c) == 0);
    lemma_vertical_edge_delta(pts[5], pts[6], x1, y0, y1, r, w, c);
    assert(edge_row_delta(pts[6], pts[7], r, w, c) == 0);
    lemma_vertical_edge_delta(pts[0], pts[7], x0, y0, y1, r, w, c);
    assert(fig_row_delta(pts, subs, r, w, c) == sub_edges_delta(pts, s, 8, r, w, c));
}

/// Running sum of a rectangle's delta profile, `mu` windings deep.
proof fn lemma_rect_row_acc(
    pts: Seq<WeightedPoint2>,
    subs: Seq<SubPath>,
    mu: int,
    x0: int,
    x1: int,
    w: int,
    band: bool,
    r: int,
    c: int,
)
    requires
        forall|cx: int| #[trigger]
            fig_row_delta(pts, subs, r, w, cx) == mu * rect_delta(x0, x1, w, band, cx),
        0 <= x0 < x1 <= w,
        c < w,
    ensures
        fig_row_acc(pts, subs, r, w, c) == if band && x0 <= c < x1 {
            -(mu * AREA_FULL as int)
        } else {
            0
        },
    decreases c + 1,
{
    if c < 0 {
    } else {
        lemma_rect_row_acc(pts, subs, mu, x0, x1, w, band, r, c - 1);
        assert(fig_row_delta(pts, subs, r, w, c) == mu * rect_delta(x0, x1, w, band, c));
        assert(fig_row_acc(pts, subs, r, w, c) == fig_row_acc(pts, subs, r, w, c - 1)
            + fig_row_delta(pts, subs, r, w, c));
        if band {
            if c == x0 {
                assert(rect_delta(x0, x1, w, band, c) == -(AREA_FULL as int));
            } else if c == x1 && x1 < w {
                assert(rect_delta(x0, x1, w, band, c) == AREA_FULL as int);
            } else {
                assert(rect_delta(x0, x1, w, band, c) == 0);
            }
        } else {
            assert(rect_delta(x0, x1, w, band, c) == 0);
        }
        assert(mu * 0 == 0) by (nonlinear_arith);
        assert(mu * (AREA_FULL as int) == mu * AREA_FULL as int) by (nonlinear_arith);
        assert(mu * -(AREA_FULL as int) == -(mu * AREA_FULL as int)) by (nonlinear_arith);
    }
}

/// The drawing operations that outline the rectangle `[x0, x1] x [y0, y1]`
/// at pixel coordinates: a move, three lines and a close.
pub open spec fn rect_ops(x0: int, y0: int, x1: int, y1: int) -> Seq<PathOp> {
    seq![
        PathOp::Move((256 * x0) as i32, (256 * y0) as i32),
        PathOp::Line((256 * x1) as i32, (256 * y0) as i32),
        PathOp::Line((256 * x1) as i32, (256 * y1) as i32),
        PathOp::Line((256 * x0) as i32, (256 * y1) as i32),
        PathOp::Close(),
    ]
}

/// Consuming the rectangle's operations from a fresh plotter state under
/// the identity transform stores exactly the rectangle's four corners as
/// one closed, joined sub-path: the move-to-close round trip loses
/// nothing.  Together with the fill contract and the coverage lemmas
/// below, plotting and filling this path covers precisely the rectangle.
pub proof fn lemma_rect_ops_build(x0: int, y0: int, x1: int, y1: int, st: PlotState, tol_sq: int)
    requires
        0 <= x0 <= 0x4000,
        0 <= y0 <= 0x4000,
        0 <= x1 <= 0x4000,
        0 <= y1 <= 0x4000,
        st.pts.len() == 0,
        st.subs.len() == 0,
        st.s_width == 256,
    ensures
        ({
            let idt = Transform { a: 256i32, b: 0i32, c: 0i32, d: 256i32, e: 0i32, f: 0i32 };
            let fin = ops_effect(st, idt, tol_sq, rect_ops(x0, y0, x1, y1));
            fin.pts == rect_pts(x0, y0, x1, y1) && fin.subs == seq![
                SubPath { start: 0, n: 4, closed: true, joined: true },
            ]
        }),
{
    let idt = Transform { a: 256i32, b: 0i32, c: 0i32, d: 256i32, e: 0i32, f: 0i32 };
    let ops = rect_ops(x0, y0, x1, y1);
    let o4 = ops.drop_last();
    let o3 = o4.drop_last();
    let o2 = o3.drop_last();
    let o1 = o2.drop_last();
    let o0 = o1.drop_last();
    assert(o0.len() == 0);
    crate::geom::lemma_identity_apply(256 * x0, 256 * y0);
    crate::geom::lemma_identity_apply(256 * x1, 256 * y0);
    crate::geom::lemma_identity_apply(256 * x1, 256 * y1);
    crate::geom::lemma_identity_apply(256 * x0, 256 * y1);
    let e0 = ops_effect(st, idt, tol_sq, o0);
    assert(e0 == st);
    let e1 = ops_effect(st, idt, tol_sq, o1);
    assert(o1.last() == ops[0] && e1 == crate::plotter::op_effect(e0, idt, tol_sq, ops[0]));
    let e2 = ops_effect(st, idt, tol_sq, o2);
    assert(o2.last() == ops[1] && e2 == crate::plotter::op_effect(e1, idt, tol_sq, ops[1]));
    let e3 = ops_effect(st, idt, tol_sq, o3);
    assert(o3.last() == ops[2] && e3 == crate::plotter::op_effect(e2, idt, tol_sq, ops[2]));
    let e4 = ops_effect(st, idt, tol_sq, o4);
    assert(o4.last() == ops[3] && e4 == crate::plotter::op_effect(e3, idt, tol_sq, ops[3]));
    let fin = ops_effect(st, idt, tol_sq, ops);
    assert(ops.last() == ops[4] && fin == crate::plotter::op_effect(e4, idt, tol_sq, ops[4]));
    assert(e1.pts =~= seq![rect_corner(x0, y0)]);
    assert(e1.subs =~= seq![SubPath { start: 0, n: 1, closed: false, joined: false }]);
    assert(e2.pts =~= seq![rect_corner(x0, y0), rect_corner(x1, y0)]);
    assert(e2.subs =~= seq![SubPath { start: 0, n: 2, closed: false, joined: false }]);
    assert(e3.pts =~= seq![rect_corner(x0, y0), rect_corner(x1, y0), rect_corner(x1, y1)]);
    assert(e3.subs =~= seq![SubPath { start: 0, n: 3, closed: false, joined: false }]);
    assert(e4.pts =~= rect_pts(x0, y0, x1, y1));
    assert(e4.subs =~= seq![SubPath { start: 0, n: 4, closed: false, joined: false }]);
    assert(fin.pts =~= rect_pts(x0, y0, x1, y1));
    assert(fin.subs =~= seq![SubPath { start: 0, n: 4, closed: true, joined: true }]);
}

/// Filling the rectangle `[x0, x1] x [y0, y1]`, laid on pixel boundaries,
/// covers every pixel inside it fully and no pixel outside it at all,
/// under either fill rule.
pub proof fn lemma_rect_coverage(
    subs: Seq<SubPath>,
    x0: int,
    y0: int,
    x1: int,
    y1: int,
    rule: FillRule,
    r: int,
    w: int,
    c: int,
)
    requires
        subs.len() == 1,
        subs[0].start == 0,
        subs[0].n == 4,
        0 <= x0 < x1 <= w,
        1 <= w <= 0x4000,
        0 <= y0 < y1 <= 0x4000,
        0 <= r,
        0 <= c < w,
    ensures
        coverage_spec(rect_pts(x0, y0, x1, y1), subs, rule, r, w, c) == if x0 <= c < x1 && y0
            <= r < y1 {
            255int
        } else {
            0int
        },
{
    let pts = rect_pts(x0, y0, x1, y1);
    let band = y0 <= r < y1;
    assert forall|cx: int| #[trigger]
        fig_row_delta(pts, subs, r, w, cx) == 1 * rect_delta(x0, x1, w, band, cx) by {
        lemma_rect_row_delta(subs, x0, y0, x1, y1, r, w, cx);
        assert(1 * rect_delta(x0, x1, w, band, cx) == rect_delta(x0, x1, w, band, cx))
            by (nonlinear_arith);
    }
    lemma_rect_row_acc(pts, subs, 1, x0, x1, w, band, r, c);
    let acc = fig_row_acc(pts, subs, r, w, c);
    if band && x0 <= c < x1 {
        assert(acc == -(1 * AREA_FULL as int));
        assert(acc == -131072);
        assert(resolve_spec(rule, -131072) == 255) by {
            assert((131072int * 255 + 65536) / 131072 == 255);
            assert(131072int % 262144 == 131072);
        }
    } else {
        assert(acc == 0);
        assert(resolve_spec(rule, 0) == 0) by {
            assert((0int * 255 + 65536) / 131072 == 0);
            assert(0int % 262144 == 0);
        }
    }
}

/// A doubly wound rectangle keeps full coverage inside under NonZero,
/// while under EvenOdd the two windings cancel to zero; outside it covers
/// nothing under either rule.
pub proof fn lemma_rect_double_coverage(
    subs: Seq<SubPath>,
    x0: int,
    y0: int,
    x1: int,
    y1: int,
    rule: FillRule,
    r: int,
    w: int,
    c: int,
)
    requires
        subs.len() == 1,
        subs[0].start == 0,
        subs[0].n == 8,
        0 <= x0 < x1 <= w,
        1 <= w <= 0x4000,
        0 <= y0 < y1 <= 0x4000,
        0 <= r,
        0 <= c < w,
    ensures
        coverage_spec(rect_pts2(x0, y0, x1, y1), subs, rule, r, w, c) == if x0 <= c < x1 && y0
            <= r < y1 {
            if rule is NonZero {
                255int
            } else {
                0int
            }
        } else {
            0int
        },
{
    let pts = rect_pts2(x0, y0, x1, y1);
    let band = y0 <= r < y1;
    assert forall|cx: int| #[trigger]
        fig_row_delta(pts, subs, r, w, cx) == 2 * rect_delta(x0, x1, w, band, cx) by {
        lemma_rect2_row_delta(subs, x0, y0, x1, y1, r, w, cx);
    }
    lemma_rect_row_acc(pts, subs, 2, x0, x1, w, band, r, c);
    let acc = fig_row_acc(pts, subs, r, w, c);
    if band && x0 <= c < x1 {
        assert(acc == -(2 * AREA_FULL as int));
        assert(acc == -262144);
        assert(resolve_spec(FillRule::NonZero, -262144) == 255) by {
            assert((131072int * 255 + 65536) / 131072 == 255);
        }
        assert(resolve_spec(FillRule::EvenOdd, -262144) == 0) by {
            assert(262144int % 262144 == 0);
            assert((0int * 255 + 65536) / 131072 == 0);
        }
    } else {
        assert(acc == 0);
        assert(resolve_spec(rule, 0) == 0) by {
            assert((0int * 255 + 65536) / 131072 == 0);
            assert(0int % 262144 == 0);
        }
    }
}

} // verus!
