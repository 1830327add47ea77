//! Stroke generation: offset each sub-path on both sides by half the local
//! pen width and stitch consecutive offset segments with join geometry.

use crate::fig::SubPath;
use crate::fill::{coverage_spec, sat_add_255};
use crate::geom::{
    cross_spec, dist_sq_spec, isect_den_spec, isect_x_spec, isect_y_spec,
    mid_spec, offset_x_spec, offset_y_spec, pt_ok, sqrt_spec, wpt_ok, Point2, WeightedPoint2,
};
use crate::path::{Direction, JoinStyle};
use crate::plotter::MAX_SUBDIV;
use vstd::prelude::*;

verus! {

/// Both endpoints of the segment from `p0` to `p1`, each pushed to the
/// right of the segment's direction by that endpoint's half pen width.
pub open spec fn offset_seg_spec(p0: WeightedPoint2, p1: WeightedPoint2) -> (Point2, Point2) {
    let dx = p1.x as int - p0.x as int;
    let dy = p1.y as int - p0.y as int;
    (
        Point2 {
            x: offset_x_spec(p0.x as int, dx, dy, p0.w as int / 2) as i32,
            y: offset_y_spec(p0.y as int, dx, dy, p0.w as int / 2) as i32,
        },
        Point2 {
            x: offset_x_spec(p1.x as int, dx, dy, p1.w as int / 2) as i32,
            y: offset_y_spec(p1.y as int, dx, dy, p1.w as int / 2) as i32,
        },
    )
}

/// The integer form of the miter acceptance test.
///
/// With `u` and `v` the incoming and outgoing direction vectors, the turn
/// angle `t` has `sin(t/2)^2 == (1 - cos t) / 2` and
/// `cos t == dot(u, v) / (|u| |v|)`.  A miter of fixed-point limit `ml`
/// (256 is one) is accepted when `sin(t/2) >= 1/(ml/256)` and
/// `sin(t/2) < 1`; multiplying through by `2 * 256^2 * |u| |v|` gives the
/// integer conditions below, with `g` the rounded product of the lengths.
/// Degenerate zero-length directions have `g == 0` and fall to bevel.
pub open spec fn miter_within(ux: int, uy: int, vx: int, vy: int, ml: int) -> bool {
    let g = sqrt_spec((ux * ux + uy * uy) * (vx * vx + vy * vy));
    let dotv = ux * vx + uy * vy;
    ml > 0 && g > 0 && dotv > -g && ml * ml * (g - dotv) >= 131072 * g
}

/// Where the arc around corner `p` crosses between chord ends `a` and `b`:
/// the corner pushed half its pen width to the right of the chord.
pub open spec fn circle_pt_spec(p: WeightedPoint2, a: Point2, b: Point2) -> Point2 {
    let dx = b.x as int - a.x as int;
    let dy = b.y as int - a.y as int;
    Point2 {
        x: offset_x_spec(p.x as int, dx, dy, p.w as int / 2) as i32,
        y: offset_y_spec(p.y as int, dx, dy, p.w as int / 2) as i32,
    }
}

/// The points a round join emits between chord ends `a` and `b`: the chord
/// is split at the circle point until that point lies within tolerance of
/// the chord midpoint, under the same depth budget as curve flattening.
pub open spec fn arc_points_spec(
    p: WeightedPoint2,
    a: Point2,
    b: Point2,
    tol_sq: int,
    depth: nat,
) -> Seq<Point2>
    decreases depth,
{
    let c = circle_pt_spec(p, a, b);
    let m = Point2 {
        x: mid_spec(a.x as int, b.x as int) as i32,
        y: mid_spec(a.y as int, b.y as int) as i32,
    };
    if depth == 0 || dist_sq_spec(c.x as int, c.y as int, m.x as int, m.y as int) <= tol_sq {
        seq![b]
    } else {
        arc_points_spec(p, a, c, tol_sq, (depth - 1) as nat) + arc_points_spec(
            p,
            c,
            b,
            tol_sq,
            (depth - 1) as nat,
        )
    }
}

/// The clamped intersection point of the two offset segments.
pub open spec fn miter_pt_spec(a0: Point2, a1: Point2, b0: Point2, b1: Point2) -> Point2 {
    Point2 {
        x: isect_x_spec(a0, a1, b0, b1) as i32,
        y: isect_y_spec(a0, a1, b0, b1) as i32,
    }
}

/// The points one join emits between the offset segments `a0 a1` and
/// `b0 b1` around corner `p`.
///
/// A miter needs its limit test passed and the intersection defined, else
/// it cuts a bevel; a bevel emits both offset endpoints; a round join
/// falls to bevel on a non-convex fold and otherwise arcs from `a1` to
/// `b0`.
pub open spec fn join_points_spec(
    style: JoinStyle,
    p: WeightedPoint2,
    a0: Point2,
    a1: Point2,
    b0: Point2,
    b1: Point2,
    tol_sq: int,
) -> Seq<Point2> {
    let ux = a1.x as int - a0.x as int;
    let uy = a1.y as int - a0.y as int;
    let vx = b0.x as int - b1.x as int;
    let vy = b0.y as int - b1.y as int;
    match style {
        JoinStyle::Miter(ml) => {
            if miter_within(ux, uy, vx, vy, ml as int) && isect_den_spec(a0, a1, b0, b1) != 0 {
                seq![miter_pt_spec(a0, a1, b0, b1)]
            } else {
                seq![a1, b0]
            }
        },
        JoinStyle::Bevel => seq![a1, b0],
        JoinStyle::Round => {
            if cross_spec(ux, uy, vx, vy) <= 0 {
                seq![a1, b0]
            } else {
                seq![a1] + arc_points_spec(p, a1, b0, tol_sq, MAX_SUBDIV as nat)
            }
        },
    }
}

/// Vertex visited at step `i` of a directional walk of sub-path `s`.
pub open spec fn walk_v(s: SubPath, dir: Direction, i: int) -> int
    decreases i,
{
    if i <= 0 {
        match dir {
            Direction::Forward => s.start as int,
            Direction::Reverse => s.start + s.n - 1,
        }
    } else {
        crate::fig::next_in_sub(s, walk_v(s, dir, i - 1), dir)
    }
}

/// The points that one directional walk of sub-path `s` emits in its first
/// `k` steps: the first step opens with its leading offset point unless
/// the ends join, and every later step stitches a join between the
/// previous and the current offset segment.
pub open spec fn side_points_spec(
    pts: Seq<WeightedPoint2>,
    s: SubPath,
    dir: Direction,
    style: JoinStyle,
    tol_sq: int,
    k: int,
) -> Seq<Point2>
    decreases k,
{
    if k <= 0 {
        seq![]
    } else {
        let prev = side_points_spec(pts, s, dir, style, tol_sq, k - 1);
        let p0 = pts[walk_v(s, dir, k - 1)];
        let p1 = pts[walk_v(s, dir, k)];
        let seg = offset_seg_spec(p0, p1);
        let emitted = if k == 1 {
            if s.joined {
                seq![]
            } else {
                seq![seg.0]
            }
        } else {
            let pp0 = pts[walk_v(s, dir, k - 2)];
            let pseg = offset_seg_spec(pp0, p0);
            join_points_spec(style, p0, pseg.0, pseg.1, seg.0, seg.1, tol_sq)
        };
        prev + emitted
    }
}

/// One complete side.  A joined sub-path takes one step beyond its point
/// count, which stitches the join between its last and first segment and
/// closes the contour; an open one stops after its points and butt-caps
/// the walk with the trailing offset point.
pub open spec fn side_full_spec(
    pts: Seq<WeightedPoint2>,
    s: SubPath,
    dir: Direction,
    style: JoinStyle,
    tol_sq: int,
) -> Seq<Point2> {
    if s.joined {
        side_points_spec(pts, s, dir, style, tol_sq, s.n + 1)
    } else {
        let base = side_points_spec(pts, s, dir, style, tol_sq, s.n as int);
        let pl0 = pts[walk_v(s, dir, s.n - 1)];
        let pl1 = pts[walk_v(s, dir, s.n as int)];
        base + seq![offset_seg_spec(pl0, pl1).1]
    }
}

/// Stroke outline points carry a pen width of one pixel, which nothing
/// reads.
pub open spec fn as_wpts(s: Seq<Point2>) -> Seq<WeightedPoint2> {
    s.map_values(|q: Point2| WeightedPoint2 { x: q.x, y: q.y, w: 256 })
}

/// What stroking one sub-path appends to the stroke figure: the forward
/// side, a closing seam when the ends join, the reverse side, and the
/// final close.
pub open spec fn stroke_sub_effect(
    pts: Seq<WeightedPoint2>,
    s: SubPath,
    style: JoinStyle,
    tol_sq: int,
    spts: Seq<WeightedPoint2>,
    ssubs: Seq<SubPath>,
) -> (Seq<WeightedPoint2>, Seq<SubPath>) {
    let fwd = as_wpts(side_full_spec(pts, s, Direction::Forward, style, tol_sq));
    let subs1 = crate::plotter::subs_after_append(ssubs, spts.len() as int, fwd.len() as int);
    let subs2 = if s.joined {
        crate::plotter::subs_after_close(subs1, true)
    } else {
        subs1
    };
    let rev = as_wpts(side_full_spec(pts, s, Direction::Reverse, style, tol_sq));
    let subs3 = crate::plotter::subs_after_append(
        subs2,
        spts.len() as int + fwd.len() as int,
        rev.len() as int,
    );
    ((spts + fwd) + rev, crate::plotter::subs_after_close(subs3, s.joined))
}

/// Everything that stroke generation leaves alone.
pub open spec fn stroke_config(a: &crate::plotter::Plotter, b: &crate::plotter::Plotter) -> bool {
    &&& a.fig == b.fig
    &&& a.mask == b.mask
    &&& a.sgn_area@.len() == b.sgn_area@.len()
    &&& a.pen == b.pen
    &&& a.transform == b.transform
    &&& a.tol_sq == b.tol_sq
    &&& a.s_width == b.s_width
    &&& a.join_style == b.join_style
}

/// A corner too sharp for the miter limit cuts a bevel: when the
/// half-angle sine falls below the limit's reciprocal, the miter join
/// emits the two offset endpoints and never an intersection point.
pub proof fn lemma_sharp_corner_bevels(
    ml: i32,
    p: WeightedPoint2,
    a0: Point2,
    a1: Point2,
    b0: Point2,
    b1: Point2,
    tol_sq: int,
)
    requires
        ({
            let ux = a1.x as int - a0.x as int;
            let uy = a1.y as int - a0.y as int;
            let vx = b0.x as int - b1.x as int;
            let vy = b0.y as int - b1.y as int;
            let g = sqrt_spec((ux * ux + uy * uy) * (vx * vx + vy * vy));
            let dotv = ux * vx + uy * vy;
            ml as int * ml as int * (g - dotv) < 131072 * g
        }),
    ensures
        join_points_spec(JoinStyle::Miter(ml), p, a0, a1, b0, b1, tol_sq) == seq![a1, b0],
{
}

/// One chord of a round join passes the deviation test: the arc's own
/// point between the chord's ends lies within the tolerance of the chord
/// midpoint.
pub open spec fn chord_ok(p: WeightedPoint2, u: Point2, v: Point2, tol_sq: int) -> bool {
    let c = circle_pt_spec(p, u, v);
    dist_sq_spec(
        c.x as int,
        c.y as int,
        mid_spec(u.x as int, v.x as int),
        mid_spec(u.y as int, v.y as int),
    ) <= tol_sq
}

/// Every consecutive pair of a point run passes the chord test.
pub open spec fn chords_ok(p: WeightedPoint2, pts: Seq<Point2>, tol_sq: int) -> bool {
    forall|i: int| 0 <= i < pts.len() - 1 ==> chord_ok(p, #[trigger] pts[i], pts[i + 1], tol_sq)
}

/// Whether the arc subdivision accepts every chord by the tolerance test
/// alone, never by depth exhaustion.
pub open spec fn arc_within_tol(
    p: WeightedPoint2,
    a: Point2,
    b: Point2,
    tol_sq: int,
    depth: nat,
) -> bool
    decreases depth,
{
    if chord_ok(p, a, b, tol_sq) {
        true
    } else if depth == 0 {
        false
    } else {
        let c = circle_pt_spec(p, a, b);
        arc_within_tol(p, a, c, tol_sq, (depth - 1) as nat) && arc_within_tol(
            p,
            c,
            b,
            tol_sq,
            (depth - 1) as nat,
        )
    }
}

/// An arc walk emits at least one point and ends on its far chord end.
pub proof fn lemma_arc_len_last(
    p: WeightedPoint2,
    a: Point2,
    b: Point2,
    tol_sq: int,
    depth: nat,
)
    ensures
        arc_points_spec(p, a, b, tol_sq, depth).len() >= 1,
        arc_points_spec(p, a, b, tol_sq, depth).last() == b,
    decreases depth,
{
    let c = circle_pt_spec(p, a, b);
    let m = Point2 {
        x: mid_spec(a.x as int, b.x as int) as i32,
        y: mid_spec(a.y as int, b.y as int) as i32,
    };
    if !(depth == 0 || dist_sq_spec(c.x as int, c.y as int, m.x as int, m.y as int) <= tol_sq) {
        lemma_arc_len_last(p, a, c, tol_sq, (depth - 1) as nat);
        lemma_arc_len_last(p, c, b, tol_sq, (depth - 1) as nat);
    }
}

/// Round-join points deviate from the ideal circular arc by no more than
/// the tolerance: as long as the depth budget never ran out, every chord
/// of the generated walk from `a` onward passes the deviation test.
pub proof fn lemma_round_join_within_tol(
    p: WeightedPoint2,
    a: Point2,
    b: Point2,
    tol_sq: int,
    depth: nat,
)
    requires
        arc_within_tol(p, a, b, tol_sq, depth),
    ensures
        chords_ok(p, seq![a] + arc_points_spec(p, a, b, tol_sq, depth), tol_sq),
    decreases depth,
{
    let c = circle_pt_spec(p, a, b);
    let m = Point2 {
        x: mid_spec(a.x as int, b.x as int) as i32,
        y: mid_spec(a.y as int, b.y as int) as i32,
    };
    let pts = seq![a] + arc_points_spec(p, a, b, tol_sq, depth);
    if depth == 0 || dist_sq_spec(c.x as int, c.y as int, m.x as int, m.y as int) <= tol_sq {
        assert(chord_ok(p, a, b, tol_sq)) by {
            if !chord_ok(p, a, b, tol_sq) {
                assert(!arc_within_tol(p, a, b, tol_sq, depth));
            }
        }
        assert(pts =~= seq![a, b]);
        assert forall|i: int| 0 <= i < pts.len() - 1 implies chord_ok(
            p,
            #[trigger] pts[i],
            pts[i + 1],
            tol_sq,
        ) by {
            assert(i == 0);
            assert(pts[0] == a && pts[1] == b);
        }
    } else {
        // the acceptance test failed, so the premise holds of both halves
        assert(!chord_ok(p, a, b, tol_sq));
        assert(arc_within_tol(p, a, c, tol_sq, (depth - 1) as nat) && arc_within_tol(
            p,
            c,
            b,
            tol_sq,
            (depth - 1) as nat,
        ));
        let s1 = arc_points_spec(p, a, c, tol_sq, (depth - 1) as nat);
        let s2 = arc_points_spec(p, c, b, tol_sq, (depth - 1) as nat);
        let first = seq![a] + s1;
        let second = seq![c] + s2;
        lemma_round_join_within_tol(p, a, c, tol_sq, (depth - 1) as nat);
        lemma_round_join_within_tol(p, c, b, tol_sq, (depth - 1) as nat);
        lemma_arc_len_last(p, a, c, tol_sq, (depth - 1) as nat);
        lemma_arc_len_last(p, c, b, tol_sq, (depth - 1) as nat);
        assert(pts =~= first + s2);
        assert forall|i: int| 0 <= i < pts.len() - 1 implies chord_ok(
            p,
            #[trigger] pts[i],
            pts[i + 1],
            tol_sq,
        ) by {
            if i < first.len() - 1 {
                assert(pts[i] == first[i] && pts[i + 1] == first[i + 1]);
                assert(chord_ok(p, first[i], first[i + 1], tol_sq));
            } else if i == first.len() - 1 {
                assert(pts[i] == first.last() && first.last() == s1.last() && s1.last() == c);
                assert(pts[i + 1] == s2[0] && s2[0] == second[1]);
                assert(chord_ok(p, second[0], second[1], tol_sq));
            } else {
                let j = i - first.len() + 1;
                assert(pts[i] == s2[j - 1] && s2[j - 1] == second[j]);
                assert(pts[i + 1] == s2[j] && s2[j] == second[j + 1]);
                assert(chord_ok(p, second[j], second[j + 1], tol_sq));
            }
        }
    }
}

/// A directional walk stays within its sub-path's run.
pub proof fn lemma_walk_v_in(s: SubPath, dir: Direction, i: int)
    requires
        s.n >= 1,
        i >= 0,
    ensures
        s.start <= walk_v(s, dir, i) < s.start + s.n,
    decreases i,
{
    if i > 0 {
        lemma_walk_v_in(s, dir, i - 1);
    }
}

/// Every arc point is storable, and the walk ends on `b`.
pub proof fn lemma_arc_points_ok(
    p: WeightedPoint2,
    a: Point2,
    b: Point2,
    tol_sq: int,
    depth: nat,
)
    requires
        wpt_ok(p),
        pt_ok(b),
    ensures
        arc_points_spec(p, a, b, tol_sq, depth).len() >= 1,
        arc_points_spec(p, a, b, tol_sq, depth).last() == b,
        forall|i: int|
            0 <= i < arc_points_spec(p, a, b, tol_sq, depth).len() ==> pt_ok(
                #[trigger] arc_points_spec(p, a, b, tol_sq, depth)[i],
            ),
    decreases depth,
{
    let c = circle_pt_spec(p, a, b);
    let m = Point2 {
        x: mid_spec(a.x as int, b.x as int) as i32,
        y: mid_spec(a.y as int, b.y as int) as i32,
    };
    if !(depth == 0 || dist_sq_spec(c.x as int, c.y as int, m.x as int, m.y as int) <= tol_sq) {
        assert(pt_ok(c));
        lemma_arc_points_ok(p, a, c, tol_sq, (depth - 1) as nat);
        lemma_arc_points_ok(p, c, b, tol_sq, (depth - 1) as nat);
    }
}

/// What stroking the first `k` sub-paths appends to the stroke figure.
pub open spec fn stroke_subs_effect(
    pts: Seq<WeightedPoint2>,
    subs: Seq<SubPath>,
    k: int,
    style: JoinStyle,
    tol_sq: int,
    spts: Seq<WeightedPoint2>,
    ssubs: Seq<SubPath>,
) -> (Seq<WeightedPoint2>, Seq<SubPath>)
    decreases k,
{
    if k <= 0 {
        (spts, ssubs)
    } else {
        let prev = stroke_subs_effect(pts, subs, k - 1, style, tol_sq, spts, ssubs);
        if subs[k - 1].n > 0 {
            stroke_sub_effect(pts, subs[k - 1], style, tol_sq, prev.0, prev.1)
        } else {
            prev
        }
    }
}

impl crate::plotter::Plotter {
    /// Append one point to the stroke figure.
    fn stroke_point(&mut self, q: Point2)
        requires
            old(self).wf(),
            pt_ok(q),
        ensures
            final(self).wf(),
            stroke_config(final(self), old(self)),
            final(self).sfig.points@ == old(self).sfig.points@ + as_wpts(seq![q]),
            final(self).sfig.subs@ == crate::plotter::subs_after_append(
                old(self).sfig.subs@,
                old(self).sfig.points@.len() as int,
                1,
            ),
    {
        let wq = WeightedPoint2 { x: q.x, y: q.y, w: 256 };
        proof {
            assert(crate::fig::clamp_wpt_spec(wq) == wq);
        }
        self.sfig.add_point(wq);
        proof {
            assert(final(self).sfig.points@ =~= old(self).sfig.points@ + as_wpts(seq![q]));
        }
    }

    /// Offset one segment to the right by half the pen width at each end.
    fn stroke_offset(&self, p0: WeightedPoint2, p1: WeightedPoint2) -> (r: (Point2, Point2))
        requires
            wpt_ok(p0),
            wpt_ok(p1),
        ensures
            r == offset_seg_spec(p0, p1),
            pt_ok(r.0),
            pt_ok(r.1),
    {
        let dx = p1.x - p0.x;
        let dy = p1.y - p0.y;
        let h0 = ((p0.w as u32) / 2) as i32;
        let h1 = ((p1.w as u32) / 2) as i32;
        let q0 = crate::geom::offset_point(Point2 { x: p0.x, y: p0.y }, dx, dy, h0);
        let q1 = crate::geom::offset_point(Point2 { x: p1.x, y: p1.y }, dx, dy, h1);
        (q0, q1)
    }

    /// Append a round-join arc between chord ends `a` and `b`.
    fn stroke_arc(&mut self, p: WeightedPoint2, a: Point2, b: Point2, depth: u32)
        requires
            old(self).wf(),
            wpt_ok(p),
            pt_ok(a),
            pt_ok(b),
        ensures
            final(self).wf(),
            stroke_config(final(self), old(self)),
            final(self).sfig.points@ == old(self).sfig.points@ + as_wpts(
                arc_points_spec(p, a, b, old(self).tol_sq as int, depth as nat),
            ),
            final(self).sfig.subs@ == crate::plotter::subs_after_append(
                old(self).sfig.subs@,
                old(self).sfig.points@.len() as int,
                arc_points_spec(p, a, b, old(self).tol_sq as int, depth as nat).len() as int,
            ),
        decreases depth,
    {
        let c = crate::geom::offset_point(
            Point2 { x: p.x, y: p.y },
            b.x - a.x,
            b.y - a.y,
            ((p.w as u32) / 2) as i32,
        );
        let mx = crate::geom::mid_coord(a.x, b.x);
        let my = crate::geom::mid_coord(a.y, b.y);
        let d2 = crate::geom::dist_sq(c.x, c.y, mx, my);
        if depth == 0 || d2 <= self.tol_sq {
            self.stroke_point(b);
        } else {
            let ghost st0 = self.sfig.points@;
            let ghost sb0 = self.sfig.subs@;
            self.stroke_arc(p, a, c, depth - 1);
            let ghost s1 = arc_points_spec(p, a, c, self.tol_sq as int, (depth - 1) as nat);
            self.stroke_arc(p, c, b, depth - 1);
            let ghost s2 = arc_points_spec(p, c, b, self.tol_sq as int, (depth - 1) as nat);
            let nfin = self.sfig.points.len();
            proof {
                lemma_arc_points_ok(p, a, c, self.tol_sq as int, (depth - 1) as nat);
                lemma_arc_points_ok(p, c, b, self.tol_sq as int, (depth - 1) as nat);
                assert(st0.len() + s1.len() + s2.len() == nfin as int);
                if sb0.len() > 0 && !sb0.last().closed {
                    assert(sb0.last().start + sb0.last().n == st0.len());
                }
                crate::plotter::lemma_subs_append_compose(
                    sb0,
                    st0.len() as int,
                    s1.len() as int,
                    s2.len() as int,
                );
                assert(final(self).sfig.points@ =~= st0 + as_wpts(s1 + s2));
            }
        }
    }

    /// Append a bevel join: both offset endpoints, cutting the corner flat.
    fn stroke_bevel(&mut self, a1: Point2, b0: Point2)
        requires
            old(self).wf(),
            pt_ok(a1),
            pt_ok(b0),
        ensures
            final(self).wf(),
            stroke_config(final(self), old(self)),
            final(self).sfig.points@ == old(self).sfig.points@ + as_wpts(seq![a1, b0]),
            final(self).sfig.subs@ == crate::plotter::subs_after_append(
                old(self).sfig.subs@,
                old(self).sfig.points@.len() as int,
                2,
            ),
    {
        let ghost st0 = self.sfig.points@;
        let ghost sb0 = self.sfig.subs@;
        self.stroke_point(a1);
        self.stroke_point(b0);
        let nfin = self.sfig.points.len();
        proof {
            assert(st0.len() + 2 == nfin as int);
            if sb0.len() > 0 && !sb0.last().closed {
                assert(sb0.last().start + sb0.last().n == st0.len());
            }
            crate::plotter::lemma_subs_append_compose(sb0, st0.len() as int, 1, 1);
            assert(final(self).sfig.points@ =~= st0 + as_wpts(seq![a1, b0]));
        }
    }

    /// Append a miter join, falling back to bevel when the corner is too
    /// sharp or the offset lines do not intersect.
    fn stroke_miter(&mut self, a0: Point2, a1: Point2, b0: Point2, b1: Point2, ml: i32)
        requires
            old(self).wf(),
            pt_ok(a0),
            pt_ok(a1),
            pt_ok(b0),
            pt_ok(b1),
        ensures
            final(self).wf(),
            stroke_config(final(self), old(self)),
            final(self).sfig.points@ == old(self).sfig.points@ + as_wpts(
                join_points_spec(
                    JoinStyle::Miter(ml),
                    old(self).pen,
                    a0,
                    a1,
                    b0,
                    b1,
                    old(self).tol_sq as int,
                ),
            ),
            final(self).sfig.subs@ == crate::plotter::subs_after_append(
                old(self).sfig.subs@,
                old(self).sfig.points@.len() as int,
                join_points_spec(
                    JoinStyle::Miter(ml),
                    old(self).pen,
                    a0,
                    a1,
                    b0,
                    b1,
                    old(self).tol_sq as int,
                ).len() as int,
            ),
    {
        let ux = (a1.x - a0.x) as i64;
        let uy = (a1.y - a0.y) as i64;
        let vx = (b0.x - b1.x) as i64;
        let vy = (b0.y - b1.y) as i64;
        proof {
            crate::geom::lemma_prod_bound_25(ux as int, ux as int);
            crate::geom::lemma_prod_bound_25(uy as int, uy as int);
            crate::geom::lemma_prod_bound_25(vx as int, vx as int);
            crate::geom::lemma_prod_bound_25(vy as int, vy as int);
            assert(ux as int * ux as int >= 0 && uy as int * uy as int >= 0 && vx as int
                * vx as int >= 0 && vy as int * vy as int >= 0) by (nonlinear_arith);
        }
        let nu = ux * ux + uy * uy;
        let nv = vx * vx + vy * vy;
        proof {
            assert(nu as int * nv as int <= 0x40_0000_0000_0000_0000_0000_0000 && nu as int
                * nv as int >= 0) by (nonlinear_arith)
                requires
                    0 <= nu as int <= 0x8_0000_0000_0000 && 0 <= nv as int
                        <= 0x8_0000_0000_0000,
            ;
        }
        let g128 = crate::geom::isqrt128((nu as u128) * (nv as u128));
        proof {
            crate::geom::lemma_sqrt_unique(
                (nu as u128 * nv as u128) as int,
                g128 as int,
            );
            assert(g128 as int <= 0x8_0000_0000_0000) by (nonlinear_arith)
                requires
                    g128 as int >= 0,
                    g128 as int * g128 as int <= 0x40_0000_0000_0000_0000_0000_0000,
            ;
            crate::geom::lemma_prod_bound_25(ux as int, vx as int);
            crate::geom::lemma_prod_bound_25(uy as int, vy as int);
        }
        let g = g128 as i64;
        let dotv = ux * vx + uy * vy;
        proof {
            assert(0 <= ml as i128 as int * (ml as i128 as int) <= 0x4000_0000_0000_0000)
                by (nonlinear_arith)
                requires -0x8000_0000 <= ml as i128 as int <= 0x8000_0000;
            assert forall|m2: int, gd: int|
                0 <= m2 <= 0x4000_0000_0000_0000 && -0x10_0000_0000_0000 <= gd
                    <= 0x10_0000_0000_0000 implies #[trigger] (m2 * gd)
                <= 0x4_0000_0000_0000_0000_0000_0000_0000 && m2 * gd
                >= -0x4_0000_0000_0000_0000_0000_0000_0000 by {
                assert(m2 * gd <= 0x4_0000_0000_0000_0000_0000_0000_0000 && m2 * gd
                    >= -0x4_0000_0000_0000_0000_0000_0000_0000) by (nonlinear_arith)
                    requires
                        0 <= m2 <= 0x4000_0000_0000_0000,
                        -0x10_0000_0000_0000 <= gd <= 0x10_0000_0000_0000,
                ;
            }
        }
        let accept = ml > 0 && g > 0 && dotv > -g && (ml as i128) * (ml as i128) * ((g - dotv)
            as i128) >= 131072i128 * (g as i128);
        if accept {
            match crate::geom::intersection(a0, a1, b0, b1) {
                Some(xp) => {
                    self.stroke_point(xp);
                    return ;
                },
                None => {
                    self.stroke_bevel(a1, b0);
                    return ;
                },
            }
        }
        self.stroke_bevel(a1, b0);
    }

    /// Append a round join, falling back to bevel on a non-convex fold.
    fn stroke_round(
        &mut self,
        p: WeightedPoint2,
        a0: Point2,
        a1: Point2,
        b0: Point2,
        b1: Point2,
    )
        requires
            old(self).wf(),
            wpt_ok(p),
            pt_ok(a0),
            pt_ok(a1),
            pt_ok(b0),
            pt_ok(b1),
        ensures
            final(self).wf(),
            stroke_config(final(self), old(self)),
            final(self).sfig.points@ == old(self).sfig.points@ + as_wpts(
                join_points_spec(
                    JoinStyle::Round,
                    p,
                    a0,
                    a1,
                    b0,
                    b1,
                    old(self).tol_sq as int,
                ),
            ),
            final(self).sfig.subs@ == crate::plotter::subs_after_append(
                old(self).sfig.subs@,
                old(self).sfig.points@.len() as int,
                join_points_spec(
                    JoinStyle::Round,
                    p,
                    a0,
                    a1,
                    b0,
                    b1,
                    old(self).tol_sq as int,
                ).len() as int,
            ),
    {
        let ux = (a1.x - a0.x) as i64;
        let uy = (a1.y - a0.y) as i64;
        let vx = (b0.x - b1.x) as i64;
        let vy = (b0.y - b1.y) as i64;
        proof {
            crate::geom::lemma_prod_bound_25(ux as int, vy as int);
            crate::geom::lemma_prod_bound_25(uy as int, vx as int);
        }
        let cr = ux * vy - uy * vx;
        if cr <= 0 {
            self.stroke_bevel(a1, b0);
        } else {
            let ghost st0 = self.sfig.points@;
            let ghost sb0 = self.sfig.subs@;
            self.stroke_point(a1);
            let ghost s2 = arc_points_spec(p, a1, b0, self.tol_sq as int, MAX_SUBDIV as nat);
            self.stroke_arc(p, a1, b0, MAX_SUBDIV);
            let nfin = self.sfig.points.len();
            proof {
                lemma_arc_points_ok(p, a1, b0, self.tol_sq as int, MAX_SUBDIV as nat);
                assert(st0.len() + 1 + s2.len() == nfin as int);
                if sb0.len() > 0 && !sb0.last().closed {
                    assert(sb0.last().start + sb0.last().n == st0.len());
                }
                crate::plotter::lemma_subs_append_compose(
                    sb0,
                    st0.len() as int,
                    1,
                    s2.len() as int,
                );
                assert(final(self).sfig.points@ =~= st0 + as_wpts(seq![a1] + s2));
            }
        }
    }

    /// Walk one side of sub-path `i` and append its offset contour to the
    /// stroke figure.
    #[verifier::rlimit(100)]
    fn stroke_side(&mut self, i: usize, dir: Direction)
        requires
            old(self).wf(),
            i < old(self).fig.subs@.len(),
        ensures
            final(self).wf(),
            stroke_config(final(self), old(self)),
            final(self).sfig.points@ == old(self).sfig.points@ + as_wpts(
                side_full_spec(
                    old(self).fig.points@,
                    old(self).fig.subs@[i as int],
                    dir,
                    old(self).join_style,
                    old(self).tol_sq as int,
                ),
            ),
            final(self).sfig.subs@ == crate::plotter::subs_after_append(
                old(self).sfig.subs@,
                old(self).sfig.points@.len() as int,
                side_full_spec(
                    old(self).fig.points@,
                    old(self).fig.subs@[i as int],
                    dir,
                    old(self).join_style,
                    old(self).tol_sq as int,
                ).len() as int,
            ),
    {
        let s = self.fig.subs[i];
        let plen = self.fig.points.len();
        proof {
            crate::fig::lemma_sub_in_arena(&self.fig, i as int);
            assert(s.start + s.n <= plen);
            assert(s.n >= 1);
        }
        let n = s.n;
        let start: usize = match dir {
            Direction::Forward => s.start,
            Direction::Reverse => s.start + (n - 1),
        };
        proof {
            lemma_walk_v_in(s, dir, 0);
        }
        let mut v0 = start;
        let mut v1 = self.fig.next(v0, dir);
        proof {
            lemma_walk_v_in(s, dir, 1);
            crate::fig::lemma_subs_disjoint(&self.fig, i as int, v0 as int);
        }
        let mut xr: Option<(Point2, Point2)> = None;
        let mut k: usize = 0;
        while k < n
            invariant
                self.wf(),
                old(self).wf(),
                stroke_config(self, old(self)),
                i < self.fig.subs@.len(),
                self.fig == old(self).fig,
                s == self.fig.subs@[i as int],
                n == s.n,
                1 <= n,
                s.start + s.n <= self.fig.points@.len(),
                k <= n,
                v0 as int == walk_v(s, dir, k as int),
                v1 as int == walk_v(s, dir, k as int + 1),
                s.start <= v0 < s.start + s.n,
                s.start <= v1 < s.start + s.n,
                match xr {
                    Option::None => k == 0,
                    Option::Some(pr) => k >= 1 && pr == offset_seg_spec(
                        self.fig.points@[walk_v(s, dir, k as int - 1)],
                        self.fig.points@[walk_v(s, dir, k as int)],
                    ) && pt_ok(pr.0) && pt_ok(pr.1),
                },
                self.sfig.points@ == old(self).sfig.points@ + as_wpts(
                    side_points_spec(
                        self.fig.points@,
                        s,
                        dir,
                        self.join_style,
                        self.tol_sq as int,
                        k as int,
                    ),
                ),
                self.sfig.subs@ == crate::plotter::subs_after_append(
                    old(self).sfig.subs@,
                    old(self).sfig.points@.len() as int,
                    side_points_spec(
                        self.fig.points@,
                        s,
                        dir,
                        self.join_style,
                        self.tol_sq as int,
                        k as int,
                    ).len() as int,
                ),
            decreases n - k,
        {
            let p0 = self.fig.get_point(v0);
            let p1 = self.fig.get_point(v1);
            let pr = self.stroke_offset(p0, p1);
            let ghost pre_base = side_points_spec(
                self.fig.points@,
                s,
                dir,
                self.join_style,
                self.tol_sq as int,
                k as int,
            );
            let ghost emitted: Seq<Point2> = match xr {
                Option::Some((x0, x1)) => join_points_spec(
                    self.join_style,
                    p0,
                    x0,
                    x1,
                    pr.0,
                    pr.1,
                    self.tol_sq as int,
                ),
                Option::None => if s.joined {
                    seq![]
                } else {
                    seq![pr.0]
                },
            };
            match xr {
                Option::Some((x0, x1)) => {
                    self.stroke_join(p0, x0, x1, pr.0, pr.1);
                },
                Option::None => {
                    if !s.joined {
                        self.stroke_point(pr.0);
                    }
                },
            }
            let nfin = self.sfig.points.len();
            proof {
                assert(side_points_spec(
                    self.fig.points@,
                    s,
                    dir,
                    self.join_style,
                    self.tol_sq as int,
                    k as int + 1,
                ) == pre_base + emitted);
                assert(self.sfig.points@ =~= old(self).sfig.points@ + as_wpts(
                    pre_base + emitted,
                ));
                if emitted.len() > 0 && pre_base.len() > 0 {
                    assert(old(self).sfig.points@.len() + pre_base.len() + emitted.len()
                        == nfin as int);
                    if old(self).sfig.subs@.len() > 0 && !old(self).sfig.subs@.last().closed {
                        assert(old(self).sfig.subs@.last().start + old(
                            self,
                        ).sfig.subs@.last().n == old(self).sfig.points@.len());
                    }
                    crate::plotter::lemma_subs_append_compose(
                        old(self).sfig.subs@,
                        old(self).sfig.points@.len() as int,
                        pre_base.len() as int,
                        emitted.len() as int,
                    );
                }
            }
            xr = Some((pr.0, pr.1));
            v0 = v1;
            proof {
                lemma_walk_v_in(s, dir, k as int + 1);
                crate::fig::lemma_subs_disjoint(&self.fig, i as int, v1 as int);
            }
            v1 = self.fig.next(v1, dir);
            proof {
                lemma_walk_v_in(s, dir, k as int + 2);
            }
            k = k + 1;
        }
        let ghost base = side_points_spec(
            self.fig.points@,
            s,
            dir,
            self.join_style,
            self.tol_sq as int,
            n as int,
        );
        if s.joined {
            let p0 = self.fig.get_point(v0);
            let p1 = self.fig.get_point(v1);
            let pr = self.stroke_offset(p0, p1);
            match xr {
                Option::Some((x0, x1)) => {
                    let ghost emitted = join_points_spec(
                        self.join_style,
                        p0,
                        x0,
                        x1,
                        pr.0,
                        pr.1,
                        self.tol_sq as int,
                    );
                    self.stroke_join(p0, x0, x1, pr.0, pr.1);
                    let nfin = self.sfig.points.len();
                    proof {
                        assert(side_points_spec(
                            self.fig.points@,
                            s,
                            dir,
                            self.join_style,
                            self.tol_sq as int,
                            n as int + 1,
                        ) == base + emitted);
                        assert(self.sfig.points@ =~= old(self).sfig.points@ + as_wpts(
                            base + emitted,
                        ));
                        if emitted.len() > 0 && base.len() > 0 {
                            assert(old(self).sfig.points@.len() + base.len() + emitted.len()
                                == nfin as int);
                            if old(self).sfig.subs@.len() > 0 && !old(
                                self,
                            ).sfig.subs@.last().closed {
                                assert(old(self).sfig.subs@.last().start + old(
                                    self,
                                ).sfig.subs@.last().n == old(self).sfig.points@.len());
                            }
                            crate::plotter::lemma_subs_append_compose(
                                old(self).sfig.subs@,
                                old(self).sfig.points@.len() as int,
                                base.len() as int,
                                emitted.len() as int,
                            );
                        }
                    }
                },
                Option::None => {
                    proof {
                        assert(false);
                    }
                },
            }
        } else {
            match xr {
                Option::Some((_, x1)) => {
                    self.stroke_point(x1);
                    let nfin = self.sfig.points.len();
                    proof {
                        assert(self.sfig.points@ =~= old(self).sfig.points@ + as_wpts(
                            base + seq![x1],
                        ));
                        if base.len() > 0 {
                            assert(old(self).sfig.points@.len() + base.len() + 1 == nfin as int);
                            if old(self).sfig.subs@.len() > 0 && !old(
                                self,
                            ).sfig.subs@.last().closed {
                                assert(old(self).sfig.subs@.last().start + old(
                                    self,
                                ).sfig.subs@.last().n == old(self).sfig.points@.len());
                            }
                            crate::plotter::lemma_subs_append_compose(
                                old(self).sfig.subs@,
                                old(self).sfig.points@.len() as int,
                                base.len() as int,
                                1,
                            );
                        }
                    }
                },
                Option::None => {
                    proof {
                        assert(false);
                    }
                },
            }
        }
    }

    /// Stroke one sub-path: both sides, seamed and closed as its joined
    /// flag directs.
    fn stroke_sub(&mut self, i: usize)
        requires
            old(self).wf(),
            i < old(self).fig.subs@.len(),
        ensures
            final(self).wf(),
            stroke_config(final(self), old(self)),
            old(self).fig.subs@[i as int].n > 0 ==> (
            final(self).sfig.points@,
            final(self).sfig.subs@,
            ) == stroke_sub_effect(
                old(self).fig.points@,
                old(self).fig.subs@[i as int],
                old(self).join_style,
                old(self).tol_sq as int,
                old(self).sfig.points@,
                old(self).sfig.subs@,
            ),
            old(self).fig.subs@[i as int].n == 0 ==> final(self).sfig == old(self).sfig,
    {
        if self.fig.sub_points(i) > 0 {
            let joined = self.fig.sub_joined(i);
            self.stroke_side(i, Direction::Forward);
            if joined {
                self.sfig.close(true);
            }
            self.stroke_side(i, Direction::Reverse);
            self.sfig.close(joined);
        }
    }

    /// Stroke the plotted path onto the mask.
    ///
    /// Every sub-path of the drawing figure is offset on both sides into
    /// the stroke figure, which is then filled under the NonZero rule
    /// regardless of the rule ordinary fills use.
    pub fn stroke(&mut self)
        requires
            old(self).wf(),
        ensures
            final(self).wf(),
            final(self).fig == old(self).fig,
            final(self).pen == old(self).pen,
            final(self).transform == old(self).transform,
            final(self).tol_sq == old(self).tol_sq,
            final(self).s_width == old(self).s_width,
            final(self).join_style == old(self).join_style,
            final(self).sgn_area@.len() == old(self).sgn_area@.len(),
            final(self).mask.width == old(self).mask.width,
            final(self).mask.height == old(self).mask.height,
            (final(self).sfig.points@, final(self).sfig.subs@) == stroke_subs_effect(
                old(self).fig.points@,
                old(self).fig.subs@,
                old(self).fig.subs@.len() as int,
                old(self).join_style,
                old(self).tol_sq as int,
                old(self).sfig.points@,
                old(self).sfig.subs@,
            ),
            forall|r: int, c: int|
                0 <= r < old(self).mask.height as int && 0 <= c < old(self).mask.width as int
                    ==> final(self).mask.pixels@[r * old(self).mask.width as int + c] as int
                    == sat_add_255(
                    old(self).mask.pixels@[r * old(self).mask.width as int + c] as int,
                    coverage_spec(
                        final(self).sfig.points@,
                        final(self).sfig.subs@,
                        crate::path::FillRule::NonZero,
                        r,
                        old(self).mask.width as int,
                        c,
                    ),
                ),
    {
        let nsubs = self.fig.sub_count();
        let mut i: usize = 0;
        while i < nsubs
            invariant
                self.wf(),
                old(self).wf(),
                stroke_config(self, old(self)),
                nsubs == self.fig.subs@.len(),
                self.fig == old(self).fig,
                i <= nsubs,
                (self.sfig.points@, self.sfig.subs@) == stroke_subs_effect(
                    old(self).fig.points@,
                    old(self).fig.subs@,
                    i as int,
                    old(self).join_style,
                    old(self).tol_sq as int,
                    old(self).sfig.points@,
                    old(self).sfig.subs@,
                ),
            decreases nsubs - i,
        {
            self.stroke_sub(i);
            i = i + 1;
        }
        self.sfig.fill(&mut self.mask, &mut self.sgn_area, crate::path::FillRule::NonZero);
    }

    /// Append the join the current style calls for.
    fn stroke_join(
        &mut self,
        p: WeightedPoint2,
        a0: Point2,
        a1: Point2,
        b0: Point2,
        b1: Point2,
    )
        requires
            old(self).wf(),
            wpt_ok(p),
            pt_ok(a0),
            pt_ok(a1),
            pt_ok(b0),
            pt_ok(b1),
        ensures
            final(self).wf(),
            stroke_config(final(self), old(self)),
            final(self).sfig.points@ == old(self).sfig.points@ + as_wpts(
                join_points_spec(
                    old(self).join_style,
                    p,
                    a0,
                    a1,
                    b0,
                    b1,
                    old(self).tol_sq as int,
                ),
            ),
            final(self).sfig.subs@ == crate::plotter::subs_after_append(
                old(self).sfig.subs@,
                old(self).sfig.points@.len() as int,
                join_points_spec(
                    old(self).join_style,
                    p,
                    a0,
                    a1,
                    b0,
                    b1,
                    old(self).tol_sq as int,
                ).len() as int,
            ),
    {
        match self.join_style {
            JoinStyle::Miter(ml) => self.stroke_miter(a0, a1, b0, b1, ml),
            JoinStyle::Bevel => self.stroke_bevel(a1, b0),
            JoinStyle::Round => self.stroke_round(p, a0, a1, b0, b1),
        }
    }
}

} // verus!
