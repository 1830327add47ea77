//! The plotter: consumes path operations, flattens curves adaptively in
//! device space, generates stroke outlines, and drives fills into a mask.

use crate::fig::{clamp_wpt_spec, fig_wf, Figure, SubPath};
use crate::fill::{coverage_spec, sat_add_255, scratch_len, scratch_len_spec};
use crate::geom::{
    clamp_coord_spec, dist_sq, dist_sq_spec, div_floor, mid_spec, tf_ok, wpt_ok, Transform,
    WeightedPoint2, MAX_COORD,
};
use crate::mask::Mask;
use crate::path::{FillRule, JoinStyle, PathOp};
use vstd::prelude::*;

verus! {

/// Smallest accepted flattening tolerance, in subunits (about 0.012 px).
pub const TOL_MIN: i32 = 3;

/// Default flattening tolerance, in subunits (about 0.3 px).
pub const TOL_DEFAULT: i32 = 77;

/// Ceiling on curve and arc subdivision depth.
///
/// The tolerance test alone would not bound recursion on degenerate control
/// points, so every subdivision carries a budget of this many halvings; a
/// curve therefore flattens to at most `2^16` segments and the recursion
/// never nests deeper than sixteen frames.
pub const MAX_SUBDIV: u32 = 16;

/// Midpoint of two weighted points, each component rounded down.
pub open spec fn wmid_spec(a: WeightedPoint2, b: WeightedPoint2) -> WeightedPoint2 {
    WeightedPoint2 {
        x: mid_spec(a.x as int, b.x as int) as i32,
        y: mid_spec(a.y as int, b.y as int) as i32,
        w: mid_spec(a.w as int, b.w as int) as i32,
    }
}

fn wmid(a: WeightedPoint2, b: WeightedPoint2) -> (r: WeightedPoint2)
    requires
        wpt_ok(a),
        wpt_ok(b),
    ensures
        r == wmid_spec(a, b),
        wpt_ok(r),
{
    let x = crate::geom::mid_coord(a.x, b.x);
    let y = crate::geom::mid_coord(a.y, b.y);
    let w = crate::geom::mid_coord(a.w, b.w);
    proof {
        vstd::arithmetic::div_mod::lemma_div_is_ordered(0, a.w as int + b.w as int, 2);
    }
    WeightedPoint2 { x, y, w }
}

/// The points that adaptive subdivision emits for the quadratic spline
/// `a, b, c`: when the midpoint test passes or the depth budget is spent,
/// the endpoint alone; otherwise both halves' points in order.
pub open spec fn quad_points(
    a: WeightedPoint2,
    b: WeightedPoint2,
    c: WeightedPoint2,
    tol_sq: int,
    depth: nat,
) -> Seq<WeightedPoint2>
    decreases depth,
{
    let ab = wmid_spec(a, b);
    let bc = wmid_spec(b, c);
    let ab_bc = wmid_spec(ab, bc);
    let ac = wmid_spec(a, c);
    if depth == 0 || dist_sq_spec(ab_bc.x as int, ab_bc.y as int, ac.x as int, ac.y as int)
        <= tol_sq {
        seq![c]
    } else {
        quad_points(a, ab, ab_bc, tol_sq, (depth - 1) as nat) + quad_points(
            ab_bc,
            bc,
            c,
            tol_sq,
            (depth - 1) as nat,
        )
    }
}

/// The points that adaptive subdivision emits for the cubic spline
/// `a, b, c, d`, by the analogous two-level construction.
pub open spec fn cubic_points(
    a: WeightedPoint2,
    b: WeightedPoint2,
    c: WeightedPoint2,
    d: WeightedPoint2,
    tol_sq: int,
    depth: nat,
) -> Seq<WeightedPoint2>
    decreases depth,
{
    let ab = wmid_spec(a, b);
    let bc = wmid_spec(b, c);
    let cd = wmid_spec(c, d);
    let ab_bc = wmid_spec(ab, bc);
    let bc_cd = wmid_spec(bc, cd);
    let e = wmid_spec(ab_bc, bc_cd);
    let ad = wmid_spec(a, d);
    if depth == 0 || dist_sq_spec(e.x as int, e.y as int, ad.x as int, ad.y as int) <= tol_sq {
        seq![d]
    } else {
        cubic_points(a, ab, ab_bc, e, tol_sq, (depth - 1) as nat) + cubic_points(
            e,
            bc_cd,
            cd,
            d,
            tol_sq,
            (depth - 1) as nat,
        )
    }
}

/// Sub-path descriptors after appending `k` points to a figure whose arena
/// held `plen` points: they extend the newest unclosed run, or begin a new
/// one.
pub open spec fn subs_after_append(subs: Seq<SubPath>, plen: int, k: int) -> Seq<SubPath> {
    if k <= 0 {
        subs
    } else if subs.len() > 0 && !subs.last().closed {
        subs.update(
            subs.len() - 1,
            SubPath { n: (subs.last().n + k) as usize, ..subs.last() },
        )
    } else {
        subs.push(SubPath { start: plen as usize, n: k as usize, closed: false, joined: false })
    }
}

/// Sub-path descriptors after terminating the newest run, if one is open.
pub open spec fn subs_after_close(subs: Seq<SubPath>, joined: bool) -> Seq<SubPath> {
    if subs.len() > 0 && !subs.last().closed {
        subs.update(subs.len() - 1, SubPath { closed: true, joined, ..subs.last() })
    } else {
        subs
    }
}

/// The plotter state that path operations act upon.
pub ghost struct PlotState {
    pub pts: Seq<WeightedPoint2>,
    pub subs: Seq<SubPath>,
    pub pen: WeightedPoint2,
    pub s_width: i32,
}

/// A user point clamped to storable range, carrying pen width `w`.
pub open spec fn user_pt(x: int, y: int, w: i32) -> WeightedPoint2 {
    WeightedPoint2 {
        x: clamp_coord_spec(x) as i32,
        y: clamp_coord_spec(y) as i32,
        w,
    }
}

/// Pen width clamped to its storable range.
pub open spec fn clamp_w_spec(w: int) -> i32 {
    if w < 0 {
        0
    } else if w > MAX_COORD as int {
        MAX_COORD
    } else {
        w as i32
    }
}

/// Width one third (`k = 1`) or two thirds (`k = 2`) of the way from `a`
/// to `b`, rounded down and clamped.
pub open spec fn wlerp3_spec(a: int, b: int, k: int) -> i32 {
    clamp_w_spec(a + (k * (b - a)) / 3)
}

/// Where a transform sends a weighted point.
pub open spec fn tf_apply_spec(t: Transform, p: WeightedPoint2) -> WeightedPoint2 {
    WeightedPoint2 {
        x: crate::geom::tf_apply_x_spec(t, p.x as int, p.y as int) as i32,
        y: crate::geom::tf_apply_y_spec(t, p.x as int, p.y as int) as i32,
        w: p.w,
    }
}

/// Append a run of points to the abstract state.
pub open spec fn st_append(st: PlotState, s: Seq<WeightedPoint2>) -> PlotState {
    PlotState {
        pts: st.pts + s,
        subs: subs_after_append(st.subs, st.pts.len() as int, s.len() as int),
        ..st
    }
}

/// What one path operation does to the abstract state.
pub open spec fn op_effect(
    st: PlotState,
    tf: Transform,
    tol_sq: int,
    op: PathOp,
) -> PlotState {
    match op {
        PathOp::Close() => PlotState {
            subs: subs_after_close(st.subs, true),
            pen: WeightedPoint2 { x: 0, y: 0, w: st.s_width },
            ..st
        },
        PathOp::Move(x, y) => {
            let p = user_pt(x as int, y as int, st.s_width);
            let closed = PlotState { subs: subs_after_close(st.subs, false), ..st };
            let appended = st_append(closed, seq![tf_apply_spec(tf, p)]);
            PlotState { pen: p, ..appended }
        },
        PathOp::Line(x, y) => {
            let p = user_pt(x as int, y as int, st.s_width);
            let appended = st_append(st, seq![tf_apply_spec(tf, p)]);
            PlotState { pen: p, ..appended }
        },
        PathOp::Quad(bx, by, cx, cy) => {
            let bb = user_pt(bx as int, by as int, mid_spec(st.pen.w as int, st.s_width as int) as i32);
            let cc = user_pt(cx as int, cy as int, st.s_width);
            let pts = quad_points(
                tf_apply_spec(tf, st.pen),
                tf_apply_spec(tf, bb),
                tf_apply_spec(tf, cc),
                tol_sq,
                MAX_SUBDIV as nat,
            );
            PlotState { pen: cc, ..st_append(st, pts) }
        },
        PathOp::Cubic(bx, by, cx, cy, dx, dy) => {
            let bb = user_pt(bx as int, by as int, wlerp3_spec(st.pen.w as int, st.s_width as int, 1));
            let cc = user_pt(cx as int, cy as int, wlerp3_spec(st.pen.w as int, st.s_width as int, 2));
            let dd = user_pt(dx as int, dy as int, st.s_width);
            let pts = cubic_points(
                tf_apply_spec(tf, st.pen),
                tf_apply_spec(tf, bb),
                tf_apply_spec(tf, cc),
                tf_apply_spec(tf, dd),
                tol_sq,
                MAX_SUBDIV as nat,
            );
            PlotState { pen: dd, ..st_append(st, pts) }
        },
        PathOp::PenWidth(w) => PlotState { s_width: clamp_w_spec(w as int), ..st },
    }
}

/// What a sequence of path operations does, in order.
pub open spec fn ops_effect(
    st: PlotState,
    tf: Transform,
    tol_sq: int,
    ops: Seq<PathOp>,
) -> PlotState
    decreases ops.len(),
{
    if ops.len() == 0 {
        st
    } else {
        op_effect(ops_effect(st, tf, tol_sq, ops.drop_last()), tf, tol_sq, ops.last())
    }
}

/// Plotter for 2D vector paths: a software rasterizer with high quality
/// anti-aliasing.
pub struct Plotter {
    /// The figure that fills draw.
    pub fig: Figure,
    /// The figure holding generated stroke outlines.
    pub sfig: Figure,
    /// The coverage mask that fills and strokes render into.
    pub mask: Mask,
    /// Transient signed-area row buffer.
    pub sgn_area: Vec<i128>,
    /// Current pen position and width, in user space.
    pub pen: WeightedPoint2,
    /// User-to-pixel affine transform.
    pub transform: Transform,
    /// Squared curve-decomposition tolerance, in subunits squared.
    pub tol_sq: i64,
    /// Current stroke width, in subunits.
    pub s_width: i32,
    /// Current stroke join style.
    pub join_style: JoinStyle,
}

impl Plotter {
    pub open spec fn wf(&self) -> bool {
        &&& fig_wf(&self.fig)
        &&& fig_wf(&self.sfig)
        &&& self.mask.wf()
        &&& self.sgn_area@.len() == scratch_len_spec(self.mask.width as int)
        &&& 9 <= self.tol_sq <= 0x1_0000_0000_0000
        &&& wpt_ok(self.pen)
        &&& tf_ok(self.transform)
        &&& 0 <= self.s_width <= MAX_COORD
    }

    /// The abstract state that path operations transform.
    pub open spec fn state(&self) -> PlotState {
        PlotState {
            pts: self.fig.points@,
            subs: self.fig.subs@,
            pen: self.pen,
            s_width: self.s_width,
        }
    }

    /// Everything that path operations leave alone.
    pub open spec fn same_config(&self, o: &Plotter) -> bool {
        &&& self.sfig == o.sfig
        &&& self.mask == o.mask
        &&& self.sgn_area@.len() == o.sgn_area@.len()
        &&& self.transform == o.transform
        &&& self.tol_sq == o.tol_sq
        &&& self.join_style == o.join_style
    }

    /// A new plotter with a cleared mask.
    ///
    /// A zero dimension falls back to 100 pixels, as an oversized one falls
    /// back to the largest storable dimension.
    pub fn new(width: u32, height: u32) -> (p: Plotter)
        ensures
            p.wf(),
            p.mask.width == if width == 0 { 100u32 } else if width > crate::mask::MAX_DIM { crate::mask::MAX_DIM } else { width },
            p.mask.height == if height == 0 { 100u32 } else if height > crate::mask::MAX_DIM { crate::mask::MAX_DIM } else { height },
            forall|i: int| 0 <= i < p.mask.pixels@.len() ==> p.mask.pixels@[i] == 0u8,
            p.fig.points@.len() == 0,
            p.fig.subs@.len() == 0,
            p.sfig.points@.len() == 0,
            p.sfig.subs@.len() == 0,
            p.pen == (WeightedPoint2 { x: 0, y: 0, w: 256 }),
            p.transform == (Transform { a: 256i32, b: 0i32, c: 0i32, d: 256i32, e: 0i32, f: 0i32 }),
            p.tol_sq == TOL_DEFAULT as i64 * TOL_DEFAULT as i64,
            p.s_width == 256,
            p.join_style == JoinStyle::Miter(1024),
    {
        let w = if width == 0 {
            100
        } else if width > crate::mask::MAX_DIM {
            crate::mask::MAX_DIM
        } else {
            width
        };
        let h = if height == 0 {
            100
        } else if height > crate::mask::MAX_DIM {
            crate::mask::MAX_DIM
        } else {
            height
        };
        proof {
            assert(TOL_DEFAULT as int * TOL_DEFAULT as int == 5929) by (nonlinear_arith)
                requires TOL_DEFAULT == 77i32;
        }
        let tsq: i64 = (TOL_DEFAULT as i64) * (TOL_DEFAULT as i64);
        let cap = scratch_len(w);
        let mut sgn_area: Vec<i128> = Vec::new();
        let mut i: usize = 0;
        while i < cap
            invariant
                i <= cap,
                sgn_area@.len() == i as int,
            decreases cap - i,
        {
            sgn_area.push(0i128);
            i = i + 1;
        }
        Plotter {
            fig: Figure::new(),
            sfig: Figure::new(),
            mask: Mask::new(w, h),
            sgn_area,
            pen: WeightedPoint2 { x: 0, y: 0, w: 256 },
            transform: Transform::new(),
            tol_sq: tsq,
            s_width: 256,
            join_style: JoinStyle::Miter(1024),
        }
    }

    /// Mask width in pixels.
    pub fn width(&self) -> (w: u32)
        ensures
            w == self.mask.width,
    {
        self.mask.width
    }

    /// Mask height in pixels.
    pub fn height(&self) -> (h: u32)
        ensures
            h == self.mask.height,
    {
        self.mask.height
    }

    /// Reset both figures and the pen; the mask is kept.
    pub fn reset(&mut self)
        requires
            old(self).wf(),
        ensures
            final(self).wf(),
            final(self).fig.points@.len() == 0,
            final(self).fig.subs@.len() == 0,
            final(self).sfig.points@.len() == 0,
            final(self).sfig.subs@.len() == 0,
            final(self).pen == (WeightedPoint2 { x: 0, y: 0, w: old(self).s_width }),
            final(self).mask == old(self).mask,
            final(self).sgn_area@.len() == old(self).sgn_area@.len(),
            final(self).transform == old(self).transform,
            final(self).tol_sq == old(self).tol_sq,
            final(self).s_width == old(self).s_width,
            final(self).join_style == old(self).join_style,
    {
        self.fig.reset();
        self.sfig.reset();
        self.pen = WeightedPoint2 { x: 0, y: 0, w: self.s_width };
    }

    /// Zero the mask.
    pub fn clear(&mut self)
        requires
            old(self).wf(),
        ensures
            final(self).wf(),
            *final(self) == (Plotter { mask: final(self).mask, ..*old(self) }),
            final(self).mask.width == old(self).mask.width,
            final(self).mask.height == old(self).mask.height,
            forall|i: int|
                0 <= i < final(self).mask.pixels@.len() ==> final(self).mask.pixels@[i] == 0u8,
    {
        self.mask.clear();
    }

    /// Set the curve decomposition tolerance, clamped below at [`TOL_MIN`]
    /// subunits and above at the storable range.
    pub fn set_tolerance(&mut self, t: i32)
        requires
            old(self).wf(),
        ensures
            final(self).wf(),
            *final(self) == (Plotter { tol_sq: final(self).tol_sq, ..*old(self) }),
            final(self).tol_sq == {
                let tc = if t < TOL_MIN {
                    TOL_MIN as int
                } else if t > MAX_COORD as int {
                    MAX_COORD as int
                } else {
                    t as int
                };
                tc * tc
            },
    {
        let tc: i64 = if t < TOL_MIN {
            TOL_MIN as i64
        } else if t > MAX_COORD {
            MAX_COORD as i64
        } else {
            t as i64
        };
        proof {
            assert(9 <= tc as int * tc as int <= 0x1_0000_0000_0000) by (nonlinear_arith)
                requires 3 <= tc as int <= 0x100_0000;
        }
        self.tol_sq = tc * tc;
    }

    /// Set the user-to-pixel transform.
    pub fn set_transform(&mut self, t: Transform)
        requires
            old(self).wf(),
            tf_ok(t),
        ensures
            final(self).wf(),
            *final(self) == (Plotter { transform: t, ..*old(self) }),
    {
        self.transform = t;
    }

    /// Set the stroke join style.
    pub fn set_join(&mut self, js: JoinStyle)
        requires
            old(self).wf(),
        ensures
            final(self).wf(),
            *final(self) == (Plotter { join_style: js, ..*old(self) }),
    {
        self.join_style = js;
    }

    /// Fill the plotted path onto the mask under the given rule.
    pub fn fill(&mut self, rule: FillRule)
        requires
            old(self).wf(),
        ensures
            final(self).wf(),
            final(self).fig == old(self).fig,
            final(self).sfig == old(self).sfig,
            final(self).pen == old(self).pen,
            final(self).transform == old(self).transform,
            final(self).tol_sq == old(self).tol_sq,
            final(self).s_width == old(self).s_width,
            final(self).join_style == old(self).join_style,
            final(self).sgn_area@.len() == old(self).sgn_area@.len(),
            final(self).mask.width == old(self).mask.width,
            final(self).mask.height == old(self).mask.height,
            forall|r: int, c: int|
                0 <= r < old(self).mask.height as int && 0 <= c < old(self).mask.width as int
                    ==> final(self).mask.pixels@[r * old(self).mask.width as int + c] as int
                    == sat_add_255(
                    old(self).mask.pixels@[r * old(self).mask.width as int + c] as int,
                    coverage_spec(
                        old(self).fig.points@,
                        old(self).fig.subs@,
                        rule,
                        r,
                        old(self).mask.width as int,
                        c,
                    ),
                ),
    {
        self.fig.fill(&mut self.mask, &mut self.sgn_area, rule);
    }

    /// The coverage mask plotted so far.
    pub fn mask(&self) -> (m: &Mask)
        ensures
            m == &self.mask,
    {
        &self.mask
    }

    /// Map a point through the current transform.
    fn transform_point(&self, p: WeightedPoint2) -> (q: WeightedPoint2)
        requires
            self.wf(),
            wpt_ok(p),
        ensures
            q == tf_apply_spec(self.transform, p),
            wpt_ok(q),
    {
        let q = self.transform.apply(p);
        proof {
            assert(q.x == tf_apply_spec(self.transform, p).x);
            assert(q.y == tf_apply_spec(self.transform, p).y);
        }
        q
    }

    /// Append one storable point to the drawing figure.
    fn emit_point(&mut self, q: WeightedPoint2)
        requires
            old(self).wf(),
            wpt_ok(q),
        ensures
            final(self).wf(),
            final(self).same_config(old(self)),
            final(self).fig.points@ == old(self).fig.points@.push(q),
            final(self).fig.subs@ == subs_after_append(
                old(self).fig.subs@,
                old(self).fig.points@.len() as int,
                1,
            ),
            final(self).pen == old(self).pen,
            final(self).s_width == old(self).s_width,
    {
        proof {
            assert(clamp_wpt_spec(q) == q);
        }
        self.fig.add_point(q);
    }

    /// Flatten one quadratic subdivision node into the drawing figure.
    fn quad_seg(&mut self, a: WeightedPoint2, b: WeightedPoint2, c: WeightedPoint2, depth: u32)
        requires
            old(self).wf(),
            wpt_ok(a),
            wpt_ok(b),
            wpt_ok(c),
        ensures
            final(self).wf(),
            final(self).same_config(old(self)),
            final(self).fig.points@ == old(self).fig.points@ + quad_points(
                a,
                b,
                c,
                old(self).tol_sq as int,
                depth as nat,
            ),
            final(self).fig.subs@ == subs_after_append(
                old(self).fig.subs@,
                old(self).fig.points@.len() as int,
                quad_points(a, b, c, old(self).tol_sq as int, depth as nat).len() as int,
            ),
            final(self).pen == old(self).pen,
            final(self).s_width == old(self).s_width,
        decreases depth,
    {
        let ab = wmid(a, b);
        let bc = wmid(b, c);
        let ab_bc = wmid(ab, bc);
        let ac = wmid(a, c);
        let d2 = dist_sq(ab_bc.x, ab_bc.y, ac.x, ac.y);
        if depth == 0 || d2 <= self.tol_sq {
            self.emit_point(c);
            proof {
                assert(final(self).fig.points@ =~= old(self).fig.points@ + seq![c]);
            }
        } else {
            let ghost st0 = self.fig.points@;
            let ghost sb0 = self.fig.subs@;
            self.quad_seg(a, ab, ab_bc, depth - 1);
            let ghost s1 = quad_points(a, ab, ab_bc, self.tol_sq as int, (depth - 1) as nat);
            self.quad_seg(ab_bc, bc, c, depth - 1);
            let ghost s2 = quad_points(ab_bc, bc, c, self.tol_sq as int, (depth - 1) as nat);
            let nfin = self.fig.points.len();
            proof {
                lemma_quad_points_wf(a, ab, ab_bc, self.tol_sq as int, (depth - 1) as nat);
                assert(st0.len() + s1.len() + s2.len() == nfin as int);
                if sb0.len() > 0 && !sb0.last().closed {
                    assert(sb0.last().start + sb0.last().n == st0.len());
                }
                lemma_subs_append_compose(
                    sb0,
                    st0.len() as int,
                    s1.len() as int,
                    s2.len() as int,
                );
                assert(final(self).fig.points@ =~= st0 + (s1 + s2));
            }
        }
    }

    /// Flatten one cubic subdivision node into the drawing figure.
    #[verifier::rlimit(60)]
    fn cubic_seg(
        &mut self,
        a: WeightedPoint2,
        b: WeightedPoint2,
        c: WeightedPoint2,
        d: WeightedPoint2,
        depth: u32,
    )
        requires
            old(self).wf(),
            wpt_ok(a),
            wpt_ok(b),
            wpt_ok(c),
            wpt_ok(d),
        ensures
            final(self).wf(),
            final(self).same_config(old(self)),
            final(self).fig.points@ == old(self).fig.points@ + cubic_points(
                a,
                b,
                c,
                d,
                old(self).tol_sq as int,
                depth as nat,
            ),
            final(self).fig.subs@ == subs_after_append(
                old(self).fig.subs@,
                old(self).fig.points@.len() as int,
                cubic_points(a, b, c, d, old(self).tol_sq as int, depth as nat).len() as int,
            ),
            final(self).pen == old(self).pen,
            final(self).s_width == old(self).s_width,
        decreases depth,
    {
        let ab = wmid(a, b);
        let bc = wmid(b, c);
        let cd = wmid(c, d);
        let ab_bc = wmid(ab, bc);
        let bc_cd = wmid(bc, cd);
        let e = wmid(ab_bc, bc_cd);
        let ad = wmid(a, d);
        let d2 = dist_sq(e.x, e.y, ad.x, ad.y);
        if depth == 0 || d2 <= self.tol_sq {
            self.emit_point(d);
            proof {
                assert(final(self).fig.points@ =~= old(self).fig.points@ + seq![d]);
            }
        } else {
            let ghost st0 = self.fig.points@;
            let ghost sb0 = self.fig.subs@;
            self.cubic_seg(a, ab, ab_bc, e, depth - 1);
            let ghost s1 = cubic_points(a, ab, ab_bc, e, self.tol_sq as int, (depth - 1) as nat);
            self.cubic_seg(e, bc_cd, cd, d, depth - 1);
            let ghost s2 = cubic_points(e, bc_cd, cd, d, self.tol_sq as int, (depth - 1) as nat);
            let nfin = self.fig.points.len();
            proof {
                lemma_cubic_points_wf(a, ab, ab_bc, e, self.tol_sq as int, (depth - 1) as nat);
                assert(st0.len() + s1.len() + s2.len() == nfin as int);
                if sb0.len() > 0 && !sb0.last().closed {
                    assert(sb0.last().start + sb0.last().n == st0.len());
                }
                lemma_subs_append_compose(
                    sb0,
                    st0.len() as int,
                    s1.len() as int,
                    s2.len() as int,
                );
                assert(final(self).fig.points@ =~= st0 + (s1 + s2));
            }
        }
    }

    /// Add one path operation.
    fn add_op(&mut self, op: &PathOp)
        requires
            old(self).wf(),
        ensures
            final(self).wf(),
            final(self).same_config(old(self)),
            final(self).state() == op_effect(
                old(self).state(),
                old(self).transform,
                old(self).tol_sq as int,
                *op,
            ),
    {
        match *op {
            PathOp::Close() => {
                self.fig.close(true);
                self.pen = WeightedPoint2 { x: 0, y: 0, w: self.s_width };
            },
            PathOp::Move(x, y) => {
                let p = WeightedPoint2 {
                    x: crate::geom::clamp_coord(x as i64),
                    y: crate::geom::clamp_coord(y as i64),
                    w: self.s_width,
                };
                self.fig.close(false);
                let q = self.transform_point(p);
                self.emit_point(q);
                self.pen = p;
                proof {
                    assert(self.fig.points@ =~= old(self).fig.points@ + seq![q]);
                }
            },
            PathOp::Line(x, y) => {
                let p = WeightedPoint2 {
                    x: crate::geom::clamp_coord(x as i64),
                    y: crate::geom::clamp_coord(y as i64),
                    w: self.s_width,
                };
                let q = self.transform_point(p);
                self.emit_point(q);
                self.pen = p;
                proof {
                    assert(self.fig.points@ =~= old(self).fig.points@ + seq![q]);
                }
            },
            PathOp::Quad(bx, by, cx, cy) => {
                let bw = crate::geom::mid_coord(self.pen.w, self.s_width);
                proof {
                    vstd::arithmetic::div_mod::lemma_div_is_ordered(
                        0,
                        self.pen.w as int + self.s_width as int,
                        2,
                    );
                }
                let bb = WeightedPoint2 {
                    x: crate::geom::clamp_coord(bx as i64),
                    y: crate::geom::clamp_coord(by as i64),
                    w: bw,
                };
                let cc = WeightedPoint2 {
                    x: crate::geom::clamp_coord(cx as i64),
                    y: crate::geom::clamp_coord(cy as i64),
                    w: self.s_width,
                };
                let a = self.transform_point(self.pen);
                let b = self.transform_point(bb);
                let c = self.transform_point(cc);
                self.quad_seg(a, b, c, MAX_SUBDIV);
                self.pen = cc;
            },
            PathOp::Cubic(bx, by, cx, cy, dx, dy) => {
                let bw = wlerp3(self.pen.w, self.s_width, 1);
                let cw = wlerp3(self.pen.w, self.s_width, 2);
                let bb = WeightedPoint2 {
                    x: crate::geom::clamp_coord(bx as i64),
                    y: crate::geom::clamp_coord(by as i64),
                    w: bw,
                };
                let cc = WeightedPoint2 {
                    x: crate::geom::clamp_coord(cx as i64),
                    y: crate::geom::clamp_coord(cy as i64),
                    w: cw,
                };
                let dd = WeightedPoint2 {
                    x: crate::geom::clamp_coord(dx as i64),
                    y: crate::geom::clamp_coord(dy as i64),
                    w: self.s_width,
                };
                let a = self.transform_point(self.pen);
                let b = self.transform_point(bb);
                let c = self.transform_point(cc);
                let d = self.transform_point(dd);
                self.cubic_seg(a, b, c, d, MAX_SUBDIV);
                self.pen = dd;
            },
            PathOp::PenWidth(w) => {
                self.s_width = clamp_w(w);
            },
        }
    }

    /// Add a series of path operations, in order.
    pub fn add_ops(&mut self, ops: &[PathOp])
        requires
            old(self).wf(),
        ensures
            final(self).wf(),
            final(self).same_config(old(self)),
            final(self).state() == ops_effect(
                old(self).state(),
                old(self).transform,
                old(self).tol_sq as int,
                ops@,
            ),
    {
        let n = ops.len();
        let mut i: usize = 0;
        while i < n
            invariant
                self.wf(),
                i <= n,
                n == ops@.len(),
                self.same_config(old(self)),
                self.transform == old(self).transform,
                self.tol_sq == old(self).tol_sq,
                self.state() == ops_effect(
                    old(self).state(),
                    old(self).transform,
                    old(self).tol_sq as int,
                    ops@.subrange(0, i as int),
                ),
            decreases n - i,
        {
            self.add_op(&ops[i]);
            proof {
                assert(ops@.subrange(0, i as int + 1).drop_last() =~= ops@.subrange(0, i as int));
                assert(ops@.subrange(0, i as int + 1).last() == ops@[i as int]);
            }
            i = i + 1;
        }
        proof {
            assert(ops@.subrange(0, n as int) =~= ops@);
        }
    }
}

fn clamp_w(w: i32) -> (r: i32)
    ensures
        r == clamp_w_spec(w as int),
        0 <= r <= MAX_COORD,
{
    if w < 0 {
        0
    } else if w > MAX_COORD {
        MAX_COORD
    } else {
        w
    }
}

fn wlerp3(a: i32, b: i32, k: i32) -> (r: i32)
    requires
        0 <= a <= MAX_COORD,
        0 <= b <= MAX_COORD,
        k == 1 || k == 2,
    ensures
        r == wlerp3_spec(a as int, b as int, k as int),
        0 <= r <= MAX_COORD,
{
    let q = div_floor((k as i64) * (b as i64 - a as i64), 3);
    let s = a as i64 + q;
    if s < 0 {
        0
    } else if s > MAX_COORD as i64 {
        MAX_COORD
    } else {
        s as i32
    }
}

/// Flattening emits at least one point, and only storable ones.
pub proof fn lemma_quad_points_wf(
    a: WeightedPoint2,
    b: WeightedPoint2,
    c: WeightedPoint2,
    tol_sq: int,
    depth: nat,
)
    requires
        wpt_ok(a),
        wpt_ok(b),
        wpt_ok(c),
    ensures
        quad_points(a, b, c, tol_sq, depth).len() >= 1,
        forall|i: int|
            0 <= i < quad_points(a, b, c, tol_sq, depth).len() ==> wpt_ok(
                #[trigger] quad_points(a, b, c, tol_sq, depth)[i],
            ),
    decreases depth,
{
    let ab = wmid_spec(a, b);
    let bc = wmid_spec(b, c);
    let ab_bc = wmid_spec(ab, bc);
    lemma_wmid_wf(a, b);
    lemma_wmid_wf(b, c);
    lemma_wmid_wf(ab, bc);
    lemma_wmid_wf(a, c);
    if !(depth == 0 || dist_sq_spec(ab_bc.x as int, ab_bc.y as int, wmid_spec(a, c).x as int,
        wmid_spec(a, c).y as int) <= tol_sq) {
        lemma_quad_points_wf(a, ab, ab_bc, tol_sq, (depth - 1) as nat);
        lemma_quad_points_wf(ab_bc, bc, c, tol_sq, (depth - 1) as nat);
    }
}

pub proof fn lemma_cubic_points_wf(
    a: WeightedPoint2,
    b: WeightedPoint2,
    c: WeightedPoint2,
    d: WeightedPoint2,
    tol_sq: int,
    depth: nat,
)
    requires
        wpt_ok(a),
        wpt_ok(b),
        wpt_ok(c),
        wpt_ok(d),
    ensures
        cubic_points(a, b, c, d, tol_sq, depth).len() >= 1,
        forall|i: int|
            0 <= i < cubic_points(a, b, c, d, tol_sq, depth).len() ==> wpt_ok(
                #[trigger] cubic_points(a, b, c, d, tol_sq, depth)[i],
            ),
    decreases depth,
{
    let ab = wmid_spec(a, b);
    let bc = wmid_spec(b, c);
    let cd = wmid_spec(c, d);
    let ab_bc = wmid_spec(ab, bc);
    let bc_cd = wmid_spec(bc, cd);
    let e = wmid_spec(ab_bc, bc_cd);
    let ad = wmid_spec(a, d);
    lemma_wmid_wf(a, b);
    lemma_wmid_wf(b, c);
    lemma_wmid_wf(c, d);
    lemma_wmid_wf(ab, bc);
    lemma_wmid_wf(bc, cd);
    lemma_wmid_wf(ab_bc, bc_cd);
    lemma_wmid_wf(a, d);
    if !(depth == 0 || dist_sq_spec(e.x as int, e.y as int, ad.x as int, ad.y as int) <= tol_sq) {
        lemma_cubic_points_wf(a, ab, ab_bc, e, tol_sq, (depth - 1) as nat);
        lemma_cubic_points_wf(e, bc_cd, cd, d, tol_sq, (depth - 1) as nat);
    }
}

/// Flattening emits at least one point whatever the inputs.
pub proof fn lemma_quad_points_len_pos(
    a: WeightedPoint2,
    b: WeightedPoint2,
    c: WeightedPoint2,
    tol_sq: int,
    depth: nat,
)
    ensures
        quad_points(a, b, c, tol_sq, depth).len() >= 1,
    decreases depth,
{
    let ab = wmid_spec(a, b);
    let bc = wmid_spec(b, c);
    let ab_bc = wmid_spec(ab, bc);
    let ac = wmid_spec(a, c);
    if !(depth == 0 || dist_sq_spec(ab_bc.x as int, ab_bc.y as int, ac.x as int, ac.y as int)
        <= tol_sq) {
        lemma_quad_points_len_pos(a, ab, ab_bc, tol_sq, (depth - 1) as nat);
        lemma_quad_points_len_pos(ab_bc, bc, c, tol_sq, (depth - 1) as nat);
    }
}

pub proof fn lemma_cubic_points_len_pos(
    a: WeightedPoint2,
    b: WeightedPoint2,
    c: WeightedPoint2,
    d: WeightedPoint2,
    tol_sq: int,
    depth: nat,
)
    ensures
        cubic_points(a, b, c, d, tol_sq, depth).len() >= 1,
    decreases depth,
{
    let ab = wmid_spec(a, b);
    let bc = wmid_spec(b, c);
    let cd = wmid_spec(c, d);
    let ab_bc = wmid_spec(ab, bc);
    let bc_cd = wmid_spec(bc, cd);
    let e = wmid_spec(ab_bc, bc_cd);
    let ad = wmid_spec(a, d);
    if !(depth == 0 || dist_sq_spec(e.x as int, e.y as int, ad.x as int, ad.y as int) <= tol_sq) {
        lemma_cubic_points_len_pos(a, ab, ab_bc, e, tol_sq, (depth - 1) as nat);
        lemma_cubic_points_len_pos(e, bc_cd, cd, d, tol_sq, (depth - 1) as nat);
    }
}

/// Tightening the tolerance never yields fewer flattening points for a
/// quadratic spline: a subdivision accepted at the smaller tolerance is
/// accepted at the larger, so the finer run's tree only deepens.
pub proof fn lemma_quad_points_tol_monotone(
    a: WeightedPoint2,
    b: WeightedPoint2,
    c: WeightedPoint2,
    t1: int,
    t2: int,
    depth: nat,
)
    requires
        t1 <= t2,
    ensures
        quad_points(a, b, c, t1, depth).len() >= quad_points(a, b, c, t2, depth).len(),
    decreases depth,
{
    if depth > 0 {
        let ab = wmid_spec(a, b);
        let bc = wmid_spec(b, c);
        let ab_bc = wmid_spec(ab, bc);
        let ac = wmid_spec(a, c);
        let d2 = dist_sq_spec(ab_bc.x as int, ab_bc.y as int, ac.x as int, ac.y as int);
        if d2 <= t1 {
        } else if d2 <= t2 {
            lemma_quad_points_len_pos(a, ab, ab_bc, t1, (depth - 1) as nat);
            lemma_quad_points_len_pos(ab_bc, bc, c, t1, (depth - 1) as nat);
        } else {
            lemma_quad_points_tol_monotone(a, ab, ab_bc, t1, t2, (depth - 1) as nat);
            lemma_quad_points_tol_monotone(ab_bc, bc, c, t1, t2, (depth - 1) as nat);
        }
    }
}

/// Tightening the tolerance never yields fewer flattening points for a
/// cubic spline.
pub proof fn lemma_cubic_points_tol_monotone(
    a: WeightedPoint2,
    b: WeightedPoint2,
    c: WeightedPoint2,
    d: WeightedPoint2,
    t1: int,
    t2: int,
    depth: nat,
)
    requires
        t1 <= t2,
    ensures
        cubic_points(a, b, c, d, t1, depth).len() >= cubic_points(a, b, c, d, t2, depth).len(),
    decreases depth,
{
    if depth > 0 {
        let ab = wmid_spec(a, b);
        let bc = wmid_spec(b, c);
        let cd = wmid_spec(c, d);
        let ab_bc = wmid_spec(ab, bc);
        let bc_cd = wmid_spec(bc, cd);
        let e = wmid_spec(ab_bc, bc_cd);
        let ad = wmid_spec(a, d);
        let d2 = dist_sq_spec(e.x as int, e.y as int, ad.x as int, ad.y as int);
        if d2 <= t1 {
        } else if d2 <= t2 {
            lemma_cubic_points_len_pos(a, ab, ab_bc, e, t1, (depth - 1) as nat);
            lemma_cubic_points_len_pos(e, bc_cd, cd, d, t1, (depth - 1) as nat);
        } else {
            lemma_cubic_points_tol_monotone(a, ab, ab_bc, e, t1, t2, (depth - 1) as nat);
            lemma_cubic_points_tol_monotone(e, bc_cd, cd, d, t1, t2, (depth - 1) as nat);
        }
    }
}

/// The midpoint of storable weighted points is storable.
pub proof fn lemma_wmid_wf(a: WeightedPoint2, b: WeightedPoint2)
    requires
        wpt_ok(a),
        wpt_ok(b),
    ensures
        wpt_ok(wmid_spec(a, b)),
{
    vstd::arithmetic::div_mod::lemma_div_is_ordered(0, a.w as int + b.w as int, 2);
    vstd::arithmetic::div_mod::lemma_div_is_ordered(
        a.w as int + b.w as int,
        2 * MAX_COORD as int,
        2,
    );
    vstd::arithmetic::div_mod::lemma_div_multiples_vanish(MAX_COORD as int, 2);
    vstd::arithmetic::div_mod::lemma_div_is_ordered(
        2 * -(MAX_COORD as int),
        a.x as int + b.x as int,
        2,
    );
    vstd::arithmetic::div_mod::lemma_div_is_ordered(
        a.x as int + b.x as int,
        2 * MAX_COORD as int,
        2,
    );
    vstd::arithmetic::div_mod::lemma_div_multiples_vanish(-(MAX_COORD as int), 2);
    vstd::arithmetic::div_mod::lemma_div_is_ordered(
        2 * -(MAX_COORD as int),
        a.y as int + b.y as int,
        2,
    );
    vstd::arithmetic::div_mod::lemma_div_is_ordered(
        a.y as int + b.y as int,
        2 * MAX_COORD as int,
        2,
    );
}

/// Appending two runs in turn is appending their concatenation.
pub proof fn lemma_subs_append_compose(subs: Seq<SubPath>, plen: int, k1: int, k2: int)
    requires
        k1 >= 1,
        k2 >= 0,
        0 <= plen,
        plen + k1 + k2 <= usize::MAX as int,
        subs.len() > 0 && !subs.last().closed ==> subs.last().n <= plen,
    ensures
        subs_after_append(subs_after_append(subs, plen, k1), plen + k1, k2) == subs_after_append(
            subs,
            plen,
            k1 + k2,
        ),
{
    let s1 = subs_after_append(subs, plen, k1);
    if k2 == 0 {
    } else if subs.len() > 0 && !subs.last().closed {
        assert(subs_after_append(s1, plen + k1, k2) =~= subs_after_append(subs, plen, k1 + k2));
    } else {
        assert(subs_after_append(s1, plen + k1, k2) =~= subs_after_append(subs, plen, k1 + k2));
    }
}

} // verus!
