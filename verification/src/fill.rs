//! Anti-aliased scan conversion: signed-area accumulation of figure edges
//! into a coverage mask.
//!
//! Every edge of every sub-path, clipped to one pixel row at a time,
//! contributes a signed trapezoidal area.  Contributions are recorded as
//! per-column deltas in a transient row buffer so that a single running sum
//! recovers each pixel's accumulated signed area; the fill rule then
//! resolves that area to a coverage byte, which composes with the mask's
//! existing coverage by saturating addition.  Horizontal edges contribute
//! nothing; edges outside the mask clip to its bounds.
//!
//! Areas are measured in units of 1/(256*512) of a pixel: 256 vertical
//! subunits times 512 half-subunits of width, so a fully covered pixel
//! accumulates exactly [`AREA_FULL`].

use crate::fig::{fig_wf, Figure, SubPath};
use crate::geom::{abs_spec, div_floor, mid_spec, wpt_ok, WeightedPoint2};
use crate::mask::Mask;
use crate::path::FillRule;
use vstd::arithmetic::div_mod::{
    lemma_div_is_ordered, lemma_div_multiples_vanish, lemma_fundamental_div_mod,
    lemma_small_mod,
};
use vstd::prelude::*;

verus! {

/// Area units of one fully covered pixel.
pub const AREA_FULL: i64 = 131072;

/// Half of [`AREA_FULL`]: the rounding offset of coverage resolution.
pub const AREA_HALF: i64 = 65536;

/// Magnitude that row-buffer entries never reach, with room for one more
/// edge's worth of contributions.
pub const ACC_LIMIT: i128 = 0x1000_0000_0000_0000_0000_0000_0000;

/// The pixel column holding subunit coordinate `x`: a virtual column `-1`
/// gathers everything left of the mask and a virtual column `w` everything
/// at or beyond its right edge.
pub open spec fn col_of(x: int, w: int) -> int {
    if x < 0 {
        -1
    } else if x >= 256 * w {
        w
    } else {
        x / 256
    }
}

/// Clamp a local column offset to one column's width.
pub open spec fn clamp_u_spec(u: int) -> int {
    if u < 0 {
        0
    } else if u > 256 {
        256
    } else {
        u
    }
}

/// Delta contribution, at column `c`, of a piece of height `dy` that lies
/// entirely in (virtual) column `cc` with endpoint offsets `ua` and `ub`
/// from that column's left edge.
///
/// A piece in a real column contributes the trapezoid to its right within
/// the column, and hands the rest of a full column on to the next delta
/// slot; a piece left of the mask covers every mask column fully; a piece
/// right of the mask covers none.
pub open spec fn single_delta(cc: int, xa: int, xb: int, dy: int, s: int, w: int, c: int) -> int {
    if cc == w {
        0
    } else if cc == -1 {
        if c == 0 {
            s * dy * 512
        } else {
            0
        }
    } else {
        let ua = clamp_u_spec(xa - 256 * cc);
        let ub = clamp_u_spec(xb - 256 * cc);
        if c == cc {
            s * dy * (512 - ua - ub)
        } else if c == cc + 1 {
            s * dy * (ua + ub)
        } else {
            0
        }
    }
}

/// Delta contribution at column `c` of the segment from `(xa, ya)` to
/// `(xb, yb)` (already clipped to one pixel row, `ya < yb`), signed `s`.
///
/// The segment is bisected until it fits one column; a remaining slanted
/// sliver of one subunit of height is attributed to its midpoint's column.
pub open spec fn piece_delta(xa: int, ya: int, xb: int, yb: int, s: int, w: int, c: int) -> int
    decreases yb - ya,
{
    if ya >= yb {
        0
    } else if col_of(xa, w) == col_of(xb, w) {
        single_delta(col_of(xa, w), xa, xb, yb - ya, s, w, c)
    } else if yb - ya == 1 {
        single_delta(col_of(mid_spec(xa, xb), w), xa, xb, 1, s, w, c)
    } else {
        let ym = mid_spec(ya, yb);
        let xm = mid_spec(xa, xb);
        piece_delta(xa, ya, xm, ym, s, w, c) + piece_delta(xm, ym, xb, yb, s, w, c)
    }
}

/// `x` of the line through `(x0, y0)` and `(x1, y1)` at height `y`,
/// rounded toward negative infinity; requires `y0 < y1`.
pub open spec fn interp_x(x0: int, y0: int, x1: int, y1: int, y: int) -> int {
    (x0 * (y1 - y) + x1 * (y - y0)) / (y1 - y0)
}

/// Delta contribution at column `c` of one figure edge within pixel row
/// `r`: zero for horizontal edges and rows the edge misses, else the
/// clipped piece's contribution, signed by the edge's vertical direction.
pub open spec fn edge_row_delta(
    p0: WeightedPoint2,
    p1: WeightedPoint2,
    r: int,
    w: int,
    c: int,
) -> int {
    if p0.y == p1.y {
        0
    } else {
        let s: int = if p0.y < p1.y {
            1
        } else {
            -1
        };
        let x0: int = if p0.y < p1.y {
            p0.x as int
        } else {
            p1.x as int
        };
        let y0: int = if p0.y < p1.y {
            p0.y as int
        } else {
            p1.y as int
        };
        let x1: int = if p0.y < p1.y {
            p1.x as int
        } else {
            p0.x as int
        };
        let y1: int = if p0.y < p1.y {
            p1.y as int
        } else {
            p0.y as int
        };
        let yt: int = if y0 >= 256 * r {
            y0
        } else {
            256 * r
        };
        let yb: int = if y1 <= 256 * (r + 1) {
            y1
        } else {
            256 * (r + 1)
        };
        if yt >= yb {
            0
        } else {
            piece_delta(interp_x(x0, y0, x1, y1, yt), yt, interp_x(x0, y0, x1, y1, yb), yb, s, w, c)
        }
    }
}

/// Sum of the deltas at column `c` of the first `j` edges of sub-path `s`;
/// edge `k` runs from point `k` to point `(k + 1) mod n` of the run.
pub open spec fn sub_edges_delta(
    pts: Seq<WeightedPoint2>,
    s: SubPath,
    j: int,
    r: int,
    w: int,
    c: int,
) -> int
    decreases j,
{
    if j <= 0 {
        0
    } else {
        sub_edges_delta(pts, s, j - 1, r, w, c) + edge_row_delta(
            pts[s.start + (j - 1)],
            pts[s.start + ((j - 1 + 1) % (s.n as int))],
            r,
            w,
            c,
        )
    }
}

/// Sum of the deltas at column `c` of all edges of the first `k` sub-paths.
pub open spec fn subs_row_delta(
    pts: Seq<WeightedPoint2>,
    subs: Seq<SubPath>,
    k: int,
    r: int,
    w: int,
    c: int,
) -> int
    decreases k,
{
    if k <= 0 {
        0
    } else {
        subs_row_delta(pts, subs, k - 1, r, w, c) + sub_edges_delta(
            pts,
            subs[k - 1],
            subs[k - 1].n as int,
            r,
            w,
            c,
        )
    }
}

/// Delta at column `c` of the whole figure within row `r`.
pub open spec fn fig_row_delta(
    pts: Seq<WeightedPoint2>,
    subs: Seq<SubPath>,
    r: int,
    w: int,
    c: int,
) -> int {
    subs_row_delta(pts, subs, subs.len() as int, r, w, c)
}

/// Accumulated signed area of pixel `(c, r)`: the running sum of the
/// figure's deltas over columns up to and including `c`.
pub open spec fn fig_row_acc(
    pts: Seq<WeightedPoint2>,
    subs: Seq<SubPath>,
    r: int,
    w: int,
    c: int,
) -> int
    decreases c + 1,
{
    if c < 0 {
        0
    } else {
        fig_row_acc(pts, subs, r, w, c - 1) + fig_row_delta(pts, subs, r, w, c)
    }
}

/// NonZero resolution: clamp the magnitude of the winding to one pixel's
/// area and scale to 0..255, rounding to nearest.
pub open spec fn resolve_nonzero_spec(v: int) -> int {
    let a = if abs_spec(v) > AREA_FULL as int {
        AREA_FULL as int
    } else {
        abs_spec(v)
    };
    (a * 255 + AREA_HALF as int) / (AREA_FULL as int)
}

/// EvenOdd resolution: fold the winding through a triangle wave of period
/// two pixel areas, so alternating overlaps cancel, then scale to 0..255.
pub open spec fn resolve_evenodd_spec(v: int) -> int {
    let m = abs_spec(v) % (2 * AREA_FULL as int);
    let t = if m > AREA_FULL as int {
        2 * AREA_FULL as int - m
    } else {
        m
    };
    (t * 255 + AREA_HALF as int) / (AREA_FULL as int)
}

pub open spec fn resolve_spec(rule: FillRule, v: int) -> int {
    match rule {
        FillRule::NonZero => resolve_nonzero_spec(v),
        FillRule::EvenOdd => resolve_evenodd_spec(v),
    }
}

/// Coverage byte that filling adds to pixel `(c, r)`.
pub open spec fn coverage_spec(
    pts: Seq<WeightedPoint2>,
    subs: Seq<SubPath>,
    rule: FillRule,
    r: int,
    w: int,
    c: int,
) -> int {
    resolve_spec(rule, fig_row_acc(pts, subs, r, w, c))
}

/// Resolved coverage lies between zero and 255, whatever winding the
/// edges accumulated.
pub proof fn lemma_resolve_in_range(rule: FillRule, v: int)
    ensures
        0 <= resolve_spec(rule, v) <= 255,
{
    match rule {
        FillRule::NonZero => {
            let a = if abs_spec(v) > AREA_FULL as int {
                AREA_FULL as int
            } else {
                abs_spec(v)
            };
            assert(0 <= a <= 131072);
            lemma_div_is_ordered(0, a * 255 + 65536, 131072);
            lemma_div_is_ordered(a * 255 + 65536, 131072 * 256 - 1, 131072);
            assert((131072int * 256 - 1) / 131072 == 255);
            assert(0int / 131072 == 0);
        },
        FillRule::EvenOdd => {
            vstd::arithmetic::div_mod::lemma_mod_bound(abs_spec(v), 2 * AREA_FULL as int);
            let m = abs_spec(v) % (2 * AREA_FULL as int);
            let t = if m > AREA_FULL as int {
                2 * AREA_FULL as int - m
            } else {
                m
            };
            assert(0 <= t <= 131072);
            lemma_div_is_ordered(0, t * 255 + 65536, 131072);
            lemma_div_is_ordered(t * 255 + 65536, 131072 * 256 - 1, 131072);
            assert((131072int * 256 - 1) / 131072 == 255);
            assert(0int / 131072 == 0);
        },
    }
}

/// Every pixel's coverage contribution lies in the byte range.
pub proof fn lemma_coverage_in_range(
    pts: Seq<WeightedPoint2>,
    subs: Seq<SubPath>,
    rule: FillRule,
    r: int,
    w: int,
    c: int,
)
    ensures
        0 <= coverage_spec(pts, subs, rule, r, w, c) <= 255,
{
    lemma_resolve_in_range(rule, fig_row_acc(pts, subs, r, w, c));
}

/// Saturating byte addition.
pub open spec fn sat_add_255(a: int, b: int) -> int {
    if a + b > 255 {
        255
    } else {
        a + b
    }
}

/// On a cleared mask, a fill writes each pixel's resolved coverage
/// exactly.
pub proof fn lemma_sat_add_zero(v: int)
    requires
        0 <= v <= 255,
    ensures
        sat_add_255(0, v) == v,
{
}

/// Length of the transient row buffer for a mask `w` pixels wide: one
/// spill slot past the last column, rounded up to a multiple of eight
/// elements for batched accumulation.
pub open spec fn scratch_len_spec(w: int) -> int {
    (w / 8) * 8 + 8
}

pub fn scratch_len(w: u32) -> (n: usize)
    requires
        w <= 0x4000,
    ensures
        n as int == scratch_len_spec(w as int),
        w < n,
{
    proof {
        assert(w as int / 8 * 8 + 8 > w as int) by (nonlinear_arith);
        assert(w as int / 8 * 8 >= 0) by (nonlinear_arith);
        assert(w as int / 8 * 8 <= w as int) by (nonlinear_arith);
    }
    ((w as usize) / 8) * 8 + 8
}

fn clamp256(u: i64) -> (r: i64)
    ensures
        r as int == clamp_u_spec(u as int),
        0 <= r <= 256,
{
    if u < 0 {
        0
    } else if u > 256 {
        256
    } else {
        u
    }
}

fn col_exec(x: i64, w: i64) -> (c: i64)
    requires
        1 <= w <= 0x4000,
        -0x200_0000 <= x <= 0x200_0000,
    ensures
        c as int == col_of(x as int, w as int),
        -1 <= c <= w,
{
    if x < 0 {
        -1
    } else {
        let q = ((x as u64) / 256) as i64;
        proof {
            lemma_fundamental_div_mod(x as int, 256);
            if x as int >= 256 * w as int {
                lemma_div_is_ordered(256 * w as int, x as int, 256);
                lemma_div_multiples_vanish(w as int, 256);
            } else {
                if q as int >= w as int {
                    assert(256 * (q as int) >= 256 * (w as int)) by (nonlinear_arith)
                        requires q as int >= w as int;
                    assert(false);
                }
            }
        }
        if q >= w {
            w
        } else {
            q
        }
    }
}

/// Accumulate one already-clipped piece of an edge into the row buffer,
/// bisecting until the piece fits one column.
fn accumulate_piece(buf: &mut Vec<i128>, xa: i64, ya: i64, xb: i64, yb: i64, s: i64, w: i64)
    requires
        old(buf)@.len() > w,
        1 <= w <= 0x4000,
        ya < yb,
        yb - ya <= 256,
        0 <= ya,
        yb <= 0x40_0000,
        -0x100_0000 <= xa <= 0x100_0000,
        -0x100_0000 <= xb <= 0x100_0000,
        s == 1 || s == -1,
        forall|c: int|
            0 <= c < old(buf)@.len() ==> abs_spec(old(buf)@[c] as int) <= ACC_LIMIT as int - (yb
                - ya) * 1024,
    ensures
        final(buf)@.len() == old(buf)@.len(),
        forall|c: int|
            0 <= c < old(buf)@.len() ==> final(buf)@[c] as int == old(buf)@[c] as int
                + piece_delta(xa as int, ya as int, xb as int, yb as int, s as int, w as int, c),
        forall|c: int|
            0 <= c < old(buf)@.len() ==> abs_spec(
                final(buf)@[c] as int - old(buf)@[c] as int,
            ) <= (yb - ya) * 1024,
    decreases yb - ya,
{
    let ca = col_exec(xa, w);
    let cb = col_exec(xb, w);
    if ca == cb || yb - ya == 1 {
        let cc = if ca == cb {
            ca
        } else {
            col_exec(div_floor(xa + xb, 2), w)
        };
        let dy = yb - ya;
        if cc == w {
        } else if cc == -1 {
            let d0 = s * dy * 512;
            let v0 = buf[0];
            buf.set(0, v0 + d0 as i128);
            proof {
                assert(abs_spec(s as int * dy as int * 512) <= dy as int * 1024)
                    by (nonlinear_arith)
                    requires (s as int == 1 || s as int == -1) && 0 < dy as int;
            }
        } else {
            let ua = clamp256(xa - 256 * cc);
            let ub = clamp256(xb - 256 * cc);
            proof {
                assert(abs_spec(s as int * dy as int * (512 - ua as int - ub as int)) <= dy as int
                    * 1024 && abs_spec(s as int * dy as int * (ua as int + ub as int)) <= dy as int
                    * 1024 && -0x4_0000 <= s as int * dy as int * (512 - ua as int - ub as int)
                    <= 0x4_0000 && -0x4_0000 <= s as int * dy as int * (ua as int + ub as int)
                    <= 0x4_0000) by (nonlinear_arith)
                    requires
                        (s as int == 1 || s as int == -1) && 0 < dy as int <= 256 && 0 <= ua as int
                            <= 256 && 0 <= ub as int <= 256,
                ;
            }
            let d0 = s * dy * (512 - ua - ub);
            let d1 = s * dy * (ua + ub);
            let i0 = cc as usize;
            let v0 = buf[i0];
            buf.set(i0, v0 + d0 as i128);
            let i1 = (cc + 1) as usize;
            let v1 = buf[i1];
            buf.set(i1, v1 + d1 as i128);
        }
    } else {
        let ym = div_floor(ya + yb, 2);
        let xm = div_floor(xa + xb, 2);
        proof {
            lemma_div_is_ordered(2 * (ya as int + 1), ya as int + yb as int, 2);
            lemma_div_is_ordered(ya as int + yb as int, 2 * (yb as int - 1), 2);
            lemma_div_multiples_vanish(ya as int + 1, 2);
            lemma_div_multiples_vanish(yb as int - 1, 2);
            lemma_div_is_ordered(2int * -0x100_0000, xa as int + xb as int, 2);
            lemma_div_is_ordered(xa as int + xb as int, 2int * 0x100_0000, 2);
            lemma_div_multiples_vanish(-0x100_0000, 2);
            lemma_div_multiples_vanish(0x100_0000, 2);
        }
        let ghost mid0 = buf@;
        accumulate_piece(buf, xa, ya, xm, ym, s, w);
        let ghost mid1 = buf@;
        proof {
            assert forall|c: int| 0 <= c < mid1.len() implies abs_spec(mid1[c] as int)
                <= ACC_LIMIT as int - (yb as int - ym as int) * 1024 by {
                assert(abs_spec(mid1[c] as int) <= abs_spec(mid0[c] as int) + (ym - ya) as int
                    * 1024);
            }
        }
        accumulate_piece(buf, xm, ym, xb, yb, s, w);
    }
}

proof fn lemma_row_prod_bound(u: int, v: int)
    requires
        -0x100_0000 <= u <= 0x100_0000,
        0 <= v <= 0x200_0000,
    ensures
        -0x2_0000_0000_0000 <= u * v <= 0x2_0000_0000_0000,
{
    assert(-0x2_0000_0000_0000 <= u * v <= 0x2_0000_0000_0000) by (nonlinear_arith)
        requires -0x100_0000 <= u <= 0x100_0000 && 0 <= v <= 0x200_0000;
}

/// Upper and lower bound of linear interpolation between two bounded
/// abscissae.
proof fn lemma_interp_range(x0: int, y0: int, x1: int, y1: int, y: int)
    requires
        y0 < y1,
        y0 <= y <= y1,
        -0x100_0000 <= x0 <= 0x100_0000,
        -0x100_0000 <= x1 <= 0x100_0000,
    ensures
        -0x100_0000 <= interp_x(x0, y0, x1, y1, y) <= 0x100_0000,
{
    let d = y1 - y0;
    let num = x0 * (y1 - y) + x1 * (y - y0);
    assert(-0x100_0000 * d <= num <= 0x100_0000 * d) by (nonlinear_arith)
        requires
            y0 < y1,
            y0 <= y <= y1,
            -0x100_0000 <= x0 <= 0x100_0000,
            -0x100_0000 <= x1 <= 0x100_0000,
            d == y1 - y0,
            num == x0 * (y1 - y) + x1 * (y - y0),
    ;
    lemma_div_is_ordered(-0x100_0000 * d, num, d);
    lemma_div_is_ordered(num, 0x100_0000 * d, d);
    assert(-0x100_0000 * d == d * -0x100_0000 && 0x100_0000 * d == d * 0x100_0000)
        by (nonlinear_arith);
    lemma_div_multiples_vanish(-0x100_0000, d);
    lemma_div_multiples_vanish(0x100_0000, d);
}

/// Accumulate one figure edge's contribution to pixel row `r` into the
/// row buffer.
fn accumulate_edge(buf: &mut Vec<i128>, p0: WeightedPoint2, p1: WeightedPoint2, r: i64, w: i64)
    requires
        old(buf)@.len() > w,
        wpt_ok(p0),
        wpt_ok(p1),
        1 <= w <= 0x4000,
        0 <= r < 0x4000,
        forall|c: int|
            0 <= c < old(buf)@.len() ==> abs_spec(old(buf)@[c] as int) <= ACC_LIMIT as int
                - 0x4_0000,
    ensures
        final(buf)@.len() == old(buf)@.len(),
        forall|c: int|
            0 <= c < old(buf)@.len() ==> final(buf)@[c] as int == old(buf)@[c] as int
                + edge_row_delta(p0, p1, r as int, w as int, c),
        forall|c: int|
            0 <= c < old(buf)@.len() ==> abs_spec(final(buf)@[c] as int - old(buf)@[c] as int)
                <= 0x4_0000,
{
    if p0.y == p1.y {
        return ;
    }
    let s: i64 = if p0.y < p1.y {
        1
    } else {
        -1
    };
    let (x0, y0, x1, y1): (i64, i64, i64, i64) = if p0.y < p1.y {
        (p0.x as i64, p0.y as i64, p1.x as i64, p1.y as i64)
    } else {
        (p1.x as i64, p1.y as i64, p0.x as i64, p0.y as i64)
    };
    let yt: i64 = if y0 >= 256 * r {
        y0
    } else {
        256 * r
    };
    let yb: i64 = if y1 <= 256 * (r + 1) {
        y1
    } else {
        256 * (r + 1)
    };
    if yt >= yb {
        return ;
    }
    let d = (y1 - y0) as u64;
    proof {
        lemma_row_prod_bound(x0 as int, y1 as int - yt as int);
        lemma_row_prod_bound(x1 as int, yt as int - y0 as int);
        lemma_row_prod_bound(x0 as int, y1 as int - yb as int);
        lemma_row_prod_bound(x1 as int, yb as int - y0 as int);
    }
    let xt = div_floor(x0 * (y1 - yt) + x1 * (yt - y0), d);
    let xb = div_floor(x0 * (y1 - yb) + x1 * (yb - y0), d);
    proof {
        lemma_interp_range(x0 as int, y0 as int, x1 as int, y1 as int, yt as int);
        lemma_interp_range(x0 as int, y0 as int, x1 as int, y1 as int, yb as int);
    }
    accumulate_piece(buf, xt, yt, xb, yb, s, w);
}

/// Number of edges of the first `k` sub-paths.
pub open spec fn edges_before(subs: Seq<SubPath>, k: int) -> int
    decreases k,
{
    if k <= 0 {
        0
    } else {
        edges_before(subs, k - 1) + subs[k - 1].n
    }
}

/// In a well-formed figure the edges of the first `k` sub-paths are as many
/// as the points before sub-path `k`.
pub proof fn lemma_edges_before(f: &Figure, k: int)
    requires
        fig_wf(f),
        0 <= k <= f.subs@.len(),
    ensures
        k < f.subs@.len() ==> edges_before(f.subs@, k) == f.subs@[k].start,
        k == f.subs@.len() && k > 0 ==> edges_before(f.subs@, k) == f.points@.len(),
        edges_before(f.subs@, k) <= f.points@.len(),
    decreases k,
{
    if k > 0 {
        lemma_edges_before(f, k - 1);
        if k - 1 < f.subs@.len() - 1 {
            assert(f.subs@[k - 1].start + f.subs@[k - 1].n == f.subs@[k].start);
        }
        if k == f.subs@.len() {
            assert(f.subs@[k - 1].start + f.subs@[k - 1].n == f.points@.len());
        } else {
            crate::fig::lemma_sub_in_arena(f, k as int);
        }
    }
}

/// Zero the row buffer.
fn zero_scratch(buf: &mut Vec<i128>)
    ensures
        final(buf)@.len() == old(buf)@.len(),
        forall|c: int| 0 <= c < final(buf)@.len() ==> final(buf)@[c] == 0i128,
{
    let n = buf.len();
    let mut i: usize = 0;
    while i < n
        invariant
            i <= n,
            buf@.len() == n as int,
            forall|c: int| 0 <= c < i as int ==> buf@[c] == 0i128,
        decreases n - i,
    {
        buf.set(i, 0i128);
        i = i + 1;
    }
}

/// Accumulate every edge of every sub-path of `fig` for pixel row `r` into
/// a zeroed row buffer.
fn accumulate_row(fig: &Figure, buf: &mut Vec<i128>, r: i64, w: i64)
    requires
        fig_wf(fig),
        old(buf)@.len() > w,
        1 <= w <= 0x4000,
        0 <= r < 0x4000,
        forall|c: int| 0 <= c < old(buf)@.len() ==> old(buf)@[c] == 0i128,
    ensures
        final(buf)@.len() == old(buf)@.len(),
        forall|c: int|
            0 <= c < final(buf)@.len() ==> final(buf)@[c] as int == fig_row_delta(
                fig.points@,
                fig.subs@,
                r as int,
                w as int,
                c,
            ),
        forall|c: int|
            0 <= c < final(buf)@.len() ==> abs_spec(final(buf)@[c] as int) <= (
            fig.points@.len() as int) * 0x4_0000,
{
    let nsubs = fig.subs.len();
    let npts = fig.points.len();
    let mut si: usize = 0;
    while si < nsubs
        invariant
            fig_wf(fig),
            buf@.len() == old(buf)@.len(),
            buf@.len() > w,
            1 <= w <= 0x4000,
            0 <= r < 0x4000,
            si <= nsubs,
            nsubs == fig.subs@.len(),
            npts == fig.points@.len(),
            forall|c: int|
                0 <= c < buf@.len() ==> buf@[c] as int == subs_row_delta(
                    fig.points@,
                    fig.subs@,
                    si as int,
                    r as int,
                    w as int,
                    c,
                ),
            forall|c: int|
                0 <= c < buf@.len() ==> abs_spec(buf@[c] as int) <= edges_before(
                    fig.subs@,
                    si as int,
                ) * 0x4_0000,
            edges_before(fig.subs@, si as int) <= npts as int,
        decreases nsubs - si,
    {
        let s = fig.subs[si];
        proof {
            crate::fig::lemma_sub_in_arena(fig, si as int);
            lemma_edges_before(fig, si as int);
            lemma_edges_before(fig, si as int + 1);
        }
        let mut k: usize = 0;
        while k < s.n
            invariant
                fig_wf(fig),
                buf@.len() == old(buf)@.len(),
                buf@.len() > w,
                1 <= w <= 0x4000,
                0 <= r < 0x4000,
                si < nsubs,
                nsubs == fig.subs@.len(),
                npts == fig.points@.len(),
                s == fig.subs@[si as int],
                s.start + s.n <= npts,
                edges_before(fig.subs@, si as int) <= s.start,
                k <= s.n,
                forall|c: int|
                    0 <= c < buf@.len() ==> buf@[c] as int == subs_row_delta(
                        fig.points@,
                        fig.subs@,
                        si as int,
                        r as int,
                        w as int,
                        c,
                    ) + sub_edges_delta(fig.points@, s, k as int, r as int, w as int, c),
                forall|c: int|
                    0 <= c < buf@.len() ==> abs_spec(buf@[c] as int) <= (edges_before(
                        fig.subs@,
                        si as int,
                    ) + k as int) * 0x4_0000,
                edges_before(fig.subs@, si as int) + k as int <= npts as int,
            decreases s.n - k,
        {
            let v0 = s.start + k;
            let v1 = if k + 1 == s.n {
                s.start
            } else {
                s.start + k + 1
            };
            proof {
                if k + 1 < s.n {
                    lemma_small_mod((k + 1) as nat, s.n as nat);
                } else {
                    assert(s.n as int % s.n as int == 0) by (nonlinear_arith)
                        requires s.n as int > 0;
                }
                assert(npts as int * 0x4_0000 <= 0xffff_ffff_ffff_ffff * 0x4_0000);
                assert forall|c: int| 0 <= c < buf@.len() implies abs_spec(buf@[c] as int)
                    <= ACC_LIMIT as int - 0x4_0000 by {
                    lemma_mul_le(
                        edges_before(fig.subs@, si as int) + k as int,
                        npts as int,
                        0x4_0000,
                    );
                }
            }
            let p0 = fig.points[v0];
            let p1 = fig.points[v1];
            let ghost pre = buf@;
            accumulate_edge(buf, p0, p1, r, w);
            proof {
                assert forall|c: int| 0 <= c < buf@.len() implies buf@[c] as int == subs_row_delta(
                    fig.points@,
                    fig.subs@,
                    si as int,
                    r as int,
                    w as int,
                    c,
                ) + sub_edges_delta(
                    fig.points@,
                    s,
                    k as int + 1,
                    r as int,
                    w as int,
                    c,
                ) by {
                    assert(buf@[c] as int == pre[c] as int + edge_row_delta(
                        p0,
                        p1,
                        r as int,
                        w as int,
                        c,
                    ));
                }
                assert forall|c: int| 0 <= c < buf@.len() implies abs_spec(buf@[c] as int) <= (
                edges_before(fig.subs@, si as int) + k as int + 1) * 0x4_0000 by {
                    assert(buf@[c] as int - pre[c] as int <= 0x4_0000 && pre[c] as int
                        - buf@[c] as int <= 0x4_0000);
                }
            }
            k = k + 1;
        }
        si = si + 1;
    }
    proof {
        lemma_edges_before(fig, nsubs as int);
        assert forall|c: int| 0 <= c < buf@.len() implies abs_spec(buf@[c] as int) <= (
        npts as int) * 0x4_0000 by {
            lemma_mul_le(edges_before(fig.subs@, nsubs as int), npts as int, 0x4_0000);
        }
    }
}

/// Multiplying a smaller nonnegative left factor by a positive constant
/// keeps the order.
proof fn lemma_mul_le(a: int, b: int, k: int)
    requires
        a <= b,
        k >= 0,
    ensures
        a * k <= b * k,
{
    assert(a * k <= b * k) by (nonlinear_arith)
        requires a <= b && k >= 0;
}

/// Resolve an accumulated signed area to a coverage byte.
fn resolve_cov(v: i128, rule: FillRule) -> (cov: u8)
    requires
        -0x4000_0000_0000_0000_0000_0000_0000 <= v <= 0x4000_0000_0000_0000_0000_0000_0000,
    ensures
        cov as int == resolve_spec(rule, v as int),
{
    let a: i128 = if v < 0 {
        -v
    } else {
        v
    };
    match rule {
        FillRule::NonZero => {
            let m: u64 = if a > AREA_FULL as i128 {
                AREA_FULL as u64
            } else {
                a as u64
            };
            let cov64 = (m * 255 + 65536) / 131072;
            proof {
                lemma_div_is_ordered(m as int * 255 + 65536, 131072 * 256 - 1, 131072);
                assert((131072 * 256 - 1) / 131072 == 255);
            }
            cov64 as u8
        },
        FillRule::EvenOdd => {
            let am: u128 = (a as u128) % 262144;
            let m2: u64 = am as u64;
            let t: u64 = if m2 > 131072 {
                262144 - m2
            } else {
                m2
            };
            let cov64 = (t * 255 + 65536) / 131072;
            proof {
                lemma_div_is_ordered(t as int * 255 + 65536, 131072 * 256 - 1, 131072);
                assert((131072 * 256 - 1) / 131072 == 255);
            }
            cov64 as u8
        },
    }
}

/// Saturating addition of a new coverage byte onto the existing one.
fn sat_add_cov(a: u8, b: u8) -> (r: u8)
    ensures
        r as int == sat_add_255(a as int, b as int),
{
    let s: u32 = a as u32 + b as u32;
    if s > 255 {
        255
    } else {
        s as u8
    }
}

impl Figure {
    /// Scan-convert this figure onto `mask` under the given fill rule.
    ///
    /// Every sub-path, the one still in progress included, is treated as a
    /// closed polygon.  Each pixel gains, by saturating addition, the
    /// coverage byte that the rule resolves from the pixel's accumulated
    /// signed area; `sgn_area` is the transient row buffer and carries no
    /// information in or out.
    pub fn fill(&self, mask: &mut Mask, sgn_area: &mut Vec<i128>, rule: FillRule)
        requires
            fig_wf(self),
            old(mask).wf(),
            old(sgn_area)@.len() == scratch_len_spec(old(mask).width as int),
        ensures
            final(mask).wf(),
            final(mask).width == old(mask).width,
            final(mask).height == old(mask).height,
            final(sgn_area)@.len() == old(sgn_area)@.len(),
            forall|r: int, c: int|
                0 <= r < old(mask).height as int && 0 <= c < old(mask).width as int
                    ==> final(mask).pixels@[r * old(mask).width as int + c] as int == sat_add_255(
                    old(mask).pixels@[r * old(mask).width as int + c] as int,
                    coverage_spec(
                        self.points@,
                        self.subs@,
                        rule,
                        r,
                        old(mask).width as int,
                        c,
                    ),
                ),
    {
        let w = mask.width as usize;
        let h = mask.height as usize;
        let npts = self.points.len();
        proof {
            assert(scratch_len_spec(w as int) > w as int && scratch_len_spec(w as int) <= w as int
                + 8) by (nonlinear_arith)
                requires 1 <= w as int;
        }
        let mut r: usize = 0;
        while r < h
            invariant
                fig_wf(self),
                w == old(mask).width as usize,
                h == old(mask).height as usize,
                1 <= w <= 0x4000,
                1 <= h <= 0x4000,
                npts == self.points@.len(),
                mask.width == old(mask).width,
                mask.height == old(mask).height,
                mask.pixels@.len() == old(mask).pixels@.len(),
                mask.pixels@.len() == w as int * h as int,
                sgn_area@.len() == old(sgn_area)@.len(),
                sgn_area@.len() > w as int,
                r <= h,
                forall|rr: int, cc: int|
                    0 <= rr < r as int && 0 <= cc < w as int ==> mask.pixels@[rr * w as int
                        + cc] as int == sat_add_255(
                        old(mask).pixels@[rr * w as int + cc] as int,
                        coverage_spec(self.points@, self.subs@, rule, rr, w as int, cc),
                    ),
                forall|i: int|
                    r as int * w as int <= i < mask.pixels@.len() ==> mask.pixels@[i] == old(
                        mask,
                    ).pixels@[i],
            decreases h - r,
        {
            zero_scratch(sgn_area);
            accumulate_row(self, sgn_area, r as i64, w as i64);
            let mut acc: i128 = 0;
            let mut c: usize = 0;
            proof {
                assert(r as int * w as int + w as int == (r as int + 1) * w as int)
                    by (nonlinear_arith);
                assert((r as int + 1) * w as int <= h as int * w as int) by (nonlinear_arith)
                    requires r as int + 1 <= h as int && w as int >= 0;
                assert(h as int * w as int == w as int * h as int) by (nonlinear_arith);
            }
            while c < w
                invariant
                    fig_wf(self),
                    w == old(mask).width as usize,
                    h == old(mask).height as usize,
                    1 <= w <= 0x4000,
                    1 <= h <= 0x4000,
                    npts == self.points@.len(),
                    mask.width == old(mask).width,
                    mask.height == old(mask).height,
                    mask.pixels@.len() == old(mask).pixels@.len(),
                    mask.pixels@.len() == w as int * h as int,
                    sgn_area@.len() == old(sgn_area)@.len(),
                    sgn_area@.len() > w as int,
                    r < h,
                    c <= w,
                    r as int * w as int + w as int <= mask.pixels@.len(),
                    forall|cx: int|
                        0 <= cx < sgn_area@.len() ==> sgn_area@[cx] as int == fig_row_delta(
                            self.points@,
                            self.subs@,
                            r as int,
                            w as int,
                            cx,
                        ),
                    forall|cx: int|
                        0 <= cx < sgn_area@.len() ==> abs_spec(sgn_area@[cx] as int) <= (
                        npts as int) * 0x4_0000,
                    acc as int == fig_row_acc(
                        self.points@,
                        self.subs@,
                        r as int,
                        w as int,
                        c as int - 1,
                    ),
                    abs_spec(acc as int) <= c as int * 0x8_0000_0000_0000_0000_0000,
                    forall|rr: int, cc: int|
                        0 <= rr < r as int && 0 <= cc < w as int ==> mask.pixels@[rr * w as int
                            + cc] as int == sat_add_255(
                            old(mask).pixels@[rr * w as int + cc] as int,
                            coverage_spec(self.points@, self.subs@, rule, rr, w as int, cc),
                        ),
                    forall|cc: int|
                        0 <= cc < c as int ==> mask.pixels@[r as int * w as int + cc] as int
                            == sat_add_255(
                            old(mask).pixels@[r as int * w as int + cc] as int,
                            coverage_spec(self.points@, self.subs@, rule, r as int, w as int, cc),
                        ),
                    forall|i: int|
                        r as int * w as int + c as int <= i < mask.pixels@.len() ==> mask.pixels@[i]
                            == old(mask).pixels@[i],
                decreases w - c,
            {
                let e = sgn_area[c];
                proof {
                    lemma_mul_le(npts as int, 0xffff_ffff_ffff_ffff, 0x4_0000);
                    assert(c as int * 0x8_0000_0000_0000_0000_0000 <= 0x4000
                        * 0x8_0000_0000_0000_0000_0000) by (nonlinear_arith)
                        requires c as int <= 0x4000;
                    assert((c as int + 1) * 0x8_0000_0000_0000_0000_0000 == c as int
                        * 0x8_0000_0000_0000_0000_0000 + 0x8_0000_0000_0000_0000_0000)
                        by (nonlinear_arith);
                }
                acc = acc + e;
                let cov = resolve_cov(acc, rule);
                proof {
                    assert((r as int * w as int + c as int) < mask.pixels@.len());
                    assert(r as int * w as int <= 0x4000 * 0x4000) by (nonlinear_arith)
                        requires 0 <= r as int <= 0x4000 && 0 <= w as int <= 0x4000;
                }
                let idx = r * w + c;
                let prev = mask.pixels[idx];
                let newv = sat_add_cov(prev, cov);
                mask.pixels.set(idx, newv);
                proof {
                    assert forall|rr: int, cc: int|
                        0 <= rr < r as int && 0 <= cc < w as int implies mask.pixels@[rr
                        * w as int + cc] as int == sat_add_255(
                        old(mask).pixels@[rr * w as int + cc] as int,
                        coverage_spec(self.points@, self.subs@, rule, rr, w as int, cc),
                    ) by {
                        assert(rr * w as int + cc < r as int * w as int + cc + w as int)
                            by (nonlinear_arith)
                            requires rr < r as int && w as int >= 1;
                        assert((rr + 1) * w as int <= r as int * w as int) by (nonlinear_arith)
                            requires rr + 1 <= r as int && w as int >= 0;
                        assert((rr + 1) * w as int == rr * w as int + w as int)
                            by (nonlinear_arith);
                        assert(rr * w as int + cc != idx as int);
                    }
                }
                c = c + 1;
            }
            r = r + 1;
        }
        proof {
            assert forall|rr: int, cc: int|
                0 <= rr < old(mask).height as int && 0 <= cc < old(mask).width as int implies mask
                .pixels@[rr * old(mask).width as int + cc] as int == sat_add_255(
                old(mask).pixels@[rr * old(mask).width as int + cc] as int,
                coverage_spec(
                    self.points@,
                    self.subs@,
                    rule,
                    rr,
                    old(mask).width as int,
                    cc,
                ),
            ) by {}
        }
    }
}

} // verus!
